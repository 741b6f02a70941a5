//! GNOME custom keyboard shortcut management.
//!
//! GNOME 46 lets neither the X11 grab nor the `GlobalShortcuts` portal work
//! for a plain Wayland client, so the panel is raised by a user shortcut that
//! runs `<exe> --toggle`. The shortcut lives in the media-keys schema that the
//! Settings UI edits. This module decides what to write there: it reads and
//! renders the GVariant list of shortcut paths and plans the `gsettings`
//! invocations; running them is left to the caller.

use vstd::prelude::*;
use crate::text::{push_char, chars_of, skip_end, skip_end_at, skip_start, skip_start_at, string_of, strip_prefix_rep, strip_prefix_rep_at, trim, trim_at, trim_char, trim_char_at, Strip};

verus! {

pub const MEDIA_KEYS_SCHEMA: &'static str = "org.gnome.settings-daemon.plugins.media-keys";

pub const CUSTOM_SCHEMA_PREFIX: &'static str =
    "org.gnome.settings-daemon.plugins.media-keys.custom-keybinding";

pub const BINDING_BASE: &'static str = "/org/gnome/settings-daemon/plugins/media-keys/custom-keybindings";

pub const SLOT: &'static str = "xinlan-clip";

pub const SHORTCUT_NAME: &'static str = "xinlan-clip 剪贴板历史";

/// Splits `s` at every `sep`; always at least one (possibly empty) piece.
pub open spec fn split_on(s: Seq<char>, sep: char) -> Seq<Seq<char>>
    decreases s.len(),
{
    if s.len() == 0 {
        seq![Seq::empty()]
    } else {
        let r = split_on(s.drop_last(), sep);
        if s.last() == sep {
            r.push(Seq::empty())
        } else {
            r.update(r.len() - 1, r.last().push(s.last()))
        }
    }
}

pub proof fn lemma_split_on_nonempty(s: Seq<char>, sep: char)
    ensures
        split_on(s, sep).len() >= 1,
    decreases s.len(),
{
    if s.len() > 0 {
        lemma_split_on_nonempty(s.drop_last(), sep);
    }
}

/// The list body of a `gsettings get` answer: surrounding whitespace, the
/// `@as` type annotation and the brackets removed.
pub open spec fn list_body(raw: Seq<char>) -> Seq<char> {
    skip_end(
        skip_start(trim(strip_prefix_rep(trim(raw), seq!['@', 'a', 's'])), Strip::Char('[')),
        Strip::Char(']'),
    )
}

/// One list item with whitespace and the quotes around it removed.
pub open spec fn clean_item(item: Seq<char>) -> Seq<char> {
    trim_char(trim_char(trim(item), '\''), '"')
}

/// The cleaned items, empty ones dropped.
pub open spec fn clean_items(items: Seq<Seq<char>>) -> Seq<Seq<char>>
    decreases items.len(),
{
    if items.len() == 0 {
        Seq::empty()
    } else {
        let rest = clean_items(items.drop_last());
        let c = clean_item(items.last());
        if c.len() > 0 {
            rest.push(c)
        } else {
            rest
        }
    }
}

/// The shortcut paths that a `gsettings get ... custom-keybindings` answer
/// lists.
pub open spec fn parsed_bindings(raw: Seq<char>) -> Seq<Seq<char>> {
    clean_items(split_on(list_body(raw), ','))
}

pub open spec fn string_views(v: Seq<String>) -> Seq<Seq<char>> {
    Seq::new(v.len(), |i: int| v[i]@)
}

fn clean_piece(v: &Vec<char>, lo: usize, hi: usize) -> (r: String)
    requires
        lo <= hi <= v.len(),
    ensures
        r@ == clean_item(v@.subrange(lo as int, hi as int)),
{
    let (a, b) = trim_at(v, lo, hi);
    let (a, b) = trim_char_at(v, a, b, '\'');
    let (a, b) = trim_char_at(v, a, b, '"');
    let mut out: Vec<char> = Vec::new();
    let mut k = a;
    while k < b
        invariant
            a <= k <= b <= v.len(),
            out@ == v@.subrange(a as int, k as int),
        decreases b - k,
    {
        out.push(v[k]);
        assert(v@.subrange(a as int, k + 1) =~= v@.subrange(a as int, k as int).push(v@[k as int]));
        k = k + 1;
    }
    string_of(&out)
}

/// Parse the GVariant array-of-strings form, e.g. `['/a/', '/b/']`; an unset
/// or empty key prints as `@as []`.
pub fn parse_binding_list(raw: &str) -> (r: Vec<String>)
    ensures
        string_views(r@) == parsed_bindings(raw@),
{
    let v = chars_of(raw);
    let n = v.len();
    let (a, b) = trim_at(&v, 0, n);
    let annotation: Vec<char> = vec!['@', 'a', 's'];
    assert(annotation@ =~= seq!['@', 'a', 's']);
    let a = strip_prefix_rep_at(&v, a, b, &annotation);
    let (a, b) = trim_at(&v, a, b);
    let a = skip_start_at(&v, a, b, Strip::Char('['));
    let b = skip_end_at(&v, a, b, Strip::Char(']'));
    assert(v@.subrange(0, n as int) =~= raw@);
    let ghost body = v@.subrange(a as int, b as int);
    assert(body == list_body(raw@));
    let mut out: Vec<String> = Vec::new();
    let mut start = a;
    let mut i = a;
    proof {
        assert(v@.subrange(a as int, a as int) =~= Seq::<char>::empty());
    }
    while i < b
        invariant
            a <= start <= i <= b <= v.len(),
            split_on(v@.subrange(a as int, i as int), ',').len() >= 1,
            string_views(out@) == clean_items(
                split_on(v@.subrange(a as int, i as int), ',').drop_last(),
            ),
            split_on(v@.subrange(a as int, i as int), ',').last() == v@.subrange(
                start as int,
                i as int,
            ),
        decreases b - i,
    {
        let ghost prev = split_on(v@.subrange(a as int, i as int), ',');
        let ghost s1 = v@.subrange(a as int, i + 1);
        assert(s1.drop_last() =~= v@.subrange(a as int, i as int));
        assert(s1.last() == v@[i as int]);
        if v[i] == ',' {
            let item = clean_piece(&v, start, i);
            let ghost pre = out@;
            proof {
                lemma_clean_items_step(prev);
            }
            if !item.as_str().is_empty() {
                out.push(item);
                assert(string_views(out@) =~= string_views(pre).push(item@));
            }
            proof {
                let next = split_on(s1, ',');
                assert(next == prev.push(Seq::empty()));
                assert(next.drop_last() =~= prev);
                assert(next.last() =~= v@.subrange(i + 1, i + 1));
            }
            start = i + 1;
        } else {
            proof {
                let next = split_on(s1, ',');
                assert(next.drop_last() =~= prev.drop_last());
                assert(v@.subrange(start as int, i + 1) =~= v@.subrange(start as int, i as int).push(
                    v@[i as int],
                ));
            }
        }
        i = i + 1;
    }
    let last = clean_piece(&v, start, b);
    let ghost pre = out@;
    proof {
        lemma_clean_items_step(split_on(body, ','));
    }
    if !last.as_str().is_empty() {
        out.push(last);
        assert(string_views(out@) =~= string_views(pre).push(last@));
    }
    out
}

proof fn lemma_clean_items_step(items: Seq<Seq<char>>)
    requires
        items.len() >= 1,
    ensures
        clean_items(items) == (if clean_item(items.last()).len() > 0 {
            clean_items(items.drop_last()).push(clean_item(items.last()))
        } else {
            clean_items(items.drop_last())
        }),
{
}

pub open spec fn quoted(p: Seq<char>) -> Seq<char> {
    seq!['\''] + p + seq!['\'']
}

/// The quoted paths separated by `", "`.
pub open spec fn join_quoted(ps: Seq<Seq<char>>) -> Seq<char>
    decreases ps.len(),
{
    if ps.len() == 0 {
        Seq::empty()
    } else if ps.len() == 1 {
        quoted(ps[0])
    } else {
        join_quoted(ps.drop_last()) + seq![',', ' '] + quoted(ps.last())
    }
}

/// The GVariant text of a list of paths: `@as []` when empty, else
/// `['/a/', '/b/']`.
pub open spec fn rendered_bindings(ps: Seq<Seq<char>>) -> Seq<char> {
    if ps.len() == 0 {
        seq!['@', 'a', 's', ' ', '[', ']']
    } else {
        seq!['['] + join_quoted(ps) + seq![']']
    }
}

fn push_all(out: &mut Vec<char>, s: &str)
    ensures
        final(out)@ == old(out)@ + s@,
{
    let cs = chars_of(s);
    let mut i: usize = 0;
    while i < cs.len()
        invariant
            i <= cs.len(),
            cs@ == s@,
            out@ == old(out)@ + cs@.take(i as int),
        decreases cs.len() - i,
    {
        out.push(cs[i]);
        assert(cs@.take(i + 1) =~= cs@.take(i as int).push(cs@[i as int]));
        i = i + 1;
    }
    assert(cs@.take(cs.len() as int) =~= cs@);
}

/// Render a list of paths back into the GVariant form `gsettings` expects.
pub fn render_binding_list(paths: &[String]) -> (r: String)
    ensures
        r@ == rendered_bindings(string_views(paths@)),
{
    let ghost ps = string_views(paths@);
    if paths.len() == 0 {
        let empty: Vec<char> = vec!['@', 'a', 's', ' ', '[', ']'];
        assert(empty@ =~= rendered_bindings(ps));
        return string_of(&empty);
    }
    let mut out: Vec<char> = Vec::new();
    out.push('[');
    let mut i: usize = 0;
    while i < paths.len()
        invariant
            i <= paths.len(),
            ps == string_views(paths@),
            paths.len() > 0,
            out@ == seq!['['] + join_quoted(ps.take(i as int)),
        decreases paths.len() - i,
    {
        let ghost before = out@;
        if i > 0 {
            out.push(',');
            out.push(' ');
        }
        out.push('\'');
        push_all(&mut out, paths[i].as_str());
        out.push('\'');
        proof {
            let t = ps.take(i + 1);
            assert(t.drop_last() =~= ps.take(i as int));
            assert(t.last() == paths@[i as int]@);
            if i == 0 {
                assert(ps.take(0) =~= Seq::<Seq<char>>::empty());
                assert(out@ =~= seq!['['] + join_quoted(t));
            } else {
                assert(out@ =~= seq!['['] + join_quoted(t));
            }
        }
        i = i + 1;
    }
    out.push(']');
    assert(ps.take(paths.len() as int) =~= ps);
    assert(out@ =~= rendered_bindings(ps));
    string_of(&out)
}

/// A path that survives rendering and parsing unchanged: non-empty, without a
/// comma, and neither starting nor ending with a quote character.
pub open spec fn plain_item(p: Seq<char>) -> bool {
    &&& p.len() > 0
    &&& forall|i: int| 0 <= i < p.len() ==> p[i] != ','
    &&& p[0] != '\'' && p[0] != '"'
    &&& p.last() != '\'' && p.last() != '"'
}

pub proof fn lemma_split_on_append_plain(s: Seq<char>, t: Seq<char>, sep: char)
    requires
        forall|i: int| 0 <= i < t.len() ==> t[i] != sep,
    ensures
        split_on(s + t, sep) == split_on(s, sep).update(
            split_on(s, sep).len() - 1,
            split_on(s, sep).last() + t,
        ),
    decreases t.len(),
{
    lemma_split_on_nonempty(s, sep);
    if t.len() == 0 {
        assert(s + t =~= s);
        assert(split_on(s, sep).last() + t =~= split_on(s, sep).last());
        assert(split_on(s, sep).update(split_on(s, sep).len() - 1, split_on(s, sep).last())
            =~= split_on(s, sep));
    } else {
        let t0 = t.drop_last();
        lemma_split_on_append_plain(s, t0, sep);
        lemma_split_on_nonempty(s + t0, sep);
        assert((s + t).drop_last() =~= s + t0);
        assert((s + t).last() == t.last());
        assert(t[t.len() - 1] != sep);
        let r = split_on(s + t0, sep);
        assert(split_on(s + t, sep) == r.update(r.len() - 1, r.last().push(t.last())));
        assert(r.last() == split_on(s, sep).last() + t0);
        assert((split_on(s, sep).last() + t0).push(t.last()) =~= split_on(s, sep).last() + t);
        assert(r.len() == split_on(s, sep).len());
        assert(split_on(s, sep).last() + t0 + seq![t.last()] =~= split_on(s, sep).last() + t);
        assert(split_on(s + t, sep) =~= split_on(s, sep).update(
            split_on(s, sep).len() - 1,
            split_on(s, sep).last() + t,
        ));
    }
}

proof fn lemma_clean_quoted(p: Seq<char>, spaced: bool)
    requires
        plain_item(p),
    ensures
        clean_item(if spaced { seq![' '] + quoted(p) } else { quoted(p) }) == p,
{
    let q = quoted(p);
    let x = if spaced { seq![' '] + q } else { q };
    if spaced {
        assert(x.drop_first() =~= q);
    }
    assert(skip_start(q, Strip::Whitespace) == q);
    assert(skip_start(x, Strip::Whitespace) == q);
    assert(skip_end(q, Strip::Whitespace) == q);
    assert(trim(x) == q);
    let p1 = p + seq!['\''];
    assert(q.drop_first() =~= p1);
    assert(p1[0] == p[0]);
    assert(skip_start(p1, Strip::Char('\'')) == p1);
    assert(skip_start(q, Strip::Char('\'')) == p1);
    assert(p1.drop_last() =~= p);
    assert(skip_end(p, Strip::Char('\'')) == p);
    assert(skip_end(p1, Strip::Char('\'')) == p);
    assert(trim_char(q, '\'') == p);
    assert(skip_start(p, Strip::Char('"')) == p);
    assert(skip_end(p, Strip::Char('"')) == p);
}

proof fn lemma_split_join(ps: Seq<Seq<char>>)
    requires
        ps.len() >= 1,
        forall|i: int| 0 <= i < ps.len() ==> plain_item(#[trigger] ps[i]),
    ensures
        clean_items(split_on(join_quoted(ps), ',')) == ps,
        join_quoted(ps).len() >= 2,
        join_quoted(ps)[0] == '\'',
        join_quoted(ps).last() == '\'',
    decreases ps.len(),
{
    let e = Seq::<char>::empty();
    if ps.len() == 1 {
        let q = quoted(ps[0]);
        assert(plain_item(ps[0]));
        assert forall|i: int| 0 <= i < q.len() implies q[i] != ',' by {
            if 0 < i < q.len() - 1 {
                assert(q[i] == ps[0][i - 1]);
            }
        }
        lemma_split_on_append_plain(e, q, ',');
        assert(e + q =~= q);
        assert(split_on(e, ',') =~= seq![e]);
        assert(split_on(q, ',') =~= seq![q]);
        lemma_clean_quoted(ps[0], false);
        assert(seq![q].drop_last() =~= Seq::<Seq<char>>::empty());
        lemma_clean_items_step(seq![q]);
        assert(seq![q].last() == q);
        assert(clean_items(Seq::<Seq<char>>::empty()) == Seq::<Seq<char>>::empty());
        assert(clean_items(seq![q]) =~= seq![ps[0]]);
        assert(seq![ps[0]] =~= ps);
    } else {
        let ps0 = ps.drop_last();
        let p = ps.last();
        assert(plain_item(ps[ps.len() - 1]));
        assert forall|i: int| 0 <= i < ps0.len() implies plain_item(#[trigger] ps0[i]) by {
            assert(ps0[i] == ps[i]);
        }
        lemma_split_join(ps0);
        let a = join_quoted(ps0);
        let x = seq![' '] + quoted(p);
        assert(join_quoted(ps) =~= a.push(',') + x);
        assert(a.push(',').drop_last() =~= a);
        lemma_split_on_nonempty(a, ',');
        assert(split_on(a.push(','), ',') == split_on(a, ',').push(e));
        assert forall|i: int| 0 <= i < x.len() implies x[i] != ',' by {
            if 1 < i < x.len() - 1 {
                assert(x[i] == p[i - 2]);
            }
        }
        lemma_split_on_append_plain(a.push(','), x, ',');
        let sa = split_on(a, ',');
        assert(e + x =~= x);
        assert(split_on(join_quoted(ps), ',') =~= sa.push(x));
        lemma_clean_quoted(p, true);
        assert(sa.push(x).drop_last() =~= sa);
        assert(clean_items(sa.push(x)) == ps0.push(p));
        assert(ps0.push(p) =~= ps);
    }
}

/// Rendering a list of plain paths and parsing the result gives the same
/// list back.
pub proof fn lemma_render_parse_round_trip(ps: Seq<Seq<char>>)
    requires
        forall|i: int| 0 <= i < ps.len() ==> plain_item(#[trigger] ps[i]),
    ensures
        parsed_bindings(rendered_bindings(ps)) == ps,
{
    let raw = rendered_bindings(ps);
    let at = seq!['@', 'a', 's'];
    let e = Seq::<char>::empty();
    if ps.len() == 0 {
        assert(skip_start(raw, Strip::Whitespace) == raw);
        assert(skip_end(raw, Strip::Whitespace) == raw);
        assert(raw.take(3) =~= at);
        let r1 = raw.skip(3);
        assert(r1 =~= seq![' ', '[', ']']);
        assert(r1.take(3) != at) by {
            assert(r1.take(3)[0] != at[0]);
        }
        assert(strip_prefix_rep(r1, at) == r1);
        assert(strip_prefix_rep(raw, at) == r1);
        let r2 = seq!['[', ']'];
        assert(r1.drop_first() =~= r2);
        assert(skip_start(r2, Strip::Whitespace) == r2);
        assert(skip_start(r1, Strip::Whitespace) == r2);
        assert(skip_end(r2, Strip::Whitespace) == r2);
        let r3 = seq![']'];
        assert(r2.drop_first() =~= r3);
        assert(skip_start(r3, Strip::Char('[')) == r3);
        assert(skip_start(r2, Strip::Char('[')) == r3);
        assert(r3.drop_last() =~= e);
        assert(skip_end(e, Strip::Char(']')) == e);
        assert(skip_end(r3, Strip::Char(']')) == e);
        assert(list_body(raw) == e);
        assert(split_on(e, ',') =~= seq![e]);
        assert(skip_start(e, Strip::Whitespace) == e);
        assert(clean_item(e) =~= e);
        assert(seq![e].drop_last() =~= Seq::<Seq<char>>::empty());
        lemma_clean_items_step(seq![e]);
        assert(seq![e].last() == e);
        assert(clean_items(seq![e]) =~= Seq::<Seq<char>>::empty());
        assert(ps =~= Seq::<Seq<char>>::empty());
    } else {
        lemma_split_join(ps);
        lemma_list_body_rendered(ps);
    }
}

proof fn lemma_join_quoted_ends(ps: Seq<Seq<char>>)
    requires
        ps.len() >= 1,
    ensures
        join_quoted(ps).len() >= 2,
        join_quoted(ps)[0] == '\'',
        join_quoted(ps).last() == '\'',
    decreases ps.len(),
{
    if ps.len() > 1 {
        lemma_join_quoted_ends(ps.drop_last());
        let a = join_quoted(ps.drop_last());
        assert(join_quoted(ps) == a + seq![',', ' '] + quoted(ps.last()));
        assert((a + seq![',', ' '] + quoted(ps.last()))[0] == a[0]);
    }
}

/// The list body of a rendered non-empty list is its quoted paths.
proof fn lemma_list_body_rendered(ps: Seq<Seq<char>>)
    requires
        ps.len() >= 1,
    ensures
        list_body(rendered_bindings(ps)) == join_quoted(ps),
{
    lemma_join_quoted_ends(ps);
    let raw = rendered_bindings(ps);
    let at = seq!['@', 'a', 's'];
    let j = join_quoted(ps);
    assert(skip_start(raw, Strip::Whitespace) == raw);
    assert(skip_end(raw, Strip::Whitespace) == raw);
    assert(trim(raw) == raw);
    assert(raw.len() >= 3);
    assert(raw.take(3) != at) by {
        assert(raw.take(3)[0] != at[0]);
    }
    assert(strip_prefix_rep(raw, at) == raw);
    let r1 = j + seq![']'];
    assert(raw.drop_first() =~= r1);
    assert(r1[0] == j[0]);
    assert(skip_start(r1, Strip::Char('[')) == r1);
    assert(skip_start(raw, Strip::Char('[')) == r1);
    assert(r1.drop_last() =~= j);
    assert(skip_end(j, Strip::Char(']')) == j);
    assert(skip_end(r1, Strip::Char(']')) == j);
}

pub open spec fn slot_path_spec() -> Seq<char> {
    BINDING_BASE@ + seq!['/'] + SLOT@ + seq!['/']
}

pub open spec fn slot_schema_spec() -> Seq<char> {
    CUSTOM_SCHEMA_PREFIX@ + seq![':'] + slot_path_spec()
}

/// The dconf path of this application's shortcut slot.
pub fn slot_path() -> (r: String)
    ensures
        r@ == slot_path_spec(),
{
    let mut s = BINDING_BASE.to_owned();
    push_char(&mut s, '/');
    s.append(SLOT);
    push_char(&mut s, '/');
    s
}

/// The relocatable schema addressing the shortcut slot.
pub fn slot_schema() -> (r: String)
    ensures
        r@ == slot_schema_spec(),
{
    let mut s = CUSTOM_SCHEMA_PREFIX.to_owned();
    push_char(&mut s, ':');
    let path = slot_path();
    s.append(path.as_str());
    s
}

/// The slot path is itself a plain list item.
pub proof fn lemma_slot_path_plain()
    ensures
        plain_item(slot_path_spec()),
{
    reveal_strlit("/org/gnome/settings-daemon/plugins/media-keys/custom-keybindings");
    reveal_strlit("xinlan-clip");
    let p = slot_path_spec();
    let base = BINDING_BASE@;
    let slot = SLOT@;
    assert(base.len() == 64);
    assert(slot.len() == 11);
    assert forall|i: int| 0 <= i < p.len() implies p[i] != ',' by {
        if i < base.len() {
            assert(p[i] == base[i]);
        } else if i == base.len() {
        } else if i < base.len() + 1 + slot.len() {
            assert(p[i] == slot[i - base.len() - 1]);
        }
    }
    assert(p[0] == base[0]);
}

pub open spec fn call_views(calls: Seq<Vec<String>>) -> Seq<Seq<Seq<char>>> {
    Seq::new(calls.len(), |i: int| string_views(calls[i]@))
}

/// The `gsettings` invocations that register the shortcut, in order, and the
/// accelerator that ends up bound. Each call is the argument list of one
/// `gsettings` run; the caller stops at the first one that fails.
pub struct InstallPlan {
    pub calls: Vec<Vec<String>>,
    pub binding: String,
}

/// The `gsettings` invocations that remove the shortcut: `update` rewrites
/// the list of shortcut paths when the slot was in it, and must succeed;
/// `resets` clear the slot's keys, and their failures are ignored.
pub struct UninstallPlan {
    pub update: Option<Vec<String>>,
    pub resets: Vec<Vec<String>>,
}

/// The shortcut list after installing: the slot appended when absent.
pub open spec fn bindings_after_install(bs: Seq<Seq<char>>) -> Seq<Seq<char>> {
    if bs.contains(slot_path_spec()) {
        bs
    } else {
        bs.push(slot_path_spec())
    }
}

/// `bs` without any copy of `x`, the order of the rest kept.
pub open spec fn without(bs: Seq<Seq<char>>, x: Seq<char>) -> Seq<Seq<char>>
    decreases bs.len(),
{
    if bs.len() == 0 {
        bs
    } else {
        let rest = without(bs.drop_last(), x);
        if bs.last() == x {
            rest
        } else {
            rest.push(bs.last())
        }
    }
}

pub open spec fn set_list_call(bs: Seq<Seq<char>>) -> Seq<Seq<char>> {
    seq!["set"@, MEDIA_KEYS_SCHEMA@, "custom-keybindings"@, rendered_bindings(bs)]
}

pub open spec fn install_calls(bs: Seq<Seq<char>>, exe: Seq<char>, binding: Seq<char>) -> Seq<
    Seq<Seq<char>>,
> {
    let schema = slot_schema_spec();
    (if bs.contains(slot_path_spec()) {
        Seq::empty()
    } else {
        seq![set_list_call(bs.push(slot_path_spec()))]
    }) + seq![
        seq!["set"@, schema, "name"@, SHORTCUT_NAME@],
        seq!["set"@, schema, "command"@, exe + " --toggle"@],
        seq!["set"@, schema, "binding"@, binding],
    ]
}

pub open spec fn reset_calls() -> Seq<Seq<Seq<char>>> {
    let schema = slot_schema_spec();
    seq![
        seq!["reset"@, schema, "binding"@],
        seq!["reset"@, schema, "command"@],
        seq!["reset"@, schema, "name"@],
    ]
}

fn contains_string(v: &Vec<String>, x: &String) -> (r: bool)
    ensures
        r == string_views(v@).contains(x@),
{
    let mut i: usize = 0;
    while i < v.len()
        invariant
            i <= v.len(),
            forall|k: int| 0 <= k < i ==> v@[k]@ != x@,
        decreases v.len() - i,
    {
        if v[i] == *x {
            assert(string_views(v@)[i as int] == x@);
            return true;
        }
        i = i + 1;
    }
    assert forall|k: int| 0 <= k < string_views(v@).len() implies string_views(v@)[k] != x@ by {
        assert(string_views(v@)[k] == v@[k]@);
    }
    false
}

fn args3(a: &str, b: &str, c: &str) -> (r: Vec<String>)
    ensures
        string_views(r@) == seq![a@, b@, c@],
{
    let mut r: Vec<String> = Vec::new();
    r.push(a.to_owned());
    r.push(b.to_owned());
    r.push(c.to_owned());
    assert(string_views(r@) =~= seq![a@, b@, c@]);
    r
}

fn args4(a: &str, b: &str, c: &str, d: &str) -> (r: Vec<String>)
    ensures
        string_views(r@) == seq![a@, b@, c@, d@],
{
    let mut r: Vec<String> = Vec::new();
    r.push(a.to_owned());
    r.push(b.to_owned());
    r.push(c.to_owned());
    r.push(d.to_owned());
    assert(string_views(r@) =~= seq![a@, b@, c@, d@]);
    r
}

/// Plan binding `binding` (else `default_binding`) to `exe_path --toggle`,
/// given `current`, what `gsettings get` printed for the list of custom
/// shortcuts. Existing custom shortcuts are kept; the slot is added to the
/// list only when absent.
pub fn install(exe_path: &str, binding: Option<&str>, default_binding: &str, current: &str) -> (r:
    InstallPlan)
    ensures
        r.binding@ == (match binding {
            Some(b) => b@,
            None => default_binding@,
        }),
        call_views(r.calls@) == install_calls(parsed_bindings(current@), exe_path@, r.binding@),
{
    let binding: &str = match binding {
        Some(b) => b,
        None => default_binding,
    };
    let slot = slot_path();
    let mut bindings = parse_binding_list(current);
    let ghost bs = parsed_bindings(current@);
    let mut calls: Vec<Vec<String>> = Vec::new();
    if !contains_string(&bindings, &slot) {
        let ghost pre = bindings@;
        bindings.push(slot);
        assert(string_views(bindings@) =~= bs.push(slot_path_spec()));
        let rendered = render_binding_list(bindings.as_slice());
        calls.push(args4("set", MEDIA_KEYS_SCHEMA, "custom-keybindings", rendered.as_str()));
    }
    let schema = slot_schema();
    let mut command = exe_path.to_owned();
    command.append(" --toggle");
    calls.push(args4("set", schema.as_str(), "name", SHORTCUT_NAME));
    calls.push(args4("set", schema.as_str(), "command", command.as_str()));
    calls.push(args4("set", schema.as_str(), "binding", binding));
    assert(call_views(calls@) =~= install_calls(bs, exe_path@, binding@));
    InstallPlan { calls, binding: binding.to_owned() }
}

/// Plan removing the shortcut slot, given `current`, what `gsettings get`
/// printed for the list of custom shortcuts; every other custom shortcut is
/// left untouched.
pub fn uninstall(current: &str) -> (r: UninstallPlan)
    ensures
        ({
            let bs = parsed_bindings(current@);
            let kept = without(bs, slot_path_spec());
            &&& kept.len() != bs.len() ==> (r.update matches Some(u) && string_views(u@)
                == set_list_call(kept))
            &&& kept.len() == bs.len() ==> r.update is None
        }),
        call_views(r.resets@) == reset_calls(),
{
    let slot = slot_path();
    let bindings = parse_binding_list(current);
    let ghost bs = parsed_bindings(current@);
    let mut kept: Vec<String> = Vec::new();
    let mut i: usize = 0;
    while i < bindings.len()
        invariant
            i <= bindings.len(),
            string_views(bindings@) == bs,
            string_views(kept@) == without(bs.take(i as int), slot@),
            slot@ == slot_path_spec(),
        decreases bindings.len() - i,
    {
        let ghost pre = kept@;
        assert(bs.take(i + 1).drop_last() =~= bs.take(i as int));
        assert(bs.take(i + 1).last() == bindings@[i as int]@);
        if bindings[i] != slot {
            kept.push(bindings[i].clone());
            assert(string_views(kept@) =~= string_views(pre).push(bindings@[i as int]@));
        }
        i = i + 1;
    }
    assert(bs.take(bindings.len() as int) =~= bs);
    let update = if kept.len() != bindings.len() {
        let rendered = render_binding_list(kept.as_slice());
        Some(args4("set", MEDIA_KEYS_SCHEMA, "custom-keybindings", rendered.as_str()))
    } else {
        None
    };
    let schema = slot_schema();
    let mut resets: Vec<Vec<String>> = Vec::new();
    resets.push(args3("reset", schema.as_str(), "binding"));
    resets.push(args3("reset", schema.as_str(), "command"));
    resets.push(args3("reset", schema.as_str(), "name"));
    assert(call_views(resets@) =~= reset_calls());
    UninstallPlan { update, resets }
}

/// Whether the slot is registered, given `current`, what `gsettings get`
/// printed for the list of custom shortcuts.
pub fn status(current: &str) -> (r: bool)
    ensures
        r == parsed_bindings(current@).contains(slot_path_spec()),
{
    let bindings = parse_binding_list(current);
    let slot = slot_path();
    contains_string(&bindings, &slot)
}

pub open spec fn all_plain(bs: Seq<Seq<char>>) -> bool {
    forall|i: int| 0 <= i < bs.len() ==> plain_item(#[trigger] bs[i])
}

proof fn lemma_without_props(bs: Seq<Seq<char>>, x: Seq<char>)
    ensures
        !without(bs, x).contains(x),
        all_plain(bs) ==> all_plain(without(bs, x)),
        forall|y: Seq<char>| y != x ==> (#[trigger] without(bs, x).contains(y) <==> bs.contains(y)),
    decreases bs.len(),
{
    if bs.len() > 0 {
        let b0 = bs.drop_last();
        lemma_without_props(b0, x);
        let r = without(b0, x);
        if all_plain(bs) {
            assert forall|i: int| 0 <= i < b0.len() implies plain_item(#[trigger] b0[i]) by {
                assert(b0[i] == bs[i]);
            }
            assert(plain_item(bs[bs.len() - 1]));
        }
        assert(bs =~= b0.push(bs.last()));
        assert forall|y: Seq<char>| y != x implies (#[trigger] without(bs, x).contains(y)
            <==> bs.contains(y)) by {
            lemma_push_contains(b0, bs.last(), y);
            lemma_push_contains(r, bs.last(), y);
            assert(r.contains(y) <==> b0.contains(y));
        }
        if bs.last() != x {
            assert forall|i: int| 0 <= i < r.push(bs.last()).len() implies r.push(bs.last())[i]
                != x by {
                if i < r.len() {
                    assert(r[i] != x);
                }
            }
        }
    }
}

/// Installing writes a list that, read back, holds every shortcut that was
/// already listed, in order, followed by this application's slot (unless it
/// was already there).
pub proof fn lemma_install_registers(current: Seq<char>)
    requires
        all_plain(parsed_bindings(current)),
    ensures
        parsed_bindings(rendered_bindings(bindings_after_install(parsed_bindings(current))))
            == bindings_after_install(parsed_bindings(current)),
        bindings_after_install(parsed_bindings(current)).contains(slot_path_spec()),
        parsed_bindings(current).is_prefix_of(bindings_after_install(parsed_bindings(current))),
{
    let bs = parsed_bindings(current);
    let after = bindings_after_install(bs);
    lemma_slot_path_plain();
    if !bs.contains(slot_path_spec()) {
        assert(after[bs.len() as int] == slot_path_spec());
        assert forall|i: int| 0 <= i < after.len() implies plain_item(#[trigger] after[i]) by {
            if i < bs.len() {
                assert(after[i] == bs[i]);
            }
        }
    }
    lemma_render_parse_round_trip(after);
}

/// Uninstalling writes a list that, read back, no longer holds the slot and
/// still holds every other shortcut.
pub proof fn lemma_uninstall_unregisters(current: Seq<char>)
    requires
        all_plain(parsed_bindings(current)),
    ensures
        parsed_bindings(rendered_bindings(without(parsed_bindings(current), slot_path_spec())))
            == without(parsed_bindings(current), slot_path_spec()),
        !without(parsed_bindings(current), slot_path_spec()).contains(slot_path_spec()),
        forall|p: Seq<char>|
            p != slot_path_spec() ==> (#[trigger] without(
                parsed_bindings(current),
                slot_path_spec(),
            ).contains(p) <==> parsed_bindings(current).contains(p)),
{
    let bs = parsed_bindings(current);
    lemma_without_props(bs, slot_path_spec());
    lemma_render_parse_round_trip(without(bs, slot_path_spec()));
}

proof fn lemma_push_contains<A>(s: Seq<A>, a: A, y: A)
    ensures
        s.push(a).contains(y) <==> (s.contains(y) || a == y),
{
    if s.contains(y) {
        let k = choose|k: int| 0 <= k < s.len() && s[k] == y;
        assert(s.push(a)[k] == y);
    }
    if a == y {
        assert(s.push(a)[s.len() as int] == y);
    }
    if s.push(a).contains(y) {
        let k = choose|k: int| 0 <= k < s.push(a).len() && s.push(a)[k] == y;
        if k < s.len() {
            assert(s[k] == y);
        }
    }
}

/// The text of the shortcut list after the install plan for `current` ran:
/// unchanged when the slot is listed, else the list with the slot appended.
pub open spec fn list_after_install(current: Seq<char>) -> Seq<char> {
    if parsed_bindings(current).contains(slot_path_spec()) {
        current
    } else {
        rendered_bindings(parsed_bindings(current).push(slot_path_spec()))
    }
}

/// The text of the shortcut list after the uninstall plan for `current`
/// ran: the list without the slot when it was listed, else unchanged.
pub open spec fn list_after_uninstall(current: Seq<char>) -> Seq<char> {
    let bs = parsed_bindings(current);
    if without(bs, slot_path_spec()).len() != bs.len() {
        rendered_bindings(without(bs, slot_path_spec()))
    } else {
        current
    }
}

/// Once installed, the shortcut is registered, whatever the list held
/// before: the list read back after the install plan holds the slot.
pub proof fn lemma_install_then_status(current: Seq<char>)
    ensures
        parsed_bindings(list_after_install(current)).contains(slot_path_spec()),
{
    let bs = parsed_bindings(current);
    let slot = slot_path_spec();
    if !bs.contains(slot) {
        let ps = bs.push(slot);
        lemma_slot_path_plain();
        if bs.len() == 0 {
            assert(ps =~= seq![slot]);
            assert forall|i: int| 0 <= i < ps.len() implies plain_item(#[trigger] ps[i]) by {
                assert(ps[i] == slot);
            }
            lemma_render_parse_round_trip(ps);
            assert(ps[0] == slot);
        } else {
            let e = Seq::<char>::empty();
            lemma_list_body_rendered(ps);
            let a = join_quoted(bs);
            let x = seq![' '] + quoted(slot);
            assert(ps.drop_last() =~= bs);
            assert(ps.last() == slot);
            assert(join_quoted(ps) =~= a.push(',') + x);
            assert(a.push(',').drop_last() =~= a);
            lemma_split_on_nonempty(a, ',');
            assert(split_on(a.push(','), ',') == split_on(a, ',').push(e));
            assert forall|i: int| 0 <= i < x.len() implies x[i] != ',' by {
                if 1 < i < x.len() - 1 {
                    assert(x[i] == slot[i - 2]);
                }
            }
            lemma_split_on_append_plain(a.push(','), x, ',');
            let sa = split_on(a, ',');
            assert(e + x =~= x);
            assert(split_on(join_quoted(ps), ',') =~= sa.push(x));
            lemma_clean_quoted(slot, true);
            assert(sa.push(x).drop_last() =~= sa);
            lemma_clean_items_step(sa.push(x));
            let out = clean_items(sa).push(slot);
            assert(clean_items(sa.push(x)) == out);
            assert(out[out.len() - 1] == slot);
        }
    }
}

proof fn lemma_without_absent(bs: Seq<Seq<char>>, x: Seq<char>)
    requires
        !bs.contains(x),
    ensures
        without(bs, x) == bs,
    decreases bs.len(),
{
    if bs.len() > 0 {
        let b0 = bs.drop_last();
        assert(bs[bs.len() - 1] != x);
        assert forall|i: int| 0 <= i < b0.len() implies b0[i] != x by {
            assert(b0[i] == bs[i]);
        }
        lemma_without_absent(b0, x);
        assert(b0.push(bs.last()) =~= bs);
    }
}

/// Installing and then uninstalling leaves the shortcut list as it was,
/// when it held only plain paths and not the slot: read back, it holds the
/// same paths in the same order, and the shortcut is no longer registered.
pub proof fn lemma_install_uninstall_round_trip(current: Seq<char>)
    requires
        all_plain(parsed_bindings(current)),
        !parsed_bindings(current).contains(slot_path_spec()),
    ensures
        parsed_bindings(list_after_uninstall(list_after_install(current))) == parsed_bindings(current),
        !parsed_bindings(list_after_uninstall(list_after_install(current))).contains(slot_path_spec()),
{
    let bs = parsed_bindings(current);
    let slot = slot_path_spec();
    let ps = bs.push(slot);
    lemma_slot_path_plain();
    assert forall|i: int| 0 <= i < ps.len() implies plain_item(#[trigger] ps[i]) by {
        if i < bs.len() {
            assert(ps[i] == bs[i]);
        }
    }
    lemma_render_parse_round_trip(ps);
    assert(parsed_bindings(list_after_install(current)) == ps);
    assert(ps.drop_last() =~= bs);
    lemma_without_absent(bs, slot);
    assert(without(ps, slot) == bs);
    lemma_render_parse_round_trip(bs);
}

} // verus!
