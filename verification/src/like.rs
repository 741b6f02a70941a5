//! The search filter of the history list: a case-insensitive substring
//! match, decided with the `LIKE` pattern language (`\\` as the escape
//! character) on case-folded text, and the escaping that turns a user's
//! search text into a literal pattern.
//!
//! Case folding maps each character to the lower-case mapping of its
//! upper-case mapping, as std's `char::to_uppercase` and `char::to_lowercase`
//! give them (so `Ä` and `ä`, `ß` and `ss`, `ς` and `σ` compare equal).
//! In a pattern, `%` matches any run of characters and `_` any single one;
//! every other character matches itself.

use vstd::prelude::*;
use crate::text::{chars_of, push_char, string_of};

verus! {

/// What `char::to_lowercase` yields for `c`.
pub uninterp spec fn char_lower(c: char) -> Seq<char>;

/// What `char::to_uppercase` yields for `c`.
pub uninterp spec fn char_upper(c: char) -> Seq<char>;

/// `char::to_lowercase`, collected: the contract claims only that the
/// result is what the named mapping gives for `c`.
#[verifier::external_body]
fn lower_char(c: char) -> (r: Vec<char>)
    ensures
        r@ == char_lower(c),
{
    c.to_lowercase().collect()
}

/// `char::to_uppercase`, collected: the contract claims only that the
/// result is what the named mapping gives for `c`.
#[verifier::external_body]
fn upper_char(c: char) -> (r: Vec<char>)
    ensures
        r@ == char_upper(c),
{
    c.to_uppercase().collect()
}

/// The lower-case mappings of the characters of `s`, one after another.
pub open spec fn lower_all(s: Seq<char>) -> Seq<char>
    decreases s.len(),
{
    if s.len() == 0 {
        Seq::empty()
    } else {
        lower_all(s.drop_last()) + char_lower(s.last())
    }
}

/// The case folding of one character: the lower-case mapping of its
/// upper-case mapping.
pub open spec fn fold_char(c: char) -> Seq<char> {
    lower_all(char_upper(c))
}

/// `s` case-folded character by character.
pub open spec fn case_fold(s: Seq<char>) -> Seq<char>
    decreases s.len(),
{
    if s.len() == 0 {
        Seq::empty()
    } else {
        case_fold(s.drop_last()) + fold_char(s.last())
    }
}

/// `s` case-folded.
fn case_fold_chars(s: &str) -> (r: Vec<char>)
    ensures
        r@ == case_fold(s@),
{
    let v = chars_of(s);
    let mut out: Vec<char> = Vec::new();
    let mut i: usize = 0;
    while i < v.len()
        invariant
            i <= v.len(),
            v@ == s@,
            out@ == case_fold(v@.take(i as int)),
        decreases v.len() - i,
    {
        let up = upper_char(v[i]);
        let ghost base = out@;
        let mut j: usize = 0;
        while j < up.len()
            invariant
                j <= up.len(),
                out@ == base + lower_all(up@.take(j as int)),
            decreases up.len() - j,
        {
            let mut lo = lower_char(up[j]);
            out.append(&mut lo);
            proof {
                let t = up@.take(j + 1);
                assert(t.drop_last() =~= up@.take(j as int));
                assert(t.last() == up@[j as int]);
            }
            assert(out@ =~= base + lower_all(up@.take(j + 1)));
            j = j + 1;
        }
        proof {
            assert(up@.take(up.len() as int) =~= up@);
            let t = v@.take(i + 1);
            assert(t.drop_last() =~= v@.take(i as int));
            assert(t.last() == v@[i as int]);
        }
        assert(out@ =~= case_fold(v@.take(i + 1)));
        i = i + 1;
    }
    assert(v@.take(v.len() as int) =~= s@);
    out
}

/// Whether pattern `p` matches all of `t` under `LIKE ... ESCAPE '\'`.
pub open spec fn like(p: Seq<char>, t: Seq<char>) -> bool
    decreases p.len() + t.len(),
{
    if p.len() == 0 {
        t.len() == 0
    } else if p[0] == '%' {
        like(p.drop_first(), t) || (t.len() > 0 && like(p, t.drop_first()))
    } else if t.len() == 0 {
        false
    } else if p[0] == '_' {
        like(p.drop_first(), t.drop_first())
    } else if p[0] == '\\' {
        p.len() >= 2 && p[1] == t[0] && like(p.subrange(2, p.len() as int), t.drop_first())
    } else {
        p[0] == t[0] && like(p.drop_first(), t.drop_first())
    }
}

pub open spec fn like_special(c: char) -> bool {
    c == '\\' || c == '%' || c == '_'
}

pub open spec fn escape_char(c: char) -> Seq<char> {
    if like_special(c) {
        seq!['\\', c]
    } else {
        seq![c]
    }
}

/// `s` with every `\`, `%` and `_` preceded by `\`.
pub open spec fn escaped(s: Seq<char>) -> Seq<char>
    decreases s.len(),
{
    if s.len() == 0 {
        Seq::empty()
    } else {
        escape_char(s[0]) + escaped(s.drop_first())
    }
}

/// `q` is a prefix of `s`.
pub open spec fn prefix_of(q: Seq<char>, s: Seq<char>) -> bool {
    q.len() <= s.len() && forall|i: int| 0 <= i < q.len() ==> #[trigger] q[i] == s[i]
}

/// `t` contains `q` as a substring.
pub open spec fn contains(t: Seq<char>, q: Seq<char>) -> bool {
    exists|k: int| 0 <= k <= t.len() && prefix_of(q, #[trigger] t.skip(k))
}

/// `t` contains `q` as a substring once both are case-folded.
pub open spec fn contains_ci(t: Seq<char>, q: Seq<char>) -> bool {
    contains(case_fold(t), case_fold(q))
}

/// The pattern searched for a query: `%`, the escaped query, `%`.
pub open spec fn search_pattern(q: Seq<char>) -> Seq<char> {
    seq!['%'] + escaped(q) + seq!['%']
}

proof fn lemma_escaped_push(s: Seq<char>, c: char)
    ensures
        escaped(s.push(c)) == escaped(s) + escape_char(c),
    decreases s.len(),
{
    if s.len() == 0 {
        assert(s.push(c).drop_first() =~= Seq::<char>::empty());
        assert(s.push(c)[0] == c);
        assert(escaped(Seq::<char>::empty()) == Seq::<char>::empty());
        assert(escaped(s) == Seq::<char>::empty());
        assert(escaped(s.push(c)) == escape_char(c) + escaped(Seq::<char>::empty()));
        assert(escaped(s.push(c)) =~= escaped(s) + escape_char(c));
    } else {
        lemma_escaped_push(s.drop_first(), c);
        assert(s.push(c).drop_first() =~= s.drop_first().push(c));
        assert(escaped(s.push(c)) =~= escaped(s) + escape_char(c));
    }
}

/// Escape `LIKE` metacharacters so a literal search string is matched.
pub fn escape_like(input: &str) -> (r: String)
    ensures
        r@ == escaped(input@),
{
    let v = chars_of(input);
    let mut out = String::new();
    let mut i: usize = 0;
    while i < v.len()
        invariant
            i <= v.len(),
            v@ == input@,
            out@ == escaped(v@.take(i as int)),
        decreases v.len() - i,
    {
        let c = v[i];
        proof {
            lemma_escaped_push(v@.take(i as int), c);
            assert(v@.take(i + 1) =~= v@.take(i as int).push(c));
        }
        if c == '\\' || c == '%' || c == '_' {
            push_char(&mut out, '\\');
            push_char(&mut out, c);
        } else {
            push_char(&mut out, c);
        }
        assert(out@ =~= escaped(v@.take(i + 1)));
        i = i + 1;
    }
    assert(v@.take(v.len() as int) =~= input@);
    out
}

proof fn lemma_like_any(t: Seq<char>)
    ensures
        like(seq!['%'], t),
    decreases t.len(),
{
    let p = seq!['%'];
    assert(p.drop_first() =~= Seq::<char>::empty());
    assert(p[0] == '%');
    if t.len() > 0 {
        lemma_like_any(t.drop_first());
    } else {
        assert(like(p.drop_first(), t));
    }
}

proof fn lemma_like_percent(r: Seq<char>, t: Seq<char>)
    ensures
        like(seq!['%'] + r, t) <==> exists|k: int| 0 <= k <= t.len() && like(r, #[trigger] t.skip(k)),
    decreases t.len(),
{
    let p = seq!['%'] + r;
    assert(p.drop_first() =~= r);
    assert(t.skip(0) =~= t);
    if t.len() > 0 {
        lemma_like_percent(r, t.drop_first());
        let u = t.drop_first();
        assert forall|k: int| 0 <= k <= u.len() implies #[trigger] u.skip(k) == t.skip(k + 1) by {
            assert(u.skip(k) =~= t.skip(k + 1));
        }
        if like(p, t) {
            if !like(r, t) {
                let k = choose|k: int| 0 <= k <= u.len() && like(r, #[trigger] u.skip(k));
                assert(like(r, t.skip(k + 1)));
            }
        }
        if exists|k: int| 0 <= k <= t.len() && like(r, #[trigger] t.skip(k)) {
            let k = choose|k: int| 0 <= k <= t.len() && like(r, #[trigger] t.skip(k));
            if k > 0 {
                assert(u.skip(k - 1) == t.skip(k));
                assert(like(r, u.skip(k - 1)));
            }
        }
    } else {
        if exists|k: int| 0 <= k <= t.len() && like(r, #[trigger] t.skip(k)) {
            let k = choose|k: int| 0 <= k <= t.len() && like(r, #[trigger] t.skip(k));
            assert(k == 0);
        }
    }
}

proof fn lemma_like_escaped_prefix(q: Seq<char>, s: Seq<char>)
    ensures
        like(escaped(q) + seq!['%'], s) <==> prefix_of(q, s),
    decreases q.len(),
{
    if q.len() == 0 {
        assert(escaped(q) + seq!['%'] =~= seq!['%']);
        lemma_like_any(s);
    } else {
        let c = q[0];
        let q1 = q.drop_first();
        let rest = escaped(q1) + seq!['%'];
        let p = escaped(q) + seq!['%'];
        lemma_like_escaped_prefix(q1, s.drop_first());
        if like_special(c) {
            assert(p =~= seq!['\\', c] + rest);
            assert(p.subrange(2, p.len() as int) =~= rest);
        } else {
            assert(p =~= seq![c] + rest);
            assert(p.drop_first() =~= rest);
        }
        assert(p[0] != '%');
        if s.len() > 0 {
            let s1 = s.drop_first();
            if prefix_of(q, s) {
                assert(q[0] == s[0]);
                assert forall|i: int| 0 <= i < q1.len() implies #[trigger] q1[i] == s1[i] by {
                    assert(q[i + 1] == s[i + 1]);
                }
            }
            if like(p, s) {
                assert(c == s[0]);
                assert(prefix_of(q1, s1));
                assert forall|i: int| 0 <= i < q.len() implies #[trigger] q[i] == s[i] by {
                    if i > 0 {
                        assert(q1[i - 1] == s1[i - 1]);
                    }
                }
            }
        }
    }
}

/// Searching with the escaped pattern matches exactly the texts that contain
/// the query: `%`, `_` and `\` in the query have no special meaning.
pub proof fn lemma_search_is_substring(q: Seq<char>, t: Seq<char>)
    ensures
        like(search_pattern(q), t) <==> contains(t, q),
{
    let r = escaped(q) + seq!['%'];
    assert(search_pattern(q) =~= seq!['%'] + r);
    lemma_like_percent(r, t);
    assert forall|k: int| 0 <= k <= t.len() implies like(r, #[trigger] t.skip(k)) == prefix_of(
        q,
        t.skip(k),
    ) by {
        lemma_like_escaped_prefix(q, t.skip(k));
    }
}

/// Whether `p[i..]` matches all of `t[j..]` under `LIKE ... ESCAPE '\'`.
fn like_from(p: &Vec<char>, i: usize, t: &Vec<char>, j: usize) -> (r: bool)
    requires
        i <= p.len(),
        j <= t.len(),
    ensures
        r == like(p@.skip(i as int), t@.skip(j as int)),
    decreases p.len() - i + t.len() - j,
{
    let ghost ps = p@.skip(i as int);
    let ghost ts = t@.skip(j as int);
    if i == p.len() {
        return j == t.len();
    }
    assert(ps[0] == p@[i as int]);
    if p[i] == '%' {
        assert(ps.drop_first() =~= p@.skip(i + 1));
        assert(ps =~= seq!['%'] + p@.skip(i + 1));
        proof {
            lemma_like_percent(p@.skip(i + 1), ts);
        }
        if i + 1 == p.len() {
            proof {
                assert(ps =~= seq!['%']);
                lemma_like_any(ts);
            }
            return true;
        }
        let mut k = j;
        loop
            invariant
                j <= k <= t.len(),
                i + 1 < p.len(),
                ts == t@.skip(j as int),
                like(p@.skip(i as int), ts) <==> exists|m: int|
                    0 <= m <= ts.len() && like(p@.skip(i + 1), #[trigger] ts.skip(m)),
                forall|m: int| 0 <= m < k - j ==> !like(p@.skip(i + 1), #[trigger] ts.skip(m)),
            decreases t.len() - k,
        {
            assert(ts.skip(k - j) =~= t@.skip(k as int));
            if like_from(p, i + 1, t, k) {
                return true;
            }
            if k == t.len() {
                assert forall|m: int| 0 <= m <= ts.len() implies !like(
                    p@.skip(i + 1),
                    #[trigger] ts.skip(m),
                ) by {
                    if m == k - j {
                    }
                }
                return false;
            }
            k = k + 1;
        }
    }
    if j == t.len() {
        return false;
    }
    assert(ts[0] == t@[j as int]);
    assert(ts.drop_first() =~= t@.skip(j + 1));
    if p[i] == '_' {
        assert(ps.drop_first() =~= p@.skip(i + 1));
        like_from(p, i + 1, t, j + 1)
    } else if p[i] == '\\' {
        if i + 1 == p.len() {
            return false;
        }
        assert(ps[1] == p@[i + 1]);
        assert(ps.subrange(2, ps.len() as int) =~= p@.skip(i + 2));
        if p[i + 1] != t[j] {
            return false;
        }
        like_from(p, i + 2, t, j + 1)
    } else {
        assert(ps.drop_first() =~= p@.skip(i + 1));
        if p[i] != t[j] {
            return false;
        }
        like_from(p, i + 1, t, j + 1)
    }
}

/// Whether `text` contains the search term `q`, ignoring case: both are
/// case-folded, and the folded text is matched against
/// `'%' || escape(folded q) || '%'`.
pub fn matches_search(text: &str, q: &str) -> (r: bool)
    ensures
        r == contains_ci(text@, q@),
{
    let folded_q = string_of(&case_fold_chars(q));
    let escaped_q = escape_like(folded_q.as_str());
    let mut pattern: Vec<char> = Vec::new();
    pattern.push('%');
    let body = chars_of(escaped_q.as_str());
    let mut i: usize = 0;
    while i < body.len()
        invariant
            i <= body.len(),
            pattern@ == seq!['%'] + body@.take(i as int),
        decreases body.len() - i,
    {
        pattern.push(body[i]);
        assert(body@.take(i + 1) =~= body@.take(i as int).push(body@[i as int]));
        i = i + 1;
    }
    pattern.push('%');
    assert(body@.take(body.len() as int) =~= body@);
    assert(pattern@ =~= search_pattern(case_fold(q@)));
    let t = case_fold_chars(text);
    assert(pattern@.skip(0) =~= pattern@);
    assert(t@.skip(0) =~= t@);
    proof {
        lemma_search_is_substring(case_fold(q@), case_fold(text@));
    }
    like_from(&pattern, 0, &t, 0)
}

} // verus!
