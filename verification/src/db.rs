//! Clipboard history: the `entries` and `settings` tables and the rules the
//! application applies to them.
//!
//! A [`Store`] holds what the history database holds: the entry rows with
//! their content hashes, the key/value settings, and the largest entry id ever
//! handed out (ids are never reused). Reading the database into a `Store` and
//! writing it back is left to the caller.
//!
//! Ordering rule used everywhere: pinned first, then most recently used.

use vstd::prelude::*;
use crate::like::{contains_ci, matches_search};
use crate::text::{parse_i64, parse_i64_spec, trim_at, chars_of, string_of};

verus! {

/// Default cap on non-pinned entries before the oldest are trimmed.
pub const DEFAULT_MAX_ITEMS: i64 = 500;

/// The reason an update of `use_count` is refused: it would exceed `i64`.
pub const USE_COUNT_OVERFLOW: &'static str = "integer overflow: use_count";

/// The reason an insert is refused: every entry id has been handed out.
pub const IDS_EXHAUSTED: &'static str = "database or disk is full";

/// One clipboard history entry, as the panel shows it.
#[derive(Clone, Debug)]
pub struct Entry {
    pub id: i64,
    pub content_type: String,
    pub text: String,
    pub created_at: i64,
    pub last_used_at: i64,
    pub use_count: i64,
    pub pinned: bool,
}

pub struct EntryView {
    pub id: i64,
    pub content_type: Seq<char>,
    pub text: Seq<char>,
    pub created_at: i64,
    pub last_used_at: i64,
    pub use_count: i64,
    pub pinned: bool,
}

impl View for Entry {
    type V = EntryView;

    open spec fn view(&self) -> EntryView {
        EntryView {
            id: self.id,
            content_type: self.content_type@,
            text: self.text@,
            created_at: self.created_at,
            last_used_at: self.last_used_at,
            use_count: self.use_count,
            pinned: self.pinned,
        }
    }
}

impl Entry {
    /// A copy of this entry.
    pub fn snapshot(&self) -> (r: Entry)
        ensures
            r@ == self@,
    {
        Entry {
            id: self.id,
            content_type: self.content_type.clone(),
            text: self.text.clone(),
            created_at: self.created_at,
            last_used_at: self.last_used_at,
            use_count: self.use_count,
            pinned: self.pinned,
        }
    }
}

/// A stored row: an entry and the hash its text is deduplicated by.
#[derive(Clone, Debug)]
pub struct Row {
    pub entry: Entry,
    pub content_hash: String,
}

pub struct RowView {
    pub entry: EntryView,
    pub hash: Seq<char>,
}

impl View for Row {
    type V = RowView;

    open spec fn view(&self) -> RowView {
        RowView { entry: self.entry@, hash: self.content_hash@ }
    }
}

impl Row {
    /// A copy of this row.
    pub fn snapshot(&self) -> (r: Row)
        ensures
            r@ == self@,
    {
        Row { entry: self.entry.snapshot(), content_hash: self.content_hash.clone() }
    }
}

pub open spec fn rows_view(rows: Seq<Row>) -> Seq<RowView> {
    Seq::new(rows.len(), |i: int| rows[i]@)
}

pub open spec fn pairs_view(pairs: Seq<(String, String)>) -> Seq<(Seq<char>, Seq<char>)> {
    Seq::new(pairs.len(), |i: int| (pairs[i].0@, pairs[i].1@))
}

/// The value stored under `k`: the last pair with that key.
pub open spec fn pairs_lookup(pairs: Seq<(Seq<char>, Seq<char>)>, k: Seq<char>) -> Option<
    Seq<char>,
>
    decreases pairs.len(),
{
    if pairs.len() == 0 {
        None
    } else if pairs.last().0 == k {
        Some(pairs.last().1)
    } else {
        pairs_lookup(pairs.drop_last(), k)
    }
}

pub open spec fn pairs_map(pairs: Seq<(Seq<char>, Seq<char>)>) -> Map<Seq<char>, Seq<char>> {
    Map::new(|k: Seq<char>| pairs_lookup(pairs, k) is Some, |k: Seq<char>| pairs_lookup(pairs, k)->0)
}

/// Ids strictly increase along `rows`, are positive and at most `last_id`;
/// no two rows share a content hash.
pub open spec fn rows_valid(rows: Seq<RowView>, last_id: i64) -> bool {
    &&& forall|i: int, j: int|
        0 <= i < j < rows.len() ==> #[trigger] rows[i].entry.id < #[trigger] rows[j].entry.id
    &&& forall|i: int| 0 <= i < rows.len() ==> 1 <= #[trigger] rows[i].entry.id <= last_id
    &&& forall|i: int, j: int|
        0 <= i < rows.len() && 0 <= j < rows.len() && i != j ==> #[trigger] rows[i].hash
            != #[trigger] rows[j].hash
}

/// What a [`Store`] holds: the rows in id order, the settings, and the largest
/// entry id ever handed out.
pub struct StoreView {
    pub rows: Seq<RowView>,
    pub settings: Map<Seq<char>, Seq<char>>,
    pub last_id: i64,
}

impl StoreView {
    /// Ids strictly increase along the rows, are positive and at most
    /// `last_id`; no two rows share a content hash.
    pub open spec fn valid(self) -> bool {
        self.last_id >= 0 && rows_valid(self.rows, self.last_id)
    }
}

/// The clipboard history database.
pub struct Store {
    rows: Vec<Row>,
    settings: Vec<(String, String)>,
    last_id: i64,
}

impl View for Store {
    type V = StoreView;

    closed spec fn view(&self) -> StoreView {
        StoreView {
            rows: rows_view(self.rows@),
            settings: pairs_map(pairs_view(self.settings@)),
            last_id: self.last_id,
        }
    }
}

impl Store {
    pub open spec fn wf(&self) -> bool {
        self@.valid()
    }

    /// An empty history with no settings.
    pub fn new() -> (r: Store)
        ensures
            r.wf(),
            r@.rows == Seq::<RowView>::empty(),
            r@.settings == Map::<Seq<char>, Seq<char>>::empty(),
            r@.last_id == 0,
    {
        let r = Store { rows: Vec::new(), settings: Vec::new(), last_id: 0 };
        assert(r@.rows =~= Seq::<RowView>::empty());
        assert(r@.settings =~= Map::<Seq<char>, Seq<char>>::empty());
        r
    }

    /// A store holding `rows`, `settings` (later pairs win over earlier ones
    /// with the same key) and `last_id`, or `None` when they break the
    /// store's invariant.
    pub fn from_parts(rows: Vec<Row>, settings: Vec<(String, String)>, last_id: i64) -> (r: Option<
        Store,
    >)
        ensures
            r is Some <==> (StoreView {
                rows: rows_view(rows@),
                settings: pairs_map(pairs_view(settings@)),
                last_id,
            }).valid(),
            r matches Some(s) ==> s@ == (StoreView {
                rows: rows_view(rows@),
                settings: pairs_map(pairs_view(settings@)),
                last_id,
            }),
    {
        let s = Store { rows, settings, last_id };
        if s.check_valid() {
            Some(s)
        } else {
            None
        }
    }

    fn check_valid(&self) -> (r: bool)
        ensures
            r == self@.valid(),
    {
        let ghost v = self@;
        if self.last_id < 0 {
            return false;
        }
        let n = self.rows.len();
        let mut i: usize = 0;
        while i < n
            invariant
                n == self.rows.len(),
                v == self@,
                i <= n,
                v.last_id >= 0,
                forall|a: int, b: int| 0 <= a < b < i ==> #[trigger] v.rows[a].entry.id < #[trigger] v.rows[b].entry.id,
                forall|a: int| 0 <= a < i ==> 1 <= #[trigger] v.rows[a].entry.id <= v.last_id,
                forall|a: int, b: int|
                    0 <= a < i && 0 <= b < i && a != b ==> #[trigger] v.rows[a].hash
                        != #[trigger] v.rows[b].hash,
            decreases n - i,
        {
            assert(v.rows[i as int] == self.rows@[i as int]@);
            let id = self.rows[i].entry.id;
            if id < 1 || id > self.last_id {
                assert(!(1 <= v.rows[i as int].entry.id <= v.last_id));
                assert(!v.valid());
                return false;
            }
            if i > 0 && self.rows[i - 1].entry.id >= id {
                assert(v.rows[i - 1] == self.rows@[i - 1]@);
                assert(!(v.rows[i - 1].entry.id < v.rows[i as int].entry.id));
                assert(!v.valid());
                return false;
            }
            let mut j: usize = 0;
            while j < i
                invariant
                    n == self.rows.len(),
                    v == self@,
                    j <= i < n,
                    forall|b: int| 0 <= b < j ==> v.rows[b].hash != v.rows[i as int].hash,
                decreases i - j,
            {
                assert(v.rows[j as int] == self.rows@[j as int]@);
                if self.rows[j].content_hash == self.rows[i].content_hash {
                    assert(v.rows[j as int].hash == v.rows[i as int].hash);
                    assert(!v.valid());
                    return false;
                }
                j = j + 1;
            }
            proof {
                assert forall|a: int, b: int| 0 <= a < b < i + 1 implies #[trigger] v.rows[a].entry.id
                    < #[trigger] v.rows[b].entry.id by {
                    if b == i && a < i - 1 {
                        assert(v.rows[a].entry.id < v.rows[i - 1].entry.id);
                    }
                }
            }
            i = i + 1;
        }
        true
    }

    /// Copies of the stored rows, in id order.
    pub fn rows(&self) -> (r: Vec<Row>)
        ensures
            rows_view(r@) == self@.rows,
    {
        let mut r: Vec<Row> = Vec::new();
        let mut i: usize = 0;
        while i < self.rows.len()
            invariant
                i <= self.rows.len(),
                rows_view(r@) == rows_view(self.rows@).take(i as int),
            decreases self.rows.len() - i,
        {
            let ghost pre = r@;
            let row = self.rows[i].snapshot();
            r.push(row);
            assert(r@ == pre.push(row));
            assert(rows_view(r@) =~= rows_view(pre).push(row@));
            assert(rows_view(self.rows@).take(i + 1) =~= rows_view(self.rows@).take(i as int).push(
                self.rows@[i as int]@,
            ));
            i = i + 1;
        }
        assert(rows_view(self.rows@).take(self.rows.len() as int) =~= rows_view(self.rows@));
        r
    }

    /// The settings as key/value pairs, one per key.
    pub fn settings(&self) -> (r: Vec<(String, String)>)
        ensures
            pairs_map(pairs_view(r@)) == self@.settings,
            distinct_keys(pairs_view(r@)),
    {
        let ghost ps = pairs_view(self.settings@);
        let mut r: Vec<(String, String)> = Vec::new();
        let mut i: usize = 0;
        while i < self.settings.len()
            invariant
                i <= self.settings.len(),
                ps == pairs_view(self.settings@),
                distinct_keys(pairs_view(r@)),
                forall|k: Seq<char>| #![auto] pairs_lookup(pairs_view(r@), k) == pairs_lookup(ps.take(i as int), k),
            decreases self.settings.len() - i,
        {
            let k = self.settings[i].0.clone();
            let v = self.settings[i].1.clone();
            let ghost rv = pairs_view(r@);
            let mut next = pairs_without_key(&r, &k);
            proof {
                lemma_pairs_without_distinct(rv, k@);
            }
            let ghost w = pairs_view(next@);
            next.push((k, v));
            let ghost nv = pairs_view(next@);
            assert(nv =~= w.push((k@, v@)));
            assert(nv.drop_last() =~= w);
            let ghost t = ps.take(i + 1);
            assert(t.drop_last() =~= ps.take(i as int));
            assert(t.last() == (k@, v@));
            assert forall|k2: Seq<char>| #![auto] pairs_lookup(nv, k2) == pairs_lookup(t, k2) by {
                lemma_pairs_without(rv, k@, k2);
            }
            assert forall|a: int, b: int| 0 <= a < b < nv.len() implies nv[a].0 != nv[b].0 by {
                if b == nv.len() - 1 {
                    assert(nv[a] == w[a]);
                } else {
                    assert(nv[a] == w[a] && nv[b] == w[b]);
                }
            }
            r = next;
            i = i + 1;
        }
        assert(ps.take(self.settings.len() as int) =~= ps);
        assert(pairs_map(pairs_view(r@)) =~= pairs_map(ps));
        r
    }

    /// The largest entry id ever handed out.
    pub fn last_id(&self) -> (r: i64)
        ensures
            r == self@.last_id,
    {
        self.last_id
    }
}

// ------------------------------------------------------------------ settings

pub open spec fn pairs_without(pairs: Seq<(Seq<char>, Seq<char>)>, k: Seq<char>) -> Seq<
    (Seq<char>, Seq<char>),
>
    decreases pairs.len(),
{
    if pairs.len() == 0 {
        pairs
    } else if pairs.last().0 == k {
        pairs_without(pairs.drop_last(), k)
    } else {
        pairs_without(pairs.drop_last(), k).push(pairs.last())
    }
}

proof fn lemma_pairs_without(pairs: Seq<(Seq<char>, Seq<char>)>, k: Seq<char>, k2: Seq<char>)
    ensures
        pairs_lookup(pairs_without(pairs, k), k2) == (if k2 == k {
            None
        } else {
            pairs_lookup(pairs, k2)
        }),
    decreases pairs.len(),
{
    if pairs.len() > 0 {
        lemma_pairs_without(pairs.drop_last(), k, k2);
        if pairs.last().0 != k {
            let w = pairs_without(pairs.drop_last(), k).push(pairs.last());
            assert(w.drop_last() =~= pairs_without(pairs.drop_last(), k));
        }
    }
}

/// No key occurs twice among `pairs`.
pub open spec fn distinct_keys(pairs: Seq<(Seq<char>, Seq<char>)>) -> bool {
    forall|a: int, b: int| 0 <= a < b < pairs.len() ==> pairs[a].0 != pairs[b].0
}

proof fn lemma_pairs_without_distinct(pairs: Seq<(Seq<char>, Seq<char>)>, k: Seq<char>)
    ensures
        forall|m: int| 0 <= m < pairs_without(pairs, k).len() ==> (#[trigger] pairs_without(pairs, k)[m]).0 != k
            && exists|j: int| 0 <= j < pairs.len() && pairs[j].0 == pairs_without(pairs, k)[m].0,
        distinct_keys(pairs) ==> distinct_keys(pairs_without(pairs, k)),
    decreases pairs.len(),
{
    if pairs.len() > 0 {
        let p0 = pairs.drop_last();
        lemma_pairs_without_distinct(p0, k);
        let w0 = pairs_without(p0, k);
        let w = pairs_without(pairs, k);
        assert forall|m: int| 0 <= m < w.len() implies (#[trigger] w[m]).0 != k && exists|j: int|
            0 <= j < pairs.len() && pairs[j].0 == w[m].0 by {
            if m < w0.len() {
                assert(w[m] == w0[m]);
                let j = choose|j: int| 0 <= j < p0.len() && p0[j].0 == w0[m].0;
                assert(pairs[j] == p0[j]);
            } else {
                assert(w[m] == pairs[pairs.len() - 1]);
            }
        }
        if distinct_keys(pairs) {
            assert(distinct_keys(p0)) by {
                assert forall|a: int, b: int| 0 <= a < b < p0.len() implies p0[a].0 != p0[b].0 by {
                    assert(p0[a] == pairs[a] && p0[b] == pairs[b]);
                }
            }
            assert forall|a: int, b: int| 0 <= a < b < w.len() implies w[a].0 != w[b].0 by {
                if b < w0.len() {
                    assert(w[a] == w0[a] && w[b] == w0[b]);
                } else {
                    assert(w[a] == w0[a]);
                    assert(w[b] == pairs[pairs.len() - 1]);
                    assert(w0[a] == pairs_without(p0, k)[a]);
                    let j = choose|j: int| 0 <= j < p0.len() && p0[j].0 == w0[a].0;
                    assert(pairs[j] == p0[j]);
                }
            }
        }
    }
}

/// `pairs` without the pairs whose key is `key`.
fn pairs_without_key(pairs: &Vec<(String, String)>, key: &String) -> (r: Vec<(String, String)>)
    ensures
        pairs_view(r@) == pairs_without(pairs_view(pairs@), key@),
{
    let ghost ps = pairs_view(pairs@);
    let mut kept: Vec<(String, String)> = Vec::new();
    let mut i: usize = 0;
    while i < pairs.len()
        invariant
            i <= pairs.len(),
            ps == pairs_view(pairs@),
            pairs_view(kept@) == pairs_without(ps.take(i as int), key@),
        decreases pairs.len() - i,
    {
        let ghost t = ps.take(i + 1);
        assert(t.drop_last() =~= ps.take(i as int));
        assert(t.last() == (pairs@[i as int].0@, pairs@[i as int].1@));
        if pairs[i].0 != *key {
            let ghost pre = kept@;
            let k = pairs[i].0.clone();
            let v = pairs[i].1.clone();
            kept.push((k, v));
            assert(pairs_view(kept@) =~= pairs_view(pre).push((k@, v@)));
        }
        i = i + 1;
    }
    assert(ps.take(pairs.len() as int) =~= ps);
    kept
}

/// The value stored for `key`, when one is stored.
pub open spec fn setting_value(v: StoreView, key: Seq<char>) -> Option<Seq<char>> {
    if v.settings.contains_key(key) {
        Some(v.settings[key])
    } else {
        None
    }
}

/// `get_setting`: the stored value, or `default` when unset or empty.
pub open spec fn setting_or(v: StoreView, key: Seq<char>, default: Seq<char>) -> Seq<char> {
    match setting_value(v, key) {
        Some(x) => if x.len() > 0 {
            x
        } else {
            default
        },
        None => default,
    }
}

/// Read a setting, falling back to `default` when unset or empty.
pub fn get_setting(store: &Store, key: &str, default: &str) -> (r: String)
    ensures
        r@ == setting_or(store@, key@, default@),
{
    let key_s = key.to_owned();
    let ghost ps = pairs_view(store.settings@);
    let mut i = store.settings.len();
    assert(ps.take(i as int) =~= ps);
    while i > 0
        invariant
            i <= store.settings.len(),
            ps == pairs_view(store.settings@),
            pairs_lookup(ps, key@) == pairs_lookup(ps.take(i as int), key@),
            key_s@ == key@,
        decreases i,
    {
        let ghost t = ps.take(i as int);
        assert(t.drop_last() =~= ps.take(i - 1));
        assert(t.last() == (store.settings@[i - 1].0@, store.settings@[i - 1].1@));
        if store.settings[i - 1].0 == key_s {
            assert(pairs_lookup(ps, key@) == Some(store.settings@[i - 1].1@));
            if store.settings[i - 1].1.as_str().is_empty() {
                return default.to_owned();
            }
            return store.settings[i - 1].1.clone();
        }
        i = i - 1;
    }
    assert(ps.take(0) =~= Seq::<(Seq<char>, Seq<char>)>::empty());
    default.to_owned()
}

/// Persist a setting, replacing any previous value.
pub fn set_setting(store: &mut Store, key: &str, value: &str)
    requires
        old(store).wf(),
    ensures
        final(store).wf(),
        final(store)@ == (StoreView {
            settings: old(store)@.settings.insert(key@, value@),
            ..old(store)@
        }),
{
    let key_s = key.to_owned();
    let ghost ps = pairs_view(store.settings@);
    let mut kept = pairs_without_key(&store.settings, &key_s);
    let ghost pre = kept@;
    kept.push((key_s, value.to_owned()));
    let ghost nk = pairs_view(kept@);
    assert(nk =~= pairs_without(ps, key@).push((key@, value@)));
    assert(nk.drop_last() =~= pairs_without(ps, key@));
    assert forall|k2: Seq<char>| #![auto] pairs_lookup(nk, k2) == (if k2 == key@ {
        Some(value@)
    } else {
        pairs_lookup(ps, k2)
    }) by {
        lemma_pairs_without(ps, key@, k2);
    }
    let ghost before = store@;
    store.settings = kept;
    assert(store@.settings =~= before.settings.insert(key@, value@));
}

/// Clamp the history cap to the range the settings accept.
pub open spec fn clamp_cap(v: int) -> int {
    if v < 10 {
        10
    } else if v > 10_000 {
        10_000
    } else {
        v
    }
}

/// `max_items`: the stored cap parsed as an integer (500 when unset, empty
/// or not a number), clamped to 10..=10000.
pub open spec fn max_items_spec(v: StoreView) -> int {
    match parse_i64_spec(setting_or(v, "max_items"@, "500"@)) {
        Some(x) => clamp_cap(x as int),
        None => clamp_cap(DEFAULT_MAX_ITEMS as int),
    }
}

/// Read the history cap, clamped to a sane range.
pub fn max_items(store: &Store) -> (r: i64)
    ensures
        r == max_items_spec(store@),
        10 <= r <= 10_000,
{
    let text = get_setting(store, "max_items", "500");
    let v = match parse_i64(text.as_str()) {
        Some(x) => x,
        None => DEFAULT_MAX_ITEMS,
    };
    if v < 10 {
        10
    } else if v > 10_000 {
        10_000
    } else {
        v
    }
}

/// Whether selecting an entry should also synthesise Ctrl+V: the stored
/// flag is exactly `true` (the default when unset or empty).
pub fn auto_paste(store: &Store) -> (r: bool)
    ensures
        r == (setting_or(store@, "auto_paste"@, "true"@) == "true"@),
{
    let v = get_setting(store, "auto_paste", "true");
    let t = "true".to_owned();
    v == t
}

// ------------------------------------------------------------------ entries

pub open spec fn has_id(rows: Seq<RowView>, id: i64) -> bool {
    exists|i: int| 0 <= i < rows.len() && rows[i].entry.id == id
}

/// The position of the row with `id` (meaningful when `has_id`).
pub open spec fn index_of_id(rows: Seq<RowView>, id: i64) -> int {
    choose|i: int| 0 <= i < rows.len() && rows[i].entry.id == id
}

pub open spec fn has_hash(rows: Seq<RowView>, h: Seq<char>) -> bool {
    exists|i: int| 0 <= i < rows.len() && rows[i].hash == h
}

/// The position of the row with content hash `h` (meaningful when
/// `has_hash`).
pub open spec fn index_of_hash(rows: Seq<RowView>, h: Seq<char>) -> int {
    choose|i: int| 0 <= i < rows.len() && rows[i].hash == h
}

/// The entry after a reuse at time `now`.
pub open spec fn touched(e: EntryView, now: i64) -> EntryView {
    EntryView { last_used_at: now, use_count: (e.use_count + 1) as i64, ..e }
}

/// The entry with its pinned flag flipped.
pub open spec fn flipped(e: EntryView) -> EntryView {
    EntryView { pinned: !e.pinned, ..e }
}

pub open spec fn with_entry(r: RowView, e: EntryView) -> RowView {
    RowView { entry: e, ..r }
}

pub open spec fn with_rows(v: StoreView, rows: Seq<RowView>) -> StoreView {
    StoreView { rows, ..v }
}

pub proof fn lemma_id_unique(rows: Seq<RowView>, last_id: i64, i: int, j: int)
    requires
        rows_valid(rows, last_id),
        0 <= i < rows.len(),
        0 <= j < rows.len(),
        rows[i].entry.id == rows[j].entry.id,
    ensures
        i == j,
{
    if i < j {
        assert(rows[i].entry.id < rows[j].entry.id);
    } else if j < i {
        assert(rows[j].entry.id < rows[i].entry.id);
    }
}

proof fn lemma_update_valid(rows: Seq<RowView>, last_id: i64, i: int, e: EntryView)
    requires
        rows_valid(rows, last_id),
        0 <= i < rows.len(),
        e.id == rows[i].entry.id,
    ensures
        rows_valid(rows.update(i, with_entry(rows[i], e)), last_id),
{
    let n = rows.update(i, with_entry(rows[i], e));
    assert forall|a: int, b: int| 0 <= a < b < n.len() implies #[trigger] n[a].entry.id
        < #[trigger] n[b].entry.id by {
        assert(n[a].entry.id == rows[a].entry.id);
        assert(n[b].entry.id == rows[b].entry.id);
    }
    assert forall|a: int| 0 <= a < n.len() implies 1 <= #[trigger] n[a].entry.id <= last_id by {
        assert(n[a].entry.id == rows[a].entry.id);
    }
    assert forall|a: int, b: int|
        0 <= a < n.len() && 0 <= b < n.len() && a != b implies #[trigger] n[a].hash
        != #[trigger] n[b].hash by {
        assert(n[a].hash == rows[a].hash);
        assert(n[b].hash == rows[b].hash);
    }
}

proof fn lemma_remove_valid(rows: Seq<RowView>, last_id: i64, i: int)
    requires
        rows_valid(rows, last_id),
        0 <= i < rows.len(),
    ensures
        rows_valid(rows.remove(i), last_id),
{
    let n = rows.remove(i);
    assert forall|a: int| 0 <= a < n.len() implies #[trigger] n[a] == rows[if a < i {
        a
    } else {
        a + 1
    }] by {}
    assert forall|a: int, b: int| 0 <= a < b < n.len() implies #[trigger] n[a].entry.id
        < #[trigger] n[b].entry.id by {
        let a1 = if a < i { a } else { a + 1 };
        let b1 = if b < i { b } else { b + 1 };
        assert(n[a] == rows[a1]);
        assert(n[b] == rows[b1]);
        assert(rows[a1].entry.id < rows[b1].entry.id);
    }
    assert forall|a: int| 0 <= a < n.len() implies 1 <= #[trigger] n[a].entry.id <= last_id by {
        let a1 = if a < i { a } else { a + 1 };
        assert(n[a] == rows[a1]);
    }
    assert forall|a: int, b: int|
        0 <= a < n.len() && 0 <= b < n.len() && a != b implies #[trigger] n[a].hash
        != #[trigger] n[b].hash by {
        let a1 = if a < i { a } else { a + 1 };
        let b1 = if b < i { b } else { b + 1 };
        assert(n[a] == rows[a1]);
        assert(n[b] == rows[b1]);
    }
}

fn find_id(store: &Store, id: i64) -> (r: Option<usize>)
    requires
        store.wf(),
    ensures
        match r {
            Some(i) => i < store@.rows.len() && store@.rows[i as int].entry.id == id
                && index_of_id(store@.rows, id) == i && has_id(store@.rows, id),
            None => !has_id(store@.rows, id),
        },
{
    let mut i: usize = 0;
    while i < store.rows.len()
        invariant
            i <= store.rows.len(),
            store.wf(),
            forall|k: int| 0 <= k < i ==> store@.rows[k].entry.id != id,
        decreases store.rows.len() - i,
    {
        assert(store@.rows[i as int] == store.rows@[i as int]@);
        if store.rows[i].entry.id == id {
            proof {
                let k = index_of_id(store@.rows, id);
                lemma_id_unique(store@.rows, store@.last_id, k, i as int);
            }
            return Some(i);
        }
        i = i + 1;
    }
    None
}

/// Fetch one entry by id.
pub fn get_entry(store: &Store, id: i64) -> (r: Option<Entry>)
    requires
        store.wf(),
    ensures
        match r {
            Some(e) => has_id(store@.rows, id) && e@ == store@.rows[index_of_id(
                store@.rows,
                id,
            )].entry,
            None => !has_id(store@.rows, id),
        },
{
    match find_id(store, id) {
        Some(i) => {
            assert(store@.rows[i as int] == store.rows@[i as int]@);
            Some(store.rows[i].entry.snapshot())
        },
        None => None,
    }
}

/// Record that an entry was reused from the history list: its
/// `last_used_at` becomes `now` and `use_count` grows by one. Nothing
/// changes for an unknown id, and the update is refused when `use_count`
/// would leave `i64`.
pub fn mark_used(store: &mut Store, id: i64, now: i64) -> (r: Result<(), String>)
    requires
        old(store).wf(),
    ensures
        final(store).wf(),
        ({
            let rows = old(store)@.rows;
            let i = index_of_id(rows, id);
            if !has_id(rows, id) {
                r is Ok && final(store)@ == old(store)@
            } else if rows[i].entry.use_count == i64::MAX {
                r matches Err(msg) && msg@ == USE_COUNT_OVERFLOW@ && final(store)@ == old(store)@
            } else {
                r is Ok && final(store)@ == with_rows(
                    old(store)@,
                    rows.update(i, with_entry(rows[i], touched(rows[i].entry, now))),
                )
            }
        }),
{
    match find_id(store, id) {
        None => Ok(()),
        Some(i) => {
            assert(store@.rows[i as int] == store.rows@[i as int]@);
            if store.rows[i].entry.use_count == i64::MAX {
                return Err(USE_COUNT_OVERFLOW.to_owned());
            }
            let ghost before = store@;
            let mut row = store.rows[i].snapshot();
            row.entry.last_used_at = now;
            row.entry.use_count = row.entry.use_count + 1;
            store.rows.set(i, row);
            proof {
                lemma_update_valid(before.rows, before.last_id, i as int, touched(before.rows[i as int].entry, now));
                assert(store@.rows =~= before.rows.update(
                    i as int,
                    with_entry(before.rows[i as int], touched(before.rows[i as int].entry, now)),
                ));
            }
            Ok(())
        },
    }
}

/// The store with the pinned flag of entry `id` flipped (unchanged for an
/// unknown id).
pub open spec fn toggled(v: StoreView, id: i64) -> StoreView {
    let i = index_of_id(v.rows, id);
    if has_id(v.rows, id) {
        with_rows(v, v.rows.update(i, with_entry(v.rows[i], flipped(v.rows[i].entry))))
    } else {
        v
    }
}

/// The store without entry `id` (unchanged for an unknown id).
pub open spec fn deleted(v: StoreView, id: i64) -> StoreView {
    if has_id(v.rows, id) {
        with_rows(v, v.rows.remove(index_of_id(v.rows, id)))
    } else {
        v
    }
}

/// Toggle the pinned flag. Returns the new state, or `None` if the id is gone.
pub fn toggle_pin(store: &mut Store, id: i64) -> (r: Option<bool>)
    requires
        old(store).wf(),
    ensures
        final(store).wf(),
        final(store)@ == toggled(old(store)@, id),
        r == (if has_id(old(store)@.rows, id) {
            Some(!old(store)@.rows[index_of_id(old(store)@.rows, id)].entry.pinned)
        } else {
            None
        }),
{
    match find_id(store, id) {
        None => None,
        Some(i) => {
            assert(store@.rows[i as int] == store.rows@[i as int]@);
            let ghost before = store@;
            let mut row = store.rows[i].snapshot();
            let next = !row.entry.pinned;
            row.entry.pinned = next;
            store.rows.set(i, row);
            proof {
                lemma_update_valid(before.rows, before.last_id, i as int, flipped(before.rows[i as int].entry));
                assert(store@.rows =~= before.rows.update(
                    i as int,
                    with_entry(before.rows[i as int], flipped(before.rows[i as int].entry)),
                ));
            }
            Some(next)
        },
    }
}

/// Delete a single entry. Returns the number of rows removed: 1, or 0 for
/// an unknown id.
pub fn delete_entry(store: &mut Store, id: i64) -> (r: u64)
    requires
        old(store).wf(),
    ensures
        final(store).wf(),
        final(store)@ == deleted(old(store)@, id),
        r == (if has_id(old(store)@.rows, id) {
            1u64
        } else {
            0u64
        }),
{
    match find_id(store, id) {
        None => 0,
        Some(i) => {
            let ghost before = store@;
            let _ = store.rows.remove(i);
            proof {
                lemma_remove_valid(before.rows, before.last_id, i as int);
                assert(store@.rows =~= before.rows.remove(i as int));
            }
            1
        },
    }
}

/// `a` was used more recently than `b`; ties on time go to the larger id.
pub open spec fn newer(a: EntryView, b: EntryView) -> bool {
    a.last_used_at > b.last_used_at || (a.last_used_at == b.last_used_at && a.id > b.id)
}

/// Row `i` is the most recently used one.
pub open spec fn is_newest(rows: Seq<RowView>, i: int) -> bool {
    &&& 0 <= i < rows.len()
    &&& forall|j: int| 0 <= j < rows.len() && j != i ==> newer(rows[i].entry, #[trigger] rows[j].entry)
}

/// The most recently used row has content hash `h`.
pub open spec fn newest_has_hash(rows: Seq<RowView>, h: Seq<char>) -> bool {
    exists|i: int| is_newest(rows, i) && rows[i].hash == h
}

/// The entry a first copy of `text` at time `now` creates.
pub open spec fn fresh_entry(id: i64, text: Seq<char>, now: i64) -> EntryView {
    EntryView {
        id,
        content_type: "text"@,
        text,
        created_at: now,
        last_used_at: now,
        use_count: 1,
        pinned: false,
    }
}

fn newest_index(store: &Store) -> (r: usize)
    requires
        store.wf(),
        store@.rows.len() > 0,
    ensures
        is_newest(store@.rows, r as int),
{
    let ghost rows = store@.rows;
    let mut best: usize = 0;
    let mut i: usize = 1;
    while i < store.rows.len()
        invariant
            store.wf(),
            rows == store@.rows,
            best < i <= store.rows.len(),
            forall|j: int| 0 <= j < i && j != best ==> newer(rows[best as int].entry, #[trigger] rows[j].entry),
        decreases store.rows.len() - i,
    {
        assert(rows[i as int] == store.rows@[i as int]@);
        assert(rows[best as int] == store.rows@[best as int]@);
        let a = &store.rows[i].entry;
        let b = &store.rows[best].entry;
        if a.last_used_at > b.last_used_at || (a.last_used_at == b.last_used_at && a.id > b.id) {
            proof {
                assert forall|j: int| 0 <= j < i + 1 && j != i implies newer(
                    rows[i as int].entry,
                    #[trigger] rows[j].entry,
                ) by {
                    if j != best {
                        assert(newer(rows[best as int].entry, rows[j].entry));
                    }
                }
            }
            best = i;
        } else {
            proof {
                assert(rows[i as int].entry.id != rows[best as int].entry.id) by {
                    if rows[i as int].entry.id == rows[best as int].entry.id {
                        lemma_id_unique(rows, store@.last_id, i as int, best as int);
                    }
                }
            }
        }
        i = i + 1;
    }
    best
}

fn find_hash(store: &Store, hash: &String) -> (r: Option<usize>)
    requires
        store.wf(),
    ensures
        match r {
            Some(i) => i < store@.rows.len() && store@.rows[i as int].hash == hash@
                && index_of_hash(store@.rows, hash@) == i && has_hash(store@.rows, hash@),
            None => !has_hash(store@.rows, hash@),
        },
{
    let mut i: usize = 0;
    while i < store.rows.len()
        invariant
            i <= store.rows.len(),
            store.wf(),
            forall|k: int| 0 <= k < i ==> store@.rows[k].hash != hash@,
        decreases store.rows.len() - i,
    {
        assert(store@.rows[i as int] == store.rows@[i as int]@);
        if store.rows[i].content_hash == *hash {
            proof {
                let k = index_of_hash(store@.rows, hash@);
                assert(store@.rows[k].hash == store@.rows[i as int].hash);
            }
            return Some(i);
        }
        i = i + 1;
    }
    None
}

/// What `upsert_entry` answers, over views: `Ok(None)`, `Ok(Some(entry))`
/// or `Err(reason)`.
pub open spec fn upsert_result_view(r: Result<Option<Entry>, String>) -> Result<
    Option<EntryView>,
    Seq<char>,
> {
    match r {
        Ok(Some(e)) => Ok(Some(e@)),
        Ok(None) => Ok(None),
        Err(m) => Err(m@),
    }
}

/// The answer and the new store of `upsert_entry(text, hash, now)` on `v`.
pub open spec fn upsert_spec(v: StoreView, text: Seq<char>, hash: Seq<char>, now: i64) -> (
    Result<Option<EntryView>, Seq<char>>,
    StoreView,
) {
    let rows = v.rows;
    let i = index_of_hash(rows, hash);
    if newest_has_hash(rows, hash) {
        (Ok(None), v)
    } else if has_hash(rows, hash) {
        if rows[i].entry.use_count == i64::MAX {
            (Err(USE_COUNT_OVERFLOW@), v)
        } else {
            (
                Ok(Some(touched(rows[i].entry, now))),
                with_rows(v, rows.update(i, with_entry(rows[i], touched(rows[i].entry, now)))),
            )
        }
    } else if v.last_id == i64::MAX {
        (Err(IDS_EXHAUSTED@), v)
    } else {
        let e = fresh_entry((v.last_id + 1) as i64, text, now);
        (
            Ok(Some(e)),
            StoreView {
                rows: rows.push(RowView { entry: e, hash }),
                last_id: (v.last_id + 1) as i64,
                ..v
            },
        )
    }
}

/// Insert `text`, or refresh the existing row when the hash already exists.
///
/// Capture runs on a timer while the panel is open, so the same text is
/// observed over and over. An entry is therefore only treated as reused when
/// it is not already the most recently used row, that is, when something
/// else was copied in between; otherwise the call changes nothing and
/// returns `None`. A reuse sets `last_used_at` to `now` and adds one to
/// `use_count`, keeping id and creation time; a new text gets the next id.
pub fn upsert_entry(store: &mut Store, text: &str, hash: &str, now: i64) -> (r: Result<
    Option<Entry>,
    String,
>)
    requires
        old(store).wf(),
    ensures
        final(store).wf(),
        upsert_result_view(r) == upsert_spec(old(store)@, text@, hash@, now).0,
        final(store)@ == upsert_spec(old(store)@, text@, hash@, now).1,
{
    let ghost v = store@;
    let hash_s = hash.to_owned();
    if store.rows.len() > 0 {
        let b = newest_index(store);
        assert(store@.rows[b as int] == store.rows@[b as int]@);
        if store.rows[b].content_hash == hash_s {
            return Ok(None);
        }
        proof {
            if newest_has_hash(v.rows, hash@) {
                let k = choose|k: int| is_newest(v.rows, k) && v.rows[k].hash == hash@;
                if k != b {
                    assert(newer(v.rows[k].entry, v.rows[b as int].entry));
                    assert(newer(v.rows[b as int].entry, v.rows[k].entry));
                }
            }
        }
    }
    match find_hash(store, &hash_s) {
        Some(i) => {
            assert(store@.rows[i as int] == store.rows@[i as int]@);
            if store.rows[i].entry.use_count == i64::MAX {
                return Err(USE_COUNT_OVERFLOW.to_owned());
            }
            let mut row = store.rows[i].snapshot();
            row.entry.last_used_at = now;
            row.entry.use_count = row.entry.use_count + 1;
            let result = row.entry.snapshot();
            store.rows.set(i, row);
            proof {
                lemma_update_valid(v.rows, v.last_id, i as int, touched(v.rows[i as int].entry, now));
                assert(store@.rows =~= v.rows.update(
                    i as int,
                    with_entry(v.rows[i as int], touched(v.rows[i as int].entry, now)),
                ));
            }
            Ok(Some(result))
        },
        None => {
            if store.last_id == i64::MAX {
                return Err(IDS_EXHAUSTED.to_owned());
            }
            let id = store.last_id + 1;
            let entry = Entry {
                id,
                content_type: "text".to_owned(),
                text: text.to_owned(),
                created_at: now,
                last_used_at: now,
                use_count: 1,
                pinned: false,
            };
            let result = entry.snapshot();
            let row = Row { entry, content_hash: hash_s };
            store.rows.push(row);
            store.last_id = id;
            proof {
                let n = store@.rows;
                assert(n =~= v.rows.push(RowView { entry: result@, hash: hash@ }));
                assert forall|a: int, b: int| 0 <= a < b < n.len() implies #[trigger] n[a].entry.id
                    < #[trigger] n[b].entry.id by {
                    if b == n.len() - 1 {
                        assert(n[a] == v.rows[a]);
                    } else {
                        assert(n[a] == v.rows[a]);
                        assert(n[b] == v.rows[b]);
                    }
                }
                assert forall|a: int| 0 <= a < n.len() implies 1 <= #[trigger] n[a].entry.id
                    <= store@.last_id by {
                    if a < n.len() - 1 {
                        assert(n[a] == v.rows[a]);
                    }
                }
                assert forall|a: int, b: int|
                    0 <= a < n.len() && 0 <= b < n.len() && a != b implies #[trigger] n[a].hash
                    != #[trigger] n[b].hash by {
                    if a < n.len() - 1 {
                        assert(n[a] == v.rows[a]);
                    }
                    if b < n.len() - 1 {
                        assert(n[b] == v.rows[b]);
                    }
                }
            }
            Ok(Some(result))
        },
    }
}

/// The rows that `keep` accepts, in their order.
pub open spec fn keep_rows(rows: Seq<RowView>, keep: spec_fn(RowView) -> bool) -> Seq<RowView>
    decreases rows.len(),
{
    if rows.len() == 0 {
        rows
    } else if keep(rows.last()) {
        keep_rows(rows.drop_last(), keep).push(rows.last())
    } else {
        keep_rows(rows.drop_last(), keep)
    }
}

proof fn lemma_keep_rows(rows: Seq<RowView>, keep: spec_fn(RowView) -> bool, last_id: i64)
    requires
        rows_valid(rows, last_id),
    ensures
        rows_valid(keep_rows(rows, keep), last_id),
        keep_rows(rows, keep).len() <= rows.len(),
        forall|a: int|
            0 <= a < keep_rows(rows, keep).len() ==> exists|b: int|
                0 <= b < rows.len() && #[trigger] keep_rows(rows, keep)[a] == rows[b] && keep(rows[b]),
        forall|b: int| 0 <= b < rows.len() && keep(#[trigger] rows[b]) ==> keep_rows(rows, keep).contains(rows[b]),
    decreases rows.len(),
{
    if rows.len() > 0 {
        let r0 = rows.drop_last();
        assert(rows_valid(r0, last_id)) by {
            assert forall|a: int, b: int| 0 <= a < b < r0.len() implies #[trigger] r0[a].entry.id
                < #[trigger] r0[b].entry.id by {
                assert(r0[a] == rows[a] && r0[b] == rows[b]);
            }
            assert forall|a: int| 0 <= a < r0.len() implies 1 <= #[trigger] r0[a].entry.id
                <= last_id by {
                assert(r0[a] == rows[a]);
            }
            assert forall|a: int, b: int|
                0 <= a < r0.len() && 0 <= b < r0.len() && a != b implies #[trigger] r0[a].hash
                != #[trigger] r0[b].hash by {
                assert(r0[a] == rows[a] && r0[b] == rows[b]);
            }
        }
        lemma_keep_rows(r0, keep, last_id);
        let k0 = keep_rows(r0, keep);
        let last = rows.last();
        let li = rows.len() - 1;
        assert forall|a: int| 0 <= a < k0.len() implies exists|b: int|
            0 <= b < li && #[trigger] k0[a] == rows[b] && keep(rows[b]) by {
            let b = choose|b: int| 0 <= b < r0.len() && #[trigger] k0[a] == r0[b] && keep(r0[b]);
            assert(r0[b] == rows[b]);
        }
        if keep(last) {
            let k = k0.push(last);
            assert forall|a: int, b: int| 0 <= a < b < k.len() implies #[trigger] k[a].entry.id
                < #[trigger] k[b].entry.id by {
                let a1 = choose|a1: int| 0 <= a1 < li && #[trigger] k0[a] == rows[a1] && keep(rows[a1]);
                assert(k[a] == rows[a1]);
                if b == k.len() - 1 {
                    assert(rows[a1].entry.id < rows[li].entry.id);
                } else {
                    let b1 = choose|b1: int| 0 <= b1 < li && #[trigger] k0[b] == rows[b1] && keep(rows[b1]);
                    assert(k[b] == rows[b1]);
                }
            }
            assert forall|a: int| 0 <= a < k.len() implies 1 <= #[trigger] k[a].entry.id <= last_id by {
                if a < k0.len() {
                    let a1 = choose|a1: int| 0 <= a1 < li && #[trigger] k0[a] == rows[a1] && keep(rows[a1]);
                    assert(k[a] == rows[a1]);
                }
            }
            assert forall|a: int, b: int|
                0 <= a < k.len() && 0 <= b < k.len() && a != b implies #[trigger] k[a].hash
                != #[trigger] k[b].hash by {
                if a < k0.len() && b < k0.len() {
                    assert(k[a] == k0[a] && k[b] == k0[b]);
                } else if a < k0.len() {
                    let a1 = choose|a1: int| 0 <= a1 < li && #[trigger] k0[a] == rows[a1] && keep(rows[a1]);
                    assert(k[a] == rows[a1]);
                    assert(rows[a1].hash != rows[li].hash);
                } else {
                    let b1 = choose|b1: int| 0 <= b1 < li && #[trigger] k0[b] == rows[b1] && keep(rows[b1]);
                    assert(k[b] == rows[b1]);
                    assert(rows[b1].hash != rows[li].hash);
                }
            }
            assert forall|a: int| 0 <= a < k.len() implies exists|b: int|
                0 <= b < rows.len() && #[trigger] k[a] == rows[b] && keep(rows[b]) by {
                if a < k0.len() {
                    let a1 = choose|a1: int| 0 <= a1 < li && #[trigger] k0[a] == rows[a1] && keep(rows[a1]);
                    assert(k[a] == rows[a1]);
                } else {
                    assert(k[a] == rows[li]);
                }
            }
            assert forall|b: int| 0 <= b < rows.len() && keep(#[trigger] rows[b]) implies k.contains(rows[b]) by {
                if b < li {
                    assert(r0[b] == rows[b]);
                    assert(k0.contains(r0[b]));
                    let t = choose|t: int| 0 <= t < k0.len() && k0[t] == r0[b];
                    assert(k[t] == rows[b]);
                } else {
                    assert(k[k.len() - 1] == rows[b]);
                }
            }
        } else {
            assert forall|a: int| 0 <= a < k0.len() implies exists|b: int|
                0 <= b < rows.len() && #[trigger] k0[a] == rows[b] && keep(rows[b]) by {
                let a1 = choose|a1: int| 0 <= a1 < li && #[trigger] k0[a] == rows[a1] && keep(rows[a1]);
            }
            assert forall|b: int| 0 <= b < rows.len() && keep(#[trigger] rows[b]) implies k0.contains(rows[b]) by {
                assert(b < li);
                assert(r0[b] == rows[b]);
            }
        }
    }
}

pub open spec fn pinned_keep() -> spec_fn(RowView) -> bool {
    |r: RowView| r.entry.pinned
}

/// The pinned rows, in their order.
pub open spec fn pinned_rows(rows: Seq<RowView>) -> Seq<RowView> {
    keep_rows(rows, pinned_keep())
}

/// Delete the whole history, optionally sparing pinned entries. Returns the
/// number of rows removed.
pub fn clear_history(store: &mut Store, keep_pinned: bool) -> (r: u64)
    requires
        old(store).wf(),
    ensures
        final(store).wf(),
        final(store)@ == with_rows(
            old(store)@,
            if keep_pinned {
                pinned_rows(old(store)@.rows)
            } else {
                Seq::empty()
            },
        ),
        r == old(store)@.rows.len() - final(store)@.rows.len(),
{
    let ghost v = store@;
    let n = store.rows.len();
    let mut kept: Vec<Row> = Vec::new();
    if keep_pinned {
        let mut i: usize = 0;
        while i < n
            invariant
                i <= n == store.rows.len(),
                v == store@,
                rows_view(kept@) == keep_rows(v.rows.take(i as int), pinned_keep()),
            decreases n - i,
        {
            let ghost t = v.rows.take(i + 1);
            assert(t.drop_last() =~= v.rows.take(i as int));
            assert(t.last() == store.rows@[i as int]@);
            if store.rows[i].entry.pinned {
                let ghost pre = kept@;
                let row = store.rows[i].snapshot();
                kept.push(row);
                assert(rows_view(kept@) =~= rows_view(pre).push(row@));
            }
            i = i + 1;
        }
        assert(v.rows.take(n as int) =~= v.rows);
    }
    proof {
        lemma_keep_rows(v.rows, pinned_keep(), v.last_id);
    }
    let removed = n - kept.len();
    store.rows = kept;
    assert(store@.rows =~= (if keep_pinned { pinned_rows(v.rows) } else { Seq::empty() }));
    removed as u64
}

/// Total and pinned counts, for the panel footer.
pub fn counts(store: &Store) -> (r: (i64, i64))
    requires
        store.wf(),
    ensures
        r.0 == store@.rows.len(),
        r.1 == pinned_rows(store@.rows).len(),
{
    let ghost v = store@;
    let n = store.rows.len();
    let mut pinned: usize = 0;
    let mut i: usize = 0;
    while i < n
        invariant
            i <= n == store.rows.len(),
            v == store@,
            pinned == keep_rows(v.rows.take(i as int), pinned_keep()).len(),
            pinned <= i,
        decreases n - i,
    {
        let ghost t = v.rows.take(i + 1);
        assert(t.drop_last() =~= v.rows.take(i as int));
        assert(t.last() == store.rows@[i as int]@);
        if store.rows[i].entry.pinned {
            pinned = pinned + 1;
        }
        i = i + 1;
    }
    assert(v.rows.take(n as int) =~= v.rows);
    proof {
        lemma_len_bounded_by_ids(v.rows, v.last_id);
    }
    (n as i64, pinned as i64)
}

/// The row count never exceeds the largest id.
proof fn lemma_len_bounded_by_ids(rows: Seq<RowView>, last_id: i64)
    requires
        rows_valid(rows, last_id),
        last_id >= 0,
    ensures
        rows.len() <= last_id,
{
    if rows.len() > 0 {
        assert forall|a: int| 0 <= a < rows.len() implies #[trigger] rows[a].entry.id >= a + 1 by {
            lemma_id_at_least(rows, last_id, a);
        }
        assert(rows[rows.len() - 1].entry.id >= rows.len());
        assert(1 <= rows[rows.len() - 1].entry.id <= last_id);
    }
}

proof fn lemma_id_at_least(rows: Seq<RowView>, last_id: i64, a: int)
    requires
        rows_valid(rows, last_id),
        0 <= a < rows.len(),
    ensures
        rows[a].entry.id >= a + 1,
    decreases a,
{
    if a > 0 {
        lemma_id_at_least(rows, last_id, a - 1);
        assert(rows[a - 1].entry.id < rows[a].entry.id);
    }
}

/// How many unpinned rows of `all` were used more recently than `e`.
pub open spec fn newer_unpinned_count(all: Seq<RowView>, e: EntryView) -> nat
    decreases all.len(),
{
    if all.len() == 0 {
        0
    } else {
        newer_unpinned_count(all.drop_last(), e) + (if !all.last().entry.pinned && newer(
            all.last().entry,
            e,
        ) {
            1nat
        } else {
            0nat
        })
    }
}

/// The cap `trim` applies: at least one.
pub open spec fn trim_cap(max_items: i64) -> int {
    if max_items < 1 {
        1
    } else {
        max_items as int
    }
}

pub open spec fn trim_keep(all: Seq<RowView>, cap: int) -> spec_fn(RowView) -> bool {
    |r: RowView| r.entry.pinned || newer_unpinned_count(all, r.entry) < cap
}

/// The rows `trim` keeps: every pinned row, and the unpinned rows with fewer
/// than `cap` unpinned rows used more recently.
pub open spec fn trimmed_rows(all: Seq<RowView>, max_items: i64) -> Seq<RowView> {
    keep_rows(all, trim_keep(all, trim_cap(max_items)))
}

/// Drop the oldest non-pinned entries once the cap is exceeded: the
/// `max(max_items, 1)` most recently used unpinned entries stay, with every
/// pinned entry. Pinned entries never count towards the cap. Returns the
/// number of rows removed.
pub fn trim(store: &mut Store, max_items: i64) -> (r: u64)
    requires
        old(store).wf(),
    ensures
        final(store).wf(),
        final(store)@ == with_rows(old(store)@, trimmed_rows(old(store)@.rows, max_items)),
        r == old(store)@.rows.len() - final(store)@.rows.len(),
{
    let ghost v = store@;
    let cap: i64 = if max_items < 1 {
        1
    } else {
        max_items
    };
    let ghost keep = trim_keep(v.rows, cap as int);
    let n = store.rows.len();
    let mut kept: Vec<Row> = Vec::new();
    let mut i: usize = 0;
    while i < n
        invariant
            i <= n == store.rows.len(),
            v == store@,
            cap >= 1,
            keep == trim_keep(v.rows, cap as int),
            rows_view(kept@) == keep_rows(v.rows.take(i as int), keep),
        decreases n - i,
    {
        let ghost t = v.rows.take(i + 1);
        assert(t.drop_last() =~= v.rows.take(i as int));
        assert(t.last() == store.rows@[i as int]@);
        let row = &store.rows[i];
        let mut keep_it = row.entry.pinned;
        if !keep_it {
            let mut cnt: u64 = 0;
            let mut j: usize = 0;
            while j < n
                invariant
                    j <= n == store.rows.len(),
                    v == store@,
                    i < n,
                    cnt == newer_unpinned_count(v.rows.take(j as int), v.rows[i as int].entry),
                    cnt <= j,
                decreases n - j,
            {
                let ghost u = v.rows.take(j + 1);
                assert(u.drop_last() =~= v.rows.take(j as int));
                assert(u.last() == store.rows@[j as int]@);
                assert(v.rows[i as int] == store.rows@[i as int]@);
                let a = &store.rows[j].entry;
                let b = &store.rows[i].entry;
                if !a.pinned && (a.last_used_at > b.last_used_at || (a.last_used_at
                    == b.last_used_at && a.id > b.id)) {
                    cnt = cnt + 1;
                }
                j = j + 1;
            }
            assert(v.rows.take(n as int) =~= v.rows);
            keep_it = cnt < cap as u64;
        }
        if keep_it {
            let ghost pre = kept@;
            let copy = store.rows[i].snapshot();
            kept.push(copy);
            assert(rows_view(kept@) =~= rows_view(pre).push(copy@));
        }
        i = i + 1;
    }
    assert(v.rows.take(n as int) =~= v.rows);
    proof {
        lemma_keep_rows(v.rows, keep, v.last_id);
    }
    let removed = n - kept.len();
    store.rows = kept;
    assert(store@.rows =~= trimmed_rows(v.rows, max_items));
    removed as u64
}

/// `a` is listed before `b`: pinned first, then the more recently used.
pub open spec fn listed_before(a: EntryView, b: EntryView) -> bool {
    (a.pinned && !b.pinned) || (a.pinned == b.pinned && newer(a, b))
}

/// The search term of a query: the query trimmed, when anything is left.
pub open spec fn search_term(query: Option<Seq<char>>) -> Option<Seq<char>> {
    match query {
        Some(q) => if crate::text::trim(q).len() > 0 {
            Some(crate::text::trim(q))
        } else {
            None
        },
        None => None,
    }
}

pub open spec fn query_view(query: Option<&str>) -> Option<Seq<char>> {
    match query {
        Some(q) => Some(q@),
        None => None,
    }
}

/// `e` is shown for the search term: its text contains the term, ignoring
/// case (see `contains_ci`); every entry is shown when there is no term.
pub open spec fn selected(e: EntryView, term: Option<Seq<char>>) -> bool {
    match term {
        Some(q) => contains_ci(e.text, q),
        None => true,
    }
}

/// The number of entries a listing returns at most: `limit` clamped to
/// 1..=1000.
pub open spec fn clamp_limit(limit: i64) -> int {
    if limit < 1 {
        1
    } else if limit > 1000 {
        1000
    } else {
        limit as int
    }
}

pub open spec fn listed(r: Seq<Entry>, e: EntryView) -> bool {
    exists|i: int| 0 <= i < r.len() && r[i]@ == e
}

proof fn lemma_listed_before_order(a: EntryView, b: EntryView, c: EntryView)
    ensures
        !(listed_before(a, b) && listed_before(b, a)),
        listed_before(a, b) && listed_before(b, c) ==> listed_before(a, c),
        a.id != b.id ==> listed_before(a, b) || listed_before(b, a),
{
}

pub open spec fn entry_views(r: Seq<Entry>) -> Seq<EntryView> {
    Seq::new(r.len(), |i: int| r[i]@)
}

/// `es` is the listing of `rows` for search term `term` with at most `cap`
/// entries: stored entries that the term selects, pinned first and then the
/// most recently used, and every selected entry left out ranks after all of
/// them (which only happens when `cap` entries were listed).
pub open spec fn listing_ok(rows: Seq<RowView>, term: Option<Seq<char>>, cap: int, es: Seq<EntryView>) -> bool {
    &&& forall|i: int|
        0 <= i < es.len() ==> exists|j: int|
            0 <= j < rows.len() && #[trigger] es[i] == rows[j].entry && selected(rows[j].entry, term)
    &&& forall|i: int, k: int| 0 <= i < k < es.len() ==> listed_before(#[trigger] es[i], #[trigger] es[k])
    &&& es.len() <= cap
    &&& forall|j: int|
        0 <= j < rows.len() && selected(#[trigger] rows[j].entry, term) && !es.contains(rows[j].entry)
            ==> es.len() == cap && forall|i: int| 0 <= i < es.len() ==> listed_before(#[trigger] es[i], rows[j].entry)
}

/// List entries, pinned entries first and then the most recently used,
/// at most `limit` (clamped to 1..=1000) of them. `query`, trimmed, filters
/// with a case-insensitive substring match when anything is left of it;
/// `%`, `_` and `\` in it match themselves.
pub fn list_entries(store: &Store, query: Option<&str>, limit: i64) -> (r: Vec<Entry>)
    requires
        store.wf(),
    ensures
        listing_ok(store@.rows, search_term(query_view(query)), clamp_limit(limit), entry_views(r@)),
{
    let ghost rows = store@.rows;
    let ghost term = search_term(query_view(query));
    let lim: i64 = if limit < 1 {
        1
    } else if limit > 1000 {
        1000
    } else {
        limit
    };
    // The trimmed query, when anything is left of it.
    let needle: Option<String> = match query {
        Some(q) => {
            let cs = chars_of(q);
            let (a, b) = trim_at(&cs, 0, cs.len());
            assert(cs@.subrange(0, cs.len() as int) =~= q@);
            if a == b {
                None
            } else {
                let mut t: Vec<char> = Vec::new();
                let mut k = a;
                while k < b
                    invariant
                        a <= k <= b <= cs.len(),
                        t@ == cs@.subrange(a as int, k as int),
                    decreases b - k,
                {
                    t.push(cs[k]);
                    assert(cs@.subrange(a as int, k + 1) =~= cs@.subrange(a as int, k as int).push(
                        cs@[k as int],
                    ));
                    k = k + 1;
                }
                Some(string_of(&t))
            }
        },
        None => None,
    };
    assert(match needle {
        Some(x) => term == Some(x@),
        None => term is None,
    });
    // Rows that the search selects.
    let n = store.rows.len();
    let mut cand: Vec<usize> = Vec::new();
    let mut i: usize = 0;
    while i < n
        invariant
            i <= n == store.rows.len(),
            rows == store@.rows,
            store.wf(),
            forall|c: int| 0 <= c < cand@.len() ==> #[trigger] cand@[c] < n && selected(rows[cand@[c] as int].entry, term),
            forall|j: int| 0 <= j < i && selected(#[trigger] rows[j].entry, term) ==> cand@.contains(j as usize),
            match needle {
                Some(x) => term == Some(x@),
                None => term is None,
            },
        decreases n - i,
    {
        assert(rows[i as int] == store.rows@[i as int]@);
        let hit = match &needle {
            Some(q) => matches_search(store.rows[i].entry.text.as_str(), q.as_str()),
            None => true,
        };
        assert(hit == selected(rows[i as int].entry, term));
        let ghost pre_c = cand@;
        if hit {
            cand.push(i);
            proof {
                assert forall|j: int| 0 <= j < i + 1 && selected(#[trigger] rows[j].entry, term) implies cand@.contains(j as usize) by {
                    if j == i {
                        assert(cand@[cand@.len() - 1] == i);
                    } else {
                        assert(pre_c.contains(j as usize));
                        let t = choose|t: int| 0 <= t < pre_c.len() && pre_c[t] == j as usize;
                        assert(cand@[t] == j as usize);
                    }
                }
            }
        }
        i = i + 1;
    }
    // Select the best remaining candidate, `lim` times at most.
    let mut out: Vec<Entry> = Vec::new();
    let mut last: usize = 0;
    let mut done = false;
    while !done && (out.len() as i64) < lim
        invariant
            done ==> forall|j: int| 0 <= j < n && selected(#[trigger] rows[j].entry, term) ==> listed(out@, rows[j].entry),
            n == store.rows.len(),
            rows == store@.rows,
            store.wf(),
            1 <= lim <= 1000,
            lim == clamp_limit(limit),
            out@.len() <= lim,
            forall|c: int| 0 <= c < cand@.len() ==> #[trigger] cand@[c] < n && selected(rows[cand@[c] as int].entry, term),
            forall|j: int| 0 <= j < n && selected(#[trigger] rows[j].entry, term) ==> cand@.contains(j as usize),
            out@.len() > 0 ==> last < n && out@[out@.len() - 1]@ == rows[last as int].entry,
            forall|i2: int|
                0 <= i2 < out@.len() ==> exists|j: int|
                    0 <= j < rows.len() && #[trigger] out@[i2]@ == rows[j].entry && selected(
                        rows[j].entry,
                        term,
                    ),
            forall|i2: int, k: int|
                0 <= i2 < k < out@.len() ==> listed_before(#[trigger] out@[i2]@, #[trigger] out@[k]@),
            forall|j: int|
                0 <= j < n && selected(#[trigger] rows[j].entry, term) ==> listed(out@, rows[j].entry)
                    || out@.len() == 0 || listed_before(rows[last as int].entry, rows[j].entry),
            forall|j: int|
                0 <= j < n && listed(out@, #[trigger] rows[j].entry) ==> out@.len() > 0 && !listed_before(rows[last as int].entry, rows[j].entry),
        decreases 2 * (lim - out@.len()) + (if done { 0int } else { 1int }),
    {
        let mut best: usize = n;
        let mut c: usize = 0;
        while c < cand.len()
            invariant
                n == store.rows.len(),
                rows == store@.rows,
                store.wf(),
                c <= cand.len(),
                forall|c2: int| 0 <= c2 < cand@.len() ==> #[trigger] cand@[c2] < n && selected(rows[cand@[c2] as int].entry, term),
                out@.len() > 0 ==> last < n,
                best == n || (best < n && selected(rows[best as int].entry, term) && (out@.len() == 0
                    || listed_before(rows[last as int].entry, rows[best as int].entry))),
                forall|c2: int|
                    0 <= c2 < c && (out@.len() == 0 || listed_before(rows[last as int].entry, rows[#[trigger] cand@[c2] as int].entry))
                        ==> best < n && (cand@[c2] == best || listed_before(rows[best as int].entry, rows[cand@[c2] as int].entry)),
            decreases cand.len() - c,
        {
            let x = cand[c];
            assert(rows[x as int] == store.rows@[x as int]@);
            let after_last = if out.len() == 0 {
                true
            } else {
                assert(rows[last as int] == store.rows@[last as int]@);
                let l = &store.rows[last].entry;
                let e = &store.rows[x].entry;
                (l.pinned && !e.pinned) || (l.pinned == e.pinned && (l.last_used_at > e.last_used_at
                    || (l.last_used_at == e.last_used_at && l.id > e.id)))
            };
            if after_last {
                let better = if best == n {
                    true
                } else {
                    assert(rows[best as int] == store.rows@[best as int]@);
                    let bb = &store.rows[best].entry;
                    let e = &store.rows[x].entry;
                    (e.pinned && !bb.pinned) || (e.pinned == bb.pinned && (e.last_used_at
                        > bb.last_used_at || (e.last_used_at == bb.last_used_at && e.id > bb.id)))
                };
                proof {
                    if best < n && !better && x != best {
                        if rows[x as int].entry.id == rows[best as int].entry.id {
                            lemma_id_unique(rows, store@.last_id, x as int, best as int);
                        }
                        lemma_listed_before_order(rows[x as int].entry, rows[best as int].entry, rows[best as int].entry);
                    }
                }
                if better {
                    proof {
                        assert forall|c2: int|
                            0 <= c2 < c + 1 && (out@.len() == 0 || listed_before(rows[last as int].entry, rows[#[trigger] cand@[c2] as int].entry))
                                implies (cand@[c2] == x || listed_before(rows[x as int].entry, rows[cand@[c2] as int].entry)) by {
                            if c2 < c && cand@[c2] != x {
                                let y = cand@[c2];
                                if best < n {
                                    if y != best {
                                        lemma_listed_before_order(rows[x as int].entry, rows[best as int].entry, rows[y as int].entry);
                                    }
                                }
                            }
                        }
                    }
                    best = x;
                }
            }
            c = c + 1;
        }
        if best == n {
            proof {
                assert forall|j: int| 0 <= j < n && selected(#[trigger] rows[j].entry, term) implies listed(out@, rows[j].entry) by {
                    if !listed(out@, rows[j].entry) {
                        assert(cand@.contains(j as usize));
                        let t = choose|t: int| 0 <= t < cand@.len() && cand@[t] == j as usize;
                        assert(rows[cand@[t] as int].entry == rows[j].entry);
                    }
                }
            }
            done = true;
        } else {
        assert(rows[best as int] == store.rows@[best as int]@);
        let ghost pre = out@;
        let ghost old_last = last;
        let e = store.rows[best].entry.snapshot();
        out.push(e);
        proof {
            let b = best as int;
            assert(out@[out@.len() - 1]@ == rows[b].entry);
            assert forall|i2: int| 0 <= i2 < out@.len() implies exists|j: int|
                0 <= j < rows.len() && #[trigger] out@[i2]@ == rows[j].entry && selected(rows[j].entry, term) by {
                if i2 < pre.len() {
                    assert(out@[i2] == pre[i2]);
                } else {
                    assert(out@[i2]@ == rows[b].entry);
                }
            }
            assert forall|i2: int, k: int| 0 <= i2 < k < out@.len() implies listed_before(#[trigger] out@[i2]@, #[trigger] out@[k]@) by {
                assert(out@[i2] == pre[i2]);
                if k < pre.len() {
                    assert(out@[k] == pre[k]);
                } else {
                    if i2 < pre.len() - 1 {
                        assert(listed_before(pre[i2]@, pre[pre.len() - 1]@));
                        lemma_listed_before_order(pre[i2]@, pre[pre.len() - 1]@, rows[b].entry);
                    }
                }
            }
            assert forall|j: int| 0 <= j < n && listed(out@, #[trigger] rows[j].entry) implies !listed_before(rows[b].entry, rows[j].entry) by {
                let t = choose|t: int| 0 <= t < out@.len() && out@[t]@ == rows[j].entry;
                if t < pre.len() {
                    assert(out@[t] == pre[t]);
                    assert(listed(pre, rows[j].entry));
                    if pre.len() > 0 {
                        lemma_listed_before_order(rows[old_last as int].entry, rows[b].entry, rows[j].entry);
                    }
                    if t < pre.len() - 1 {
                        lemma_listed_before_order(pre[t]@, pre[pre.len() - 1]@, rows[b].entry);
                    }
                    lemma_listed_before_order(rows[b].entry, rows[j].entry, rows[j].entry);
                } else {
                    lemma_listed_before_order(rows[b].entry, rows[b].entry, rows[b].entry);
                }
            }
            assert forall|j: int| 0 <= j < n && selected(#[trigger] rows[j].entry, term) implies listed(out@, rows[j].entry)
                || listed_before(rows[b].entry, rows[j].entry) by {
                if listed(pre, rows[j].entry) {
                    let t = choose|t: int| 0 <= t < pre.len() && pre[t]@ == rows[j].entry;
                    assert(out@[t] == pre[t]);
                } else if j == b {
                    assert(out@[out@.len() - 1]@ == rows[j].entry);
                } else {
                    assert(cand@.contains(j as usize));
                    let t = choose|t: int| 0 <= t < cand@.len() && cand@[t] == j as usize;
                    assert(rows[cand@[t] as int].entry == rows[j].entry);
                    if rows[j].entry.id == rows[b].entry.id {
                        lemma_id_unique(rows, store@.last_id, j, b);
                    }
                }
            }
        }
        last = best;
        }
    }
    proof {
        assert forall|j: int|
            0 <= j < rows.len() && selected(#[trigger] rows[j].entry, term) && !listed(out@, rows[j].entry)
            implies out@.len() == clamp_limit(limit) && forall|i2: int|
                0 <= i2 < out@.len() ==> listed_before(#[trigger] out@[i2]@, rows[j].entry) by {
            assert(out@.len() > 0);
            assert forall|i2: int| 0 <= i2 < out@.len() implies listed_before(#[trigger] out@[i2]@, rows[j].entry) by {
                if i2 < out@.len() - 1 {
                    assert(listed_before(out@[i2]@, out@[out@.len() - 1]@));
                    lemma_listed_before_order(out@[i2]@, rows[last as int].entry, rows[j].entry);
                }
            }
        }
        let es = entry_views(out@);
        assert forall|i2: int| 0 <= i2 < es.len() implies exists|j: int|
            0 <= j < rows.len() && #[trigger] es[i2] == rows[j].entry && selected(rows[j].entry, term) by {
            assert(es[i2] == out@[i2]@);
        }
        assert forall|i2: int, k: int| 0 <= i2 < k < es.len() implies listed_before(#[trigger] es[i2], #[trigger] es[k]) by {
            assert(es[i2] == out@[i2]@);
            assert(es[k] == out@[k]@);
        }
        assert forall|j: int|
            0 <= j < rows.len() && selected(#[trigger] rows[j].entry, term) && !es.contains(rows[j].entry)
            implies es.len() == clamp_limit(limit) && forall|i2: int| 0 <= i2 < es.len() ==> listed_before(#[trigger] es[i2], rows[j].entry) by {
            if listed(out@, rows[j].entry) {
                let t = choose|t: int| 0 <= t < out@.len() && out@[t]@ == rows[j].entry;
                assert(es[t] == rows[j].entry);
            }
            assert forall|i2: int| 0 <= i2 < es.len() implies listed_before(#[trigger] es[i2], rows[j].entry) by {
                assert(es[i2] == out@[i2]@);
            }
        }
    }
    out
}

// ------------------------------------------------------------------- saving

/// The ids of the rows of `before` that `after` no longer holds, in order.
pub open spec fn ids_removed(before: Seq<RowView>, after: Seq<RowView>) -> Seq<i64>
    decreases before.len(),
{
    if before.len() == 0 {
        Seq::empty()
    } else {
        let rest = ids_removed(before.drop_last(), after);
        if has_id(after, before.last().entry.id) {
            rest
        } else {
            rest.push(before.last().entry.id)
        }
    }
}

/// The rows of `after` that `before` does not hold as they are, in order:
/// new rows and rows whose contents changed.
pub open spec fn rows_to_write(after: Seq<RowView>, before: Seq<RowView>) -> Seq<RowView>
    decreases after.len(),
{
    if after.len() == 0 {
        Seq::empty()
    } else {
        let rest = rows_to_write(after.drop_last(), before);
        if before.contains(after.last()) {
            rest
        } else {
            rest.push(after.last())
        }
    }
}

fn same_row(a: &Row, b: &Row) -> (r: bool)
    ensures
        r == (a@ == b@),
{
    a.entry.id == b.entry.id && a.entry.content_type == b.entry.content_type && a.entry.text
        == b.entry.text && a.entry.created_at == b.entry.created_at && a.entry.last_used_at
        == b.entry.last_used_at && a.entry.use_count == b.entry.use_count && a.entry.pinned
        == b.entry.pinned && a.content_hash == b.content_hash
}

/// Whether `store` holds `row` exactly.
fn holds_row(store: &Store, row: &Row) -> (r: bool)
    requires
        store.wf(),
    ensures
        r == store@.rows.contains(row@),
{
    match find_id(store, row.entry.id) {
        Some(i) => {
            assert(store@.rows[i as int] == store.rows@[i as int]@);
            let same = same_row(&store.rows[i], row);
            proof {
                if !same && store@.rows.contains(row@) {
                    let k = choose|k: int| 0 <= k < store@.rows.len() && store@.rows[k] == row@;
                    lemma_id_unique(store@.rows, store@.last_id, k, i as int);
                }
            }
            same
        },
        None => {
            proof {
                if store@.rows.contains(row@) {
                    let k = choose|k: int| 0 <= k < store@.rows.len() && store@.rows[k] == row@;
                    assert(store@.rows[k].entry.id == row.entry.id);
                }
            }
            false
        },
    }
}

/// What writing `after` over a database that holds `before` has to change
/// in the entries table: the ids of the rows to delete, and the rows to
/// insert or replace. The settings are few and are written whole.
pub fn row_changes(before: &Store, after: &Store) -> (r: (Vec<i64>, Vec<Row>))
    requires
        before.wf(),
        after.wf(),
    ensures
        r.0@ == ids_removed(before@.rows, after@.rows),
        rows_view(r.1@) == rows_to_write(after@.rows, before@.rows),
{
    let ghost b = before@.rows;
    let ghost a = after@.rows;
    let mut removed: Vec<i64> = Vec::new();
    let mut i: usize = 0;
    while i < before.rows.len()
        invariant
            i <= before.rows.len(),
            before.wf(),
            after.wf(),
            b == before@.rows,
            a == after@.rows,
            removed@ == ids_removed(b.take(i as int), a),
        decreases before.rows.len() - i,
    {
        assert(b[i as int] == before.rows@[i as int]@);
        proof {
            let t = b.take(i + 1);
            assert(t.drop_last() =~= b.take(i as int));
            assert(t.last() == b[i as int]);
        }
        match find_id(after, before.rows[i].entry.id) {
            Some(_) => {},
            None => removed.push(before.rows[i].entry.id),
        }
        i = i + 1;
    }
    assert(b.take(before.rows.len() as int) =~= b);
    let mut written: Vec<Row> = Vec::new();
    let mut j: usize = 0;
    while j < after.rows.len()
        invariant
            j <= after.rows.len(),
            before.wf(),
            after.wf(),
            b == before@.rows,
            a == after@.rows,
            rows_view(written@) == rows_to_write(a.take(j as int), b),
        decreases after.rows.len() - j,
    {
        assert(a[j as int] == after.rows@[j as int]@);
        proof {
            let t = a.take(j + 1);
            assert(t.drop_last() =~= a.take(j as int));
            assert(t.last() == a[j as int]);
        }
        if !holds_row(before, &after.rows[j]) {
            let ghost pre = written@;
            written.push(after.rows[j].snapshot());
            assert(rows_view(written@) =~= rows_view(pre).push(a[j as int]));
        }
        j = j + 1;
    }
    assert(a.take(after.rows.len() as int) =~= a);
    (removed, written)
}

proof fn lemma_ids_removed_contains(before: Seq<RowView>, after: Seq<RowView>, id: i64)
    ensures
        ids_removed(before, after).contains(id) <==> (has_id(before, id) && !has_id(after, id)),
    decreases before.len(),
{
    if before.len() > 0 {
        let b0 = before.drop_last();
        let rest = ids_removed(b0, after);
        lemma_ids_removed_contains(b0, after, id);
        let last = before.last();
        if !has_id(after, last.entry.id) {
            assert(ids_removed(before, after) == rest.push(last.entry.id));
            if rest.push(last.entry.id).contains(id) {
                let k = choose|k: int| 0 <= k < rest.len() + 1 && rest.push(last.entry.id)[k] == id;
                if k < rest.len() {
                    assert(rest[k] == id);
                }
            }
            if rest.contains(id) {
                let k = choose|k: int| 0 <= k < rest.len() && rest[k] == id;
                assert(rest.push(last.entry.id)[k] == id);
            }
            if id == last.entry.id {
                assert(rest.push(last.entry.id)[rest.len() as int] == id);
            }
        }
        if has_id(before, id) {
            let k = choose|k: int| 0 <= k < before.len() && before[k].entry.id == id;
            if k < b0.len() {
                assert(b0[k] == before[k]);
            }
        }
        if has_id(b0, id) {
            let k = choose|k: int| 0 <= k < b0.len() && b0[k].entry.id == id;
            assert(before[k] == b0[k]);
        }
    }
}

proof fn lemma_rows_to_write_contains(after: Seq<RowView>, before: Seq<RowView>, x: RowView)
    ensures
        rows_to_write(after, before).contains(x) <==> (after.contains(x) && !before.contains(x)),
    decreases after.len(),
{
    if after.len() > 0 {
        let a0 = after.drop_last();
        let rest = rows_to_write(a0, before);
        lemma_rows_to_write_contains(a0, before, x);
        let last = after.last();
        if !before.contains(last) {
            assert(rows_to_write(after, before) == rest.push(last));
            if rest.push(last).contains(x) {
                let k = choose|k: int| 0 <= k < rest.len() + 1 && rest.push(last)[k] == x;
                if k < rest.len() {
                    assert(rest[k] == x);
                }
            }
            if rest.contains(x) {
                let k = choose|k: int| 0 <= k < rest.len() && rest[k] == x;
                assert(rest.push(last)[k] == x);
            }
            if x == last {
                assert(rest.push(last)[rest.len() as int] == x);
            }
        }
        if after.contains(x) {
            let k = choose|k: int| 0 <= k < after.len() && after[k] == x;
            if k < a0.len() {
                assert(a0[k] == after[k]);
            }
        }
        if a0.contains(x) {
            let k = choose|k: int| 0 <= k < a0.len() && a0[k] == x;
            assert(after[k] == a0[k]);
        }
    }
}

/// Saving by the changes rebuilds the history: a row is in `after` exactly
/// when it is one of the rows written, or a row of `before` whose id is
/// neither deleted nor overwritten by a written row.
pub proof fn lemma_row_changes_rebuild(before: StoreView, after: StoreView, x: RowView)
    requires
        before.valid(),
        after.valid(),
    ensures
        after.rows.contains(x) <==> (rows_to_write(after.rows, before.rows).contains(x) || (
        before.rows.contains(x) && !ids_removed(before.rows, after.rows).contains(x.entry.id)
            && !has_id(rows_to_write(after.rows, before.rows), x.entry.id))),
{
    let a = after.rows;
    let b = before.rows;
    let w = rows_to_write(a, b);
    lemma_rows_to_write_contains(a, b, x);
    lemma_ids_removed_contains(b, a, x.entry.id);
    if a.contains(x) && b.contains(x) {
        let i = choose|i: int| 0 <= i < a.len() && a[i] == x;
        assert(has_id(a, x.entry.id));
        if has_id(w, x.entry.id) {
            let k = choose|k: int| 0 <= k < w.len() && w[k].entry.id == x.entry.id;
            let y = w[k];
            assert(w.contains(y));
            lemma_rows_to_write_contains(a, b, y);
            let j = choose|j: int| 0 <= j < a.len() && a[j] == y;
            lemma_id_unique(a, after.last_id, i, j);
        }
    }
    if b.contains(x) && !ids_removed(b, a).contains(x.entry.id) && !has_id(w, x.entry.id) {
        let i = choose|i: int| 0 <= i < b.len() && b[i] == x;
        assert(has_id(b, x.entry.id));
        let j = choose|j: int| 0 <= j < a.len() && a[j].entry.id == x.entry.id;
        let y = a[j];
        assert(a.contains(y));
        lemma_rows_to_write_contains(a, b, y);
        if y != x {
            if b.contains(y) {
                let m = choose|m: int| 0 <= m < b.len() && b[m] == y;
                lemma_id_unique(b, before.last_id, i, m);
            }
            assert(w.contains(y));
            let k = choose|k: int| 0 <= k < w.len() && w[k] == y;
            assert(w[k].entry.id == x.entry.id);
        }
    }
}

// --------------------------------------------------------------------- time

/// `std::time::SystemTime`, carried through opaquely: nothing is read from
/// inside it.
#[verifier::external_type_specification]
#[verifier::external_body]
pub struct ExSystemTime(std::time::SystemTime);

/// `std::time::SystemTime::now`: the current system time. Nothing is
/// promised of it.
#[verifier::external_body]
fn system_time_now() -> std::time::SystemTime {
    std::time::SystemTime::now()
}

/// `SystemTime::duration_since(UNIX_EPOCH)`: how long after the epoch `t`
/// lies, `None` when it lies before. Nothing more is promised: the value
/// comes from the clock.
#[verifier::external_body]
fn since_epoch(t: &std::time::SystemTime) -> Option<std::time::Duration> {
    match t.duration_since(std::time::UNIX_EPOCH) {
        Ok(d) => Some(d),
        Err(_) => None,
    }
}

/// `Duration::as_secs`: the whole seconds in `d`. Nothing is promised of
/// the value, since `Duration` is carried through opaquely.
#[verifier::external_body]
fn whole_seconds(d: &std::time::Duration) -> u64 {
    d.as_secs()
}

/// `s` read as a two's-complement `i64` (what `s as i64` gives).
pub open spec fn as_signed(s: u64) -> int {
    if s <= i64::MAX {
        s as int
    } else {
        s - 0x1_0000_0000_0000_0000
    }
}

/// The Unix time `seconds` reads as, in the database's integer type; 1 when
/// the clock stood before the epoch or within its first second, which keeps
/// 0 free as the "never" sentinel.
pub fn unix_time_from(seconds: Option<u64>) -> (r: i64)
    ensures
        r == match seconds {
            Some(s) => if s == 0 {
                1
            } else {
                as_signed(s)
            },
            None => 1,
        },
        r != 0,
{
    match seconds {
        Some(s) => if s == 0 {
            1
        } else if s <= i64::MAX as u64 {
            s as i64
        } else {
            -((u64::MAX - s) as i64) - 1
        },
        None => 1,
    }
}

/// Current Unix time in seconds (see [`unix_time_from`]). The value comes
/// from the system clock, so no clause states which it is; whatever the
/// clock reads, it is never 0, the "never" sentinel.
pub fn now_unix() -> (r: i64)
    ensures
        r != 0,
{
    let t = system_time_now();
    let seconds = match since_epoch(&t) {
        Some(d) => Some(whole_seconds(&d)),
        None => None,
    };
    unix_time_from(seconds)
}

// --------------------------------------------------------------------- laws

/// A capture poll that sees the same text again changes nothing: once a
/// text has been recorded at a time later than every stored use, recording
/// it again (at any time) answers `None` and leaves the store as it is.
pub proof fn lemma_repeat_observation_is_noop(
    v: StoreView,
    text: Seq<char>,
    hash: Seq<char>,
    now: i64,
    later: i64,
)
    requires
        v.valid(),
        forall|j: int| 0 <= j < v.rows.len() ==> #[trigger] v.rows[j].entry.last_used_at < now,
        upsert_spec(v, text, hash, now).0 is Ok,
    ensures
        upsert_spec(upsert_spec(v, text, hash, now).1, text, hash, later) == (
            Ok::<Option<EntryView>, Seq<char>>(None),
            upsert_spec(v, text, hash, now).1,
        ),
{
    let rows = v.rows;
    let v1 = upsert_spec(v, text, hash, now).1;
    if newest_has_hash(rows, hash) {
    } else if has_hash(rows, hash) {
        let i = index_of_hash(rows, hash);
        let n = v1.rows;
        assert(n[i].hash == hash);
        assert forall|j: int| 0 <= j < n.len() && j != i implies newer(n[i].entry, #[trigger] n[j].entry) by {
            assert(n[j] == rows[j]);
        }
        assert(is_newest(n, i));
        assert(newest_has_hash(n, hash));
    } else {
        let n = v1.rows;
        let k = rows.len() as int;
        assert(n[k].hash == hash);
        assert forall|j: int| 0 <= j < n.len() && j != k implies newer(n[k].entry, #[trigger] n[j].entry) by {
            assert(n[j] == rows[j]);
        }
        assert(is_newest(n, k));
        assert(newest_has_hash(n, hash));
    }
}

/// Copying a text that is already stored never adds a row: the existing
/// row is reused (or left alone when it is the newest).
pub proof fn lemma_duplicate_text_adds_no_row(v: StoreView, text: Seq<char>, hash: Seq<char>, now: i64)
    requires
        v.valid(),
        has_hash(v.rows, hash),
    ensures
        upsert_spec(v, text, hash, now).1.rows.len() == v.rows.len(),
        upsert_spec(v, text, hash, now).1.last_id == v.last_id,
{
}

/// Pinning twice gives the store back unchanged.
pub proof fn lemma_toggle_pin_twice(v: StoreView, id: i64)
    requires
        v.valid(),
    ensures
        toggled(toggled(v, id), id) == v,
{
    if has_id(v.rows, id) {
        let i = index_of_id(v.rows, id);
        let v1 = toggled(v, id);
        assert(v1.rows[i].entry.id == id);
        assert(has_id(v1.rows, id));
        let k = index_of_id(v1.rows, id);
        assert(v1.rows[k].entry.id == id);
        if k != i {
            assert(v1.rows[k] == v.rows[k]);
            lemma_id_unique(v.rows, v.last_id, k, i);
        }
        assert(toggled(v1, id).rows =~= v.rows);
    }
}

/// After a delete the entry is gone, and deleting it again removes nothing.
pub proof fn lemma_deleted_is_gone(v: StoreView, id: i64)
    requires
        v.valid(),
    ensures
        !has_id(deleted(v, id).rows, id),
        deleted(deleted(v, id), id) == deleted(v, id),
        deleted(v, id).rows.len() == v.rows.len() - (if has_id(v.rows, id) { 1int } else { 0int }),
{
    if has_id(v.rows, id) {
        let i = index_of_id(v.rows, id);
        let n = v.rows.remove(i);
        if has_id(n, id) {
            let k = choose|k: int| 0 <= k < n.len() && n[k].entry.id == id;
            let k1 = if k < i { k } else { k + 1 };
            assert(n[k] == v.rows[k1]);
            lemma_id_unique(v.rows, v.last_id, k1, i);
        }
    }
}

/// A stored setting reads back as stored (the default when the stored value
/// is empty), and storing it leaves every other setting alone.
pub proof fn lemma_setting_round_trip(v: StoreView, key: Seq<char>, value: Seq<char>, other: Seq<char>, default: Seq<char>)
    ensures
        setting_or(StoreView { settings: v.settings.insert(key, value), ..v }, key, default)
            == (if value.len() > 0 { value } else { default }),
        other != key ==> setting_or(StoreView { settings: v.settings.insert(key, value), ..v }, other, default)
            == setting_or(v, other, default),
{
}

/// `keep_rows` drops rows, never adds them.
proof fn lemma_count_over_kept(all: Seq<RowView>, keep: spec_fn(RowView) -> bool, e: EntryView)
    ensures
        newer_unpinned_count(keep_rows(all, keep), e) <= newer_unpinned_count(all, e),
    decreases all.len(),
{
    if all.len() > 0 {
        lemma_count_over_kept(all.drop_last(), keep, e);
        if keep(all.last()) {
            assert(keep_rows(all, keep).drop_last() =~= keep_rows(all.drop_last(), keep));
        }
    }
}

/// Every unpinned row used more recently than `b` is used more recently
/// than `a` when `b` is, and `b` itself counts for `a`.
proof fn lemma_count_monotone(all: Seq<RowView>, a: EntryView, b: EntryView)
    requires
        newer(b, a),
    ensures
        newer_unpinned_count(all, a) >= newer_unpinned_count(all, b),
        (exists|j: int| 0 <= j < all.len() && all[j].entry == b && !b.pinned) ==> newer_unpinned_count(all, a) >= newer_unpinned_count(all, b) + 1,
    decreases all.len(),
{
    if all.len() > 0 {
        let r = all.drop_last();
        lemma_count_monotone(r, a, b);
        if exists|j: int| 0 <= j < all.len() && all[j].entry == b && !b.pinned {
            let j = choose|j: int| 0 <= j < all.len() && all[j].entry == b && !b.pinned;
            if j < all.len() - 1 {
                assert(r[j] == all[j]);
            }
        }
    }
}

/// Trimming keeps every pinned entry, keeps only stored rows, and the
/// unpinned entries it keeps were all used more recently than every
/// unpinned entry it drops.
pub proof fn lemma_trim_keeps_pinned_and_newest(v: StoreView, max_items: i64)
    requires
        v.valid(),
    ensures
        rows_valid(trimmed_rows(v.rows, max_items), v.last_id),
        forall|j: int|
            0 <= j < v.rows.len() && (#[trigger] v.rows[j]).entry.pinned ==> trimmed_rows(
                v.rows,
                max_items,
            ).contains(v.rows[j]),
        forall|a: int|
            0 <= a < trimmed_rows(v.rows, max_items).len() ==> v.rows.contains(
                #[trigger] trimmed_rows(v.rows, max_items)[a],
            ),
        forall|a: int, b: int|
            0 <= a < v.rows.len() && 0 <= b < v.rows.len() && !v.rows[a].entry.pinned
                && !v.rows[b].entry.pinned && trimmed_rows(v.rows, max_items).contains(
                #[trigger] v.rows[a],
            ) && !trimmed_rows(v.rows, max_items).contains(#[trigger] v.rows[b]) ==> newer(
                v.rows[a].entry,
                v.rows[b].entry,
            ),
{
    let cap = trim_cap(max_items);
    let keep = trim_keep(v.rows, cap);
    let t = trimmed_rows(v.rows, max_items);
    lemma_keep_rows(v.rows, keep, v.last_id);
    assert forall|a: int| 0 <= a < t.len() implies v.rows.contains(#[trigger] t[a]) by {
        let b = choose|b: int| 0 <= b < v.rows.len() && #[trigger] t[a] == v.rows[b] && keep(v.rows[b]);
    }
    assert forall|a: int, b: int|
        0 <= a < v.rows.len() && 0 <= b < v.rows.len() && !v.rows[a].entry.pinned
            && !v.rows[b].entry.pinned && t.contains(#[trigger] v.rows[a]) && !t.contains(
            #[trigger] v.rows[b],
        ) implies newer(v.rows[a].entry, v.rows[b].entry) by {
        // a is kept, so it passed `keep`; b was dropped, so it failed it.
        let x = choose|x: int| 0 <= x < t.len() && t[x] == v.rows[a];
        let y = choose|y: int| 0 <= y < v.rows.len() && #[trigger] t[x] == v.rows[y] && keep(v.rows[y]);
        assert(keep(v.rows[a]));
        assert(!keep(v.rows[b]));
        if a == b {
        } else {
            if v.rows[a].entry.id == v.rows[b].entry.id {
                lemma_id_unique(v.rows, v.last_id, a, b);
            }
            if newer(v.rows[b].entry, v.rows[a].entry) {
                lemma_count_monotone(v.rows, v.rows[a].entry, v.rows[b].entry);
            }
        }
    }
}

pub open spec fn unpinned_keep() -> spec_fn(RowView) -> bool {
    |r: RowView| !r.entry.pinned
}

/// The unpinned rows, in their order.
pub open spec fn unpinned_rows(rows: Seq<RowView>) -> Seq<RowView> {
    keep_rows(rows, unpinned_keep())
}

/// How many rows hold entry `e`.
spec fn occurrences(xs: Seq<RowView>, e: EntryView) -> nat
    decreases xs.len(),
{
    if xs.len() == 0 {
        0
    } else {
        occurrences(xs.drop_last(), e) + (if xs.last().entry == e {
            1nat
        } else {
            0nat
        })
    }
}

proof fn lemma_occurrences_at_most_one(xs: Seq<RowView>, last_id: i64, e: EntryView)
    requires
        rows_valid(xs, last_id),
    ensures
        occurrences(xs, e) <= 1,
        occurrences(xs, e) == 1 ==> exists|j: int| 0 <= j < xs.len() && xs[j].entry == e,
    decreases xs.len(),
{
    if xs.len() > 0 {
        let r = xs.drop_last();
        assert(rows_valid(r, last_id)) by {
            assert forall|a: int, b: int| 0 <= a < b < r.len() implies #[trigger] r[a].entry.id
                < #[trigger] r[b].entry.id by {
                assert(r[a] == xs[a] && r[b] == xs[b]);
            }
            assert forall|a: int| 0 <= a < r.len() implies 1 <= #[trigger] r[a].entry.id
                <= last_id by {
                assert(r[a] == xs[a]);
            }
            assert forall|a: int, b: int|
                0 <= a < r.len() && 0 <= b < r.len() && a != b implies #[trigger] r[a].hash
                != #[trigger] r[b].hash by {
                assert(r[a] == xs[a] && r[b] == xs[b]);
            }
        }
        lemma_occurrences_at_most_one(r, last_id, e);
        if occurrences(r, e) == 1 && xs.last().entry == e {
            let j = choose|j: int| 0 <= j < r.len() && r[j].entry == e;
            assert(xs[j].entry.id < xs[xs.len() - 1].entry.id);
        }
        if occurrences(r, e) == 1 {
            let j = choose|j: int| 0 <= j < r.len() && r[j].entry == e;
            assert(xs[j] == r[j]);
        }
    }
}

/// When every row is unpinned and either holds `e` or was used more recently,
/// the rows used more recently are all rows but those holding `e`.
proof fn lemma_count_all_newer(xs: Seq<RowView>, e: EntryView)
    requires
        forall|j: int|
            0 <= j < xs.len() ==> !(#[trigger] xs[j]).entry.pinned && (xs[j].entry == e || newer(
                xs[j].entry,
                e,
            )),
    ensures
        newer_unpinned_count(xs, e) + occurrences(xs, e) == xs.len(),
    decreases xs.len(),
{
    if xs.len() > 0 {
        let r = xs.drop_last();
        assert forall|j: int| 0 <= j < r.len() implies !(#[trigger] r[j]).entry.pinned && (r[j].entry
            == e || newer(r[j].entry, e)) by {
            assert(r[j] == xs[j]);
        }
        lemma_count_all_newer(r, e);
        assert(!xs[xs.len() - 1].entry.pinned);
    }
}

/// A non-empty set of rows with distinct ids has a least recently used row.
proof fn lemma_oldest_exists(xs: Seq<RowView>, last_id: i64) -> (o: int)
    requires
        rows_valid(xs, last_id),
        xs.len() > 0,
    ensures
        0 <= o < xs.len(),
        forall|x: int| 0 <= x < xs.len() && x != o ==> newer(#[trigger] xs[x].entry, xs[o].entry),
    decreases xs.len(),
{
    if xs.len() == 1 {
        0
    } else {
        let r = xs.drop_last();
        assert(rows_valid(r, last_id)) by {
            assert forall|a: int, b: int| 0 <= a < b < r.len() implies #[trigger] r[a].entry.id
                < #[trigger] r[b].entry.id by {
                assert(r[a] == xs[a] && r[b] == xs[b]);
            }
            assert forall|a: int| 0 <= a < r.len() implies 1 <= #[trigger] r[a].entry.id
                <= last_id by {
                assert(r[a] == xs[a]);
            }
            assert forall|a: int, b: int|
                0 <= a < r.len() && 0 <= b < r.len() && a != b implies #[trigger] r[a].hash
                != #[trigger] r[b].hash by {
                assert(r[a] == xs[a] && r[b] == xs[b]);
            }
        }
        let o1 = lemma_oldest_exists(r, last_id);
        let l = xs.len() - 1;
        assert(xs[o1] == r[o1]);
        assert(xs[o1].entry.id < xs[l].entry.id);
        if newer(xs[o1].entry, xs[l].entry) {
            assert forall|x: int| 0 <= x < xs.len() && x != l implies newer(#[trigger] xs[x].entry, xs[l].entry) by {
                if x != o1 {
                    assert(xs[x] == r[x]);
                }
            }
            l
        } else {
            assert forall|x: int| 0 <= x < xs.len() && x != o1 implies newer(#[trigger] xs[x].entry, xs[o1].entry) by {
                if x != l {
                    assert(xs[x] == r[x]);
                }
            }
            o1
        }
    }
}

/// Trimming leaves at most `max(max_items, 1)` unpinned entries.
pub proof fn lemma_trim_respects_cap(v: StoreView, max_items: i64)
    requires
        v.valid(),
    ensures
        unpinned_rows(trimmed_rows(v.rows, max_items)).len() <= trim_cap(max_items),
{
    let cap = trim_cap(max_items);
    let keep = trim_keep(v.rows, cap);
    let t = trimmed_rows(v.rows, max_items);
    lemma_keep_rows(v.rows, keep, v.last_id);
    lemma_keep_rows(t, unpinned_keep(), v.last_id);
    let u = unpinned_rows(t);
    if u.len() > 0 {
        let o = lemma_oldest_exists(u, v.last_id);
        let e = u[o].entry;
        // u[o] is a kept row of v, so fewer than `cap` unpinned rows are newer.
        let x = choose|x: int| 0 <= x < t.len() && #[trigger] u[o] == t[x] && unpinned_keep()(t[x]);
        let y = choose|y: int| 0 <= y < v.rows.len() && #[trigger] t[x] == v.rows[y] && keep(v.rows[y]);
        assert(newer_unpinned_count(v.rows, e) < cap);
        lemma_count_over_kept(v.rows, keep, e);
        lemma_count_over_kept(t, unpinned_keep(), e);
        assert forall|j: int| 0 <= j < u.len() implies !(#[trigger] u[j]).entry.pinned && (u[j].entry == e
            || newer(u[j].entry, e)) by {
            let x2 = choose|x2: int| 0 <= x2 < t.len() && #[trigger] u[j] == t[x2] && unpinned_keep()(t[x2]);
        }
        lemma_count_all_newer(u, e);
        lemma_occurrences_at_most_one(u, v.last_id, e);
    }
}

/// A copy recorded at a time later than every stored use makes its entry
/// the most recently used one.
pub proof fn lemma_upsert_makes_newest(v: StoreView, text: Seq<char>, hash: Seq<char>, now: i64)
    requires
        v.valid(),
        forall|j: int| 0 <= j < v.rows.len() ==> #[trigger] v.rows[j].entry.last_used_at < now,
        upsert_spec(v, text, hash, now).0 matches Ok(Some(_)),
    ensures
        exists|k: int|
            is_newest(upsert_spec(v, text, hash, now).1.rows, k) && upsert_spec(v, text, hash, now).1.rows[k].entry
                == upsert_spec(v, text, hash, now).0->Ok_0->Some_0,
{
    let rows = v.rows;
    let n = upsert_spec(v, text, hash, now).1.rows;
    if has_hash(rows, hash) {
        let i = index_of_hash(rows, hash);
        assert forall|j: int| 0 <= j < n.len() && j != i implies newer(n[i].entry, #[trigger] n[j].entry) by {
            assert(n[j] == rows[j]);
        }
        assert(is_newest(n, i));
    } else {
        let k = rows.len() as int;
        assert forall|j: int| 0 <= j < n.len() && j != k implies newer(n[k].entry, #[trigger] n[j].entry) by {
            assert(n[j] == rows[j]);
        }
        assert(is_newest(n, k));
    }
}

/// With nothing pinned, an unfiltered listing starts with the most recently
/// used entry.
pub proof fn lemma_newest_listed_first(rows: Seq<RowView>, cap: int, es: Seq<EntryView>, k: int)
    requires
        listing_ok(rows, None, cap, es),
        cap >= 1,
        forall|j: int| 0 <= j < rows.len() ==> !(#[trigger] rows[j]).entry.pinned,
        is_newest(rows, k),
    ensures
        es.len() > 0,
        es[0] == rows[k].entry,
{
    assert(selected(rows[k].entry, None));
    if !es.contains(rows[k].entry) {
        assert(es.len() == cap);
        assert(listed_before(es[0], rows[k].entry));
        let j = choose|j: int| 0 <= j < rows.len() && #[trigger] es[0] == rows[j].entry && selected(rows[j].entry, None);
        if j != k {
            assert(newer(rows[k].entry, rows[j].entry));
            assert(!rows[j].entry.pinned);
        }
    }
    let t = choose|t: int| 0 <= t < es.len() && es[t] == rows[k].entry;
    if t > 0 {
        assert(listed_before(es[0], es[t]));
        let j = choose|j: int| 0 <= j < rows.len() && #[trigger] es[0] == rows[j].entry && selected(rows[j].entry, None);
        if j != k {
            assert(newer(rows[k].entry, rows[j].entry));
            assert(!rows[j].entry.pinned);
        }
    }
}

/// With nothing pinned, a text copied (or copied again after something
/// else) at a time later than every stored use heads the unfiltered list.
pub proof fn lemma_copied_entry_listed_first(
    v: StoreView,
    text: Seq<char>,
    hash: Seq<char>,
    now: i64,
    cap: int,
    es: Seq<EntryView>,
)
    requires
        v.valid(),
        forall|j: int| 0 <= j < v.rows.len() ==> #[trigger] v.rows[j].entry.last_used_at < now,
        forall|j: int| 0 <= j < v.rows.len() ==> !(#[trigger] v.rows[j]).entry.pinned,
        upsert_spec(v, text, hash, now).0 matches Ok(Some(_)),
        listing_ok(upsert_spec(v, text, hash, now).1.rows, None, cap, es),
        cap >= 1,
    ensures
        es.len() > 0,
        es[0] == upsert_spec(v, text, hash, now).0->Ok_0->Some_0,
{
    let n = upsert_spec(v, text, hash, now).1.rows;
    lemma_upsert_makes_newest(v, text, hash, now);
    let k = choose|k: int| is_newest(n, k) && n[k].entry == upsert_spec(v, text, hash, now).0->Ok_0->Some_0;
    assert forall|j: int| 0 <= j < n.len() implies !(#[trigger] n[j]).entry.pinned by {
        if j < v.rows.len() {
            if has_hash(v.rows, hash) && j == index_of_hash(v.rows, hash) {
            } else {
                assert(n[j] == v.rows[j]);
            }
        }
    }
    lemma_newest_listed_first(n, cap, es, k);
}

proof fn lemma_keep_rows_is_filter(rows: Seq<RowView>, keep: spec_fn(RowView) -> bool)
    ensures
        keep_rows(rows, keep) == rows.filter(keep),
    decreases rows.len(),
{
    reveal(Seq::filter);
    if rows.len() > 0 {
        lemma_keep_rows_is_filter(rows.drop_last(), keep);
    }
}

/// Clearing the history while sparing pinned entries keeps exactly the
/// pinned entries: every entry left is pinned, every pinned entry is left,
/// in their order, and so the pinned count counts exactly the entries whose
/// pin is set.
pub proof fn lemma_clear_keeps_exactly_pinned(v: StoreView)
    requires
        v.valid(),
    ensures
        pinned_rows(v.rows) == v.rows.filter(|r: RowView| r.entry.pinned),
        forall|a: int| 0 <= a < pinned_rows(v.rows).len() ==> (#[trigger] pinned_rows(v.rows)[a]).entry.pinned
            && v.rows.contains(pinned_rows(v.rows)[a]),
        forall|j: int| 0 <= j < v.rows.len() && (#[trigger] v.rows[j]).entry.pinned ==> pinned_rows(
            v.rows,
        ).contains(v.rows[j]),
{
    lemma_keep_rows(v.rows, pinned_keep(), v.last_id);
    lemma_keep_rows_is_filter(v.rows, pinned_keep());
    assert(pinned_keep() =~= (|r: RowView| r.entry.pinned));
    let p = pinned_rows(v.rows);
    assert forall|a: int| 0 <= a < p.len() implies (#[trigger] p[a]).entry.pinned && v.rows.contains(p[a]) by {
        let b = choose|b: int| 0 <= b < v.rows.len() && #[trigger] p[a] == v.rows[b] && pinned_keep()(v.rows[b]);
    }
}

/// A searched listing shows only entries whose text contains the trimmed
/// query, ignoring case, pinned entries included; and every such entry is
/// shown unless the listing is full.
pub proof fn lemma_listing_matches_query(rows: Seq<RowView>, q: Seq<char>, cap: int, es: Seq<EntryView>)
    requires
        crate::text::trim(q).len() > 0,
        listing_ok(rows, search_term(Some(q)), cap, es),
    ensures
        forall|i: int| 0 <= i < es.len() ==> contains_ci((#[trigger] es[i]).text, crate::text::trim(q)),
        forall|j: int|
            0 <= j < rows.len() && contains_ci((#[trigger] rows[j]).entry.text, crate::text::trim(q))
                && !es.contains(rows[j].entry) ==> es.len() == cap,
{
    let term = search_term(Some(q));
    assert(term == Some(crate::text::trim(q)));
    assert forall|i: int| 0 <= i < es.len() implies contains_ci((#[trigger] es[i]).text, crate::text::trim(q)) by {
        let j = choose|j: int| 0 <= j < rows.len() && #[trigger] es[i] == rows[j].entry && selected(rows[j].entry, term);
    }
    assert forall|j: int|
        0 <= j < rows.len() && contains_ci((#[trigger] rows[j]).entry.text, crate::text::trim(q))
            && !es.contains(rows[j].entry) implies es.len() == cap by {
        assert(selected(rows[j].entry, term));
    }
}

/// Copying a stored text again (when it is not already the newest entry)
/// changes only when and how often its entry was used: the last use becomes
/// `now`, the use count grows by one, and the id, kind, text, creation time
/// and pin stay; every other row, the settings and the id counter stay too.
pub proof fn lemma_reuse_touches_only_use(v: StoreView, text: Seq<char>, hash: Seq<char>, now: i64)
    requires
        v.valid(),
        has_hash(v.rows, hash),
        upsert_spec(v, text, hash, now).0 matches Ok(Some(_)),
    ensures
        ({
            let i = index_of_hash(v.rows, hash);
            let old = v.rows[i].entry;
            let e = upsert_spec(v, text, hash, now).0->Ok_0->Some_0;
            let n = upsert_spec(v, text, hash, now).1;
            &&& e.id == old.id
            &&& e.content_type == old.content_type
            &&& e.text == old.text
            &&& e.created_at == old.created_at
            &&& e.pinned == old.pinned
            &&& e.last_used_at == now
            &&& e.use_count == old.use_count + 1
            &&& n.rows.len() == v.rows.len()
            &&& n.rows[i].entry == e
            &&& n.rows[i].hash == v.rows[i].hash
            &&& forall|j: int| 0 <= j < v.rows.len() && j != i ==> n.rows[j] == v.rows[j]
            &&& n.settings == v.settings
            &&& n.last_id == v.last_id
        }),
{
}

/// Copying a text not stored yet adds one row at the end: a new text entry
/// with the next id, created and last used at `now`, used once, not pinned,
/// stored under `hash`; the rows before it stay.
pub proof fn lemma_new_text_adds_fresh_row(v: StoreView, text: Seq<char>, hash: Seq<char>, now: i64)
    requires
        v.valid(),
        !has_hash(v.rows, hash),
        upsert_spec(v, text, hash, now).0 matches Ok(Some(_)),
    ensures
        ({
            let e = upsert_spec(v, text, hash, now).0->Ok_0->Some_0;
            let n = upsert_spec(v, text, hash, now).1;
            &&& e.id == v.last_id + 1
            &&& e.content_type == "text"@
            &&& e.text == text
            &&& e.created_at == now
            &&& e.last_used_at == now
            &&& e.use_count == 1
            &&& !e.pinned
            &&& n.rows.len() == v.rows.len() + 1
            &&& n.rows.last().entry == e
            &&& n.rows.last().hash == hash
            &&& forall|j: int| 0 <= j < v.rows.len() ==> n.rows[j] == v.rows[j]
            &&& n.last_id == v.last_id + 1
            &&& n.settings == v.settings
        }),
{
    if newest_has_hash(v.rows, hash) {
        let i = choose|i: int| is_newest(v.rows, i) && v.rows[i].hash == hash;
        assert(has_hash(v.rows, hash));
    }
}

proof fn lemma_count_zero(all: Seq<RowView>, e: EntryView)
    requires
        forall|j: int| 0 <= j < all.len() ==> !newer((#[trigger] all[j]).entry, e),
    ensures
        newer_unpinned_count(all, e) == 0,
    decreases all.len(),
{
    if all.len() > 0 {
        let r = all.drop_last();
        assert forall|j: int| 0 <= j < r.len() implies !newer((#[trigger] r[j]).entry, e) by {
            assert(r[j] == all[j]);
        }
        lemma_count_zero(r, e);
        assert(!newer(all[all.len() - 1].entry, e));
    }
}

proof fn lemma_keep_contains(rows: Seq<RowView>, keep: spec_fn(RowView) -> bool, b: int)
    requires
        0 <= b < rows.len(),
        keep(rows[b]),
    ensures
        keep_rows(rows, keep).contains(rows[b]),
    decreases rows.len(),
{
    let r0 = rows.drop_last();
    let k0 = keep_rows(r0, keep);
    if b < rows.len() - 1 {
        assert(r0[b] == rows[b]);
        lemma_keep_contains(r0, keep, b);
        if keep(rows.last()) {
            let t = choose|t: int| 0 <= t < k0.len() && k0[t] == rows[b];
            assert(k0.push(rows.last())[t] == rows[b]);
        }
    } else {
        assert(k0.push(rows.last())[k0.len() as int] == rows[b]);
    }
}

/// Trimming never drops the most recently used row.
pub(crate) proof fn lemma_trim_keeps_newest_row(rows: Seq<RowView>, max_items: i64, k: int)
    requires
        is_newest(rows, k),
    ensures
        trimmed_rows(rows, max_items).contains(rows[k]),
{
    assert forall|j: int| 0 <= j < rows.len() implies !newer((#[trigger] rows[j]).entry, rows[k].entry) by {
        if j != k {
            assert(newer(rows[k].entry, rows[j].entry));
        }
    }
    lemma_count_zero(rows, rows[k].entry);
    lemma_keep_contains(rows, trim_keep(rows, trim_cap(max_items)), k);
}

proof fn lemma_keep_rows_push(rows: Seq<RowView>, x: RowView, keep: spec_fn(RowView) -> bool)
    ensures
        keep_rows(rows.push(x), keep) == (if keep(x) {
            keep_rows(rows, keep).push(x)
        } else {
            keep_rows(rows, keep)
        }),
{
    assert(rows.push(x).drop_last() =~= rows);
    assert(rows.push(x).last() == x);
}

/// Keeping by `p1` and then by `p2` keeps no more than keeping by `p2`;
/// exactly as many when every row `p2` accepts passes `p1`, and fewer when
/// one does not.
proof fn lemma_nested_keep(rows: Seq<RowView>, p1: spec_fn(RowView) -> bool, p2: spec_fn(RowView) -> bool)
    ensures
        keep_rows(keep_rows(rows, p1), p2).len() <= keep_rows(rows, p2).len(),
        (forall|j: int| 0 <= j < rows.len() && p2(#[trigger] rows[j]) ==> p1(rows[j])) ==> keep_rows(
            keep_rows(rows, p1),
            p2,
        ).len() == keep_rows(rows, p2).len(),
        (exists|j: int| 0 <= j < rows.len() && p2(#[trigger] rows[j]) && !p1(rows[j])) ==> keep_rows(
            keep_rows(rows, p1),
            p2,
        ).len() < keep_rows(rows, p2).len(),
    decreases rows.len(),
{
    if rows.len() > 0 {
        let r0 = rows.drop_last();
        let x = rows.last();
        lemma_nested_keep(r0, p1, p2);
        assert(rows =~= r0.push(x));
        lemma_keep_rows_push(r0, x, p1);
        lemma_keep_rows_push(r0, x, p2);
        lemma_keep_rows_push(keep_rows(r0, p1), x, p2);
        if forall|j: int| 0 <= j < rows.len() && p2(#[trigger] rows[j]) ==> p1(rows[j]) {
            assert forall|j: int| 0 <= j < r0.len() && p2(#[trigger] r0[j]) implies p1(r0[j]) by {
                assert(r0[j] == rows[j]);
            }
            assert(p2(rows[rows.len() - 1]) ==> p1(rows[rows.len() - 1]));
        }
        if exists|j: int| 0 <= j < rows.len() && p2(#[trigger] rows[j]) && !p1(rows[j]) {
            let j = choose|j: int| 0 <= j < rows.len() && p2(#[trigger] rows[j]) && !p1(rows[j]);
            if j < r0.len() {
                assert(r0[j] == rows[j]);
            }
        }
    }
}

proof fn lemma_keep_all(rows: Seq<RowView>, keep: spec_fn(RowView) -> bool)
    requires
        forall|j: int| 0 <= j < rows.len() ==> keep(#[trigger] rows[j]),
    ensures
        keep_rows(rows, keep) == rows,
    decreases rows.len(),
{
    if rows.len() > 0 {
        let r0 = rows.drop_last();
        assert forall|j: int| 0 <= j < r0.len() implies keep(#[trigger] r0[j]) by {
            assert(r0[j] == rows[j]);
        }
        lemma_keep_all(r0, keep);
        assert(keep(rows[rows.len() - 1]));
        assert(r0.push(rows.last()) =~= rows);
    }
}

/// Keeping every unpinned row used more recently than `e` keeps the count.
proof fn lemma_count_preserved(all: Seq<RowView>, keep: spec_fn(RowView) -> bool, e: EntryView)
    requires
        forall|j: int| 0 <= j < all.len() && !(#[trigger] all[j]).entry.pinned && newer(all[j].entry, e) ==> keep(all[j]),
    ensures
        newer_unpinned_count(keep_rows(all, keep), e) == newer_unpinned_count(all, e),
    decreases all.len(),
{
    if all.len() > 0 {
        let r0 = all.drop_last();
        assert forall|j: int| 0 <= j < r0.len() && !(#[trigger] r0[j]).entry.pinned && newer(r0[j].entry, e) implies keep(r0[j]) by {
            assert(r0[j] == all[j]);
        }
        lemma_count_preserved(r0, keep, e);
        let x = all.last();
        assert(!x.entry.pinned && newer(x.entry, e) ==> keep(all[all.len() - 1]));
        if keep(x) {
            let k = keep_rows(r0, keep).push(x);
            assert(k.drop_last() =~= keep_rows(r0, keep));
        }
    }
}

proof fn lemma_count_le_unpinned(xs: Seq<RowView>, e: EntryView)
    ensures
        newer_unpinned_count(xs, e) <= keep_rows(xs, unpinned_keep()).len(),
    decreases xs.len(),
{
    if xs.len() > 0 {
        lemma_count_le_unpinned(xs.drop_last(), e);
    }
}

/// Among the unpinned rows that `trim` drops, one with the fewest unpinned
/// rows used more recently.
proof fn lemma_min_dropped(rows: Seq<RowView>, keep: spec_fn(RowView) -> bool, j: int) -> (d: int)
    requires
        0 <= j < rows.len(),
        !rows[j].entry.pinned,
        !keep(rows[j]),
    ensures
        0 <= d < rows.len(),
        !rows[d].entry.pinned,
        !keep(rows[d]),
        forall|x: int|
            0 <= x < rows.len() && !(#[trigger] rows[x]).entry.pinned && !keep(rows[x]) ==> newer_unpinned_count(
                rows,
                rows[x].entry,
            ) >= newer_unpinned_count(rows, rows[d].entry),
    decreases newer_unpinned_count(rows, rows[j].entry),
{
    if exists|x: int|
        0 <= x < rows.len() && !(#[trigger] rows[x]).entry.pinned && !keep(rows[x]) && newer_unpinned_count(
            rows,
            rows[x].entry,
        ) < newer_unpinned_count(rows, rows[j].entry) {
        let x = choose|x: int|
            0 <= x < rows.len() && !(#[trigger] rows[x]).entry.pinned && !keep(rows[x]) && newer_unpinned_count(
                rows,
                rows[x].entry,
            ) < newer_unpinned_count(rows, rows[j].entry);
        lemma_min_dropped(rows, keep, x)
    } else {
        j
    }
}

/// Trimming keeps exactly `min(u, max(max_items, 1))` unpinned entries,
/// where `u` is how many unpinned entries the history held: pinned entries
/// never count towards the cap. In particular nothing is removed while at
/// most that many unpinned entries are stored.
pub proof fn lemma_trim_keeps_min_unpinned(v: StoreView, max_items: i64)
    requires
        v.valid(),
    ensures
        ({
            let cap: int = if max_items < 1 { 1 } else { max_items as int };
            let u: int = v.rows.filter(|r: RowView| !r.entry.pinned).len() as int;
            &&& trimmed_rows(v.rows, max_items).filter(|r: RowView| !r.entry.pinned).len() == (if u < cap {
                u
            } else {
                cap
            })
            &&& u <= cap ==> trimmed_rows(v.rows, max_items) == v.rows
        }),
{
    let rows = v.rows;
    let cap = trim_cap(max_items);
    let keep = trim_keep(rows, cap);
    let t = trimmed_rows(rows, max_items);
    let up = unpinned_keep();
    assert(up =~= (|r: RowView| !r.entry.pinned));
    lemma_keep_rows_is_filter(rows, up);
    lemma_keep_rows_is_filter(t, up);
    let uu = keep_rows(rows, up);
    let kk = keep_rows(t, up);
    lemma_nested_keep(rows, keep, up);
    lemma_trim_respects_cap(v, max_items);
    if exists|j: int| 0 <= j < rows.len() && up(#[trigger] rows[j]) && !keep(rows[j]) {
        let j = choose|j: int| 0 <= j < rows.len() && up(#[trigger] rows[j]) && !keep(rows[j]);
        let d = lemma_min_dropped(rows, keep, j);
        let e = rows[d].entry;
        assert forall|x: int| 0 <= x < rows.len() && !(#[trigger] rows[x]).entry.pinned && newer(rows[x].entry, e) implies keep(rows[x]) by {
            lemma_count_monotone(rows, e, rows[x].entry);
            assert(rows[x].entry == rows[x].entry);
        }
        lemma_count_preserved(rows, keep, e);
        lemma_count_le_unpinned(t, e);
        assert(newer_unpinned_count(rows, e) >= cap);
        assert(kk.len() == cap);
    } else {
        assert forall|j: int| 0 <= j < rows.len() implies keep(#[trigger] rows[j]) by {
            if !rows[j].entry.pinned {
                assert(up(rows[j]));
            }
        }
        lemma_keep_all(rows, keep);
    }
}

} // verus!
