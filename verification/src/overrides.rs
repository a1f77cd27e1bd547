//! Feature-override records and their store.
//!
//! A record is keyed by its pronunciation: a write with an existing key
//! replaces the whole record (upsert), a write with a fresh key inserts it;
//! there is no record history and no delete.  `updated_at` orders records
//! for export and serves as the sync cursor.

use vstd::prelude::*;

verus! {

broadcast use vstd::seq_lib::group_filter_ensures, vstd::seq_lib::group_to_multiset_ensures;

/// Earliest timestamp a record may carry.
pub const MIN_TIMESTAMP: i64 = 0;

/// Latest timestamp a record may carry, the last second of year 9999:
/// later values do not name a representable calendar time.
pub const MAX_TIMESTAMP: i64 = 253_402_300_799;

/// A stored feature-override record.  Times are seconds since the epoch.
#[derive(Debug)]
pub struct FeatureOverride {
    pub pronunciation: String,
    pub fixed_bits1: i64,
    pub fixed_bits2: i64,
    pub fixed_burst_bits: i64,
    pub created_at: i64,
    pub updated_at: i64,
    pub note: Option<String>,
}

/// Mathematical image of a [`FeatureOverride`].
pub ghost struct FeatureOverrideV {
    pub pronunciation: Seq<char>,
    pub fixed_bits1: int,
    pub fixed_bits2: int,
    pub fixed_burst_bits: int,
    pub created_at: int,
    pub updated_at: int,
    pub note: Option<Seq<char>>,
}

impl View for FeatureOverride {
    type V = FeatureOverrideV;

    open spec fn view(&self) -> FeatureOverrideV {
        FeatureOverrideV {
            pronunciation: self.pronunciation@,
            fixed_bits1: self.fixed_bits1 as int,
            fixed_bits2: self.fixed_bits2 as int,
            fixed_burst_bits: self.fixed_burst_bits as int,
            created_at: self.created_at as int,
            updated_at: self.updated_at as int,
            note: match self.note {
                Some(ref s) => Some(s@),
                None => None,
            },
        }
    }
}

impl FeatureOverride {
    /// A field-for-field copy whose mathematical value equals the original's.
    pub fn duplicate(&self) -> (r: FeatureOverride)
        ensures
            r@ == self@,
    {
        FeatureOverride {
            pronunciation: self.pronunciation.clone(),
            fixed_bits1: self.fixed_bits1,
            fixed_bits2: self.fixed_bits2,
            fixed_burst_bits: self.fixed_burst_bits,
            created_at: self.created_at,
            updated_at: self.updated_at,
            note: match self.note {
                Some(ref s) => Some(s.clone()),
                None => None,
            },
        }
    }
}

/// The image of a sequence of stored records.
pub open spec fn rows_view(rows: Seq<FeatureOverride>) -> Seq<FeatureOverrideV> {
    rows.map_values(|r: FeatureOverride| r@)
}

/// The index of the first record with this pronunciation, or -1 when none
/// has it.
pub open spec fn first_index(rows: Seq<FeatureOverrideV>, pron: Seq<char>) -> int
    decreases rows.len(),
{
    if rows.len() == 0 {
        -1
    } else if rows[0].pronunciation == pron {
        0
    } else {
        let rest = first_index(rows.drop_first(), pron);
        if rest < 0 {
            -1
        } else {
            rest + 1
        }
    }
}

/// What `first_index` finds: a real index holding the pronunciation with
/// nothing before it, or the guarantee that no index holds it.
pub proof fn lemma_first_index_props(rows: Seq<FeatureOverrideV>, pron: Seq<char>)
    ensures
        first_index(rows, pron) >= 0 ==> {
            &&& first_index(rows, pron) < rows.len()
            &&& rows[first_index(rows, pron)].pronunciation == pron
            &&& forall|j: int|
                0 <= j < first_index(rows, pron) ==> #[trigger] rows[j].pronunciation != pron
        },
        first_index(rows, pron) < 0 ==> forall|j: int|
            0 <= j < rows.len() ==> #[trigger] rows[j].pronunciation != pron,
    decreases rows.len(),
{
    if rows.len() > 0 && rows[0].pronunciation != pron {
        lemma_first_index_props(rows.drop_first(), pron);
        let rest = first_index(rows.drop_first(), pron);
        if rest >= 0 {
            assert(rows.drop_first()[rest] == rows[rest + 1]);
            assert forall|j: int|
                0 <= j < first_index(rows, pron) implies #[trigger] rows[j].pronunciation
                != pron by {
                if j > 0 {
                    assert(rows.drop_first()[j - 1] == rows[j]);
                }
            }
        } else {
            assert forall|j: int|
                0 <= j < rows.len() implies #[trigger] rows[j].pronunciation != pron by {
                if j > 0 {
                    assert(rows.drop_first()[j - 1] == rows[j]);
                }
            }
        }
    }
}

/// When everything before `i` misses the pronunciation and `i` (if it is a
/// real index) hits it, the first index is `i`; when the whole sequence
/// misses it, there is none.
pub proof fn lemma_first_index_from_prefix(rows: Seq<FeatureOverrideV>, pron: Seq<char>, i: int)
    requires
        0 <= i <= rows.len(),
        forall|j: int| 0 <= j < i ==> #[trigger] rows[j].pronunciation != pron,
    ensures
        i < rows.len() && rows[i].pronunciation == pron ==> first_index(rows, pron) == i,
        i == rows.len() ==> first_index(rows, pron) == -1,
    decreases rows.len(),
{
    if rows.len() > 0 && rows[0].pronunciation != pron {
        assert(forall|j: int|
            0 <= j < rows.drop_first().len() ==> #[trigger] rows.drop_first()[j] == rows[j + 1]);
        if i > 0 {
            lemma_first_index_from_prefix(rows.drop_first(), pron, i - 1);
        } else {
            lemma_first_index_from_prefix(rows.drop_first(), pron, 0);
        }
    }
}

/// Pronunciations are unique across stored records, the store's key
/// invariant.
pub open spec fn prons_unique(rows: Seq<FeatureOverrideV>) -> bool {
    forall|i: int, j: int|
        0 <= i < j < rows.len() ==> #[trigger] rows[i].pronunciation != #[trigger] rows[
            j
        ].pronunciation
}

/// Every stored record keeps a representable time range and was never
/// updated before it was created.
pub open spec fn rows_wf(rows: Seq<FeatureOverrideV>) -> bool {
    forall|i: int|
        0 <= i < rows.len() ==> {
            &&& (#[trigger] rows[i]).pronunciation.len() > 0
            &&& MIN_TIMESTAMP <= rows[i].created_at <= rows[i].updated_at <= MAX_TIMESTAMP
        }
}

/// A stored record is acceptable on its own: non-empty key, representable
/// times, and an update no earlier than its creation.
pub open spec fn row_ok(r: FeatureOverrideV) -> bool {
    &&& r.pronunciation.len() > 0
    &&& MIN_TIMESTAMP <= r.created_at <= r.updated_at <= MAX_TIMESTAMP
}

/// The feature-override store.  It owns every record; key uniqueness is
/// kept by writing through `upsert` alone.
pub struct OverrideStore {
    rows: Vec<FeatureOverride>,
}

impl View for OverrideStore {
    type V = Seq<FeatureOverrideV>;

    closed spec fn view(&self) -> Seq<FeatureOverrideV> {
        rows_view(self.rows@)
    }
}

impl OverrideStore {
    /// An empty store.
    pub fn new() -> (s: Self)
        ensures
            s@ =~= Seq::<FeatureOverrideV>::empty(),
    {
        OverrideStore { rows: Vec::new() }
    }

    /// How many records are stored.
    pub fn len(&self) -> (n: usize)
        ensures
            n == self@.len(),
    {
        self.rows.len()
    }

    /// The stored record at an index.
    pub fn get(&self, i: usize) -> (r: &FeatureOverride)
        requires
            i < self@.len(),
        ensures
            r@ == self@[i as int],
    {
        &self.rows[i]
    }

    /// Writes a record by its natural key: an existing record with the same
    /// pronunciation is replaced in place (`updated` reports this), a fresh
    /// key is appended.  Key uniqueness and record well-formedness are
    /// preserved.
    pub fn upsert(&mut self, row: FeatureOverride) -> (updated: bool)
        ensures
            ({
                let i = first_index(old(self)@, row@.pronunciation);
                &&& updated == (i >= 0)
                &&& i >= 0 ==> final(self)@ =~= old(self)@.update(i, row@)
                &&& i < 0 ==> final(self)@ =~= old(self)@.push(row@)
            }),
            prons_unique(old(self)@) ==> prons_unique(final(self)@),
            rows_wf(old(self)@) && row_ok(row@) ==> rows_wf(final(self)@),
    {
        let ghost rows0 = self@;
        let mut i: usize = 0;
        while i < self.rows.len()
            invariant
                0 <= i <= self@.len(),
                rows0 == old(self)@,
                self@ =~= rows0,
                forall|j: int| 0 <= j < i ==> #[trigger] rows0[j].pronunciation != row@.pronunciation,
            decreases self@.len() - i,
        {
            if self.rows[i].pronunciation == row.pronunciation {
                proof {
                    lemma_first_index_from_prefix(rows0, row@.pronunciation, i as int);
                }
                let ghost rv = row@;
                let _ = self.rows.remove(i);
                self.rows.insert(i, row);
                proof {
                    let goal = rows0.update(i as int, rv);
                    assert forall|j: int| 0 <= j < self@.len() implies self@[j] == goal[j] by {
                        if j < i as int {
                        } else if j == i as int {
                        } else {
                        }
                    }
                    assert(self@ =~= goal);
                    if prons_unique(rows0) {
                        assert forall|a: int, b: int|
                            0 <= a < b < self@.len() implies self@[a].pronunciation
                            != self@[b].pronunciation by {
                            assert(rows0[a].pronunciation != rows0[b].pronunciation);
                            assert(rows0[i as int].pronunciation == rv.pronunciation);
                        }
                    }
                    if rows_wf(rows0) && row_ok(rv) {
                        assert forall|a: int| 0 <= a < self@.len() implies {
                            &&& self@[a].pronunciation.len() > 0
                            &&& MIN_TIMESTAMP <= self@[a].created_at <= self@[a].updated_at
                                <= MAX_TIMESTAMP
                        } by {
                            if a != i as int {
                                assert(rows_wf(rows0));
                                assert(0 <= a < rows0.len());
                            }
                        }
                    }
                }
                return true;
            }
            i = i + 1;
        }
        proof {
            lemma_first_index_from_prefix(rows0, row@.pronunciation, rows0.len() as int);
        }
        let ghost rv = row@;
        self.rows.push(row);
        proof {
            assert(self@ =~= rows0.push(rv));
            if prons_unique(rows0) {
                assert forall|a: int, b: int|
                    0 <= a < b < self@.len() implies self@[a].pronunciation
                    != self@[b].pronunciation by {
                    if b == rows0.len() as int {
                        assert(rows0[a].pronunciation != rv.pronunciation);
                    }
                }
            }
            if rows_wf(rows0) && row_ok(rv) {
                assert forall|a: int| 0 <= a < self@.len() implies {
                    &&& self@[a].pronunciation.len() > 0
                    &&& MIN_TIMESTAMP <= self@[a].created_at <= self@[a].updated_at <= MAX_TIMESTAMP
                } by {
                    if a < rows0.len() {
                        assert(rows_wf(rows0));
                        assert(0 <= a < rows0.len());
                    }
                }
            }
        }
        false
    }

    /// Cursor-based export: every record changed strictly after the cursor
    /// (or every record, with no cursor), ordered ascending by change time,
    /// truncated to the limit when one is given.  Read-only.
    pub fn pull(&self, cursor: Option<i64>, limit: Option<usize>) -> (out: Vec<FeatureOverride>)
        ensures
            ({
                let sel = sort_by_updated(filter_cursor(self@, cursor_view(cursor)));
                let n = pull_count(sel.len(), limit);
                &&& rows_view(out@) =~= sel.take(n)
                &&& sorted_by_updated(rows_view(out@))
                &&& match cursor {
                    Some(c) => forall|k: int|
                        0 <= k < out@.len() ==> #[trigger] rows_view(out@)[k].updated_at > c as int,
                    None => true,
                }
                &&& limit is None ==> rows_view(out@).to_multiset() =~= filter_cursor(
                    self@,
                    cursor_view(cursor),
                ).to_multiset()
            }),
    {
        let ghost rows0 = self@;
        let ghost cv = cursor_view(cursor);
        let mut picked: Vec<FeatureOverride> = Vec::new();
        let mut i: usize = 0;
        while i < self.rows.len()
            invariant
                0 <= i <= self@.len(),
                rows0 == self@,
                cv == cursor_view(cursor),
                rows_view(picked@) =~= filter_cursor(rows0.take(i as int), cv),
            decreases self@.len() - i,
        {
            let keep = match cursor {
                Some(c) => self.rows[i].updated_at > c,
                None => true,
            };
            proof {
                lemma_filter_cursor_take_step(rows0, cv, i as int);
            }
            if keep {
                picked.push(self.rows[i].duplicate());
            }
            i = i + 1;
        }
        proof {
            assert(rows0.take(rows0.len() as int) =~= rows0);
        }
        let mut out = sort_rows(&picked);
        proof {
            let sel = sort_by_updated(filter_cursor(rows0, cv));
            lemma_sort_by_updated_sorted(filter_cursor(rows0, cv));
            lemma_sort_by_updated_multiset(filter_cursor(rows0, cv));
            assert(rows_view(out@) =~= sel);
        }
        if let Some(l) = limit {
            if l < out.len() {
                out.truncate(l);
            }
        }
        proof {
            let sel = sort_by_updated(filter_cursor(rows0, cv));
            let n = pull_count(sel.len(), limit);
            assert(rows_view(out@) =~= sel.take(n));
            assert forall|a: int, b: int|
                0 <= a < b < rows_view(out@).len() implies rows_view(out@)[a].updated_at
                <= rows_view(out@)[b].updated_at by {
                assert(sel[a].updated_at <= sel[b].updated_at);
            }
            if cv is Some {
                assert forall|k: int| 0 <= k < out@.len() implies #[trigger] rows_view(
                    out@,
                )[k].updated_at > cv->0 by {
                    lemma_sorted_elements_pass(rows0, cv, k);
                }
            }
        }
        out
    }
}

/// The cursor an export request carries, as a mathematical value.
pub open spec fn cursor_view(cursor: Option<i64>) -> Option<int> {
    match cursor {
        Some(c) => Some(c as int),
        None => None,
    }
}

/// Whether a record lies strictly after the cursor; with no cursor every
/// record passes.
pub open spec fn passes_cursor(r: FeatureOverrideV, cursor: Option<int>) -> bool {
    match cursor {
        Some(c) => r.updated_at > c,
        None => true,
    }
}

/// The records an export selects, in store order.
pub open spec fn filter_cursor(rows: Seq<FeatureOverrideV>, cursor: Option<int>) -> Seq<
    FeatureOverrideV,
> {
    rows.filter(|r: FeatureOverrideV| passes_cursor(r, cursor))
}

/// How many records an export hands out: the whole selection, or the limit
/// when it is smaller.
pub open spec fn pull_count(selected: nat, limit: Option<usize>) -> int {
    match limit {
        Some(l) => {
            if l < selected {
                l as int
            } else {
                selected as int
            }
        },
        None => selected as int,
    }
}

/// Ascending order of change time.
pub open spec fn sorted_by_updated(s: Seq<FeatureOverrideV>) -> bool {
    forall|i: int, j: int| 0 <= i < j < s.len() ==> s[i].updated_at <= s[j].updated_at
}

/// Inserts a record behind every record whose change time does not exceed
/// its own: the insertion step of a stable ascending sort.
pub open spec fn insert_ordered(x: FeatureOverrideV, s: Seq<FeatureOverrideV>) -> Seq<
    FeatureOverrideV,
>
    decreases s.len(),
{
    if s.len() == 0 {
        seq![x]
    } else if s[0].updated_at <= x.updated_at {
        seq![s[0]] + insert_ordered(x, s.drop_first())
    } else {
        seq![x] + s
    }
}

/// Stable ascending sort by change time: records are folded in from the
/// left, so records with equal change times keep their relative order.
pub open spec fn sort_by_updated(s: Seq<FeatureOverrideV>) -> Seq<FeatureOverrideV>
    decreases s.len(),
{
    if s.len() == 0 {
        s
    } else {
        insert_ordered(s.last(), sort_by_updated(s.drop_last()))
    }
}

/// One step of the selection: extending the scanned prefix by one record
/// appends it to the selection exactly when it passes the cursor.
proof fn lemma_filter_cursor_take_step(rows: Seq<FeatureOverrideV>, cursor: Option<int>, i: int)
    requires
        0 <= i < rows.len(),
    ensures
        filter_cursor(rows.take(i + 1), cursor) == if passes_cursor(rows[i], cursor) {
            filter_cursor(rows.take(i), cursor).push(rows[i])
        } else {
            filter_cursor(rows.take(i), cursor)
        },
{
    reveal(Seq::filter);
    assert(rows.take(i + 1).drop_last() =~= rows.take(i));
    assert(rows.take(i + 1).last() == rows[i]);
}

/// Inserting into an ascending sequence keeps it ascending.
proof fn lemma_insert_ordered_sorted(x: FeatureOverrideV, s: Seq<FeatureOverrideV>)
    requires
        sorted_by_updated(s),
    ensures
        sorted_by_updated(insert_ordered(x, s)),
        insert_ordered(x, s).len() == s.len() + 1,
    decreases s.len(),
{
    if s.len() == 0 {
    } else if s[0].updated_at <= x.updated_at {
        assert(sorted_by_updated(s.drop_first())) by {
            assert(forall|j: int|
                0 <= j < s.drop_first().len() ==> #[trigger] s.drop_first()[j] == s[j + 1]);
        }
        lemma_insert_ordered_sorted(x, s.drop_first());
        let t = insert_ordered(x, s.drop_first());
        lemma_insert_ordered_first(x, s.drop_first());
        assert forall|a: int, b: int|
            0 <= a < b < insert_ordered(x, s).len() implies insert_ordered(x, s)[a].updated_at
            <= insert_ordered(x, s)[b].updated_at by {
            if a == 0 {
                assert(insert_ordered(x, s)[0] == s[0]);
                assert(insert_ordered(x, s)[b] == t[b - 1]);
                if t[b - 1] == x {
                } else {
                }
            } else {
                assert(insert_ordered(x, s)[a] == t[a - 1]);
                assert(insert_ordered(x, s)[b] == t[b - 1]);
            }
        }
    } else {
    }
}

/// Every record that insertion leaves in the sequence is the inserted one
/// or one that was already there, with change time bounded accordingly.
proof fn lemma_insert_ordered_first(x: FeatureOverrideV, s: Seq<FeatureOverrideV>)
    ensures
        forall|k: int|
            0 <= k < insert_ordered(x, s).len() ==> #[trigger] insert_ordered(x, s)[k] == x
                || exists|j: int| 0 <= j < s.len() && #[trigger] s[j] == insert_ordered(x, s)[k],
    decreases s.len(),
{
    if s.len() == 0 {
    } else if s[0].updated_at <= x.updated_at {
        lemma_insert_ordered_first(x, s.drop_first());
        let t = insert_ordered(x, s.drop_first());
        assert forall|k: int|
            0 <= k < insert_ordered(x, s).len() implies #[trigger] insert_ordered(x, s)[k] == x
            || exists|j: int| 0 <= j < s.len() && #[trigger] s[j] == insert_ordered(x, s)[k] by {
            if k == 0 {
                assert(s[0] == insert_ordered(x, s)[0]);
            } else {
                assert(insert_ordered(x, s)[k] == t[k - 1]);
                if t[k - 1] == x {
                } else {
                    let j = choose|j: int|
                        0 <= j < s.drop_first().len() && #[trigger] s.drop_first()[j] == t[k - 1];
                    assert(s[j + 1] == t[k - 1]);
                }
            }
        }
    } else {
        assert forall|k: int|
            0 <= k < insert_ordered(x, s).len() implies #[trigger] insert_ordered(x, s)[k] == x
            || exists|j: int| 0 <= j < s.len() && #[trigger] s[j] == insert_ordered(x, s)[k] by {
            if k > 0 {
                assert(s[k - 1] == insert_ordered(x, s)[k]);
            }
        }
    }
}

/// Insertion adds exactly the inserted record to the collection of records.
proof fn lemma_insert_ordered_multiset(x: FeatureOverrideV, s: Seq<FeatureOverrideV>)
    ensures
        insert_ordered(x, s).to_multiset() =~= s.to_multiset().insert(x),
    decreases s.len(),
{
    broadcast use vstd::seq_lib::group_to_multiset_ensures;

    if s.len() == 0 {
        assert(seq![x] =~= Seq::<FeatureOverrideV>::empty().push(x));
    } else if s[0].updated_at <= x.updated_at {
        lemma_insert_ordered_multiset(x, s.drop_first());
        let t = insert_ordered(x, s.drop_first());
        assert(seq![s[0]] + t =~= t.insert(0, s[0]));
        assert((seq![s[0]] + t).to_multiset() =~= t.to_multiset().insert(s[0]));
        assert(s =~= s.drop_first().insert(0, s[0]));
        assert(s.to_multiset() =~= s.drop_first().to_multiset().insert(s[0]));
    } else {
        assert(seq![x] + s =~= s.insert(0, x));
        assert((seq![x] + s).to_multiset() =~= s.to_multiset().insert(x));
    }
}

/// The sort produces an ascending sequence.
pub proof fn lemma_sort_by_updated_sorted(s: Seq<FeatureOverrideV>)
    ensures
        sorted_by_updated(sort_by_updated(s)),
        sort_by_updated(s).len() == s.len(),
    decreases s.len(),
{
    if s.len() > 0 {
        lemma_sort_by_updated_sorted(s.drop_last());
        lemma_insert_ordered_sorted(s.last(), sort_by_updated(s.drop_last()));
    }
}

/// The sort neither adds, drops nor duplicates records.
pub proof fn lemma_sort_by_updated_multiset(s: Seq<FeatureOverrideV>)
    ensures
        sort_by_updated(s).to_multiset() =~= s.to_multiset(),
    decreases s.len(),
{
    broadcast use vstd::seq_lib::group_to_multiset_ensures;

    if s.len() > 0 {
        lemma_sort_by_updated_multiset(s.drop_last());
        lemma_insert_ordered_multiset(s.last(), sort_by_updated(s.drop_last()));
        assert(s =~= s.drop_last().push(s.last()));
        assert(s.to_multiset() =~= s.drop_last().to_multiset().insert(s.last()));
    }
}

/// Every record the sorted selection holds lies strictly after the cursor.
proof fn lemma_sorted_elements_pass(rows: Seq<FeatureOverrideV>, cursor: Option<int>, k: int)
    requires
        0 <= k < sort_by_updated(filter_cursor(rows, cursor)).len(),
    ensures
        passes_cursor(sort_by_updated(filter_cursor(rows, cursor))[k], cursor),
{
    broadcast use vstd::seq_lib::group_to_multiset_ensures, vstd::seq_lib::group_filter_ensures;

    let f = filter_cursor(rows, cursor);
    let s = sort_by_updated(f);
    lemma_sort_by_updated_multiset(f);
    assert(s.to_multiset().count(s[k]) > 0) by {
        assert(s.contains(s[k]));
    }
    assert(f.contains(s[k]));
    let j = choose|j: int| 0 <= j < f.len() && f[j] == s[k];
    assert(passes_cursor(f[j], cursor)) by {
        rows.lemma_filter_pred(|r: FeatureOverrideV| passes_cursor(r, cursor), j);
    }
}

/// When inserting at the boundary position — everything before it no later
/// than the record, the position's own record strictly later — the ordered
/// insertion is insertion at that position.
proof fn lemma_insert_ordered_at(s: Seq<FeatureOverrideV>, x: FeatureOverrideV, p: int)
    requires
        0 <= p <= s.len(),
        forall|j: int| 0 <= j < p ==> #[trigger] s[j].updated_at <= x.updated_at,
        p < s.len() ==> s[p].updated_at > x.updated_at,
    ensures
        insert_ordered(x, s) =~= s.insert(p, x),
    decreases s.len(),
{
    if s.len() == 0 {
        assert(seq![x] =~= s.insert(0, x));
    } else if p == 0 {
        assert(seq![x] + s =~= s.insert(0, x));
    } else {
        assert(s[0].updated_at <= x.updated_at);
        lemma_insert_ordered_at(s.drop_first(), x, p - 1);
        assert(forall|j: int|
            0 <= j < s.drop_first().len() ==> #[trigger] s.drop_first()[j] == s[j + 1]);
        assert(seq![s[0]] + s.drop_first().insert(p - 1, x) =~= s.insert(p, x));
    }
}

/// Sorts a batch of records ascending by change time, stably.
fn sort_rows(rows: &Vec<FeatureOverride>) -> (out: Vec<FeatureOverride>)
    ensures
        rows_view(out@) =~= sort_by_updated(rows_view(rows@)),
{
    let mut out: Vec<FeatureOverride> = Vec::new();
    let mut i: usize = 0;
    while i < rows.len()
        invariant
            0 <= i <= rows@.len(),
            rows_view(out@) =~= sort_by_updated(rows_view(rows@).take(i as int)),
            out@.len() == i,
        decreases rows@.len() - i,
    {
        let row = rows[i].duplicate();
        let ghost pre = rows_view(out@);
        let mut p: usize = 0;
        while p < out.len() && out[p].updated_at <= row.updated_at
            invariant
                0 <= p <= out@.len(),
                pre == rows_view(out@),
                row@ == rows_view(rows@)[i as int],
                forall|j: int| 0 <= j < p ==> #[trigger] pre[j].updated_at <= row@.updated_at,
            decreases out@.len() - p,
        {
            p = p + 1;
        }
        out.insert(p, row);
        proof {
            lemma_insert_ordered_at(pre, rows_view(rows@)[i as int], p as int);
            assert(rows_view(out@) =~= pre.insert(p as int, rows_view(rows@)[i as int]));
            let upto = rows_view(rows@).take(i + 1);
            assert(upto.drop_last() =~= rows_view(rows@).take(i as int));
            assert(upto.last() == rows_view(rows@)[i as int]);
            assert(rows_view(out@) =~= sort_by_updated(upto));
        }
        i = i + 1;
    }
    proof {
        assert(rows_view(rows@).take(rows@.len() as int) =~= rows_view(rows@));
    }
    out
}

} // verus!
