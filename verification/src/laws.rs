//! Laws the library states of itself, spanning several operations: what a
//! whole pushed session looks like when pulled back, and what pushing the
//! same key twice settles on.

use vstd::prelude::*;

use crate::overrides::{
    filter_cursor, first_index, lemma_first_index_from_prefix, lemma_first_index_props,
    lemma_sort_by_updated_multiset, lemma_sort_by_updated_sorted, sort_by_updated,
    sorted_by_updated, FeatureOverrideV,
};
use crate::push::{
    apply_push, apply_push_all, lemma_apply_push_all_snoc, record_ok, stored_of, PushRecordV,
    PushStateV,
};

verus! {

/// A session that has ingested nothing into a store holding these records.
pub open spec fn fresh_state(rows: Seq<FeatureOverrideV>) -> PushStateV {
    PushStateV { rows, created: 0, updated: 0, errors: Seq::<Seq<char>>::empty() }
}

/// With no cursor, export selects every stored record.
pub proof fn lemma_filter_none_selects_all(rows: Seq<FeatureOverrideV>)
    ensures
        filter_cursor(rows, None) =~= rows,
    decreases rows.len(),
{
    reveal(Seq::filter);
    if rows.len() > 0 {
        lemma_filter_none_selects_all(rows.drop_last());
    }
}

/// Pushing any session of well-formed records with pairwise-distinct
/// pronunciations into an empty store creates every record, updates and
/// refuses none, and stores exactly the pushed records in arrival order;
/// a subsequent unrestricted export hands back exactly that set of
/// records, ascending by change time.
pub proof fn lemma_push_session_pull_round_trip(records: Seq<PushRecordV>, now: int)
    requires
        forall|i: int| 0 <= i < records.len() ==> record_ok(#[trigger] records[i], now),
        forall|i: int, j: int|
            0 <= i < j < records.len() ==> #[trigger] records[i].pronunciation
                != #[trigger] records[j].pronunciation,
    ensures
        ({
            let st = apply_push_all(fresh_state(Seq::<FeatureOverrideV>::empty()), records, now);
            &&& st.created == records.len()
            &&& st.updated == 0
            &&& st.errors.len() == 0
            &&& st.rows =~= records.map_values(|r: PushRecordV| stored_of(r, now))
            &&& sort_by_updated(filter_cursor(st.rows, None)).to_multiset() =~= records.map_values(
                |r: PushRecordV| stored_of(r, now),
            ).to_multiset()
            &&& sorted_by_updated(sort_by_updated(filter_cursor(st.rows, None)))
        }),
    decreases records.len(),
{
    let stored = records.map_values(|r: PushRecordV| stored_of(r, now));
    let init = fresh_state(Seq::<FeatureOverrideV>::empty());
    let st = apply_push_all(init, records, now);
    if records.len() == 0 {
        assert(st == init);
        assert(st.rows =~= stored);
    } else {
        let front = records.drop_last();
        let last = records.last();
        lemma_push_session_pull_round_trip(front, now);
        let st0 = apply_push_all(init, front, now);
        assert(records =~= front.push(last));
        lemma_apply_push_all_snoc(init, front, last, now);
        assert(st == apply_push(st0, last, now));
        assert(record_ok(last, now));
        assert(st0.rows =~= front.map_values(|r: PushRecordV| stored_of(r, now)));
        assert forall|j: int| 0 <= j < st0.rows.len() implies #[trigger] st0.rows[j].pronunciation
            != last.pronunciation by {
            assert(st0.rows[j].pronunciation == front[j].pronunciation);
            assert(records[j].pronunciation != records[records.len() - 1].pronunciation);
        }
        lemma_first_index_from_prefix(st0.rows, last.pronunciation, st0.rows.len() as int);
        assert(first_index(st0.rows, last.pronunciation) == -1);
        assert(st.rows =~= st0.rows.push(stored_of(last, now)));
        assert(st.rows =~= stored) by {
            assert forall|j: int| 0 <= j < stored.len() implies st.rows[j] == stored[j] by {
                if j < front.len() {
                    assert(st.rows[j] == st0.rows[j]);
                }
            }
        }
    }
    lemma_filter_none_selects_all(st.rows);
    lemma_sort_by_updated_sorted(filter_cursor(st.rows, None));
    lemma_sort_by_updated_multiset(filter_cursor(st.rows, None));
}

/// Pushing the same pronunciation twice in one session: the second push is
/// tallied as an update, never a creation, it adds no error, and the stored
/// record under that key carries exactly the last-pushed values.
pub proof fn lemma_push_twice_idempotent(
    st: PushStateV,
    r1: PushRecordV,
    r2: PushRecordV,
    now: int,
)
    requires
        r1.pronunciation == r2.pronunciation,
        record_ok(r1, now),
        record_ok(r2, now),
    ensures
        ({
            let st1 = apply_push(st, r1, now);
            let st2 = apply_push(st1, r2, now);
            &&& st2.created == st1.created
            &&& st2.updated == st1.updated + 1
            &&& st2.errors =~= st1.errors
            &&& first_index(st2.rows, r2.pronunciation) >= 0
            &&& st2.rows[first_index(st2.rows, r2.pronunciation)] == stored_of(r2, now)
        }),
{
    let pron = r1.pronunciation;
    let st1 = apply_push(st, r1, now);
    let i0 = first_index(st.rows, pron);
    lemma_first_index_props(st.rows, pron);
    if i0 >= 0 {
        assert(st1.rows =~= st.rows.update(i0, stored_of(r1, now)));
        assert forall|j: int| 0 <= j < i0 implies #[trigger] st1.rows[j].pronunciation != pron by {
            assert(st1.rows[j] == st.rows[j]);
        }
        assert(st1.rows[i0].pronunciation == pron);
        lemma_first_index_from_prefix(st1.rows, pron, i0);
        assert(first_index(st1.rows, pron) == i0);
    } else {
        assert(st1.rows =~= st.rows.push(stored_of(r1, now)));
        assert forall|j: int|
            0 <= j < st.rows.len() implies #[trigger] st1.rows[j].pronunciation != pron by {
            assert(st1.rows[j] == st.rows[j]);
        }
        lemma_first_index_from_prefix(st1.rows, pron, st.rows.len() as int);
        assert(first_index(st1.rows, pron) == st.rows.len());
    }
    let i1 = first_index(st1.rows, pron);
    assert(0 <= i1 < st1.rows.len());
    let st2 = apply_push(st1, r2, now);
    assert(st2.rows =~= st1.rows.update(i1, stored_of(r2, now)));
    assert forall|j: int| 0 <= j < i1 implies #[trigger] st2.rows[j].pronunciation != pron by {
        lemma_first_index_props(st1.rows, pron);
        assert(st2.rows[j] == st1.rows[j]);
    }
    assert(st2.rows[i1].pronunciation == pron);
    lemma_first_index_from_prefix(st2.rows, pron, i1);
    assert(first_index(st2.rows, pron) == i1);
}

} // verus!
