//! Streamed ingestion of feature-override records.
//!
//! A push session consumes records one at a time, in arrival order.  Each
//! record is upserted by its natural key and tallied as created or updated;
//! a malformed record is recorded in the error list under its key and never
//! aborts the stream.  On stream end the session closes into an aggregate
//! outcome.

use vstd::prelude::*;

use crate::overrides::{
    FeatureOverride, FeatureOverrideV, OverrideStore, first_index, lemma_first_index_props,
    MAX_TIMESTAMP, MIN_TIMESTAMP,
};

verus! {

broadcast use vstd::seq_lib::group_seq_properties;

/// One record as a caller pushes it: timestamps are optional, and the
/// current time stands in for a missing one.
#[derive(Debug)]
pub struct PushRecord {
    pub pronunciation: String,
    pub fixed_bits1: i64,
    pub fixed_bits2: i64,
    pub fixed_burst_bits: i64,
    pub created_at: Option<i64>,
    pub updated_at: Option<i64>,
    pub note: Option<String>,
}

/// Mathematical image of a [`PushRecord`].
pub ghost struct PushRecordV {
    pub pronunciation: Seq<char>,
    pub fixed_bits1: int,
    pub fixed_bits2: int,
    pub fixed_burst_bits: int,
    pub created_at: Option<int>,
    pub updated_at: Option<int>,
    pub note: Option<Seq<char>>,
}

impl View for PushRecord {
    type V = PushRecordV;

    open spec fn view(&self) -> PushRecordV {
        PushRecordV {
            pronunciation: self.pronunciation@,
            fixed_bits1: self.fixed_bits1 as int,
            fixed_bits2: self.fixed_bits2 as int,
            fixed_burst_bits: self.fixed_burst_bits as int,
            created_at: match self.created_at {
                Some(t) => Some(t as int),
                None => None,
            },
            updated_at: match self.updated_at {
                Some(t) => Some(t as int),
                None => None,
            },
            note: match self.note {
                Some(ref s) => Some(s@),
                None => None,
            },
        }
    }
}

/// The image of a sequence of pushed records.
pub open spec fn records_view(rs: Seq<PushRecord>) -> Seq<PushRecordV> {
    rs.map_values(|r: PushRecord| r@)
}

/// A caller-supplied timestamp, or the current time where none was given.
pub open spec fn effective_time(t: Option<int>, now: int) -> int {
    match t {
        Some(v) => v,
        None => now,
    }
}

/// Whether a pushed record can be stored: its key must be present, its
/// effective times representable, and its effective update no earlier than
/// its effective creation.
pub open spec fn record_ok(r: PushRecordV, now: int) -> bool {
    &&& r.pronunciation.len() > 0
    &&& MIN_TIMESTAMP <= effective_time(r.created_at, now)
    &&& effective_time(r.created_at, now) <= effective_time(r.updated_at, now)
    &&& effective_time(r.updated_at, now) <= MAX_TIMESTAMP
}

/// The stored record a pushed record becomes, with missing timestamps
/// replaced by the current time.
pub open spec fn stored_of(r: PushRecordV, now: int) -> FeatureOverrideV {
    FeatureOverrideV {
        pronunciation: r.pronunciation,
        fixed_bits1: r.fixed_bits1,
        fixed_bits2: r.fixed_bits2,
        fixed_burst_bits: r.fixed_burst_bits,
        created_at: effective_time(r.created_at, now),
        updated_at: effective_time(r.updated_at, now),
        note: r.note,
    }
}

/// The whole state a push session acts on: the store's records and the
/// session's tallies and error list.
pub ghost struct PushStateV {
    pub rows: Seq<FeatureOverrideV>,
    pub created: int,
    pub updated: int,
    pub errors: Seq<Seq<char>>,
}

/// What ingesting one record does: a malformed record is keyed into the
/// error list, a well-formed one replaces the record with its key or is
/// appended, tallied accordingly.
pub open spec fn apply_push(st: PushStateV, r: PushRecordV, now: int) -> PushStateV {
    if !record_ok(r, now) {
        PushStateV { errors: st.errors.push(r.pronunciation), ..st }
    } else {
        let i = first_index(st.rows, r.pronunciation);
        if i >= 0 {
            PushStateV { rows: st.rows.update(i, stored_of(r, now)), updated: st.updated + 1, ..st }
        } else {
            PushStateV { rows: st.rows.push(stored_of(r, now)), created: st.created + 1, ..st }
        }
    }
}

/// Ingesting a whole stream, record by record, in arrival order.
pub open spec fn apply_push_all(st: PushStateV, rs: Seq<PushRecordV>, now: int) -> PushStateV
    decreases rs.len(),
{
    if rs.len() == 0 {
        st
    } else {
        apply_push_all(apply_push(st, rs[0], now), rs.drop_first(), now)
    }
}

/// Ingesting a stream and then one more record is ingesting the extended
/// stream.
pub proof fn lemma_apply_push_all_snoc(
    st: PushStateV,
    rs: Seq<PushRecordV>,
    r: PushRecordV,
    now: int,
)
    ensures
        apply_push_all(st, rs.push(r), now) == apply_push(apply_push_all(st, rs, now), r, now),
    decreases rs.len(),
{
    if rs.len() == 0 {
        assert(rs.push(r)[0] == r);
        assert(rs.push(r).drop_first() =~= Seq::<PushRecordV>::empty());
        assert(apply_push_all(apply_push(st, r, now), Seq::<PushRecordV>::empty(), now)
            == apply_push(st, r, now));
        assert(apply_push_all(st, Seq::<PushRecordV>::empty(), now) == st);
    } else {
        assert(rs.push(r)[0] == rs[0]);
        assert(rs.push(r).drop_first() =~= rs.drop_first().push(r));
        lemma_apply_push_all_snoc(apply_push(st, rs[0], now), rs.drop_first(), r, now);
        assert(apply_push_all(st, rs, now) == apply_push_all(
            apply_push(st, rs[0], now),
            rs.drop_first(),
            now,
        ));
        assert(apply_push_all(st, rs.push(r), now) == apply_push_all(
            apply_push(st, rs[0], now),
            rs.drop_first().push(r),
            now,
        ));
    }
}

/// The image of the error list.
pub open spec fn errors_view(es: Seq<String>) -> Seq<Seq<char>> {
    es.map_values(|e: String| e@)
}

/// An open push session: how many records arrived, how each was tallied,
/// and the keys of those that were refused.
#[derive(Debug)]
pub struct PushSession {
    pub received: usize,
    pub created: usize,
    pub updated: usize,
    pub errors: Vec<String>,
}

/// The aggregate a closed push session reports.
#[derive(Debug)]
pub struct PushOutcome {
    pub items_received: usize,
    pub items_created: usize,
    pub items_updated: usize,
    pub errors: Vec<String>,
}

impl PushSession {
    /// The session's tallies and error list beside a store's records, as
    /// one state.
    pub open spec fn state(self, rows: Seq<FeatureOverrideV>) -> PushStateV {
        PushStateV {
            rows,
            created: self.created as int,
            updated: self.updated as int,
            errors: errors_view(self.errors@),
        }
    }

    /// Every received record was tallied exactly once.
    pub open spec fn wf(self) -> bool {
        self.created + self.updated + self.errors@.len() == self.received
    }

    /// Opens a session: nothing received, nothing tallied.
    pub fn new() -> (s: Self)
        ensures
            s.received == 0,
            s.created == 0,
            s.updated == 0,
            s.errors@.len() == 0,
            s.wf(),
    {
        PushSession { received: 0, created: 0, updated: 0, errors: Vec::new() }
    }

    /// Ingests one record: upserts a well-formed record into the store and
    /// tallies it as created or updated; keys a malformed one into the
    /// error list, leaving the store untouched.  The stream never aborts
    /// here.
    pub fn ingest(&mut self, store: &mut OverrideStore, rec: PushRecord, now: i64)
        requires
            old(self).received < usize::MAX,
            old(self).wf(),
        ensures
            final(self).received == old(self).received + 1,
            final(self).wf(),
            ({
                let st = apply_push(old(self).state(old(store)@), rec@, now as int);
                &&& final(store)@ =~= st.rows
                &&& final(self).created == st.created
                &&& final(self).updated == st.updated
                &&& errors_view(final(self).errors@) =~~= st.errors
            }),
    {
        self.received = self.received + 1;
        let acceptable = record_acceptable(&rec, now);
        if !acceptable {
            let ghost pre = errors_view(self.errors@);
            self.errors.push(rec.pronunciation);
            proof {
                assert(errors_view(self.errors@) =~~= pre.push(rec@.pronunciation));
            }
            return ;
        }
        let row = FeatureOverride {
            pronunciation: rec.pronunciation,
            fixed_bits1: rec.fixed_bits1,
            fixed_bits2: rec.fixed_bits2,
            fixed_burst_bits: rec.fixed_burst_bits,
            created_at: match rec.created_at {
                Some(t) => t,
                None => now,
            },
            updated_at: match rec.updated_at {
                Some(t) => t,
                None => now,
            },
            note: rec.note,
        };
        let updated = store.upsert(row);
        if updated {
            self.updated = self.updated + 1;
        } else {
            self.created = self.created + 1;
        }
    }

    /// Closes the session into the aggregate reported to the caller.
    pub fn finish(self) -> (out: PushOutcome)
        ensures
            out.items_received == self.received,
            out.items_created == self.created,
            out.items_updated == self.updated,
            out.errors@ == self.errors@,
    {
        PushOutcome {
            items_received: self.received,
            items_created: self.created,
            items_updated: self.updated,
            errors: self.errors,
        }
    }
}

/// Whether a pushed record can be stored, decided exactly as the state
/// transition defines it.
pub fn record_acceptable(rec: &PushRecord, now: i64) -> (b: bool)
    ensures
        b == record_ok(rec@, now as int),
{
    if rec.pronunciation.as_str().is_empty() {
        return false;
    }
    let eff_created: i64 = match rec.created_at {
        Some(t) => t,
        None => now,
    };
    let eff_updated: i64 = match rec.updated_at {
        Some(t) => t,
        None => now,
    };
    MIN_TIMESTAMP <= eff_created && eff_created <= eff_updated && eff_updated <= MAX_TIMESTAMP
}

/// Ingests a whole batch of records, in order, as one session: the batch
/// form of the record-by-record stream.
pub fn push_batch(store: &mut OverrideStore, records: Vec<PushRecord>, now: i64) -> (out:
    PushOutcome)
    ensures
        ({
            let st = apply_push_all(
                PushStateV {
                    rows: old(store)@,
                    created: 0,
                    updated: 0,
                    errors: Seq::<Seq<char>>::empty(),
                },
                records_view(records@),
                now as int,
            );
            &&& final(store)@ =~= st.rows
            &&& out.items_received == records@.len()
            &&& out.items_created == st.created
            &&& out.items_updated == st.updated
            &&& errors_view(out.errors@) =~~= st.errors
        }),
{
    let ghost all = records_view(records@);
    let ghost init = PushStateV {
        rows: old(store)@,
        created: 0,
        updated: 0,
        errors: Seq::<Seq<char>>::empty(),
    };
    let mut remaining = records;
    let total = remaining.len();
    let mut session = PushSession::new();
    proof {
        assert(all.take(0) =~= Seq::<PushRecordV>::empty());
        assert(all.len() == total as int);
    }
    let mut k: usize = 0;
    while remaining.len() > 0
        invariant
            k <= all.len() <= usize::MAX,
            records_view(remaining@) =~= all.skip(k as int),
            session.received == k,
            session.wf(),
            ({
                let st = apply_push_all(init, all.take(k as int), now as int);
                &&& store@ =~= st.rows
                &&& session.created == st.created
                &&& session.updated == st.updated
                &&& errors_view(session.errors@) =~~= st.errors
            }),
        decreases remaining@.len(),
    {
        let ghost pre_rem = remaining@;
        let rec = remaining.remove(0);
        proof {
            assert(rec@ == records_view(pre_rem)[0]);
            assert(records_view(pre_rem).len() == pre_rem.len());
            assert(all.skip(k as int).len() == all.len() - k);
            assert(k < all.len());
            assert(records_view(pre_rem)[0] == all.skip(k as int)[0]);
            assert(all.skip(k as int)[0] == all[k as int]);
            assert forall|j: int|
                0 <= j < remaining@.len() implies records_view(remaining@)[j] == all.skip(k + 1)[j]
            by {
                assert(remaining@[j] == pre_rem[j + 1]);
                assert(records_view(pre_rem)[j + 1] == all.skip(k as int)[j + 1]);
                assert(all.skip(k as int)[j + 1] == all[k + 1 + j]);
                assert(all.skip(k + 1)[j] == all[k + 1 + j]);
            }
            assert(records_view(remaining@) =~= all.skip(k + 1));
            assert(all.take(k + 1).drop_last() =~= all.take(k as int));
            assert(all.take(k + 1).last() == all[k as int]);
            assert(all.take(k + 1) =~= all.take(k as int).push(all[k as int]));
            lemma_apply_push_all_snoc(init, all.take(k as int), all[k as int], now as int);
        }
        session.ingest(store, rec, now);
        k = k + 1;
    }
    proof {
        assert(all.skip(k as int).len() == 0);
        assert(k == all.len());
        assert(all.take(k as int) =~= all);
    }
    session.finish()
}

} // verus!
