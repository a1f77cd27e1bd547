//! The service surface: every call is authenticated first, then routed to
//! ingestion, export or the status query.  Declared extension points that
//! were never realized surface a distinct not-implemented signal.

use vstd::prelude::*;

use crate::auth::{
    auth_decision, authenticate_request, meta_view, require_write_permission, touched, ApiKey,
    AuthDecision, AuthError, AuthService, Permission,
};
use crate::overrides::{
    cursor_view, filter_cursor, pull_count, rows_view, sort_by_updated, sorted_by_updated,
    FeatureOverride, OverrideStore,
};
use crate::push::{
    apply_push_all, errors_view, push_batch, records_view, PushOutcome, PushRecord, PushStateV,
};

verus! {

/// The informational summary a status query returns.
#[derive(Debug)]
pub struct StatusResponse {
    pub server_time: i64,
    pub total_feature_overrides: usize,
    pub total_confirmed_features: usize,
    pub total_rule_patterns: usize,
}

/// The synchronization service: the credential store behind the
/// authentication gate, and the feature-override store the calls act on.
pub struct AdminServer {
    pub auth: AuthService,
    pub overrides: OverrideStore,
}

impl AdminServer {
    /// A service over empty stores.
    pub fn new() -> (s: Self)
        ensures
            s.auth@ =~= Seq::<crate::auth::ApiKeyV>::empty(),
            s.overrides@ =~= Seq::<crate::overrides::FeatureOverrideV>::empty(),
    {
        AdminServer { auth: AuthService::new(), overrides: OverrideStore::new() }
    }

    /// Status query: authenticated, read tier suffices.  Returns the record
    /// count and the server time it was asked at; mutates nothing but the
    /// verified credential's last-use time.
    pub fn get_sync_status(&mut self, meta: Option<&Vec<u8>>, now: i64) -> (r: Result<
        StatusResponse,
        AuthError,
    >)
        ensures
            final(self).overrides@ =~= old(self).overrides@,
            match auth_decision(old(self).auth@, meta_view(meta)) {
                AuthDecision::Granted(i) => {
                    &&& r matches Ok(st) && st.server_time == now
                        && st.total_feature_overrides == old(self).overrides@.len()
                        && st.total_confirmed_features == 0 && st.total_rule_patterns == 0
                    &&& final(self).auth@ =~= old(self).auth@.update(
                        i,
                        touched(old(self).auth@[i], now as int),
                    )
                },
                AuthDecision::Refused(e) => r == Err::<StatusResponse, AuthError>(e) && final(self).auth@ =~= old(self).auth@,
            },
    {
        let _credential = match authenticate_request(meta, &mut self.auth, now) {
            Ok(k) => k,
            Err(e) => {
                return Err(e);
            },
        };
        Ok(
            StatusResponse {
                server_time: now,
                total_feature_overrides: self.overrides.len(),
                total_confirmed_features: 0,
                total_rule_patterns: 0,
            },
        )
    }

    /// Streamed ingestion: authenticated and write-gated.  A read-tier
    /// credential is refused with `PermissionDenied` and the stored records
    /// are left untouched; a write-tier caller has the whole batch ingested
    /// in arrival order, with per-record upserts, tallies and error
    /// accounting.
    pub fn push_feature_overrides(
        &mut self,
        meta: Option<&Vec<u8>>,
        records: Vec<PushRecord>,
        now: i64,
    ) -> (r: Result<PushOutcome, AuthError>)
        ensures
            match auth_decision(old(self).auth@, meta_view(meta)) {
                AuthDecision::Granted(i) => {
                    &&& final(self).auth@ =~= old(self).auth@.update(
                        i,
                        touched(old(self).auth@[i], now as int),
                    )
                    &&& if old(self).auth@[i].permissions == Permission::ReadWrite {
                        ({
                            let st = apply_push_all(
                                PushStateV {
                                    rows: old(self).overrides@,
                                    created: 0,
                                    updated: 0,
                                    errors: Seq::<Seq<char>>::empty(),
                                },
                                records_view(records@),
                                now as int,
                            );
                            &&& r matches Ok(out)
                            &&& final(self).overrides@ =~= st.rows
                            &&& out.items_received == records@.len()
                            &&& out.items_created == st.created
                            &&& out.items_updated == st.updated
                            &&& errors_view(out.errors@) =~~= st.errors
                        })
                    } else {
                        r == Err::<PushOutcome, AuthError>(AuthError::PermissionDenied) && final(self).overrides@ =~= old(self).overrides@
                    }
                },
                AuthDecision::Refused(e) => {
                    &&& r == Err::<PushOutcome, AuthError>(e)
                    &&& final(self).auth@ =~= old(self).auth@
                    &&& final(self).overrides@ =~= old(self).overrides@
                },
            },
    {
        let credential = match authenticate_request(meta, &mut self.auth, now) {
            Ok(k) => k,
            Err(e) => {
                return Err(e);
            },
        };
        match require_write_permission(&credential) {
            Ok(()) => (),
            Err(e) => {
                return Err(e);
            },
        }
        Ok(push_batch(&mut self.overrides, records, now))
    }

    /// Cursor-based export: authenticated, read tier suffices.  Returns the
    /// records changed strictly after the cursor, ascending by change time,
    /// truncated to the limit; the stored records are never mutated.
    pub fn pull_feature_overrides(
        &mut self,
        meta: Option<&Vec<u8>>,
        cursor: Option<i64>,
        limit: Option<usize>,
        now: i64,
    ) -> (r: Result<Vec<FeatureOverride>, AuthError>)
        ensures
            final(self).overrides@ =~= old(self).overrides@,
            match auth_decision(old(self).auth@, meta_view(meta)) {
                AuthDecision::Granted(i) => {
                    &&& final(self).auth@ =~= old(self).auth@.update(
                        i,
                        touched(old(self).auth@[i], now as int),
                    )
                    &&& ({
                        let sel = sort_by_updated(
                            filter_cursor(old(self).overrides@, cursor_view(cursor)),
                        );
                        &&& r matches Ok(out)
                        &&& rows_view(out@) =~= sel.take(pull_count(sel.len(), limit))
                        &&& sorted_by_updated(rows_view(out@))
                        &&& match cursor {
                            Some(c) => forall|k: int|
                                0 <= k < out@.len() ==> #[trigger] rows_view(out@)[k].updated_at
                                    > c as int,
                            None => true,
                        }
                    })
                },
                AuthDecision::Refused(e) => r == Err::<Vec<FeatureOverride>, AuthError>(e)
                    && final(self).auth@ =~= old(self).auth@,
            },
    {
        let _credential = match authenticate_request(meta, &mut self.auth, now) {
            Ok(k) => k,
            Err(e) => {
                return Err(e);
            },
        };
        Ok(self.overrides.pull(cursor, limit))
    }

    /// Declared extension point with no realized behavior: confirming
    /// features surfaces the not-implemented signal.
    pub fn confirm_features(&self) -> (r: Result<(), AuthError>)
        ensures
            r == Err::<(), AuthError>(AuthError::NotImplemented),
    {
        Err(AuthError::NotImplemented)
    }

    /// Declared extension point with no realized behavior: listing
    /// confirmed features surfaces the not-implemented signal.
    pub fn get_confirmed_features(&self) -> (r: Result<(), AuthError>)
        ensures
            r == Err::<(), AuthError>(AuthError::NotImplemented),
    {
        Err(AuthError::NotImplemented)
    }

    /// Declared extension point with no realized behavior: withdrawing a
    /// confirmation surfaces the not-implemented signal.
    pub fn unconfirm_feature(&self) -> (r: Result<(), AuthError>)
        ensures
            r == Err::<(), AuthError>(AuthError::NotImplemented),
    {
        Err(AuthError::NotImplemented)
    }

    /// Declared extension point with no realized behavior: pushing rule
    /// patterns surfaces the not-implemented signal.
    pub fn push_rule_patterns(&self) -> (r: Result<(), AuthError>)
        ensures
            r == Err::<(), AuthError>(AuthError::NotImplemented),
    {
        Err(AuthError::NotImplemented)
    }

    /// Declared extension point with no realized behavior: pulling rule
    /// patterns surfaces the not-implemented signal.
    pub fn pull_rule_patterns(&self) -> (r: Result<(), AuthError>)
        ensures
            r == Err::<(), AuthError>(AuthError::NotImplemented),
    {
        Err(AuthError::NotImplemented)
    }

    /// Declared extension point with no realized behavior: recording a sync
    /// surfaces the not-implemented signal.
    pub fn record_sync(&self) -> (r: Result<(), AuthError>)
        ensures
            r == Err::<(), AuthError>(AuthError::NotImplemented),
    {
        Err(AuthError::NotImplemented)
    }
}

} // verus!
