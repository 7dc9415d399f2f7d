//! The registry: the one record of every request and of its status.

use std::collections::HashMap;
use vstd::prelude::*;
use crate::types::{
    MatchId,
    MatchRequest,
    MatchRequestView,
    MatchmakingError,
    RequestId,
    RequestRecord,
    RequestRecordView,
    RequestStatus,
};

verus! {

broadcast use vstd::std_specs::hash::group_hash_axioms;

/// The record of a request that has just been admitted.
pub open spec fn waiting_record(request: MatchRequestView) -> RequestRecordView {
    RequestRecordView { request, status: RequestStatus::Waiting, match_id: None }
}

/// The record `record` after it has advanced to `status`.
pub open spec fn resolved_record(
    record: RequestRecordView,
    status: RequestStatus,
    match_id: Option<MatchId>,
) -> RequestRecordView {
    RequestRecordView { request: record.request, status, match_id }
}

/// Whether a record may stand under the id `id`: it is the record of that
/// request, and it names a match exactly when it is matched.
pub open spec fn record_coherent(id: RequestId, record: RequestRecordView) -> bool {
    &&& record.request.id == id
    &&& (record.status == RequestStatus::Matched) == record.match_id.is_some()
}

/// Whether a request in the status `current` may advance to `status`, naming
/// `match_id`: only a waiting request advances, only to a resolved status,
/// and it names a match exactly when it becomes matched.
pub open spec fn valid_transition(
    current: RequestStatus,
    status: RequestStatus,
    match_id: Option<MatchId>,
) -> bool {
    &&& current == RequestStatus::Waiting
    &&& status != RequestStatus::Waiting
    &&& (status == RequestStatus::Matched) == match_id.is_some()
}

/// Whether every record of `records` may stand under its id.
pub open spec fn coherent_records(records: Map<RequestId, RequestRecordView>) -> bool {
    forall|id: RequestId| records.contains_key(id) ==> record_coherent(id, #[trigger] records[id])
}

/// The registry of requests, by id. Records are added and advanced, never
/// taken out.
pub struct RequestRegistry {
    records: HashMap<RequestId, RequestRecord>,
}

impl View for RequestRegistry {
    type V = Map<RequestId, RequestRecordView>;

    closed spec fn view(&self) -> Map<RequestId, RequestRecordView> {
        self.records@.map_values(|r: RequestRecord| r@)
    }
}

impl RequestRegistry {
    /// A registry is well formed when each record stands under its own id and
    /// names a match exactly when it is matched.
    pub open spec fn wf(&self) -> bool {
        coherent_records(self@)
    }

    /// An empty registry.
    pub fn new() -> (registry: Self)
        ensures
            registry@ == Map::<RequestId, RequestRecordView>::empty(),
            registry.wf(),
    {
        let registry = RequestRegistry { records: HashMap::new() };
        assert(registry@ =~= Map::<RequestId, RequestRecordView>::empty());
        registry
    }

    /// Whether a request with the id `id` was ever registered.
    pub fn contains(&self, id: RequestId) -> (found: bool)
        ensures
            found == self@.contains_key(id),
    {
        self.records.contains_key(&id)
    }

    /// Records `request` as waiting and returns its id. Fails with
    /// `DuplicateId`, changing nothing, if the id is already registered.
    pub fn register(&mut self, request: MatchRequest) -> (outcome: Result<
        RequestId,
        MatchmakingError,
    >)
        requires
            old(self).wf(),
        ensures
            final(self).wf(),
            match outcome {
                Ok(id) => {
                    &&& id == request.id
                    &&& !old(self)@.contains_key(id)
                    &&& final(self)@ == old(self)@.insert(id, waiting_record(request@))
                },
                Err(e) => {
                    &&& e == MatchmakingError::DuplicateId
                    &&& old(self)@.contains_key(request.id)
                    &&& final(self)@ == old(self)@
                },
            },
    {
        let id: RequestId = request.id;
        if self.records.contains_key(&id) {
            return Err(MatchmakingError::DuplicateId);
        }
        let ghost before = self@;
        let ghost view = request@;
        let record = RequestRecord { request, status: RequestStatus::Waiting, match_id: None };
        let _ = self.records.insert(id, record);
        assert(self@ =~= before.insert(id, waiting_record(view)));
        Ok(id)
    }

    /// The record of the request `id`; `NotFound` if none was registered.
    pub fn get(&self, id: RequestId) -> (outcome: Result<&RequestRecord, MatchmakingError>)
        ensures
            match outcome {
                Ok(record) => self@.contains_key(id) && record@ == self@[id],
                Err(e) => e == MatchmakingError::NotFound && !self@.contains_key(id),
            },
    {
        match self.records.get(&id) {
            Some(record) => Ok(record),
            None => Err(MatchmakingError::NotFound),
        }
    }

    /// Advances the request `id` to `status`, naming `match_id` as the match
    /// that resolved it. Fails with `NotFound` if no such request was
    /// registered, and with `InvalidTransition` if the request is no longer
    /// waiting or the change asked for is no valid advance; a failure changes
    /// nothing.
    pub fn transition(
        &mut self,
        id: RequestId,
        status: RequestStatus,
        match_id: Option<MatchId>,
    ) -> (outcome: Result<(), MatchmakingError>)
        requires
            old(self).wf(),
        ensures
            final(self).wf(),
            match outcome {
                Ok(_) => {
                    &&& old(self)@.contains_key(id)
                    &&& valid_transition(old(self)@[id].status, status, match_id)
                    &&& final(self)@ == old(self)@.insert(
                        id,
                        resolved_record(old(self)@[id], status, match_id),
                    )
                },
                Err(e) => {
                    &&& final(self)@ == old(self)@
                    &&& e == MatchmakingError::NotFound <==> !old(self)@.contains_key(id)
                    &&& e == MatchmakingError::InvalidTransition <==> old(self)@.contains_key(id)
                        && !valid_transition(old(self)@[id].status, status, match_id)
                    &&& e == MatchmakingError::NotFound || e == MatchmakingError::InvalidTransition
                },
            },
    {
        let ghost before = self@;
        let current: RequestStatus = match self.records.get(&id) {
            Some(record) => record.status,
            None => {
                return Err(MatchmakingError::NotFound);
            },
        };
        let advance: bool = match current {
            RequestStatus::Waiting => match status {
                RequestStatus::Waiting => false,
                RequestStatus::Matched => match_id.is_some(),
                _ => match_id.is_none(),
            },
            _ => false,
        };
        if !advance {
            return Err(MatchmakingError::InvalidTransition);
        }
        match self.records.remove(&id) {
            Some(record) => {
                let updated = RequestRecord { request: record.request, status, match_id };
                let _ = self.records.insert(id, updated);
                assert(self@ =~= before.insert(id, resolved_record(before[id], status, match_id)));
                Ok(())
            },
            None => {
                assert(false);
                Err(MatchmakingError::NotFound)
            },
        }
    }
}

} // verus!
