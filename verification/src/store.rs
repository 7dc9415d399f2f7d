//! The store of matches: each match under its id, kept as it was made.

use std::collections::HashMap;
use vstd::prelude::*;
use crate::types::{Match, MatchId, MatchView, MatchmakingError};

verus! {

broadcast use vstd::std_specs::hash::group_hash_axioms;

/// Whether every match of `matches` stands under its own id.
pub open spec fn keyed_by_id(matches: Map<MatchId, MatchView>) -> bool {
    forall|id: MatchId| matches.contains_key(id) ==> (#[trigger] matches[id]).id == id
}

/// The matches made so far, by id. A match is added once and never changed
/// or taken out.
pub struct MatchStore {
    matches: HashMap<MatchId, Match>,
}

impl View for MatchStore {
    type V = Map<MatchId, MatchView>;

    closed spec fn view(&self) -> Map<MatchId, MatchView> {
        self.matches@.map_values(|m: Match| m@)
    }
}

impl MatchStore {
    /// A store is well formed when each match stands under its own id.
    pub open spec fn wf(&self) -> bool {
        keyed_by_id(self@)
    }

    /// An empty store.
    pub fn new() -> (store: Self)
        ensures
            store@ == Map::<MatchId, MatchView>::empty(),
            store.wf(),
    {
        let store = MatchStore { matches: HashMap::new() };
        assert(store@ =~= Map::<MatchId, MatchView>::empty());
        store
    }

    /// Whether a match with the id `id` is stored.
    pub fn contains(&self, id: MatchId) -> (found: bool)
        ensures
            found == self@.contains_key(id),
    {
        self.matches.contains_key(&id)
    }

    /// Stores `record` under its id. Fails with `DuplicateId`, changing
    /// nothing, if a match already stands under that id.
    pub fn insert(&mut self, record: Match) -> (outcome: Result<MatchId, MatchmakingError>)
        requires
            old(self).wf(),
        ensures
            final(self).wf(),
            match outcome {
                Ok(id) => {
                    &&& id == record.id
                    &&& !old(self)@.contains_key(id)
                    &&& final(self)@ == old(self)@.insert(id, record@)
                },
                Err(e) => {
                    &&& e == MatchmakingError::DuplicateId
                    &&& old(self)@.contains_key(record.id)
                    &&& final(self)@ == old(self)@
                },
            },
    {
        let id: MatchId = record.id;
        if self.matches.contains_key(&id) {
            return Err(MatchmakingError::DuplicateId);
        }
        let ghost before = self@;
        let ghost view = record@;
        let _ = self.matches.insert(id, record);
        assert(self@ =~= before.insert(id, view));
        Ok(id)
    }

    /// The match `id`; `NotFound` if none is stored under that id.
    pub fn get(&self, id: MatchId) -> (outcome: Result<&Match, MatchmakingError>)
        ensures
            match outcome {
                Ok(record) => self@.contains_key(id) && record@ == self@[id],
                Err(e) => e == MatchmakingError::NotFound && !self@.contains_key(id),
            },
    {
        match self.matches.get(&id) {
            Some(record) => Ok(record),
            None => Err(MatchmakingError::NotFound),
        }
    }
}

} // verus!
