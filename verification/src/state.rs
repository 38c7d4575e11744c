//! Persistent state of the Snapper unlocking layer.
use vstd::prelude::*;

use crate::block;
use crate::block::Transaction;
use crate::envelope::SnapperTransactionEnvelope;
use crate::keys::{AuthorityIndex, SnapperObjectKey, SnapperTransactionId};
use crate::order;
use crate::protocol::{
    SnapperBottomVoteKind, SnapperObjectDecision, SnapperObjectStance, SnapperStateError,
};
use crate::recovery;
use crate::recovery::close_over_siblings;
use crate::seqs;
use crate::sorted_map::SortedMap;
use crate::sorted_set::SortedSet;

verus! {

/// What the Snapper state knows.
#[verifier::ext_equal]
pub struct SnapperModel {
    /// The authority that keeps this state.
    pub own: AuthorityIndex,
    /// The transactions that compete for an object version.
    pub candidates: Map<SnapperObjectKey, Set<SnapperTransactionId>>,
    /// The owned inputs of the recorded transactions.
    pub inputs: Map<SnapperTransactionId, Seq<SnapperObjectKey>>,
    /// The recorded transactions that are mixed.
    pub mixed: Set<SnapperTransactionId>,
    /// The current stance of an authority on an object version.
    pub stances: Map<(SnapperObjectKey, AuthorityIndex), SnapperObjectStance>,
    /// The authorities that have ever acknowledged a transaction on an object
    /// version.
    pub acked: Set<(SnapperObjectKey, AuthorityIndex)>,
    /// The object versions that are resolved.
    pub decisions: Map<SnapperObjectKey, SnapperObjectDecision>,
}

/// The object versions, with the decision, that become decided when the inputs
/// are decided one after the other: each undecided one, where it first occurs.
pub open spec fn newly_decided(
    inputs: Seq<SnapperObjectKey>,
    decisions: Map<SnapperObjectKey, SnapperObjectDecision>,
    decision: SnapperObjectDecision,
) -> Seq<(SnapperObjectKey, SnapperObjectDecision)>
    decreases inputs.len(),
{
    if inputs.len() == 0 {
        Seq::empty()
    } else {
        let earlier = newly_decided(inputs.drop_last(), decisions, decision);
        if decisions.contains_key(inputs.last()) || inputs.drop_last().contains(inputs.last()) {
            earlier
        } else {
            earlier.push((inputs.last(), decision))
        }
    }
}

/// An honest validator may move from one stance to another: from none to any,
/// from a transaction to Bottom; keeping a stance is harmless.
pub open spec fn legal_move(from: Option<SnapperObjectStance>, to: SnapperObjectStance) -> bool {
    from is None || from == Some(to) || to is Bottom
}

impl SnapperModel {
    /// The state of an authority that has seen nothing.
    pub open spec fn initial(own: AuthorityIndex) -> Self {
        SnapperModel {
            own,
            candidates: Map::empty(),
            inputs: Map::empty(),
            mixed: Set::empty(),
            stances: Map::empty(),
            acked: Set::empty(),
            decisions: Map::empty(),
        }
    }

    pub open spec fn candidates_of(self, object: SnapperObjectKey) -> Set<SnapperTransactionId> {
        if self.candidates.contains_key(object) {
            self.candidates[object]
        } else {
            Set::empty()
        }
    }

    pub open spec fn conflicted(self, object: SnapperObjectKey) -> bool {
        self.candidates_of(object).len() >= 2
    }

    pub open spec fn stance(self, authority: AuthorityIndex, object: SnapperObjectKey) -> Option<
        SnapperObjectStance,
    > {
        if self.stances.contains_key((object, authority)) {
            Some(self.stances[(object, authority)])
        } else {
            None
        }
    }

    pub open spec fn own_stance(self, object: SnapperObjectKey) -> Option<SnapperObjectStance> {
        self.stance(self.own, object)
    }

    pub open spec fn bottom_vote_kind(
        self,
        authority: AuthorityIndex,
        object: SnapperObjectKey,
    ) -> Option<SnapperBottomVoteKind> {
        if self.stance(authority, object) != Some(SnapperObjectStance::Bottom) {
            None
        } else if self.acked.contains((object, authority)) {
            Some(SnapperBottomVoteKind::Unlock)
        } else {
            Some(SnapperBottomVoteKind::Skip)
        }
    }

    pub open spec fn decision(self, object: SnapperObjectKey) -> Option<SnapperObjectDecision> {
        if self.decisions.contains_key(object) {
            Some(self.decisions[object])
        } else {
            None
        }
    }

    pub open spec fn resolved(self, object: SnapperObjectKey) -> bool {
        self.decisions.contains_key(object)
    }

    /// An input of the transaction is resolved against it, or the transaction
    /// is unknown.
    pub open spec fn dead(self, transaction: SnapperTransactionId) -> bool {
        !self.inputs.contains_key(transaction) || exists|o: SnapperObjectKey|
            self.inputs[transaction].contains(o) && self.decides_against(o, transaction)
    }

    /// The object version is resolved otherwise than by the transaction.
    pub open spec fn decides_against(
        self,
        object: SnapperObjectKey,
        transaction: SnapperTransactionId,
    ) -> bool {
        self.resolved(object) && self.decisions[object] != SnapperObjectDecision::Commit(
            transaction,
        )
    }

    /// The transaction is known and no input is resolved against it.
    pub open spec fn can_commit(self, transaction: SnapperTransactionId) -> bool {
        self.inputs.contains_key(transaction) && forall|o: SnapperObjectKey|
            self.inputs[transaction].contains(o) ==> !self.decides_against(o, transaction)
    }

    /// The transaction may be committed on the fast route: it can be committed,
    /// and it is not mixed.
    pub open spec fn may_go_fast(self, transaction: SnapperTransactionId) -> bool {
        self.can_commit(transaction) && !self.mixed.contains(transaction)
    }

    /// The state once the transaction competes for the object version.
    pub open spec fn with_candidate(
        self,
        object: SnapperObjectKey,
        transaction: SnapperTransactionId,
    ) -> Self {
        SnapperModel {
            candidates: self.candidates.insert(
                object,
                self.candidates_of(object).insert(transaction),
            ),
            ..self
        }
    }

    /// The state once a transaction with the given owned inputs is recorded.
    /// What is recorded first for an identifier stays.
    pub open spec fn with_transaction(
        self,
        transaction: SnapperTransactionId,
        owned_inputs: Seq<SnapperObjectKey>,
        mixed: bool,
    ) -> Self {
        SnapperModel {
            mixed: if mixed && !self.inputs.contains_key(transaction) {
                self.mixed.insert(transaction)
            } else {
                self.mixed
            },
            inputs: if self.inputs.contains_key(transaction) {
                self.inputs
            } else {
                self.inputs.insert(transaction, owned_inputs)
            },
            candidates: Map::new(
                |o: SnapperObjectKey| self.candidates.contains_key(o) || owned_inputs.contains(o),
                |o: SnapperObjectKey|
                    if owned_inputs.contains(o) {
                        self.candidates_of(o).insert(transaction)
                    } else {
                        self.candidates[o]
                    },
            ),
            ..self
        }
    }

    /// The state once what Snapper reads of a transaction is recorded.
    pub open spec fn with_metadata(self, metadata: Option<block::MetadataView>) -> Self {
        match metadata {
            Some(m) => self.with_transaction(m.id, m.owned_inputs, m.mixed),
            None => self,
        }
    }

    /// The state once an authority has declared a stance; an illegal
    /// declaration and a repeated one change nothing.
    pub open spec fn with_stance(
        self,
        authority: AuthorityIndex,
        object: SnapperObjectKey,
        stance: SnapperObjectStance,
    ) -> Self {
        let from = self.stance(authority, object);
        if !legal_move(from, stance) || from == Some(stance) {
            self
        } else {
            let moved = SnapperModel {
                stances: self.stances.insert((object, authority), stance),
                ..self
            };
            match stance {
                SnapperObjectStance::Transaction(t) => SnapperModel {
                    acked: self.acked.insert((object, authority)),
                    ..moved.with_candidate(object, t)
                },
                SnapperObjectStance::Bottom => moved,
            }
        }
    }

    /// The state once the undecided among the given object versions are decided.
    pub open spec fn with_decision(
        self,
        objects: Seq<SnapperObjectKey>,
        decision: SnapperObjectDecision,
    ) -> Self {
        SnapperModel {
            decisions: Map::new(
                |o: SnapperObjectKey| self.decisions.contains_key(o) || objects.contains(o),
                |o: SnapperObjectKey|
                    if self.decisions.contains_key(o) {
                        self.decisions[o]
                    } else {
                        decision
                    },
            ),
            ..self
        }
    }

    /// The state once the transaction is committed, where it can be.
    pub open spec fn with_commit(self, transaction: SnapperTransactionId) -> Self {
        if self.can_commit(transaction) {
            self.with_decision(
                self.inputs[transaction],
                SnapperObjectDecision::Commit(transaction),
            )
        } else {
            self
        }
    }

    /// What a commit of the transaction decides.
    pub open spec fn commit_changes(self, transaction: SnapperTransactionId) -> Seq<
        (SnapperObjectKey, SnapperObjectDecision),
    > {
        if self.can_commit(transaction) {
            newly_decided(
                self.inputs[transaction],
                self.decisions,
                SnapperObjectDecision::Commit(transaction),
            )
        } else {
            Seq::empty()
        }
    }

    /// The state once the object version is released, where it is unresolved.
    pub open spec fn with_release(self, object: SnapperObjectKey) -> Self {
        if self.resolved(object) {
            self
        } else {
            SnapperModel {
                decisions: self.decisions.insert(object, SnapperObjectDecision::Release),
                ..self
            }
        }
    }

    /// What a release of the object version decides.
    pub open spec fn release_changes(self, object: SnapperObjectKey) -> Seq<
        (SnapperObjectKey, SnapperObjectDecision),
    > {
        if self.resolved(object) {
            Seq::empty()
        } else {
            seq![(object, SnapperObjectDecision::Release)]
        }
    }

    /// The object versions that are conflicted or have a dead candidate.
    pub open spec fn recovery_seeds(self) -> Set<SnapperObjectKey> {
        Set::new(
            |o: SnapperObjectKey|
                self.candidates.contains_key(o) && (self.conflicted(o) || exists|
                    t: SnapperTransactionId,
                | #[trigger]
                    self.candidates_of(o).contains(t) && self.dead(t)),
        )
    }

    /// The object versions in recovery: the seeds and, with each object, all
    /// owned inputs of its candidates.
    pub open spec fn recovery(self) -> Set<SnapperObjectKey> {
        recovery::recovery_closure(self.recovery_seeds(), self.candidates, self.inputs)
    }
}

/// Persistent in-memory state used by the Snapper unlocking layer.
///
/// Predicates that depend on concrete block ancestry are evaluated on the block
/// graph. This type keeps only persistent protocol state.
pub struct SnapperState {
    own_authority: AuthorityIndex,
    candidates: SortedMap<SnapperObjectKey, SortedSet<SnapperTransactionId>>,
    transaction_inputs: SortedMap<SnapperTransactionId, Vec<SnapperObjectKey>>,
    mixed_transactions: SortedSet<SnapperTransactionId>,
    stances: SortedMap<(SnapperObjectKey, AuthorityIndex), SnapperObjectStance>,
    ever_acked: SortedSet<(SnapperObjectKey, AuthorityIndex)>,
    decisions: SortedMap<SnapperObjectKey, SnapperObjectDecision>,
}

impl View for SnapperState {
    type V = SnapperModel;

    closed spec fn view(&self) -> SnapperModel {
        SnapperModel {
            own: self.own_authority,
            candidates: recovery::candidate_sets(self.candidates@),
            inputs: recovery::input_lists(self.transaction_inputs@),
            mixed: self.mixed_transactions@,
            stances: self.stances@,
            acked: self.ever_acked@,
            decisions: self.decisions@,
        }
    }
}

impl SnapperState {
    pub fn new(own_authority: AuthorityIndex) -> (r: Self)
        ensures
            r@ == SnapperModel::initial(own_authority),
    {
        let r = SnapperState {
            own_authority,
            candidates: SortedMap::new(),
            transaction_inputs: SortedMap::new(),
            mixed_transactions: SortedSet::new(),
            stances: SortedMap::new(),
            ever_acked: SortedSet::new(),
            decisions: SortedMap::new(),
        };
        assert(r@ =~= SnapperModel::initial(own_authority));
        r
    }

    pub fn own_authority(&self) -> (r: AuthorityIndex)
        ensures
            r == self@.own,
    {
        self.own_authority
    }

    /// Records a Snapper evaluation transaction and returns its stable id.
    ///
    /// Ordinary transactions return `None` and are ignored by Snapper.
    pub fn record_transaction(&mut self, data: &[u8]) -> (r: Option<SnapperTransactionId>)
        ensures
            final(self)@ == old(self)@.with_metadata(block::metadata_of(data@)),
            r == (match block::metadata_of(data@) {
                Some(m) => Some(m.id),
                None => None,
            }),
    {
        match SnapperTransactionEnvelope::decode(data) {
            Some(envelope) => {
                let transaction = SnapperTransactionEnvelope::transaction_id(data);
                self.record_owned_inputs(transaction, &envelope.owned_inputs, envelope.mixed);
                Some(transaction)
            },
            None => None,
        }
    }

    /// Records what Snapper reads of a transaction.
    pub fn record(&mut self, transaction: &Transaction)
        ensures
            final(self)@ == old(self)@.with_metadata(transaction@.metadata),
    {
        match transaction.metadata() {
            Some(metadata) => self.record_owned_inputs(
                metadata.id,
                &metadata.owned_inputs,
                metadata.mixed,
            ),
            None => {},
        }
    }

    /// Records a transaction with the given identifier and owned inputs, mixed or
    /// not.
    pub fn record_owned_inputs(
        &mut self,
        transaction: SnapperTransactionId,
        owned_inputs: &Vec<SnapperObjectKey>,
        mixed: bool,
    )
        ensures
            final(self)@ == old(self)@.with_transaction(transaction, owned_inputs@, mixed),
    {
        let ghost start = self@;
        if !self.transaction_inputs.contains_key(&transaction) {
            let mut list: Vec<SnapperObjectKey> = Vec::new();
            let mut n: usize = 0;
            while n < owned_inputs.len()
                invariant
                    n <= owned_inputs@.len(),
                    list@ == owned_inputs@.take(n as int),
                decreases owned_inputs@.len() - n,
            {
                list.push(owned_inputs[n]);
                n += 1;
                assert(list@ =~= owned_inputs@.take(n as int));
            }
            assert(list@ =~= owned_inputs@);
            self.transaction_inputs.insert(transaction, list);
            if mixed {
                self.mixed_transactions.insert(transaction);
            }
        }
        let ghost inputs = start.with_transaction(transaction, owned_inputs@, mixed).inputs;
        assert(self@.inputs =~= inputs);
        let mut i: usize = 0;
        assert(owned_inputs@.take(0) =~= Seq::empty());
        assert(self@.candidates =~= start.with_transaction(
            transaction,
            owned_inputs@.take(0),
            mixed,
        ).candidates);
        while i < owned_inputs.len()
            invariant
                i <= owned_inputs@.len(),
                self@.own == start.own,
                self@.inputs == inputs,
                self@.mixed == start.with_transaction(transaction, owned_inputs@, mixed).mixed,
                self@.stances == start.stances,
                self@.acked == start.acked,
                self@.decisions == start.decisions,
                self@.candidates == start.with_transaction(
                    transaction,
                    owned_inputs@.take(i as int),
                    mixed,
                ).candidates,
            decreases owned_inputs@.len() - i,
        {
            let object = owned_inputs[i];
            let ghost now = self@;
            self.record_candidate(object, transaction);
            i += 1;
            proof {
                let next = owned_inputs@.take(i as int);
                seqs::lemma_take_next(owned_inputs@, i - 1);
                let goal = start.with_transaction(transaction, next, mixed).candidates;
                assert forall|o: SnapperObjectKey| #[trigger] self@.candidates.contains_key(
                    o,
                ) implies self@.candidates[o] =~= goal[o] by {
                    if o == object {
                        assert(now.candidates_of(o).insert(transaction) =~= start.candidates_of(
                            o,
                        ).insert(transaction));
                    }
                }
                assert(self@.candidates.dom() =~= goal.dom());
                assert(self@.candidates =~= goal);
            }
        }
        assert(owned_inputs@.take(i as int) =~= owned_inputs@);
        assert(self@ =~= start.with_transaction(transaction, owned_inputs@, mixed));
    }

    /// Records that a transaction competes for an object version.
    pub fn record_candidate(
        &mut self,
        object: SnapperObjectKey,
        transaction: SnapperTransactionId,
    )
        ensures
            final(self)@ == old(self)@.with_candidate(object, transaction),
    {
        let mut set = match self.candidates.remove(&object) {
            Some(set) => set,
            None => SortedSet::new(),
        };
        assert(set@ =~= old(self)@.candidates_of(object));
        set.insert(transaction);
        self.candidates.insert(object, set);
        assert(self@.candidates =~= old(self)@.with_candidate(object, transaction).candidates);
        assert(self@ =~= old(self)@.with_candidate(object, transaction));
    }

    /// The owned inputs of a recorded transaction.
    pub fn owned_inputs(&self, transaction: SnapperTransactionId) -> (r: Option<
        &[SnapperObjectKey],
    >)
        ensures
            match r {
                Some(inputs) => self@.inputs.contains_key(transaction) && self@.inputs[transaction]
                    == inputs@,
                None => !self@.inputs.contains_key(transaction),
            },
    {
        match self.transaction_inputs.get(&transaction) {
            Some(list) => Some(list.as_slice()),
            None => None,
        }
    }

    /// Whether a recorded transaction is mixed.
    pub fn is_mixed(&self, transaction: SnapperTransactionId) -> (r: bool)
        ensures
            r == self@.mixed.contains(transaction),
    {
        self.mixed_transactions.contains(&transaction)
    }

    /// The recorded transactions in ascending order.
    pub fn transaction_ids(&self) -> (r: Vec<SnapperTransactionId>)
        ensures
            r@ == order::sorted(self@.inputs.dom()),
            r@.to_set() == self@.inputs.dom(),
            order::ascending(r@),
            self@.inputs.dom().finite(),
    {
        let r = self.transaction_inputs.keys();
        assert(self@.inputs.dom() =~= self.transaction_inputs@.dom());
        r
    }

    /// The object versions with candidates, in ascending order.
    pub fn objects(&self) -> (r: Vec<SnapperObjectKey>)
        ensures
            r@ == order::sorted(self@.candidates.dom()),
            r@.to_set() == self@.candidates.dom(),
            order::ascending(r@),
    {
        let r = self.candidates.keys();
        assert(self@.candidates.dom() =~= self.candidates@.dom());
        r
    }

    /// The candidates for an object version in ascending order.
    pub fn candidates(&self, object: &SnapperObjectKey) -> (r: Vec<SnapperTransactionId>)
        ensures
            r@ == order::sorted(self@.candidates_of(*object)),
            r@.to_set() == self@.candidates_of(*object),
            order::ascending(r@),
            r@.no_duplicates(),
    {
        match self.candidates.get(object) {
            Some(set) => set.to_vec(),
            None => {
                let set: SortedSet<SnapperTransactionId> = SortedSet::new();
                set.to_vec()
            },
        }
    }

    pub fn candidate_count(&self, object: &SnapperObjectKey) -> (r: usize)
        ensures
            r == self@.candidates_of(*object).len(),
    {
        match self.candidates.get(object) {
            Some(set) => set.len(),
            None => 0,
        }
    }

    pub fn is_conflicted(&self, object: &SnapperObjectKey) -> (r: bool)
        ensures
            r == self@.conflicted(*object),
    {
        self.candidate_count(object) >= 2
    }

    pub fn stance(&self, authority: AuthorityIndex, object: &SnapperObjectKey) -> (r: Option<
        SnapperObjectStance,
    >)
        ensures
            r == self@.stance(authority, *object),
    {
        match self.stances.get(&(*object, authority)) {
            Some(stance) => Some(*stance),
            None => None,
        }
    }

    pub fn own_stance(&self, object: &SnapperObjectKey) -> (r: Option<SnapperObjectStance>)
        ensures
            r == self@.own_stance(*object),
    {
        self.stance(self.own_authority, object)
    }

    pub fn previously_acked(&self, authority: AuthorityIndex, object: &SnapperObjectKey) -> (r:
        bool)
        ensures
            r == self@.acked.contains((*object, authority)),
    {
        self.ever_acked.contains(&(*object, authority))
    }

    pub fn bottom_vote_kind(&self, authority: AuthorityIndex, object: &SnapperObjectKey) -> (r:
        Option<SnapperBottomVoteKind>)
        ensures
            r == self@.bottom_vote_kind(authority, *object),
    {
        match self.stance(authority, object) {
            Some(SnapperObjectStance::Bottom) => if self.previously_acked(authority, object) {
                Some(SnapperBottomVoteKind::Unlock)
            } else {
                Some(SnapperBottomVoteKind::Skip)
            },
            _ => None,
        }
    }

    pub fn apply_own_stance(
        &mut self,
        object: SnapperObjectKey,
        stance: SnapperObjectStance,
    ) -> (r: Result<(), SnapperStateError>)
        ensures
            final(self)@ == old(self)@.with_stance(old(self)@.own, object, stance),
            r is Ok <==> legal_move(old(self)@.own_stance(object), stance),
            r matches Err(e) ==> e == (SnapperStateError::IllegalStanceTransition {
                authority: old(self)@.own,
                object,
                from: old(self)@.own_stance(object)->0,
                to: stance,
            }),
    {
        self.apply_stance(self.own_authority, object, stance)
    }

    /// Honest validators may move only:
    ///
    /// none -> tx
    /// none -> Bottom
    /// tx   -> Bottom
    ///
    /// Repeating the same stance is harmless.
    pub fn apply_stance(
        &mut self,
        authority: AuthorityIndex,
        object: SnapperObjectKey,
        new_stance: SnapperObjectStance,
    ) -> (r: Result<(), SnapperStateError>)
        ensures
            final(self)@ == old(self)@.with_stance(authority, object, new_stance),
            r is Ok <==> legal_move(old(self)@.stance(authority, object), new_stance),
            r matches Err(e) ==> e == (SnapperStateError::IllegalStanceTransition {
                authority,
                object,
                from: old(self)@.stance(authority, object)->0,
                to: new_stance,
            }),
    {
        let ghost goal = self@.with_stance(authority, object, new_stance);
        match self.stance(authority, &object) {
            None => {
                match new_stance {
                    SnapperObjectStance::Transaction(transaction) => {
                        self.record_candidate(object, transaction);
                        self.ever_acked.insert((object, authority));
                    },
                    SnapperObjectStance::Bottom => {},
                }
                self.stances.insert((object, authority), new_stance);
                assert(self@ =~= goal);
                Ok(())
            },
            Some(from) => {
                if from.same_as(&new_stance) {
                    return Ok(());
                }
                match new_stance {
                    SnapperObjectStance::Bottom => {
                        self.stances.insert((object, authority), new_stance);
                        assert(self@ =~= goal);
                        Ok(())
                    },
                    SnapperObjectStance::Transaction(_) => Err(
                        SnapperStateError::IllegalStanceTransition {
                            authority,
                            object,
                            from,
                            to: new_stance,
                        },
                    ),
                }
            },
        }
    }

    pub fn decision(&self, object: &SnapperObjectKey) -> (r: Option<SnapperObjectDecision>)
        ensures
            r == self@.decision(*object),
    {
        match self.decisions.get(object) {
            Some(decision) => Some(*decision),
            None => None,
        }
    }

    /// The resolved object versions with their decisions, in ascending order.
    pub fn decisions(&self) -> (r: Vec<(SnapperObjectKey, SnapperObjectDecision)>)
        ensures
            r@.len() == order::sorted(self@.decisions.dom()).len(),
            forall|i: int|
                0 <= i < r@.len() ==> #[trigger] r@[i] == (
                    order::sorted(self@.decisions.dom())[i],
                    self@.decisions[order::sorted(self@.decisions.dom())[i]],
                ),
            order::sorted(self@.decisions.dom()).to_set() == self@.decisions.dom(),
    {
        let keys = self.decisions.keys();
        let mut out: Vec<(SnapperObjectKey, SnapperObjectDecision)> = Vec::new();
        let mut i: usize = 0;
        while i < keys.len()
            invariant
                i <= keys@.len(),
                out@.len() == i,
                keys@.to_set() == self@.decisions.dom(),
                forall|j: int|
                    0 <= j < i ==> #[trigger] out@[j] == (keys@[j], self@.decisions[keys@[j]]),
            decreases keys@.len() - i,
        {
            assert(keys@.contains(keys@[i as int]));
            match self.decisions.get(&keys[i]) {
                Some(decision) => {
                    out.push((keys[i], *decision));
                },
                None => {
                    assert(keys@.to_set().contains(keys@[i as int]));
                    assert(false);
                },
            }
            i += 1;
        }
        out
    }

    pub fn is_resolved(&self, object: &SnapperObjectKey) -> (r: bool)
        ensures
            r == self@.resolved(*object),
    {
        self.decisions.contains_key(object)
    }

    /// The first position of an input that is resolved against the transaction.
    fn first_conflict(
        &self,
        transaction: SnapperTransactionId,
        inputs: &[SnapperObjectKey],
    ) -> (r: Option<(usize, SnapperObjectDecision)>)
        ensures
            match r {
                Some((i, d)) => {
                    &&& i < inputs@.len()
                    &&& self@.decides_against(inputs@[i as int], transaction)
                    &&& self@.decisions[inputs@[i as int]] == d
                    &&& forall|j: int|
                        0 <= j < i ==> !self@.decides_against(#[trigger] inputs@[j], transaction)
                },
                None => forall|o: SnapperObjectKey|
                    inputs@.contains(o) ==> !self@.decides_against(o, transaction),
            },
    {
        let committed = SnapperObjectDecision::Commit(transaction);
        let mut i: usize = 0;
        while i < inputs.len()
            invariant
                i <= inputs@.len(),
                committed == SnapperObjectDecision::Commit(transaction),
                forall|j: int|
                    0 <= j < i ==> !self@.decides_against(#[trigger] inputs@[j], transaction),
            decreases inputs@.len() - i,
        {
            match self.decision(&inputs[i]) {
                Some(existing) => {
                    if !existing.same_as(&committed) {
                        return Some((i, existing));
                    }
                },
                None => {},
            }
            i += 1;
        }
        None
    }

    pub fn is_transaction_dead(&self, transaction: SnapperTransactionId) -> (r: bool)
        ensures
            r == self@.dead(transaction),
    {
        match self.owned_inputs(transaction) {
            None => true,
            Some(inputs) => match self.first_conflict(transaction, inputs) {
                Some((i, _)) => {
                    assert(inputs@.contains(inputs@[i as int]));
                    true
                },
                None => false,
            },
        }
    }

    pub fn can_commit_transaction(&self, transaction: SnapperTransactionId) -> (r: bool)
        ensures
            r == self@.can_commit(transaction),
    {
        match self.owned_inputs(transaction) {
            None => false,
            Some(inputs) => match self.first_conflict(transaction, inputs) {
                Some((i, _)) => {
                    assert(inputs@.contains(inputs@[i as int]));
                    false
                },
                None => true,
            },
        }
    }

    /// Commits a transaction on every owned input.
    ///
    /// The operation is atomic with respect to this in-memory state: all inputs
    /// are checked before any decision is written.
    pub fn commit_transaction(&mut self, transaction: SnapperTransactionId) -> (r: Result<
        Vec<(SnapperObjectKey, SnapperObjectDecision)>,
        SnapperStateError,
    >)
        ensures
            final(self)@ == old(self)@.with_commit(transaction),
            match r {
                Ok(changed) => old(self)@.can_commit(transaction) && changed@
                    == old(self)@.commit_changes(transaction),
                Err(SnapperStateError::UnknownTransaction(t)) => t == transaction
                    && !old(self)@.inputs.contains_key(transaction),
                Err(SnapperStateError::ConflictingDecision { object, existing, new }) => {
                    &&& old(self)@.inputs.contains_key(transaction)
                    &&& old(self)@.decides_against(object, transaction)
                    &&& existing == old(self)@.decisions[object]
                    &&& new == SnapperObjectDecision::Commit(transaction)
                    &&& exists|i: int| #[trigger]
                        first_against(old(self)@, transaction, i)
                            && old(self)@.inputs[transaction][i] == object
                },
                Err(SnapperStateError::IllegalStanceTransition { .. }) => false,
            },
    {
        let ghost start = self@;
        let mut inputs: Vec<SnapperObjectKey> = Vec::new();
        match self.owned_inputs(transaction) {
            None => {
                return Err(SnapperStateError::UnknownTransaction(transaction));
            },
            Some(list) => {
                let mut n: usize = 0;
                while n < list.len()
                    invariant
                        n <= list@.len(),
                        inputs@ == list@.take(n as int),
                    decreases list@.len() - n,
                {
                    inputs.push(list[n]);
                    n += 1;
                    assert(inputs@ =~= list@.take(n as int));
                }
                assert(inputs@ =~= list@);
            },
        }
        let new_decision = SnapperObjectDecision::Commit(transaction);
        match self.first_conflict(transaction, inputs.as_slice()) {
            Some((i, existing)) => {
                assert(inputs@.contains(inputs@[i as int]));
                assert(first_against(start, transaction, i as int));
                return Err(
                    SnapperStateError::ConflictingDecision {
                        object: inputs[i],
                        existing,
                        new: new_decision,
                    },
                );
            },
            None => {},
        }
        let mut changed: Vec<(SnapperObjectKey, SnapperObjectDecision)> = Vec::new();
        let mut i: usize = 0;
        proof {
            assert(inputs@.take(0) =~= Seq::empty());
            assert(self@.decisions =~= start.with_decision(
                inputs@.take(0),
                new_decision,
            ).decisions);
        }
        while i < inputs.len()
            invariant
                i <= inputs@.len(),
                new_decision == SnapperObjectDecision::Commit(transaction),
                self@ == start.with_decision(inputs@.take(i as int), new_decision),
                changed@ == newly_decided(inputs@.take(i as int), start.decisions, new_decision),
            decreases inputs@.len() - i,
        {
            let object = inputs[i];
            let ghost next = inputs@.take(i + 1);
            proof {
                seqs::lemma_take_next(inputs@, i as int);
            }
            if !self.is_resolved(&object) {
                self.decisions.insert(object, new_decision);
                changed.push((object, new_decision));
            }
            assert(self@ =~= start.with_decision(next, new_decision));
            i += 1;
        }
        assert(inputs@.take(i as int) =~= inputs@);
        Ok(changed)
    }

    /// Releases an object version.
    pub fn release_object(&mut self, object: SnapperObjectKey) -> (r: Result<
        Vec<(SnapperObjectKey, SnapperObjectDecision)>,
        SnapperStateError,
    >)
        ensures
            final(self)@ == old(self)@.with_release(object),
            match r {
                Ok(changed) => {
                    &&& old(self)@.decision(object) is None || old(self)@.decision(object) == Some(
                        SnapperObjectDecision::Release,
                    )
                    &&& changed@ == old(self)@.release_changes(object)
                },
                Err(e) => {
                    &&& old(self)@.resolved(object)
                    &&& old(self)@.decisions[object] != SnapperObjectDecision::Release
                    &&& e == (SnapperStateError::ConflictingDecision {
                        object,
                        existing: old(self)@.decisions[object],
                        new: SnapperObjectDecision::Release,
                    })
                },
            },
    {
        let new_decision = SnapperObjectDecision::Release;
        match self.decision(&object) {
            None => {
                self.decisions.insert(object, new_decision);
                let mut changed: Vec<(SnapperObjectKey, SnapperObjectDecision)> = Vec::new();
                changed.push((object, new_decision));
                assert(changed@ =~= old(self)@.release_changes(object));
                assert(self@ =~= old(self)@.with_release(object));
                Ok(changed)
            },
            Some(existing) => if existing.same_as(&new_decision) {
                Ok(Vec::new())
            } else {
                Err(
                    SnapperStateError::ConflictingDecision { object, existing, new: new_decision },
                )
            },
        }
    }

    /// Recovery closure for the local proposal history accumulated so far.
    ///
    /// Conflicted objects and those with a dead candidate enter the set first;
    /// then all sibling owned inputs of their candidates are added.
    pub fn current_recovery_objects(&self) -> (r: SortedSet<SnapperObjectKey>)
        ensures
            r@ == self@.recovery(),
    {
        let mut seeds: SortedSet<SnapperObjectKey> = SortedSet::new();
        let objects = self.objects();
        let ghost goal = self@.recovery_seeds();
        let mut i: usize = 0;
        while i < objects.len()
            invariant
                i <= objects@.len(),
                goal == self@.recovery_seeds(),
                objects@.to_set() == self@.candidates.dom(),
                forall|o: SnapperObjectKey|
                    #[trigger] seeds@.contains(o) <==> goal.contains(o) && objects@.take(
                        i as int,
                    ).contains(o),
            decreases objects@.len() - i,
        {
            let object = objects[i];
            let ghost now = seeds@;
            assert(self@.candidates.contains_key(object)) by {
                assert(objects@.contains(object));
                assert(objects@.to_set().contains(object));
            }
            let seed = self.is_conflicted(&object) || self.has_dead_candidate(&object);
            if seed {
                seeds.insert(object);
            }
            proof {
                assert(seed == self@.recovery_seeds().contains(object));
                seqs::lemma_take_next(objects@, i as int);
                assert forall|o: SnapperObjectKey|
                    #[trigger] seeds@.contains(o) <==> goal.contains(o) && objects@.take(
                        i + 1,
                    ).contains(o) by {
                    assert(now.contains(o) <==> goal.contains(o) && objects@.take(
                        i as int,
                    ).contains(o));
                }
            }
            i += 1;
        }
        proof {
            assert(objects@.take(i as int) =~= objects@);
            assert forall|o: SnapperObjectKey| goal.contains(o) implies objects@.contains(o) by {
                assert(objects@.to_set().contains(o));
            }
            assert(seeds@ =~= goal);
        }
        close_over_siblings(seeds, &self.candidates, &self.transaction_inputs)
    }

    /// Whether some candidate for an object version is dead.
    fn has_dead_candidate(&self, object: &SnapperObjectKey) -> (r: bool)
        ensures
            r == exists|t: SnapperTransactionId| #[trigger]
                self@.candidates_of(*object).contains(t) && self@.dead(t),
    {
        let candidates = self.candidates(object);
        let mut i: usize = 0;
        while i < candidates.len()
            invariant
                i <= candidates@.len(),
                candidates@.to_set() == self@.candidates_of(*object),
                forall|j: int| 0 <= j < i ==> !self@.dead(#[trigger] candidates@[j]),
            decreases candidates@.len() - i,
        {
            if self.is_transaction_dead(candidates[i]) {
                assert(candidates@.contains(candidates@[i as int]));
                assert(candidates@.to_set().contains(candidates@[i as int]));
                return true;
            }
            i += 1;
        }
        proof {
            assert forall|t: SnapperTransactionId| #[trigger]
                self@.candidates_of(*object).contains(t) implies !self@.dead(t) by {
                assert(candidates@.contains(t));
            }
        }
        false
    }
}

/// The first input of the transaction that is resolved against it.
pub open spec fn first_against(
    model: SnapperModel,
    transaction: SnapperTransactionId,
    i: int,
) -> bool {
    let inputs = model.inputs[transaction];
    &&& 0 <= i < inputs.len()
    &&& model.decides_against(inputs[i], transaction)
    &&& forall|j: int| 0 <= j < i ==> !model.decides_against(#[trigger] inputs[j], transaction)
}

} // verus!
