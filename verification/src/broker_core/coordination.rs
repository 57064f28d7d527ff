//! Deterministic transaction and consumer-group coordination state.
//!
//! The coordinators contain no I/O or locking. A runtime shard owns one
//! instance and serializes calls to it. This keeps producer epochs, group
//! generations, and committed offsets single-writer state just like the
//! partition logs.

use vstd::prelude::*;

use crate::byte_order::same_bytes;
use crate::bytes::copy_bytes;
use crate::saturating::{self, saturating_sum};
use crate::sorted_map::{self, SortedMap};

verus! {

broadcast use crate::bytes::lemma_bytes_deep_view, crate::bytes::lemma_slice_deep_view;

/// A producer identity issued by the transaction coordinator.
#[derive(Clone, Copy, Debug, Eq, PartialEq, Structural)]
pub struct ProducerIdentity {
    pub id: i64,
    pub epoch: i16,
}

/// Transaction lifecycle visible to the coordinator.
#[derive(Clone, Copy, Debug, Eq, PartialEq, Structural)]
pub enum TransactionState {
    Empty,
    Ongoing,
    PrepareCommit,
    PrepareAbort,
}

/// A consumer offset enlisted in a producer transaction.
#[derive(Debug, Eq, PartialEq)]
pub struct TransactionOffset {
    pub group_id: Vec<u8>,
    pub generation: i32,
    pub topic: Vec<u8>,
    pub partition: i32,
    pub offset: i64,
}

/// What an enlisted offset says.
#[verifier::ext_equal]
pub struct TransactionOffsetModel {
    pub group_id: Seq<u8>,
    pub generation: i32,
    pub topic: Seq<u8>,
    pub partition: i32,
    pub offset: i64,
}

impl DeepView for TransactionOffset {
    type V = TransactionOffsetModel;

    open spec fn deep_view(&self) -> TransactionOffsetModel {
        TransactionOffsetModel {
            group_id: self.group_id@,
            generation: self.generation,
            topic: self.topic@,
            partition: self.partition,
            offset: self.offset,
        }
    }
}

impl Clone for TransactionOffset {
    fn clone(&self) -> (r: Self)
        ensures
            r.deep_view() == self.deep_view(),
    {
        TransactionOffset {
            group_id: copy_bytes(self.group_id.as_slice()),
            generation: self.generation,
            topic: copy_bytes(self.topic.as_slice()),
            partition: self.partition,
            offset: self.offset,
        }
    }
}

/// Work that must be resolved when a transaction ends.
#[derive(Clone, Debug, Eq, PartialEq)]
pub struct TransactionCompletion {
    pub partitions: Vec<(Vec<u8>, i32)>,
    pub offsets: Vec<TransactionOffset>,
}

/// What a completed transaction leaves to resolve.
#[verifier::ext_equal]
pub struct CompletionModel {
    pub partitions: Seq<(Seq<u8>, i32)>,
    pub offsets: Seq<TransactionOffsetModel>,
}

impl DeepView for TransactionCompletion {
    type V = CompletionModel;

    open spec fn deep_view(&self) -> CompletionModel {
        CompletionModel {
            partitions: self.partitions.deep_view(),
            offsets: self.offsets.deep_view(),
        }
    }
}

/// Errors raised by transaction and group coordination.
#[derive(Clone, Copy, Debug, Eq, PartialEq, Structural)]
pub enum CoordinationError {
    InvalidId,
    UnknownTransaction,
    ProducerFenced,
    InvalidTransactionState,
    UnknownGroup,
    UnknownMember,
    IllegalGeneration,
}

impl CoordinationError {
    /// The text that describes the error.
    pub open spec fn description(self) -> Seq<char> {
        match self {
            CoordinationError::InvalidId => "invalid coordinator id"@,
            CoordinationError::UnknownTransaction => "unknown transaction"@,
            CoordinationError::ProducerFenced => "producer fenced"@,
            CoordinationError::InvalidTransactionState => "invalid transaction state"@,
            CoordinationError::UnknownGroup => "unknown group"@,
            CoordinationError::UnknownMember => "unknown group member"@,
            CoordinationError::IllegalGeneration => "illegal group generation"@,
        }
    }

    /// Describes the error.
    pub fn text(self) -> (r: &'static str)
        ensures
            r@ == self.description(),
    {
        match self {
            CoordinationError::InvalidId => "invalid coordinator id",
            CoordinationError::UnknownTransaction => "unknown transaction",
            CoordinationError::ProducerFenced => "producer fenced",
            CoordinationError::InvalidTransactionState => "invalid transaction state",
            CoordinationError::UnknownGroup => "unknown group",
            CoordinationError::UnknownMember => "unknown group member",
            CoordinationError::IllegalGeneration => "illegal group generation",
        }
    }
}

// ---------------------------------------------------------------------------
// Transactions
// ---------------------------------------------------------------------------

/// One producer's transaction.
#[verifier::ext_equal]
pub struct TransactionModel {
    /// The identity that is not fenced.
    pub identity: ProducerIdentity,
    /// How far the transaction has come.
    pub state: TransactionState,
    /// The enlisted partitions.
    pub partitions: Set<(Seq<u8>, i32)>,
    /// The enlisted consumer offsets, in order.
    pub offsets: Seq<TransactionOffsetModel>,
}

/// What a transaction coordinator holds.
#[verifier::ext_equal]
pub struct TransactionsModel {
    /// The next producer id.
    pub next_id: i64,
    /// The transactions by transactional id.
    pub transactions: Map<Seq<u8>, TransactionModel>,
}

/// The epoch after one; the last epoch is its own successor.
pub open spec fn next_epoch(epoch: i16) -> i16 {
    if epoch == i16::MAX {
        epoch
    } else {
        (epoch + 1) as i16
    }
}

impl TransactionOffsetModel {
    /// The offset names a group and a partition, and counts from zero.
    pub open spec fn wf(self) -> bool {
        &&& self.group_id.len() > 0
        &&& self.topic.len() > 0
        &&& self.generation >= 0
        &&& self.partition >= 0
        &&& self.offset >= 0
    }
}

impl TransactionModel {
    /// A transaction is empty or ongoing, and it is ongoing exactly while
    /// partitions are enlisted. Only an ongoing one has offsets.
    pub open spec fn wf(self) -> bool {
        &&& self.state is Empty || self.state is Ongoing
        &&& self.state is Ongoing <==> self.partitions != Set::<(Seq<u8>, i32)>::empty()
        &&& self.partitions.finite()
        &&& self.state is Empty ==> self.offsets.len() == 0
        &&& forall|i: int| 0 <= i < self.offsets.len() ==> (#[trigger] self.offsets[i]).wf()
    }
}

impl TransactionsModel {
    /// A coordinator that has issued nothing.
    pub open spec fn empty() -> TransactionsModel {
        TransactionsModel { next_id: 1, transactions: Map::empty() }
    }

    /// There are finitely many transactions, and each is well-formed.
    pub open spec fn wf(self) -> bool {
        &&& self.transactions.dom().finite()
        &&& forall|id: Seq<u8>| #[trigger]
            self.transactions.contains_key(id) ==> self.transactions[id].wf()
    }

    /// The identity that the next initialisation of an id issues.
    pub open spec fn next_identity(self, id: Seq<u8>) -> ProducerIdentity {
        if self.transactions.contains_key(id) {
            let previous = self.transactions[id].identity;
            ProducerIdentity { id: previous.id, epoch: next_epoch(previous.epoch) }
        } else {
            ProducerIdentity { id: self.next_id, epoch: 0 }
        }
    }

    /// What initialising a producer does and answers.
    pub open spec fn initialized(self, id: Seq<u8>) -> (TransactionsModel, Result<
        ProducerIdentity,
        CoordinationError,
    >) {
        if id.len() == 0 {
            (self, Err(CoordinationError::InvalidId))
        } else {
            let identity = self.next_identity(id);
            (
                TransactionsModel {
                    next_id: if self.transactions.contains_key(id) {
                        self.next_id
                    } else {
                        saturating::clamped(self.next_id + 1)
                    },
                    transactions: self.transactions.insert(
                        id,
                        TransactionModel {
                            identity,
                            state: TransactionState::Empty,
                            partitions: Set::empty(),
                            offsets: seq![],
                        },
                    ),
                },
                Ok(identity),
            )
        }
    }

    /// Why an identity may not act for an id.
    pub open spec fn refusal(self, id: Seq<u8>, identity: ProducerIdentity) -> Option<CoordinationError> {
        if !self.transactions.contains_key(id) {
            Some(CoordinationError::UnknownTransaction)
        } else if self.transactions[id].identity != identity {
            Some(CoordinationError::ProducerFenced)
        } else {
            None
        }
    }

    /// The coordinator with the transaction of an id replaced.
    pub open spec fn with(self, id: Seq<u8>, transaction: TransactionModel) -> TransactionsModel {
        TransactionsModel { transactions: self.transactions.insert(id, transaction), ..self }
    }

    /// What enlisting a partition does and answers.
    pub open spec fn enlisted(
        self,
        id: Seq<u8>,
        identity: ProducerIdentity,
        topic: Seq<u8>,
        partition: i32,
    ) -> (TransactionsModel, Result<(), CoordinationError>) {
        let transaction = self.transactions[id];
        if topic.len() == 0 || partition < 0 {
            (self, Err(CoordinationError::InvalidId))
        } else if self.refusal(id, identity) is Some {
            (self, Err(self.refusal(id, identity)->Some_0))
        } else if transaction.state is PrepareCommit || transaction.state is PrepareAbort {
            (self, Err(CoordinationError::InvalidTransactionState))
        } else {
            (
                self.with(
                    id,
                    TransactionModel {
                        state: TransactionState::Ongoing,
                        partitions: transaction.partitions.insert((topic, partition)),
                        ..transaction
                    },
                ),
                Ok(()),
            )
        }
    }

    /// Whether a transactional produce is in order.
    pub open spec fn validated(
        self,
        id: Seq<u8>,
        identity: ProducerIdentity,
        topic: Seq<u8>,
        partition: i32,
    ) -> Result<(), CoordinationError> {
        let transaction = self.transactions[id];
        if self.refusal(id, identity) is Some {
            Err(self.refusal(id, identity)->Some_0)
        } else if !(transaction.state is Ongoing) || !transaction.partitions.contains(
            (topic, partition),
        ) {
            Err(CoordinationError::InvalidTransactionState)
        } else {
            Ok(())
        }
    }

    /// What enlisting a consumer offset does and answers.
    pub open spec fn with_offset(
        self,
        id: Seq<u8>,
        identity: ProducerIdentity,
        offset: TransactionOffsetModel,
    ) -> (TransactionsModel, Result<(), CoordinationError>) {
        let transaction = self.transactions[id];
        if offset.group_id.len() == 0 || offset.topic.len() == 0 || offset.generation < 0
            || offset.partition < 0 || offset.offset < 0 {
            (self, Err(CoordinationError::InvalidId))
        } else if self.refusal(id, identity) is Some {
            (self, Err(self.refusal(id, identity)->Some_0))
        } else if !(transaction.state is Ongoing) {
            (self, Err(CoordinationError::InvalidTransactionState))
        } else {
            (
                self.with(
                    id,
                    TransactionModel { offsets: transaction.offsets.push(offset), ..transaction },
                ),
                Ok(()),
            )
        }
    }

    /// What ending a transaction does and answers.
    pub open spec fn ended(self, id: Seq<u8>, identity: ProducerIdentity) -> (TransactionsModel, Result<
        CompletionModel,
        CoordinationError,
    >) {
        let transaction = self.transactions[id];
        if self.refusal(id, identity) is Some {
            (self, Err(self.refusal(id, identity)->Some_0))
        } else if !(transaction.state is Ongoing) {
            (self, Err(CoordinationError::InvalidTransactionState))
        } else {
            (
                self.with(
                    id,
                    TransactionModel {
                        identity: transaction.identity,
                        state: TransactionState::Empty,
                        partitions: Set::empty(),
                        offsets: seq![],
                    },
                ),
                Ok(
                    CompletionModel {
                        partitions: sorted_map::in_order::<(Vec<u8>, i32)>(transaction.partitions),
                        offsets: transaction.offsets,
                    },
                ),
            )
        }
    }
}

#[derive(Debug)]
struct Transaction {
    identity: ProducerIdentity,
    state: TransactionState,
    partitions: SortedMap<(Vec<u8>, i32), ()>,
    offsets: Vec<TransactionOffset>,
}

impl View for Transaction {
    type V = TransactionModel;

    closed spec fn view(&self) -> TransactionModel {
        TransactionModel {
            identity: self.identity,
            state: self.state,
            partitions: self.partitions.dict().dom(),
            offsets: self.offsets.deep_view(),
        }
    }
}

/// What the transactions of a map stand for.
spec fn transactions_view(dict: Map<Seq<u8>, Transaction>) -> Map<Seq<u8>, TransactionModel> {
    dict.map_values(|transaction: Transaction| transaction@)
}

/// Single-writer transaction coordinator.
#[derive(Debug)]
pub struct TransactionCoordinator {
    next_id: i64,
    transactions: SortedMap<Vec<u8>, Transaction>,
}

impl View for TransactionCoordinator {
    type V = TransactionsModel;

    closed spec fn view(&self) -> TransactionsModel {
        TransactionsModel {
            next_id: self.next_id,
            transactions: transactions_view(self.transactions.dict()),
        }
    }
}

impl TransactionCoordinator {
    /// Ids and enlisted partitions are kept in order, and every transaction is
    /// well-formed.
    pub closed spec fn wf(&self) -> bool {
        &&& self.transactions.wf()
        &&& forall|id: Seq<u8>| #[trigger]
            self.transactions.dict().contains_key(id) ==> self.transactions.dict()[id].partitions.wf()
                && self.transactions.dict()[id]@.wf()
    }

    /// What a well-formed coordinator stands for is well-formed.
    pub proof fn lemma_model_wf(&self)
        requires
            self.wf(),
        ensures
            self@.wf(),
    {
        self.transactions.lemma_facts();
        assert(self@.transactions.dom() =~= self.transactions.dict().dom());
    }

    pub fn new() -> (r: Self)
        ensures
            r.wf(),
            r@ == TransactionsModel::empty(),
    {
        let r = TransactionCoordinator { next_id: 1, transactions: SortedMap::new() };
        proof {
            assert(r@.transactions =~= Map::empty());
        }
        r
    }

    /// Fences the previous producer for `transactional_id` and issues a new
    /// epoch. Re-initialising is therefore safe after a client restart.
    pub fn init(&mut self, transactional_id: &[u8]) -> (r: Result<ProducerIdentity, CoordinationError>)
        requires
            old(self).wf(),
        ensures
            final(self).wf(),
            (final(self)@, r) == old(self)@.initialized(transactional_id@),
    {
        if transactional_id.len() == 0 {
            return Err(CoordinationError::InvalidId);
        }
        let ghost before = *self;
        let key = copy_bytes(transactional_id);
        let identity = match self.transactions.get(&key) {
            Some(previous) => ProducerIdentity {
                id: previous.identity.id,
                epoch: if previous.identity.epoch == i16::MAX {
                    previous.identity.epoch
                } else {
                    previous.identity.epoch + 1
                },
            },
            None => {
                let id: i64 = self.next_id;
                self.next_id = saturating_sum(self.next_id, 1);
                ProducerIdentity { id, epoch: 0 }
            },
        };
        let transaction = Transaction {
            identity,
            state: TransactionState::Empty,
            partitions: SortedMap::new(),
            offsets: Vec::new(),
        };
        let ghost model = transaction@;
        self.transactions.insert(key, transaction);
        proof {
            assert(model.partitions =~= Set::empty());
            assert(model.offsets =~= seq![]);
            assert(self@.transactions =~= before@.transactions.insert(transactional_id@, model));
        }
        Ok(identity)
    }

    /// The position of a transaction that an identity may act for.
    fn locate(&self, transactional_id: &[u8], identity: ProducerIdentity) -> (r: Result<usize, CoordinationError>)
        requires
            self.wf(),
        ensures
            match r {
                Ok(index) => {
                    &&& self@.refusal(transactional_id@, identity) is None
                    &&& index < self.transactions.keys().len()
                    &&& index < self.transactions.values().len()
                    &&& self.transactions.keys()[index as int] == transactional_id@
                    &&& self.transactions.values()[index as int]
                        == self.transactions.dict()[transactional_id@]
                    &&& self.transactions.dict().contains_key(transactional_id@)
                    &&& self.transactions.values()[index as int].partitions.wf()
                    &&& self.transactions.values()[index as int]@
                        == self@.transactions[transactional_id@]
                },
                Err(error) => self@.refusal(transactional_id@, identity) == Some(error),
            },
    {
        let key = copy_bytes(transactional_id);
        proof {
            self.transactions.lemma_facts();
        }
        match self.transactions.find(&key) {
            None => Err(CoordinationError::UnknownTransaction),
            Some(index) => {
                if self.transactions.value_at(index).identity != identity {
                    return Err(CoordinationError::ProducerFenced);
                }
                Ok(index)
            },
        }
    }

    /// What replacing one transaction does to the whole.
    proof fn lemma_replaced(before: Self, after: Self, id: Seq<u8>, transaction: Transaction)
        requires
            before.wf(),
            after.transactions.wf(),
            after.next_id == before.next_id,
            after.transactions.dict() == before.transactions.dict().insert(id, transaction),
            transaction.partitions.wf(),
            transaction@.wf(),
        ensures
            after.wf(),
            after@ == before@.with(id, transaction@),
    {
        assert(after@.transactions =~= before@.transactions.insert(id, transaction@));
    }

    /// Adds a partition and starts the transaction if necessary.
    pub fn add_partition(
        &mut self,
        transactional_id: &[u8],
        identity: ProducerIdentity,
        topic: &[u8],
        partition: i32,
    ) -> (r: Result<(), CoordinationError>)
        requires
            old(self).wf(),
        ensures
            final(self).wf(),
            (final(self)@, r) == old(self)@.enlisted(transactional_id@, identity, topic@, partition),
    {
        if topic.len() == 0 || partition < 0 {
            return Err(CoordinationError::InvalidId);
        }
        let ghost before = *self;
        let index: usize = self.locate(transactional_id, identity)?;
        let state = self.transactions.value_at(index).state;
        if state == TransactionState::PrepareCommit || state == TransactionState::PrepareAbort {
            return Err(CoordinationError::InvalidTransactionState);
        }
        let ghost old_model = self.transactions.values()[index as int]@;
        let transaction = self.transactions.value_at_mut(index);
        transaction.state = TransactionState::Ongoing;
        transaction.partitions.insert((copy_bytes(topic), partition), ());
        let ghost changed = *transaction;
        proof {
            assert(changed@.partitions =~= old_model.partitions.insert((topic@, partition)));
            assert(changed@.partitions.contains((topic@, partition)));
            Self::lemma_replaced(before, *self, transactional_id@, changed);
        }
        Ok(())
    }

    /// Validates a transactional produce against the current producer epoch.
    pub fn validate_produce(
        &mut self,
        transactional_id: &[u8],
        identity: ProducerIdentity,
        topic: &[u8],
        partition: i32,
    ) -> (r: Result<(), CoordinationError>)
        requires
            old(self).wf(),
        ensures
            *final(self) == *old(self),
            r == old(self)@.validated(transactional_id@, identity, topic@, partition),
    {
        let index: usize = self.locate(transactional_id, identity)?;
        let transaction = self.transactions.value_at(index);
        let key = (copy_bytes(topic), partition);
        if transaction.state != TransactionState::Ongoing || !transaction.partitions.contains(&key) {
            return Err(CoordinationError::InvalidTransactionState);
        }
        Ok(())
    }

    /// Enlists a consumer-group offset in the open transaction.
    pub fn add_offset(
        &mut self,
        transactional_id: &[u8],
        identity: ProducerIdentity,
        offset: TransactionOffset,
    ) -> (r: Result<(), CoordinationError>)
        requires
            old(self).wf(),
        ensures
            final(self).wf(),
            (final(self)@, r) == old(self)@.with_offset(
                transactional_id@,
                identity,
                offset.deep_view(),
            ),
    {
        if offset.group_id.len() == 0 || offset.topic.len() == 0 || offset.generation < 0
            || offset.partition < 0 || offset.offset < 0 {
            return Err(CoordinationError::InvalidId);
        }
        let ghost before = *self;
        let index: usize = self.locate(transactional_id, identity)?;
        if self.transactions.value_at(index).state != TransactionState::Ongoing {
            return Err(CoordinationError::InvalidTransactionState);
        }
        let ghost old_model = self.transactions.values()[index as int]@;
        let ghost model = offset.deep_view();
        let transaction = self.transactions.value_at_mut(index);
        transaction.offsets.push(offset);
        let ghost changed = *transaction;
        proof {
            assert(changed@.offsets =~= old_model.offsets.push(model));
            assert(changed@ =~= TransactionModel { offsets: old_model.offsets.push(model), ..old_model });
            Self::lemma_replaced(before, *self, transactional_id@, changed);
        }
        Ok(())
    }

    /// Completes a transaction while retaining its identity for fencing. The
    /// partition logs remain the owners of the records; the completion says
    /// which of them have batches to resolve.
    pub fn end(
        &mut self,
        transactional_id: &[u8],
        identity: ProducerIdentity,
        commit: bool,
    ) -> (r: Result<TransactionCompletion, CoordinationError>)
        requires
            old(self).wf(),
        ensures
            final(self).wf(),
            (final(self)@, completion_view(r)) == old(self)@.ended(transactional_id@, identity),
    {
        let ghost before = *self;
        let index: usize = self.locate(transactional_id, identity)?;
        if self.transactions.value_at(index).state != TransactionState::Ongoing {
            return Err(CoordinationError::InvalidTransactionState);
        }
        let ghost old_model = self.transactions.values()[index as int]@;
        let transaction = self.transactions.value_at_mut(index);
        transaction.state = if commit {
            TransactionState::PrepareCommit
        } else {
            TransactionState::PrepareAbort
        };
        let partitions = list_keys(&transaction.partitions);
        let mut offsets: Vec<TransactionOffset> = Vec::new();
        offsets.append(&mut transaction.offsets);
        transaction.partitions = SortedMap::new();
        transaction.state = TransactionState::Empty;
        let ghost changed = *transaction;
        proof {
            assert(offsets.deep_view() =~= old_model.offsets);
            assert(changed@.partitions =~= Set::empty());
            assert(changed@.offsets =~= seq![]);
            Self::lemma_replaced(before, *self, transactional_id@, changed);
        }
        Ok(TransactionCompletion { partitions, offsets })
    }
}

/// What the answer to ending a transaction stands for.
pub open spec fn completion_view(r: Result<TransactionCompletion, CoordinationError>) -> Result<
    CompletionModel,
    CoordinationError,
> {
    match r {
        Ok(completion) => Ok(completion.deep_view()),
        Err(error) => Err(error),
    }
}

/// The keys of a set of partitions, in order.
fn list_keys(places: &SortedMap<(Vec<u8>, i32), ()>) -> (r: Vec<(Vec<u8>, i32)>)
    requires
        places.wf(),
    ensures
        r.deep_view() == sorted_map::in_order::<(Vec<u8>, i32)>(places.dict().dom()),
{
    let mut keys: Vec<(Vec<u8>, i32)> = Vec::new();
    let mut i: usize = 0;
    while i < places.len()
        invariant
            i <= places.keys().len(),
            keys.deep_view() =~= places.keys().take(i as int),
        decreases places.keys().len() - i,
    {
        let key = places.key_at(i);
        let copy = (copy_bytes(key.0.as_slice()), key.1);
        let ghost before = keys.deep_view();
        let ghost model = copy.deep_view();
        keys.push(copy);
        proof {
            assert(model == places.keys()[i as int]);
            assert(keys.deep_view() =~= before.push(model));
        }
        i += 1;
    }
    proof {
        places.lemma_facts();
        assert(places.keys().take(i as int) =~= places.keys());
    }
    keys
}

impl Default for TransactionCoordinator {
    fn default() -> (r: Self)
        ensures
            r.wf(),
            r@ == (TransactionsModel { next_id: 0, transactions: Map::empty() }),
    {
        let r = TransactionCoordinator { next_id: 0, transactions: SortedMap::new() };
        proof {
            assert(r@.transactions =~= Map::empty());
        }
        r
    }
}

// ---------------------------------------------------------------------------
// Consumer groups
// ---------------------------------------------------------------------------

/// A member's assignment returned by a group join/synchronisation.
#[derive(Debug, Eq, PartialEq)]
pub struct GroupAssignment {
    pub member_id: Vec<u8>,
    pub partitions: Vec<(Vec<u8>, i32)>,
}

/// What an assignment says.
#[verifier::ext_equal]
pub struct AssignmentModel {
    pub member_id: Seq<u8>,
    pub partitions: Seq<(Seq<u8>, i32)>,
}

impl DeepView for GroupAssignment {
    type V = AssignmentModel;

    open spec fn deep_view(&self) -> AssignmentModel {
        AssignmentModel { member_id: self.member_id@, partitions: self.partitions.deep_view() }
    }
}

/// Copies a list of partitions.
pub fn copy_places(places: &Vec<(Vec<u8>, i32)>) -> (r: Vec<(Vec<u8>, i32)>)
    ensures
        r.deep_view() == places.deep_view(),
{
    let mut copy: Vec<(Vec<u8>, i32)> = Vec::new();
    let mut i: usize = 0;
    while i < places.len()
        invariant
            i <= places.len(),
            copy.deep_view() =~= places.deep_view().take(i as int),
        decreases places.len() - i,
    {
        let place = (copy_bytes(places[i].0.as_slice()), places[i].1);
        let ghost before = copy.deep_view();
        let ghost model = place.deep_view();
        copy.push(place);
        proof {
            assert(model == places.deep_view()[i as int]);
            assert(copy.deep_view() =~= before.push(model));
        }
        i += 1;
    }
    proof {
        assert(places.deep_view().take(i as int) =~= places.deep_view());
    }
    copy
}

impl Clone for GroupAssignment {
    fn clone(&self) -> (r: Self)
        ensures
            r.deep_view() == self.deep_view(),
    {
        GroupAssignment {
            member_id: copy_bytes(self.member_id.as_slice()),
            partitions: copy_places(&self.partitions),
        }
    }
}

/// One member of a group.
#[verifier::ext_equal]
pub struct MemberModel {
    /// The topics the member reads.
    pub subscriptions: Seq<Seq<u8>>,
    /// The generation the member joined.
    pub generation: i32,
    /// Whether the member was heard of.
    pub alive: bool,
}

/// One consumer group.
#[verifier::ext_equal]
pub struct GroupModel {
    /// The current generation.
    pub generation: i32,
    /// The members by id.
    pub members: Map<Seq<u8>, MemberModel>,
    /// The assignments of the last join.
    pub assignments: Seq<AssignmentModel>,
    /// The committed offsets by topic and partition.
    pub offsets: Map<(Seq<u8>, i32), i64>,
}

/// The generation after one: at least 1, and the last is its own successor.
pub open spec fn next_generation(generation: i32) -> i32 {
    if generation == i32::MAX {
        generation
    } else if generation < 0 {
        1
    } else {
        (generation + 1) as i32
    }
}

/// The members that read a topic, in the order of `names`.
pub open spec fn subscribers(
    names: Seq<Seq<u8>>,
    members: Map<Seq<u8>, MemberModel>,
    topic: Seq<u8>,
) -> Seq<Seq<u8>>
    decreases names.len(),
{
    if names.len() == 0 {
        seq![]
    } else if members[names.last()].subscriptions.contains(topic) {
        subscribers(names.drop_last(), members, topic).push(names.last())
    } else {
        subscribers(names.drop_last(), members, topic)
    }
}

/// The member that the partition at position `index` goes to: the readers of
/// its topic take turns.
pub open spec fn owner(
    names: Seq<Seq<u8>>,
    members: Map<Seq<u8>, MemberModel>,
    topic: Seq<u8>,
    index: int,
) -> Option<Seq<u8>> {
    let readers = subscribers(names, members, topic);
    if readers.len() == 0 {
        None
    } else {
        Some(readers[index % readers.len() as int])
    }
}

/// The partitions that go to one member, in order.
pub open spec fn assigned_to(
    names: Seq<Seq<u8>>,
    members: Map<Seq<u8>, MemberModel>,
    partitions: Seq<(Seq<u8>, i32)>,
    member: Seq<u8>,
) -> Seq<(Seq<u8>, i32)>
    decreases partitions.len(),
{
    if partitions.len() == 0 {
        seq![]
    } else {
        let earlier = assigned_to(names, members, partitions.drop_last(), member);
        if owner(names, members, partitions.last().0, partitions.len() - 1) == Some(member) {
            earlier.push(partitions.last())
        } else {
            earlier
        }
    }
}

/// The assignment of every member, in the order of `names`.
pub open spec fn assignments_of(
    names: Seq<Seq<u8>>,
    members: Map<Seq<u8>, MemberModel>,
    partitions: Seq<(Seq<u8>, i32)>,
) -> Seq<AssignmentModel> {
    Seq::new(
        names.len(),
        |i: int|
            AssignmentModel {
                member_id: names[i],
                partitions: assigned_to(names, members, partitions, names[i]),
            },
    )
}

impl GroupModel {
    /// A group that nobody has joined.
    pub open spec fn empty() -> GroupModel {
        GroupModel {
            generation: 0,
            members: Map::empty(),
            assignments: seq![],
            offsets: Map::empty(),
        }
    }

    /// The group after a member joined or renewed.
    pub open spec fn joined(
        self,
        member_id: Seq<u8>,
        subscriptions: Seq<Seq<u8>>,
        partitions: Seq<(Seq<u8>, i32)>,
    ) -> GroupModel {
        let generation = next_generation(self.generation);
        let members = self.members.insert(
            member_id,
            MemberModel { subscriptions, generation, alive: true },
        );
        GroupModel {
            generation,
            members,
            assignments: assignments_of(
                sorted_map::in_order::<Vec<u8>>(members.dom()),
                members,
                partitions,
            ),
            offsets: self.offsets,
        }
    }

    /// The group after a member left.
    pub open spec fn left(self, member_id: Seq<u8>) -> GroupModel {
        GroupModel {
            generation: next_generation(self.generation),
            members: self.members.remove(member_id),
            ..self
        }
    }
}

/// What a group coordinator holds: the groups by id.
#[verifier::ext_equal]
pub struct GroupsModel {
    pub groups: Map<Seq<u8>, GroupModel>,
}

impl GroupsModel {
    /// There are finitely many groups, and each has finitely many members and
    /// committed offsets.
    pub open spec fn wf(self) -> bool {
        &&& self.groups.dom().finite()
        &&& forall|id: Seq<u8>| #[trigger]
            self.groups.contains_key(id) ==> self.groups[id].members.dom().finite()
                && self.groups[id].offsets.dom().finite()
    }

    /// The group of an id; one that was never joined is empty.
    pub open spec fn group(self, group_id: Seq<u8>) -> GroupModel {
        if self.groups.contains_key(group_id) {
            self.groups[group_id]
        } else {
            GroupModel::empty()
        }
    }

    /// The coordinator with one group replaced.
    pub open spec fn with(self, group_id: Seq<u8>, group: GroupModel) -> GroupsModel {
        GroupsModel { groups: self.groups.insert(group_id, group) }
    }

    /// What a join does and answers.
    pub open spec fn joined(
        self,
        group_id: Seq<u8>,
        member_id: Seq<u8>,
        subscriptions: Seq<Seq<u8>>,
        partitions: Seq<(Seq<u8>, i32)>,
    ) -> (GroupsModel, Result<(i32, Seq<AssignmentModel>), CoordinationError>) {
        if group_id.len() == 0 || member_id.len() == 0 {
            (self, Err(CoordinationError::InvalidId))
        } else {
            let group = self.group(group_id).joined(member_id, subscriptions, partitions);
            (self.with(group_id, group), Ok((group.generation, group.assignments)))
        }
    }

    /// What a heartbeat does and answers.
    pub open spec fn heard(self, group_id: Seq<u8>, member_id: Seq<u8>, generation: i32) -> (
        GroupsModel,
        Result<(), CoordinationError>,
    ) {
        let group = self.groups[group_id];
        let member = group.members[member_id];
        if !self.groups.contains_key(group_id) {
            (self, Err(CoordinationError::UnknownGroup))
        } else if generation != group.generation {
            (self, Err(CoordinationError::IllegalGeneration))
        } else if !group.members.contains_key(member_id) {
            (self, Err(CoordinationError::UnknownMember))
        } else if member.generation != generation {
            (self, Err(CoordinationError::IllegalGeneration))
        } else {
            (
                self.with(
                    group_id,
                    GroupModel {
                        members: group.members.insert(
                            member_id,
                            MemberModel { alive: true, ..member },
                        ),
                        ..group
                    },
                ),
                Ok(()),
            )
        }
    }

    /// What leaving does and answers; `generation` is checked where it is
    /// given.
    pub open spec fn left(self, group_id: Seq<u8>, member_id: Seq<u8>, generation: Option<i32>) -> (
        GroupsModel,
        Result<(), CoordinationError>,
    ) {
        let group = self.groups[group_id];
        if !self.groups.contains_key(group_id) {
            (self, Err(CoordinationError::UnknownGroup))
        } else if generation is Some && generation != Some(group.generation) {
            (self, Err(CoordinationError::IllegalGeneration))
        } else if !group.members.contains_key(member_id) {
            (self, Err(CoordinationError::UnknownMember))
        } else {
            (self.with(group_id, group.left(member_id)), Ok(()))
        }
    }

    /// What committing an offset does and answers.
    pub open spec fn committed(
        self,
        group_id: Seq<u8>,
        generation: i32,
        topic: Seq<u8>,
        partition: i32,
        offset: i64,
    ) -> (GroupsModel, Result<(), CoordinationError>) {
        let group = self.groups[group_id];
        if !self.groups.contains_key(group_id) {
            (self, Err(CoordinationError::UnknownGroup))
        } else if generation != group.generation {
            (self, Err(CoordinationError::IllegalGeneration))
        } else if partition < 0 || offset < 0 {
            (self, Err(CoordinationError::InvalidId))
        } else {
            (
                self.with(
                    group_id,
                    GroupModel {
                        offsets: group.offsets.insert((topic, partition), offset),
                        ..group
                    },
                ),
                Ok(()),
            )
        }
    }

    /// The committed offset of a partition.
    pub open spec fn offset(self, group_id: Seq<u8>, topic: Seq<u8>, partition: i32) -> Result<
        Option<i64>,
        CoordinationError,
    > {
        if !self.groups.contains_key(group_id) {
            Err(CoordinationError::UnknownGroup)
        } else if self.groups[group_id].offsets.contains_key((topic, partition)) {
            Ok(Some(self.groups[group_id].offsets[(topic, partition)]))
        } else {
            Ok(None)
        }
    }
}

#[derive(Debug)]
struct GroupMember {
    subscriptions: Vec<Vec<u8>>,
    generation: i32,
    alive: bool,
}

impl View for GroupMember {
    type V = MemberModel;

    closed spec fn view(&self) -> MemberModel {
        MemberModel {
            subscriptions: self.subscriptions.deep_view(),
            generation: self.generation,
            alive: self.alive,
        }
    }
}

/// What the members of a map stand for.
spec fn members_view(dict: Map<Seq<u8>, GroupMember>) -> Map<Seq<u8>, MemberModel> {
    dict.map_values(|member: GroupMember| member@)
}

#[derive(Debug)]
struct Group {
    generation: i32,
    members: SortedMap<Vec<u8>, GroupMember>,
    assignments: Vec<GroupAssignment>,
    offsets: SortedMap<(Vec<u8>, i32), i64>,
}

impl View for Group {
    type V = GroupModel;

    closed spec fn view(&self) -> GroupModel {
        GroupModel {
            generation: self.generation,
            members: members_view(self.members.dict()),
            assignments: self.assignments.deep_view(),
            offsets: self.offsets.dict(),
        }
    }
}

/// The generation after one.
fn advance_generation(generation: i32) -> (r: i32)
    ensures
        r == next_generation(generation),
{
    if generation == i32::MAX {
        generation
    } else if generation < 0 {
        1
    } else {
        generation + 1
    }
}

impl GroupMember {
    /// Whether the member reads a topic.
    fn reads(&self, topic: &[u8]) -> (r: bool)
        ensures
            r == self@.subscriptions.contains(topic@),
    {
        let ghost names = self@.subscriptions;
        let mut i: usize = 0;
        while i < self.subscriptions.len()
            invariant
                names == self@.subscriptions,
                names.len() == self.subscriptions@.len(),
                i <= self.subscriptions.len(),
                forall|k: int| 0 <= k < i ==> #[trigger] names[k] != topic@,
            decreases self.subscriptions.len() - i,
        {
            proof {
                assert(names[i as int] == self.subscriptions@[i as int].deep_view());
            }
            if same_bytes(self.subscriptions[i].as_slice(), topic) {
                proof {
                    assert(names[i as int] == topic@);
                }
                return true;
            }
            i += 1;
        }
        false
    }
}

impl Group {
    /// Member ids and offsets are kept in order.
    spec fn wf(&self) -> bool {
        &&& self.members.wf()
        &&& self.offsets.wf()
    }

    fn new() -> (r: Self)
        ensures
            r.wf(),
            r@ == GroupModel::empty(),
    {
        let r = Group {
            generation: 0,
            members: SortedMap::new(),
            assignments: Vec::new(),
            offsets: SortedMap::new(),
        };
        proof {
            assert(r@.members =~= Map::empty());
            assert(r@.assignments =~= seq![]);
        }
        r
    }

    /// How the members as stored and as modelled hang together.
    proof fn lemma_members(&self)
        requires
            self.wf(),
        ensures
            self@.members.dom() == self.members.dict().dom(),
            self.members.keys() == sorted_map::in_order::<Vec<u8>>(self@.members.dom()),
            self.members.keys().no_duplicates(),
            self.members.keys().len() == self.members.values().len(),
            forall|i: int|
                0 <= i < self.members.keys().len() ==> self@.members[#[trigger] self.members.keys()[i]]
                    == self.members.values()[i]@,
    {
        self.members.lemma_facts();
        assert(self@.members.dom() =~= self.members.dict().dom());
    }

    /// The positions of the members that read a topic.
    fn reader_positions(&self, topic: &[u8]) -> (r: Vec<usize>)
        requires
            self.wf(),
        ensures
            forall|k: int| 0 <= k < r@.len() ==> (#[trigger] r@[k]) < self.members.keys().len(),
            r@.len() == subscribers(self.members.keys(), self@.members, topic@).len(),
            forall|k: int|
                0 <= k < r@.len() ==> subscribers(self.members.keys(), self@.members, topic@)[k]
                    == self.members.keys()[#[trigger] r@[k] as int],
    {
        let ghost names = self.members.keys();
        let ghost members = self@.members;
        proof {
            self.lemma_members();
        }
        let mut positions: Vec<usize> = Vec::new();
        let mut i: usize = 0;
        while i < self.members.len()
            invariant
                self.wf(),
                names == self.members.keys(),
                members == self@.members,
                names.len() == self.members.values().len(),
                forall|k: int|
                    0 <= k < names.len() ==> members[#[trigger] names[k]] == self.members.values()[k]@,
                i <= names.len(),
                forall|k: int| 0 <= k < positions@.len() ==> (#[trigger] positions@[k]) < i,
                positions@.len() == subscribers(names.take(i as int), members, topic@).len(),
                forall|k: int|
                    0 <= k < positions@.len() ==> subscribers(names.take(i as int), members, topic@)[k]
                        == names[#[trigger] positions@[k] as int],
            decreases names.len() - i,
        {
            proof {
                assert(names.take(i + 1).drop_last() =~= names.take(i as int));
                assert(names.take(i + 1).last() == names[i as int]);
            }
            if self.members.value_at(i).reads(topic) {
                positions.push(i);
            }
            i += 1;
        }
        proof {
            assert(names.take(i as int) =~= names);
        }
        positions
    }

    /// Hands the partitions out to the members.
    fn assign(&self, partitions: &[(Vec<u8>, i32)]) -> (r: Vec<GroupAssignment>)
        requires
            self.wf(),
        ensures
            r.deep_view() == assignments_of(
                sorted_map::in_order::<Vec<u8>>(self@.members.dom()),
                self@.members,
                partitions.deep_view(),
            ),
    {
        let ghost names = self.members.keys();
        let ghost members = self@.members;
        let ghost places = partitions.deep_view();
        proof {
            self.lemma_members();
        }
        let mut assignments: Vec<GroupAssignment> = Vec::new();
        let mut i: usize = 0;
        while i < self.members.len()
            invariant
                names == self.members.keys(),
                i <= names.len(),
                assignments@.len() == i,
                forall|k: int|
                    0 <= k < i ==> (#[trigger] assignments@[k]).deep_view() == (AssignmentModel {
                        member_id: names[k],
                        partitions: seq![],
                    }),
            decreases names.len() - i,
        {
            let assignment = GroupAssignment {
                member_id: copy_bytes(self.members.key_at(i).as_slice()),
                partitions: Vec::new(),
            };
            proof {
                assert(assignment.partitions.deep_view() =~= seq![]);
            }
            assignments.push(assignment);
            i += 1;
        }
        let mut index: usize = 0;
        while index < partitions.len()
            invariant
                self.wf(),
                names == self.members.keys(),
                names.no_duplicates(),
                members == self@.members,
                places == partitions.deep_view(),
                index <= partitions.len(),
                assignments@.len() == names.len(),
                forall|k: int|
                    0 <= k < names.len() ==> (#[trigger] assignments@[k]).deep_view() == (
                    AssignmentModel {
                        member_id: names[k],
                        partitions: assigned_to(names, members, places.take(index as int), names[k]),
                    }),
            decreases partitions.len() - index,
        {
            let ghost before = assignments@;
            let topic = &partitions[index].0;
            let partition: i32 = partitions[index].1;
            proof {
                assert(places.take(index + 1).drop_last() =~= places.take(index as int));
                assert(places.take(index + 1).last() == partitions@[index as int].deep_view());
            }
            let eligible = self.reader_positions(topic.as_slice());
            if eligible.len() > 0 {
                let chosen: usize = eligible[index % eligible.len()];
                let place = (copy_bytes(topic.as_slice()), partition);
                let ghost added = place.deep_view();
                proof {
                    assert(owner(names, members, topic@, index as int) == Some(names[chosen as int]));
                    assert(assignments@[chosen as int].deep_view().member_id == names[chosen as int]);
                }
                let ghost earlier = assignments@[chosen as int].deep_view().partitions;
                assignments[chosen].partitions.push(place);
                proof {
                    assert(assignments@[chosen as int].partitions.deep_view() =~= earlier.push(added));
                    assert forall|k: int| 0 <= k < names.len() implies (
                    #[trigger] assignments@[k]).deep_view() == (AssignmentModel {
                        member_id: names[k],
                        partitions: assigned_to(names, members, places.take(index + 1), names[k]),
                    }) by {
                        if k != chosen {
                            assert(assignments@[k] == before[k]);
                            assert(before[k].deep_view().member_id == names[k]);
                            assert(names[k] != names[chosen as int]);
                        }
                    }
                }
            } else {
                proof {
                    assert(owner(names, members, topic@, index as int) is None);
                    assert forall|k: int| 0 <= k < names.len() implies (
                    #[trigger] assignments@[k]).deep_view() == (AssignmentModel {
                        member_id: names[k],
                        partitions: assigned_to(names, members, places.take(index + 1), names[k]),
                    }) by {
                        assert(before[k].deep_view().member_id == names[k]);
                    }
                }
            }
            index += 1;
        }
        proof {
            assert(places.take(index as int) =~= places);
            assert(assignments.deep_view() =~= assignments_of(names, members, places));
        }
        assignments
    }
}

/// Copies a list of assignments.
fn copy_assignments(assignments: &Vec<GroupAssignment>) -> (r: Vec<GroupAssignment>)
    ensures
        r.deep_view() == assignments.deep_view(),
{
    let mut copy: Vec<GroupAssignment> = Vec::new();
    let mut i: usize = 0;
    while i < assignments.len()
        invariant
            i <= assignments.len(),
            copy.deep_view() =~= assignments.deep_view().take(i as int),
        decreases assignments.len() - i,
    {
        let assignment = assignments[i].clone();
        let ghost before = copy.deep_view();
        let ghost model = assignment.deep_view();
        copy.push(assignment);
        proof {
            assert(copy.deep_view() =~= before.push(model));
        }
        i += 1;
    }
    proof {
        assert(assignments.deep_view().take(i as int) =~= assignments.deep_view());
    }
    copy
}

/// What the groups of a map stand for.
spec fn groups_view(dict: Map<Seq<u8>, Group>) -> Map<Seq<u8>, GroupModel> {
    dict.map_values(|group: Group| group@)
}

/// Single-writer consumer-group coordinator with deterministic round-robin
/// assignment and generation fencing.
#[derive(Debug)]
pub struct GroupCoordinator {
    groups: SortedMap<Vec<u8>, Group>,
}

impl View for GroupCoordinator {
    type V = GroupsModel;

    closed spec fn view(&self) -> GroupsModel {
        GroupsModel { groups: groups_view(self.groups.dict()) }
    }
}

/// What the answer to a join stands for.
pub open spec fn join_view(r: Result<(i32, Vec<GroupAssignment>), CoordinationError>) -> Result<
    (i32, Seq<AssignmentModel>),
    CoordinationError,
> {
    match r {
        Ok((generation, assignments)) => Ok((generation, assignments.deep_view())),
        Err(error) => Err(error),
    }
}

impl GroupCoordinator {
    /// Group ids, and what each group keeps, are in order.
    pub closed spec fn wf(&self) -> bool {
        &&& self.groups.wf()
        &&& forall|id: Seq<u8>| #[trigger]
            self.groups.dict().contains_key(id) ==> self.groups.dict()[id].wf()
    }

    /// What a well-formed coordinator stands for is well-formed.
    pub proof fn lemma_model_wf(&self)
        requires
            self.wf(),
        ensures
            self@.wf(),
    {
        self.groups.lemma_facts();
        assert(self@.groups.dom() =~= self.groups.dict().dom());
        assert forall|id: Seq<u8>| #[trigger] self@.groups.contains_key(id) implies self@.groups[id].members.dom().finite()
            && self@.groups[id].offsets.dom().finite() by {
            let group = self.groups.dict()[id];
            group.lemma_members();
            group.members.lemma_facts();
            group.offsets.lemma_facts();
        }
    }

    pub fn new() -> (r: Self)
        ensures
            r.wf(),
            r@ == (GroupsModel { groups: Map::empty() }),
    {
        let r = GroupCoordinator { groups: SortedMap::new() };
        proof {
            assert(r@.groups =~= Map::empty());
        }
        r
    }

    /// What replacing one group does to the whole.
    proof fn lemma_replaced(before: Self, after: Self, id: Seq<u8>, group: Group)
        requires
            before.wf(),
            after.groups.wf(),
            after.groups.dict() == before.groups.dict().insert(id, group),
            group.wf(),
        ensures
            after.wf(),
            after@ == before@.with(id, group@),
    {
        assert(after@.groups =~= before@.groups.insert(id, group@));
    }

    /// The position of a group.
    fn locate(&self, group_id: &[u8]) -> (r: Result<usize, CoordinationError>)
        requires
            self.wf(),
        ensures
            match r {
                Ok(index) => {
                    &&& index < self.groups.keys().len()
                    &&& index < self.groups.values().len()
                    &&& self.groups.keys()[index as int] == group_id@
                    &&& self.groups.dict().contains_key(group_id@)
                    &&& self@.groups.contains_key(group_id@)
                    &&& self.groups.values()[index as int].wf()
                    &&& self.groups.values()[index as int]@ == self@.groups[group_id@]
                },
                Err(error) => !self@.groups.contains_key(group_id@) && error
                    == CoordinationError::UnknownGroup,
            },
    {
        let key = copy_bytes(group_id);
        proof {
            self.groups.lemma_facts();
        }
        match self.groups.find(&key) {
            None => Err(CoordinationError::UnknownGroup),
            Some(index) => Ok(index),
        }
    }

    /// Joins or renews a member and returns the new generation assignment.
    pub fn join(
        &mut self,
        group_id: &[u8],
        member_id: &[u8],
        subscriptions: Vec<Vec<u8>>,
        partitions: &[(Vec<u8>, i32)],
    ) -> (r: Result<(i32, Vec<GroupAssignment>), CoordinationError>)
        requires
            old(self).wf(),
        ensures
            final(self).wf(),
            (final(self)@, join_view(r)) == old(self)@.joined(
                group_id@,
                member_id@,
                subscriptions.deep_view(),
                partitions.deep_view(),
            ),
    {
        if group_id.len() == 0 || member_id.len() == 0 {
            return Err(CoordinationError::InvalidId);
        }
        let ghost start = *self;
        let key = copy_bytes(group_id);
        let mut group = match self.groups.remove(&key) {
            Some(group) => group,
            None => Group::new(),
        };
        let ghost model = group@;
        proof {
            assert(model == start@.group(group_id@));
            assert(group.wf());
        }
        let generation: i32 = advance_generation(group.generation);
        group.generation = generation;
        let member = GroupMember { subscriptions, generation, alive: true };
        let ghost joined = member@;
        group.members.insert(copy_bytes(member_id), member);
        proof {
            assert(group@.members =~= model.members.insert(member_id@, joined));
        }
        let assignments = group.assign(partitions);
        group.assignments = copy_assignments(&assignments);
        let ghost changed = group;
        proof {
            assert(changed@ =~= model.joined(
                member_id@,
                joined.subscriptions,
                partitions.deep_view(),
            ));
        }
        self.groups.insert(key, group);
        proof {
            assert(self.groups.dict() =~= start.groups.dict().insert(group_id@, changed));
            Self::lemma_replaced(start, *self, group_id@, changed);
        }
        Ok((generation, assignments))
    }

    /// Heartbeats fence stale generations and mark a member alive.
    pub fn heartbeat(&mut self, group_id: &[u8], member_id: &[u8], generation: i32) -> (r: Result<
        (),
        CoordinationError,
    >)
        requires
            old(self).wf(),
        ensures
            final(self).wf(),
            (final(self)@, r) == old(self)@.heard(group_id@, member_id@, generation),
    {
        let ghost before = *self;
        let index: usize = self.locate(group_id)?;
        let stored = self.groups.value_at(index);
        let ghost model = stored@;
        if generation != stored.generation {
            return Err(CoordinationError::IllegalGeneration);
        }
        let key = copy_bytes(member_id);
        proof {
            stored.members.lemma_facts();
        }
        let at: usize = match stored.members.find(&key) {
            Some(at) => at,
            None => {
                return Err(CoordinationError::UnknownMember);
            },
        };
        if stored.members.value_at(at).generation != generation {
            return Err(CoordinationError::IllegalGeneration);
        }
        let ghost heard = stored.members.values()[at as int]@;
        let group = self.groups.value_at_mut(index);
        let member = group.members.value_at_mut(at);
        member.alive = true;
        let ghost alive = member@;
        let ghost changed = *group;
        proof {
            assert(alive =~= MemberModel { alive: true, ..heard });
            assert(changed@.members =~= model.members.insert(member_id@, alive));
            Self::lemma_replaced(before, *self, group_id@, changed);
        }
        Ok(())
    }

    /// Removes a member of a group whose position is known.
    fn remove_member(&mut self, index: usize, member_id: &[u8]) -> (r: Result<(), CoordinationError>)
        requires
            old(self).wf(),
            index < old(self).groups.keys().len(),
            index < old(self).groups.values().len(),
            old(self).groups.dict().contains_key(old(self).groups.keys()[index as int]),
            old(self)@.groups.contains_key(old(self).groups.keys()[index as int]),
            old(self).groups.values()[index as int].wf(),
            old(self).groups.values()[index as int]@
                == old(self)@.groups[old(self).groups.keys()[index as int]],
        ensures
            final(self).wf(),
            (final(self)@, r) == old(self)@.left(
                old(self).groups.keys()[index as int],
                member_id@,
                None,
            ),
    {
        let ghost before = *self;
        let ghost group_id = self.groups.keys()[index as int];
        let ghost model = self.groups.values()[index as int]@;
        let key = copy_bytes(member_id);
        if !self.groups.value_at(index).members.contains(&key) {
            return Err(CoordinationError::UnknownMember);
        }
        let group = self.groups.value_at_mut(index);
        let _ = group.members.remove(&key);
        group.generation = advance_generation(group.generation);
        let ghost changed = *group;
        proof {
            assert(changed@.members =~= model.members.remove(member_id@));
            Self::lemma_replaced(before, *self, group_id, changed);
        }
        Ok(())
    }

    /// Removes a member and forces the next join to create a new generation.
    pub fn leave(&mut self, group_id: &[u8], member_id: &[u8], generation: i32) -> (r: Result<
        (),
        CoordinationError,
    >)
        requires
            old(self).wf(),
        ensures
            final(self).wf(),
            (final(self)@, r) == old(self)@.left(group_id@, member_id@, Some(generation)),
    {
        let index: usize = self.locate(group_id)?;
        if generation != self.groups.value_at(index).generation {
            return Err(CoordinationError::IllegalGeneration);
        }
        self.remove_member(index, member_id)
    }

    /// Removes a member when handling Kafka LeaveGroup v0, whose request does
    /// not carry a generation. The removal itself still advances generation.
    pub fn leave_any(&mut self, group_id: &[u8], member_id: &[u8]) -> (r: Result<
        (),
        CoordinationError,
    >)
        requires
            old(self).wf(),
        ensures
            final(self).wf(),
            (final(self)@, r) == old(self)@.left(group_id@, member_id@, None),
    {
        let index: usize = self.locate(group_id)?;
        self.remove_member(index, member_id)
    }

    /// Commits an offset of the current generation.
    pub fn commit_offset(
        &mut self,
        group_id: &[u8],
        generation: i32,
        topic: &[u8],
        partition: i32,
        offset: i64,
    ) -> (r: Result<(), CoordinationError>)
        requires
            old(self).wf(),
        ensures
            final(self).wf(),
            (final(self)@, r) == old(self)@.committed(
                group_id@,
                generation,
                topic@,
                partition,
                offset,
            ),
    {
        let ghost before = *self;
        let index: usize = self.locate(group_id)?;
        if generation != self.groups.value_at(index).generation {
            return Err(CoordinationError::IllegalGeneration);
        }
        if partition < 0 || offset < 0 {
            return Err(CoordinationError::InvalidId);
        }
        let ghost model = self.groups.values()[index as int]@;
        let group = self.groups.value_at_mut(index);
        group.offsets.insert((copy_bytes(topic), partition), offset);
        let ghost changed = *group;
        proof {
            assert(changed@ =~= GroupModel {
                offsets: model.offsets.insert((topic@, partition), offset),
                ..model
            });
            Self::lemma_replaced(before, *self, group_id@, changed);
        }
        Ok(())
    }

    /// Reads a committed offset.
    pub fn offset(&self, group_id: &[u8], topic: &[u8], partition: i32) -> (r: Result<
        Option<i64>,
        CoordinationError,
    >)
        requires
            self.wf(),
        ensures
            r == self@.offset(group_id@, topic@, partition),
    {
        let index: usize = self.locate(group_id)?;
        let key = (copy_bytes(topic), partition);
        match self.groups.value_at(index).offsets.get(&key) {
            Some(offset) => Ok(Some(*offset)),
            None => Ok(None),
        }
    }
}

impl Default for GroupCoordinator {
    fn default() -> (r: Self)
        ensures
            r.wf(),
            r@ == (GroupsModel { groups: Map::empty() }),
    {
        GroupCoordinator::new()
    }
}

} // verus!
