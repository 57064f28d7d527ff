//! What holds of the coordinators over several calls.

use vstd::prelude::*;

use crate::broker_core::coordination::{
    self, CompletionModel, CoordinationError, GroupsModel, MemberModel, ProducerIdentity,
    TransactionOffsetModel, TransactionsModel,
};
use crate::sorted_map;

verus! {

/// Re-initialising a transactional id keeps its producer id, raises the epoch
/// and fences the identity issued before: whatever it asks in a well-formed
/// way is refused. An epoch at the end of its range cannot be raised.
pub proof fn law_init_fences_the_previous_producer(
    before: TransactionsModel,
    id: Seq<u8>,
    topic: Seq<u8>,
    partition: i32,
    offset: TransactionOffsetModel,
)
    requires
        id.len() > 0,
        before.transactions.contains_key(id),
        before.transactions[id].identity.epoch < i16::MAX,
    ensures
        ({
            let previous = before.transactions[id].identity;
            let (after, answer) = before.initialized(id);
            let fenced = CoordinationError::ProducerFenced;
            &&& answer matches Ok(identity) && identity.id == previous.id && identity.epoch
                == previous.epoch + 1
            &&& topic.len() > 0 && partition >= 0 ==> after.enlisted(id, previous, topic, partition) == (
                after,
                Err::<(), CoordinationError>(fenced),
            )
            &&& after.validated(id, previous, topic, partition) == Err::<(), CoordinationError>(fenced)
            &&& offset.group_id.len() > 0 && offset.topic.len() > 0 && offset.generation >= 0
                && offset.partition >= 0 && offset.offset >= 0 ==> after.with_offset(
                id,
                previous,
                offset,
            ) == (after, Err::<(), CoordinationError>(fenced))
            &&& after.ended(id, previous) == (
                after,
                Err::<CompletionModel, CoordinationError>(fenced),
            )
        }),
{
}

/// A producer may write to a partition once it is enlisted, and to no
/// partition before: a fresh identity is refused everywhere.
pub proof fn law_produce_requires_enlistment(
    before: TransactionsModel,
    id: Seq<u8>,
    topic: Seq<u8>,
    partition: i32,
)
    requires
        id.len() > 0,
        topic.len() > 0,
        partition >= 0,
    ensures
        ({
            let (fresh, answer) = before.initialized(id);
            answer matches Ok(identity) && ({
                let (enlisted, enlist) = fresh.enlisted(id, identity, topic, partition);
                &&& fresh.validated(id, identity, topic, partition) == Err::<(), CoordinationError>(
                    CoordinationError::InvalidTransactionState,
                )
                &&& enlist == Ok::<(), CoordinationError>(())
                &&& enlisted.validated(id, identity, topic, partition) == Ok::<
                    (),
                    CoordinationError,
                >(())
            })
        }),
{
}

/// Enlisting one partition takes nothing away from the others.
pub proof fn law_enlisting_keeps_other_partitions(
    before: TransactionsModel,
    id: Seq<u8>,
    identity: ProducerIdentity,
    topic: Seq<u8>,
    partition: i32,
    other_topic: Seq<u8>,
    other_partition: i32,
)
    requires
        before.validated(id, identity, other_topic, other_partition) is Ok,
    ensures
        before.enlisted(id, identity, topic, partition).0.validated(
            id,
            identity,
            other_topic,
            other_partition,
        ) is Ok,
{
}

/// Ending a transaction answers each enlisted partition once, in order, with
/// the enlisted offsets, and closes it: the identity stays the current one,
/// but writing asks for a new enlistment, and ending again is refused.
pub proof fn law_end_closes_the_transaction(
    before: TransactionsModel,
    id: Seq<u8>,
    identity: ProducerIdentity,
    topic: Seq<u8>,
    partition: i32,
)
    requires
        before.ended(id, identity).1 is Ok,
        before.transactions[id].partitions.finite(),
    ensures
        ({
            let (after, answer) = before.ended(id, identity);
            let completion = answer->Ok_0;
            let state = CoordinationError::InvalidTransactionState;
            &&& completion.partitions.to_set() == before.transactions[id].partitions
            &&& completion.partitions.no_duplicates()
            &&& completion.offsets == before.transactions[id].offsets
            &&& after.transactions[id].identity == identity
            &&& after.validated(id, identity, topic, partition) == Err::<(), CoordinationError>(state)
            &&& after.ended(id, identity) == (after, Err::<CompletionModel, CoordinationError>(state))
            &&& after.next_identity(id).id == identity.id
        }),
{
    sorted_map::lemma_in_order::<(Vec<u8>, i32)>(before.transactions[id].partitions);
}

/// In every state that the operations lead to, a transaction is empty or
/// ongoing, and it is ongoing exactly while partitions are enlisted in it.
pub proof fn law_transactions_are_empty_or_ongoing(
    before: TransactionsModel,
    id: Seq<u8>,
    identity: ProducerIdentity,
    topic: Seq<u8>,
    partition: i32,
    offset: TransactionOffsetModel,
)
    requires
        before.wf(),
    ensures
        TransactionsModel::empty().wf(),
        before.initialized(id).0.wf(),
        before.enlisted(id, identity, topic, partition).0.wf(),
        before.with_offset(id, identity, offset).0.wf(),
        before.ended(id, identity).0.wf(),
        forall|other: Seq<u8>| #[trigger]
            before.transactions.contains_key(other) ==> {
                let transaction = before.transactions[other];
                &&& transaction.state is Empty || transaction.state is Ongoing
                &&& transaction.state is Ongoing <==> exists|place: (Seq<u8>, i32)|
                    transaction.partitions.contains(place)
            },
{
    let places = before.transactions[id].partitions.insert((topic, partition));
    assert(places.contains((topic, partition)));
    assert forall|other: Seq<u8>| #[trigger] before.transactions.contains_key(other) implies {
        let transaction = before.transactions[other];
        &&& transaction.state is Empty || transaction.state is Ongoing
        &&& transaction.state is Ongoing <==> exists|place: (Seq<u8>, i32)|
            transaction.partitions.contains(place)
    } by {
        let transaction = before.transactions[other];
        if forall|place: (Seq<u8>, i32)| !transaction.partitions.contains(place) {
            assert(transaction.partitions =~= Set::<(Seq<u8>, i32)>::empty());
        }
    }
}

/// Enlisting a partition is never refused for the state of the transaction: the
/// current producer of an id can always enlist a partition that has a name and
/// an index.
pub proof fn law_enlisting_needs_no_state(
    before: TransactionsModel,
    id: Seq<u8>,
    identity: ProducerIdentity,
    topic: Seq<u8>,
    partition: i32,
)
    requires
        before.wf(),
    ensures
        ({
            let answer = before.enlisted(id, identity, topic, partition).1;
            &&& answer is Ok <==> topic.len() > 0 && partition >= 0 && before.refusal(
                id,
                identity,
            ) is None
            &&& answer != Err::<(), CoordinationError>(CoordinationError::InvalidTransactionState)
        }),
{
}

/// What one transactional id does leaves the transactions of the others alone.
pub proof fn law_transactions_are_separate(
    before: TransactionsModel,
    id: Seq<u8>,
    identity: ProducerIdentity,
    topic: Seq<u8>,
    partition: i32,
    offset: TransactionOffsetModel,
    other: Seq<u8>,
)
    requires
        other != id,
        before.transactions.contains_key(other),
    ensures
        before.initialized(id).0.transactions[other] == before.transactions[other],
        before.enlisted(id, identity, topic, partition).0.transactions[other]
            == before.transactions[other],
        before.with_offset(id, identity, offset).0.transactions[other]
            == before.transactions[other],
        before.ended(id, identity).0.transactions[other] == before.transactions[other],
{
}

/// Producer ids are issued once: no two transactional ids share one, and the
/// next one was never issued.
pub open spec fn ids_issued_once(model: TransactionsModel) -> bool {
    &&& forall|id: Seq<u8>| #[trigger]
        model.transactions.contains_key(id) ==> model.transactions[id].identity.id < model.next_id
    &&& forall|a: Seq<u8>, b: Seq<u8>|
        #![trigger model.transactions[a], model.transactions[b]]
        model.transactions.contains_key(a) && model.transactions.contains_key(b) && a != b
            ==> model.transactions[a].identity.id != model.transactions[b].identity.id
}

/// Every operation keeps producer ids issued once, as long as there are ids
/// left to issue.
pub proof fn law_producer_ids_are_unique(
    before: TransactionsModel,
    id: Seq<u8>,
    identity: ProducerIdentity,
    topic: Seq<u8>,
    partition: i32,
    offset: TransactionOffsetModel,
)
    requires
        ids_issued_once(before),
        before.next_id < i64::MAX,
    ensures
        ids_issued_once(TransactionsModel::empty()),
        ids_issued_once(before.initialized(id).0),
        ids_issued_once(before.enlisted(id, identity, topic, partition).0),
        ids_issued_once(before.with_offset(id, identity, offset).0),
        ids_issued_once(before.ended(id, identity).0),
{
}

/// A join starts a new generation, and a request of the one before is refused
/// from then on. A generation at the end of its range has no successor.
pub proof fn law_join_fences_the_previous_generation(
    before: GroupsModel,
    group_id: Seq<u8>,
    member_id: Seq<u8>,
    subscriptions: Seq<Seq<u8>>,
    partitions: Seq<(Seq<u8>, i32)>,
    anyone: Seq<u8>,
    topic: Seq<u8>,
    partition: i32,
    offset: i64,
)
    requires
        group_id.len() > 0,
        member_id.len() > 0,
        before.group(group_id).generation < i32::MAX,
    ensures
        ({
            let stale = before.group(group_id).generation;
            let (after, answer) = before.joined(group_id, member_id, subscriptions, partitions);
            let illegal = CoordinationError::IllegalGeneration;
            &&& answer matches Ok((generation, _)) && generation > stale && generation >= 1
                && after.heard(group_id, member_id, generation).1 is Ok
            &&& after.heard(group_id, anyone, stale) == (after, Err::<(), CoordinationError>(illegal))
            &&& after.left(group_id, anyone, Some(stale)) == (
                after,
                Err::<(), CoordinationError>(illegal),
            )
            &&& after.committed(group_id, stale, topic, partition, offset) == (
                after,
                Err::<(), CoordinationError>(illegal),
            )
        }),
{
}

/// Leaving starts a new generation too, and keeps the committed offsets.
pub proof fn law_leave_starts_a_generation(
    before: GroupsModel,
    group_id: Seq<u8>,
    member_id: Seq<u8>,
    generation: Option<i32>,
    anyone: Seq<u8>,
    topic: Seq<u8>,
    partition: i32,
)
    requires
        before.left(group_id, member_id, generation).1 is Ok,
        before.groups[group_id].generation < i32::MAX,
    ensures
        ({
            let stale = before.groups[group_id].generation;
            let (after, _) = before.left(group_id, member_id, generation);
            &&& after.groups[group_id].generation > stale
            &&& !after.groups[group_id].members.contains_key(member_id)
            &&& after.heard(group_id, anyone, stale) == (
                after,
                Err::<(), CoordinationError>(CoordinationError::IllegalGeneration),
            )
            &&& after.offset(group_id, topic, partition) == before.offset(group_id, topic, partition)
        }),
{
}

/// A committed offset is what a read gives back, and no other offset changes.
pub proof fn law_committed_offset_reads_back(
    before: GroupsModel,
    group_id: Seq<u8>,
    generation: i32,
    topic: Seq<u8>,
    partition: i32,
    offset: i64,
    other_group: Seq<u8>,
    other_topic: Seq<u8>,
    other_partition: i32,
)
    requires
        before.committed(group_id, generation, topic, partition, offset).1 is Ok,
    ensures
        ({
            let (after, _) = before.committed(group_id, generation, topic, partition, offset);
            &&& after.offset(group_id, topic, partition) == Ok::<Option<i64>, CoordinationError>(
                Some(offset),
            )
            &&& (other_group, other_topic, other_partition) != (group_id, topic, partition)
                ==> after.offset(other_group, other_topic, other_partition) == before.offset(
                other_group,
                other_topic,
                other_partition,
            )
        }),
{
}

proof fn lemma_subscribers(
    names: Seq<Seq<u8>>,
    members: Map<Seq<u8>, MemberModel>,
    topic: Seq<u8>,
    name: Seq<u8>,
)
    ensures
        coordination::subscribers(names, members, topic).contains(name) <==> names.contains(name)
            && members[name].subscriptions.contains(topic),
    decreases names.len(),
{
    if names.len() > 0 {
        lemma_subscribers(names.drop_last(), members, topic, name);
        let readers = coordination::subscribers(names, members, topic);
        let earlier = coordination::subscribers(names.drop_last(), members, topic);
        if earlier.contains(name) {
            let i = choose|i: int| 0 <= i < earlier.len() && earlier[i] == name;
            assert(readers[i] == name);
        }
        if readers.contains(name) && !earlier.contains(name) {
            let i = choose|i: int| 0 <= i < readers.len() && readers[i] == name;
            if i < earlier.len() {
                assert(earlier[i] == name);
            }
            assert(names[names.len() - 1] == name);
        }
        if names.contains(name) && !names.drop_last().contains(name) {
            let i = choose|i: int| 0 <= i < names.len() && names[i] == name;
            if i < names.len() - 1 {
                assert(names.drop_last()[i] == name);
            }
            if members[name].subscriptions.contains(topic) {
                assert(readers[earlier.len() as int] == name);
            }
        }
        if names.drop_last().contains(name) {
            let i = choose|i: int| 0 <= i < names.drop_last().len() && names.drop_last()[i] == name;
            assert(names[i] == name);
        }
    }
}

proof fn lemma_assigned(
    names: Seq<Seq<u8>>,
    members: Map<Seq<u8>, MemberModel>,
    partitions: Seq<(Seq<u8>, i32)>,
    member: Seq<u8>,
    place: (Seq<u8>, i32),
)
    ensures
        coordination::assigned_to(names, members, partitions, member).contains(place) <==> exists|
            i: int,
        |
            0 <= i < partitions.len() && (#[trigger] partitions[i]) == place && coordination::owner(
                names,
                members,
                place.0,
                i,
            ) == Some(member),
    decreases partitions.len(),
{
    if partitions.len() > 0 {
        let shorter = partitions.drop_last();
        lemma_assigned(names, members, shorter, member, place);
        let earlier = coordination::assigned_to(names, members, shorter, member);
        let whole = coordination::assigned_to(names, members, partitions, member);
        let last = partitions.len() - 1;
        if earlier.contains(place) {
            let i = choose|i: int|
                0 <= i < shorter.len() && (#[trigger] shorter[i]) == place && coordination::owner(
                    names,
                    members,
                    place.0,
                    i,
                ) == Some(member);
            assert(partitions[i] == place);
            let k = choose|k: int| 0 <= k < earlier.len() && earlier[k] == place;
            assert(whole[k] == place);
        }
        if whole.contains(place) && !earlier.contains(place) {
            let k = choose|k: int| 0 <= k < whole.len() && whole[k] == place;
            if k < earlier.len() {
                assert(earlier[k] == place);
            }
            assert(partitions[last] == place);
        }
        if exists|i: int|
            0 <= i < partitions.len() && (#[trigger] partitions[i]) == place && coordination::owner(
                names,
                members,
                place.0,
                i,
            ) == Some(member) {
            let i = choose|i: int|
                0 <= i < partitions.len() && (#[trigger] partitions[i]) == place
                    && coordination::owner(names, members, place.0, i) == Some(member);
            if i < last {
                assert(shorter[i] == place);
            } else {
                assert(whole[earlier.len() as int] == place);
            }
        }
    }
}

/// Where the partitions of a group go after a join: each partition of a topic
/// that some member reads goes to exactly one of the members that read it,
/// and a partition of a topic that nobody reads goes to no member.
pub proof fn law_each_partition_has_one_reader(
    before: GroupsModel,
    group_id: Seq<u8>,
    member_id: Seq<u8>,
    subscriptions: Seq<Seq<u8>>,
    partitions: Seq<(Seq<u8>, i32)>,
    index: int,
    a: int,
    b: int,
)
    requires
        group_id.len() > 0,
        member_id.len() > 0,
        before.group(group_id).members.dom().finite(),
        partitions.no_duplicates(),
        0 <= index < partitions.len(),
    ensures
        ({
            let (after, answer) = before.joined(group_id, member_id, subscriptions, partitions);
            let assignments = answer->Ok_0.1;
            let members = after.groups[group_id].members;
            let place = partitions[index];
            let read = exists|name: Seq<u8>| #[trigger]
                members.contains_key(name) && members[name].subscriptions.contains(place.0);
            &&& answer is Ok
            &&& assignments.len() == members.len()
            &&& read <==> exists|i: int|
                0 <= i < assignments.len() && (#[trigger] assignments[i]).partitions.contains(place)
            &&& 0 <= a < assignments.len() && assignments[a].partitions.contains(place)
                ==> members.contains_key(assignments[a].member_id)
                && members[assignments[a].member_id].subscriptions.contains(place.0)
            &&& 0 <= a < assignments.len() && 0 <= b < assignments.len()
                && assignments[a].partitions.contains(place)
                && assignments[b].partitions.contains(place) ==> a == b
        }),
{
    let (after, answer) = before.joined(group_id, member_id, subscriptions, partitions);
    let assignments = answer->Ok_0.1;
    let members = after.groups[group_id].members;
    let names = sorted_map::in_order::<Vec<u8>>(members.dom());
    let place = partitions[index];
    let readers = coordination::subscribers(names, members, place.0);
    sorted_map::lemma_in_order::<Vec<u8>>(members.dom());
    assert forall|i: int| 0 <= i < assignments.len() implies (
    #[trigger] assignments[i]).partitions.contains(place) == (coordination::owner(
        names,
        members,
        place.0,
        index,
    ) == Some(names[i])) by {
        lemma_assigned(names, members, partitions, names[i], place);
        assert(partitions[index] == place);
    }
    assert forall|name: Seq<u8>| members.contains_key(name) == #[trigger] names.contains(name) by {
        assert(names.to_set().contains(name) == members.dom().contains(name));
    }
    if readers.len() > 0 {
        let chosen = readers[index % readers.len() as int];
        assert(readers.contains(chosen));
        lemma_subscribers(names, members, place.0, chosen);
        let i = choose|i: int| 0 <= i < names.len() && names[i] == chosen;
        assert(assignments[i].partitions.contains(place));
    }
    assert forall|name: Seq<u8>| #[trigger]
        members.contains_key(name) && members[name].subscriptions.contains(place.0) implies readers.len()
        > 0 by {
        lemma_subscribers(names, members, place.0, name);
    }
    if 0 <= a < assignments.len() && assignments[a].partitions.contains(place) {
        lemma_subscribers(names, members, place.0, names[a]);
    }
}

proof fn lemma_subscribers_once(
    names: Seq<Seq<u8>>,
    members: Map<Seq<u8>, MemberModel>,
    topic: Seq<u8>,
)
    requires
        names.no_duplicates(),
    ensures
        coordination::subscribers(names, members, topic).no_duplicates(),
    decreases names.len(),
{
    if names.len() > 0 {
        let earlier = coordination::subscribers(names.drop_last(), members, topic);
        lemma_subscribers_once(names.drop_last(), members, topic);
        lemma_subscribers(names.drop_last(), members, topic, names.last());
        if names.drop_last().contains(names.last()) {
            let i = choose|i: int|
                0 <= i < names.drop_last().len() && names.drop_last()[i] == names.last();
            assert(names[i] == names[names.len() - 1]);
        }
        assert(!earlier.contains(names.last()));
    }
}

/// The readers of a topic take turns: between two of its partitions that go to
/// the same member, so many others stand that each of the readers gets one. No
/// reader waits while another gets a second partition.
pub proof fn law_readers_take_turns(
    before: GroupsModel,
    group_id: Seq<u8>,
    member_id: Seq<u8>,
    subscriptions: Seq<Seq<u8>>,
    partitions: Seq<(Seq<u8>, i32)>,
    readers: Seq<Seq<u8>>,
    i: int,
    j: int,
    a: int,
)
    requires
        group_id.len() > 0,
        member_id.len() > 0,
        before.group(group_id).members.dom().finite(),
        partitions.no_duplicates(),
        0 <= i < j < partitions.len(),
        partitions[i].0 == partitions[j].0,
        readers.no_duplicates(),
        ({
            let (after, answer) = before.joined(group_id, member_id, subscriptions, partitions);
            let assignments = answer->Ok_0.1;
            let members = after.groups[group_id].members;
            &&& forall|k: int|
                0 <= k < readers.len() ==> members.contains_key(#[trigger] readers[k])
                    && members[readers[k]].subscriptions.contains(partitions[i].0)
            &&& 0 <= a < assignments.len()
            &&& assignments[a].partitions.contains(partitions[i])
            &&& assignments[a].partitions.contains(partitions[j])
        }),
    ensures
        j - i >= readers.len(),
{
    let (after, answer) = before.joined(group_id, member_id, subscriptions, partitions);
    let members = after.groups[group_id].members;
    let names = sorted_map::in_order::<Vec<u8>>(members.dom());
    let topic = partitions[i].0;
    let all = coordination::subscribers(names, members, topic);
    sorted_map::lemma_in_order::<Vec<u8>>(members.dom());
    lemma_assigned(names, members, partitions, names[a], partitions[i]);
    lemma_assigned(names, members, partitions, names[a], partitions[j]);
    let n = all.len() as int;
    assert(n > 0);
    lemma_subscribers_once(names, members, topic);
    assert(all[i % n] == all[j % n]);
    assert(i % n == j % n);
    assert(j - i >= n) by (nonlinear_arith)
        requires
            0 <= i < j,
            n > 0,
            i % n == j % n,
    {
        assert(i == n * (i / n) + i % n);
        assert(j == n * (j / n) + j % n);
        assert(j - i == n * (j / n - i / n));
        assert(j / n - i / n >= 1);
    }
    assert(readers.to_set().subset_of(all.to_set())) by {
        assert forall|name: Seq<u8>| #[trigger] readers.to_set().contains(name) implies all.to_set().contains(
            name,
        ) by {
            let k = choose|k: int| 0 <= k < readers.len() && readers[k] == name;
            assert(members.contains_key(readers[k]));
            assert(names.to_set().contains(name));
            lemma_subscribers(names, members, topic, name);
        }
    }
    readers.unique_seq_to_set();
    all.unique_seq_to_set();
    vstd::set_lib::lemma_len_subset(readers.to_set(), all.to_set());
}

/// Who joins is in the group with its subscriptions, in the new generation and
/// alive. The other members stay as they were, the committed offsets stay, and so
/// does every other group.
pub proof fn law_joining_keeps_everything_else(
    before: GroupsModel,
    group_id: Seq<u8>,
    member_id: Seq<u8>,
    subscriptions: Seq<Seq<u8>>,
    partitions: Seq<(Seq<u8>, i32)>,
    other_member: Seq<u8>,
    other_group: Seq<u8>,
)
    requires
        group_id.len() > 0,
        member_id.len() > 0,
    ensures
        ({
            let (after, answer) = before.joined(group_id, member_id, subscriptions, partitions);
            let old_group = before.group(group_id);
            let group = after.groups[group_id];
            &&& answer is Ok
            &&& answer->Ok_0.0 == group.generation
            &&& after.groups.contains_key(group_id)
            &&& group.members.contains_key(member_id)
            &&& group.members[member_id].subscriptions == subscriptions
            &&& group.members[member_id].generation == group.generation
            &&& group.members[member_id].alive
            &&& group.offsets == old_group.offsets
            &&& other_member != member_id ==> {
                &&& group.members.contains_key(other_member) == old_group.members.contains_key(
                    other_member,
                )
                &&& group.members.contains_key(other_member) ==> group.members[other_member]
                    == old_group.members[other_member]
            }
            &&& other_group != group_id ==> {
                &&& after.groups.contains_key(other_group) == before.groups.contains_key(other_group)
                &&& after.groups.contains_key(other_group) ==> after.groups[other_group]
                    == before.groups[other_group]
            }
        }),
{
}

/// Who leaves is the only one that leaves: the other members stay as they were,
/// and so does every other group. A heartbeat moves nobody and no offset.
pub proof fn law_leaving_and_heartbeats_keep_everything_else(
    before: GroupsModel,
    group_id: Seq<u8>,
    member_id: Seq<u8>,
    generation: i32,
    checked: Option<i32>,
    other_member: Seq<u8>,
    other_group: Seq<u8>,
)
    ensures
        ({
            let (after, answer) = before.left(group_id, member_id, checked);
            let (heard, beat) = before.heard(group_id, member_id, generation);
            &&& answer is Err ==> after == before
            &&& answer is Ok && other_member != member_id ==> {
                let members = after.groups[group_id].members;
                &&& members.contains_key(other_member)
                    == before.groups[group_id].members.contains_key(other_member)
                &&& members.contains_key(other_member) ==> members[other_member]
                    == before.groups[group_id].members[other_member]
            }
            &&& other_group != group_id ==> {
                &&& after.groups.contains_key(other_group) == before.groups.contains_key(other_group)
                &&& after.groups.contains_key(other_group) ==> after.groups[other_group]
                    == before.groups[other_group]
                &&& heard.groups.contains_key(other_group) == before.groups.contains_key(other_group)
                &&& heard.groups.contains_key(other_group) ==> heard.groups[other_group]
                    == before.groups[other_group]
            }
            &&& beat is Err ==> heard == before
            &&& beat is Ok ==> {
                let group = heard.groups[group_id];
                &&& heard.groups.contains_key(group_id)
                &&& group.generation == before.groups[group_id].generation
                &&& group.offsets == before.groups[group_id].offsets
                &&& group.members.dom() =~= before.groups[group_id].members.dom()
                &&& group.members[member_id].subscriptions
                    == before.groups[group_id].members[member_id].subscriptions
                &&& group.members[member_id].alive
                &&& other_member != member_id ==> group.members[other_member]
                    == before.groups[group_id].members[other_member]
            }
        }),
{
}

/// Whether a transaction exists and this is its current producer.
pub open spec fn is_current(
    transactions: TransactionsModel,
    id: Seq<u8>,
    identity: ProducerIdentity,
) -> bool {
    transactions.transactions.contains_key(id) && transactions.transactions[id].identity == identity
}

/// What a producer can do in a transaction, and what that adds. A partition with
/// a name and a number is enlisted for the current producer of a transaction that
/// is not being ended: it is then one of the partitions. An offset is enlisted
/// for the current producer of a transaction under way: it is then the last of
/// the offsets. A transaction under way is ended by its current producer. Nothing
/// else succeeds, and what is refused changes nothing.
pub proof fn law_only_the_current_producer_goes_on(
    before: TransactionsModel,
    id: Seq<u8>,
    identity: ProducerIdentity,
    topic: Seq<u8>,
    partition: i32,
    offset: TransactionOffsetModel,
)
    requires
        before.wf(),
    ensures
        ({
            let (enlisted, enlist) = before.enlisted(id, identity, topic, partition);
            let (held, hold) = before.with_offset(id, identity, offset);
            let (ended, end) = before.ended(id, identity);
            let transaction = before.transactions[id];
            let current = is_current(before, id, identity);
            let ongoing = current && transaction.partitions != Set::<(Seq<u8>, i32)>::empty();
            &&& enlist is Ok <==> current && topic.len() > 0 && partition >= 0
            &&& enlist is Ok ==> {
                &&& is_current(enlisted, id, identity)
                &&& enlisted.transactions[id].partitions == transaction.partitions.insert(
                    (topic, partition),
                )
                &&& enlisted.transactions[id].offsets == transaction.offsets
            }
            &&& hold is Ok <==> ongoing && offset.group_id.len() > 0 && offset.topic.len() > 0
                && offset.generation >= 0 && offset.partition >= 0 && offset.offset >= 0
            &&& hold is Ok ==> {
                &&& is_current(held, id, identity)
                &&& held.transactions[id].offsets == transaction.offsets.push(offset)
                &&& held.transactions[id].partitions == transaction.partitions
            }
            &&& end is Ok <==> ongoing
            &&& enlist is Err ==> enlisted == before
            &&& hold is Err ==> held == before
            &&& end is Err ==> ended == before
            &&& current && !ongoing ==> end == Err::<CompletionModel, CoordinationError>(
                CoordinationError::InvalidTransactionState,
            )
            &&& before.transactions.contains_key(id) && !current ==> end == Err::<
                CompletionModel,
                CoordinationError,
            >(CoordinationError::ProducerFenced)
            &&& !before.transactions.contains_key(id) ==> end == Err::<
                CompletionModel,
                CoordinationError,
            >(CoordinationError::UnknownTransaction)
        }),
{
    if before.transactions.contains_key(id) {
        assert(before.transactions[id].wf());
    }
}

} // verus!
