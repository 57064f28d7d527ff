//! In-memory topic catalog.
//!
//! The catalog stores only what the broker needs to validate routing and
//! answer Metadata requests: a topic name and its partition count. Placement,
//! replication, and durable catalog state belong to the runtime and cluster
//! layers.

use vstd::prelude::*;

use crate::broker_core::error::LogError;
use crate::bytes::copy_bytes;
use crate::sorted_map::{self, SortedMap};

verus! {

broadcast use crate::bytes::lemma_bytes_deep_view, crate::bytes::lemma_slice_deep_view;

/// Topic description reported by metadata.
#[derive(Clone, Debug, Eq, PartialEq)]
pub struct TopicMetadata {
    /// Topic name.
    pub name: Vec<u8>,
    /// Number of partitions.
    pub partitions: i32,
}

/// What a topic description says.
#[verifier::ext_equal]
pub struct TopicMetadataModel {
    pub name: Seq<u8>,
    pub partitions: i32,
}

impl DeepView for TopicMetadata {
    type V = TopicMetadataModel;

    open spec fn deep_view(&self) -> TopicMetadataModel {
        TopicMetadataModel { name: self.name@, partitions: self.partitions }
    }
}

/// What a catalog holds: the partition count of each topic.
#[verifier::ext_equal]
pub struct CatalogModel {
    pub topics: Map<Seq<u8>, i32>,
}

impl CatalogModel {
    /// Every topic has a name and a partition.
    pub open spec fn wf(self) -> bool {
        &&& self.topics.dom().finite()
        &&& forall|name: Seq<u8>| #[trigger]
            self.topics.contains_key(name) ==> name.len() > 0 && self.topics[name] > 0
    }

    /// What adding a topic does and answers.
    pub open spec fn created(self, name: Seq<u8>, partitions: i32) -> (CatalogModel, Result<(), LogError>) {
        if name.len() == 0 || partitions <= 0 {
            (self, Err(LogError::InvalidTopic))
        } else if self.topics.contains_key(name) {
            (self, Err(LogError::DuplicateTopic))
        } else {
            (CatalogModel { topics: self.topics.insert(name, partitions) }, Ok(()))
        }
    }

    /// The partition count of a topic.
    pub open spec fn partition_count(self, name: Seq<u8>) -> Option<i32> {
        if self.topics.contains_key(name) {
            Some(self.topics[name])
        } else {
            None
        }
    }

    /// Whether a topic and partition index exist.
    pub open spec fn checked(self, topic: Seq<u8>, partition: i32) -> Result<(), LogError> {
        if !self.topics.contains_key(topic) {
            Err(LogError::UnknownTopic)
        } else if partition < 0 || partition >= self.topics[topic] {
            Err(LogError::UnknownPartition)
        } else {
            Ok(())
        }
    }

    /// Every topic, ordered by name.
    pub open spec fn listed(self) -> Seq<TopicMetadataModel> {
        let names = sorted_map::in_order::<Vec<u8>>(self.topics.dom());
        Seq::new(
            names.len(),
            |i: int| TopicMetadataModel { name: names[i], partitions: self.topics[names[i]] },
        )
    }
}

/// Topic name to partition-count map.
#[derive(Debug)]
pub struct TopicCatalog {
    topics: SortedMap<Vec<u8>, i32>,
}

impl View for TopicCatalog {
    type V = CatalogModel;

    closed spec fn view(&self) -> CatalogModel {
        CatalogModel { topics: self.topics.dict() }
    }
}

impl TopicCatalog {
    /// The names are in order, and every topic has a name and a partition.
    pub closed spec fn wf(&self) -> bool {
        &&& self.topics.wf()
        &&& self@.wf()
    }

    /// What a well-formed catalog stands for is well-formed.
    pub proof fn lemma_model_wf(&self)
        requires
            self.wf(),
        ensures
            self@.wf(),
    {
    }

    /// Creates an empty catalog.
    pub fn new() -> (r: Self)
        ensures
            r.wf(),
            r@ == (CatalogModel { topics: Map::empty() }),
    {
        TopicCatalog { topics: SortedMap::new() }
    }

    /// Adds a topic.
    ///
    /// # Errors
    ///
    /// Returns [`LogError::InvalidTopic`] for an empty name or a non-positive
    /// partition count and [`LogError::DuplicateTopic`] if the name exists.
    pub fn create(&mut self, name: &[u8], partitions: i32) -> (r: Result<(), LogError>)
        requires
            old(self).wf(),
        ensures
            final(self).wf(),
            (final(self)@, r) == old(self)@.created(name@, partitions),
    {
        if name.len() == 0 || partitions <= 0 {
            return Err(LogError::InvalidTopic);
        }
        let key = copy_bytes(name);
        if self.topics.contains(&key) {
            return Err(LogError::DuplicateTopic);
        }
        self.topics.insert(key, partitions);
        Ok(())
    }

    /// Partition count for a topic, if present.
    pub fn partition_count(&self, name: &[u8]) -> (r: Option<i32>)
        requires
            self.wf(),
        ensures
            r == self@.partition_count(name@),
    {
        let key = copy_bytes(name);
        match self.topics.get(&key) {
            Some(count) => Some(*count),
            None => None,
        }
    }

    /// Whether a topic exists.
    pub fn contains(&self, name: &[u8]) -> (r: bool)
        requires
            self.wf(),
        ensures
            r == self@.topics.contains_key(name@),
    {
        let key = copy_bytes(name);
        self.topics.contains(&key)
    }

    /// Number of topics.
    pub fn len(&self) -> (r: usize)
        requires
            self.wf(),
        ensures
            r == self@.topics.len(),
    {
        proof {
            self.topics.lemma_facts();
        }
        self.topics.len()
    }

    /// Whether the catalog has no topics.
    pub fn is_empty(&self) -> (r: bool)
        requires
            self.wf(),
        ensures
            r == (self@.topics.len() == 0),
    {
        self.len() == 0
    }

    /// Validates a topic and partition index against the catalog.
    pub fn check_partition(&self, topic: &[u8], partition: i32) -> (r: Result<(), LogError>)
        requires
            self.wf(),
        ensures
            r == self@.checked(topic@, partition),
    {
        match self.partition_count(topic) {
            None => Err(LogError::UnknownTopic),
            Some(count) => if partition < 0 || partition >= count {
                Err(LogError::UnknownPartition)
            } else {
                Ok(())
            },
        }
    }

    /// Metadata for every topic, ordered by name.
    pub fn metadata(&self) -> (r: Vec<TopicMetadata>)
        requires
            self.wf(),
        ensures
            r.deep_view() == self@.listed(),
    {
        proof {
            self.topics.lemma_facts();
        }
        let mut topics: Vec<TopicMetadata> = Vec::new();
        let mut i: usize = 0;
        while i < self.topics.len()
            invariant
                self.wf(),
                self.topics.keys() == sorted_map::in_order::<Vec<u8>>(self@.topics.dom()),
                forall|k: int|
                    0 <= k < self.topics.keys().len() ==> self@.topics[#[trigger] self.topics.keys()[k]]
                        == self.topics.values()[k],
                self.topics.keys().len() == self.topics.values().len(),
                i <= self.topics.keys().len(),
                topics.deep_view() =~= self@.listed().take(i as int),
            decreases self.topics.keys().len() - i,
        {
            let topic = TopicMetadata {
                name: copy_bytes(self.topics.key_at(i).as_slice()),
                partitions: *self.topics.value_at(i),
            };
            let ghost before = topics.deep_view();
            let ghost model = topic.deep_view();
            topics.push(topic);
            proof {
                assert(model == self@.listed()[i as int]);
                assert(topics.deep_view() =~= before.push(model));
            }
            i += 1;
        }
        proof {
            assert(self@.listed().take(i as int) =~= self@.listed());
        }
        topics
    }
}

impl Default for TopicCatalog {
    fn default() -> (r: Self)
        ensures
            r.wf(),
            r@ == (CatalogModel { topics: Map::empty() }),
    {
        TopicCatalog::new()
    }
}

/// A created topic is found with its partition count; every other topic stays
/// as it was, and so does the whole catalog when the topic is refused.
pub proof fn law_created_topic_is_found(before: CatalogModel, name: Seq<u8>, partitions: i32, other: Seq<u8>)
    ensures
        ({
            let (after, answer) = before.created(name, partitions);
            &&& answer is Ok ==> after.partition_count(name) == Some(partitions)
            &&& answer is Ok ==> before.partition_count(name) is None
            &&& answer is Ok && other != name ==> after.partition_count(other)
                == before.partition_count(other)
            &&& answer is Err ==> after == before
        }),
{
}

/// Metadata lists each topic of the catalog once, in increasing order of names.
pub proof fn law_metadata_is_ordered(catalog: CatalogModel)
    requires
        catalog.wf(),
    ensures
        catalog.listed().len() == catalog.topics.len(),
        forall|i: int, j: int|
            0 <= i < j < catalog.listed().len() ==> crate::byte_order::lex_lt(
                (#[trigger] catalog.listed()[i]).name,
                (#[trigger] catalog.listed()[j]).name,
            ),
        forall|name: Seq<u8>| #[trigger]
            catalog.topics.contains_key(name) <==> exists|i: int|
                0 <= i < catalog.listed().len() && (#[trigger] catalog.listed()[i]).name == name,
{
    sorted_map::lemma_in_order::<Vec<u8>>(catalog.topics.dom());
    let names = sorted_map::in_order::<Vec<u8>>(catalog.topics.dom());
    let listed = catalog.listed();
    assert forall|i: int, j: int| 0 <= i < j < listed.len() implies crate::byte_order::lex_lt(
        (#[trigger] listed[i]).name,
        (#[trigger] listed[j]).name,
    ) by {
        assert(<Vec<u8> as sorted_map::SortKey>::precedes(names[i], names[j]));
    }
    assert forall|name: Seq<u8>| #[trigger] catalog.topics.contains_key(name) implies exists|i: int|
        0 <= i < listed.len() && (#[trigger] listed[i]).name == name by {
        assert(names.to_set().contains(name));
        let i = choose|i: int| 0 <= i < names.len() && names[i] == name;
        assert(listed[i].name == name);
    }
    assert forall|name: Seq<u8>|
        (exists|i: int| 0 <= i < listed.len() && (#[trigger] listed[i]).name == name) implies #[trigger] catalog.topics.contains_key(
        name,
    ) by {
        let i = choose|i: int| 0 <= i < listed.len() && (#[trigger] listed[i]).name == name;
        assert(names[i] == name);
        assert(names.to_set().contains(name));
    }
}

} // verus!
