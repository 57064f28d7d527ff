//! What clients learn of the broker and its topics.

use vstd::prelude::*;

use crate::broker_core::error::LogError;
use crate::broker_core::topic::{self, CatalogModel};
use crate::broker_engine::answers::{self, EngineModel};
use crate::broker_runtime::links::Shards;
use crate::broker_wire::codec;
use crate::broker_wire::protocol::{
    api, version, Error, NO_ERROR, UNKNOWN_TOPIC_OR_PARTITION,
    UNSUPPORTED_VERSION,
};
use crate::broker_wire::request::{self, BodyModel, HeaderModel, RequestModel};
use crate::broker_wire::response::{
    self, BrokerMetadataModel, Field, FindCoordinatorResponse, FindCoordinatorResponseModel,
    MetadataResponse, MetadataResponseModel, PartitionMetadataModel, TopicMetadataModel,
};
use crate::byte_order;

verus! {

/// Whether the metadata of a topic is true of the catalog and says that one
/// broker has everything: of a topic that exists, as many partitions as it has,
/// numbered from zero, each led and held by that broker alone; of one that does
/// not exist, just that.
pub open spec fn true_of(catalog: CatalogModel, node_id: i32, entry: TopicMetadataModel) -> bool {
    &&& !entry.is_internal
    &&& if catalog.topics.contains_key(entry.name) {
        &&& entry.error == NO_ERROR
        &&& entry.partitions.len() == catalog.topics[entry.name]
        &&& forall|p: int|
            0 <= p < entry.partitions.len() ==> #[trigger] entry.partitions[p] == (
            PartitionMetadataModel {
                error: NO_ERROR,
                partition: p as i32,
                leader: node_id,
                replicas: seq![node_id],
                isr: seq![node_id],
            })
    } else {
        &&& entry.error == UNKNOWN_TOPIC_OR_PARTITION
        &&& entry.partitions.len() == 0
    }
}

/// A metadata response names this broker as the only one and as the controller.
/// Asked for some topics, it tells of each in its place. Asked for none in
/// particular, it tells of every topic of the catalog, each once and in order of
/// names. What it tells is true of the catalog.
pub proof fn law_metadata_is_true_of_the_catalog<S: Shards>(
    engine: EngineModel<S>,
    header: HeaderModel,
    topics: Option<Seq<Seq<u8>>>,
    r: Result<Seq<u8>, Error>,
) -> (entries: Seq<TopicMetadataModel>)
    requires
        engine.broker.catalog().wf(),
        engine.answers(RequestModel { header, body: BodyModel::Metadata { topics } }, r),
    ensures
        r == codec::frame_result(
            header.correlation_id,
            MetadataResponse::encoded(
                MetadataResponseModel {
                    brokers: seq![
                        BrokerMetadataModel {
                            node_id: engine.identity.node_id,
                            host: engine.identity.host,
                            port: engine.identity.port,
                        },
                    ],
                    controller_id: engine.identity.node_id,
                    topics: entries,
                },
            ),
        ),
        forall|i: int|
            0 <= i < entries.len() ==> true_of(
                engine.broker.catalog(),
                engine.identity.node_id,
                #[trigger] entries[i],
            ),
        topics matches Some(names) ==> {
            &&& entries.len() == names.len()
            &&& forall|i: int| 0 <= i < names.len() ==> (#[trigger] entries[i]).name == names[i]
        },
        topics is None ==> {
            &&& entries.len() == engine.broker.catalog().topics.len()
            &&& forall|i: int, j: int|
                0 <= i < j < entries.len() ==> byte_order::lex_lt(
                    (#[trigger] entries[i]).name,
                    (#[trigger] entries[j]).name,
                )
            &&& forall|name: Seq<u8>| #[trigger]
                engine.broker.catalog().topics.contains_key(name) <==> exists|i: int|
                    0 <= i < entries.len() && (#[trigger] entries[i]).name == name
        },
{
    let entries = engine.topic_entries(topics);
    let catalog = engine.broker.catalog();
    if topics is None {
        topic::law_metadata_is_ordered(catalog);
        let listed = catalog.listed();
        assert forall|i: int| 0 <= i < entries.len() implies true_of(
            catalog,
            engine.identity.node_id,
            #[trigger] entries[i],
        ) by {
            assert(listed[i].name == entries[i].name);
            assert(catalog.topics.contains_key(entries[i].name));
        }
        assert forall|i: int, j: int| 0 <= i < j < entries.len() implies byte_order::lex_lt(
            (#[trigger] entries[i]).name,
            (#[trigger] entries[j]).name,
        ) by {
            assert(byte_order::lex_lt(listed[i].name, listed[j].name));
        }
        assert forall|name: Seq<u8>| #[trigger] catalog.topics.contains_key(name) implies exists|
            i: int,
        | 0 <= i < entries.len() && (#[trigger] entries[i]).name == name by {
            let i = choose|i: int| 0 <= i < listed.len() && (#[trigger] listed[i]).name == name;
            assert(entries[i].name == name);
        }
    }
    entries
}

/// What a metadata response that lists every topic tells of a topic is what one
/// that was asked for that topic by name tells of it.
pub proof fn law_listing_agrees_with_asking_by_name<S: Shards>(
    engine: EngineModel<S>,
    all_header: HeaderModel,
    all: Result<Seq<u8>, Error>,
    i: int,
    header: HeaderModel,
    one: Result<Seq<u8>, Error>,
) -> (entries: Seq<TopicMetadataModel>)
    requires
        engine.broker.catalog().wf(),
        0 <= i < engine.broker.catalog().topics.len(),
        engine.answers(
            RequestModel { header: all_header, body: BodyModel::Metadata { topics: None } },
            all,
        ),
        engine.answers(
            RequestModel {
                header,
                body: BodyModel::Metadata {
                    topics: Some(seq![engine.broker.catalog().listed()[i].name]),
                },
            },
            one,
        ),
    ensures
        entries.len() == engine.broker.catalog().topics.len(),
        ({
            let response = |topics: Seq<TopicMetadataModel>|
                MetadataResponse::encoded(
                    MetadataResponseModel {
                        brokers: seq![
                            BrokerMetadataModel {
                                node_id: engine.identity.node_id,
                                host: engine.identity.host,
                                port: engine.identity.port,
                            },
                        ],
                        controller_id: engine.identity.node_id,
                        topics,
                    },
                );
            &&& all == codec::frame_result(all_header.correlation_id, response(entries))
            &&& one == codec::frame_result(header.correlation_id, response(seq![entries[i]]))
        }),
{
    let name = engine.broker.catalog().listed()[i].name;
    topic::law_metadata_is_ordered(engine.broker.catalog());
    assert(engine.broker.catalog().topics.contains_key(name));
    let listed = engine.topic_entries(None);
    let alone = engine.topic_entries(Some(seq![name]));
    assert(alone =~= seq![listed[i]]);
    listed
}

/// Whatever a client asks the coordinator of, it is told that this broker is
/// the coordinator.
pub proof fn law_this_broker_coordinates_everything<S: Shards>(
    engine: EngineModel<S>,
    header: HeaderModel,
    key: Seq<u8>,
    key_type: i8,
    r: Result<Seq<u8>, Error>,
)
    requires
        engine.answers(RequestModel { header, body: BodyModel::FindCoordinator { key, key_type } }, r),
    ensures
        r == codec::frame_result(
            header.correlation_id,
            FindCoordinatorResponse::encoded(
                FindCoordinatorResponseModel {
                    error: NO_ERROR,
                    node_id: engine.identity.node_id,
                    host: engine.identity.host,
                    port: engine.identity.port,
                },
            ),
        ),
{
}

/// Whether an API version is among those of a list.
pub open spec fn covers(versions: Seq<(i16, i16, i16)>, api_key: i16, api_version: i16) -> bool {
    exists|i: int|
        0 <= i < versions.len() && (#[trigger] versions[i]).0 == api_key && versions[i].1
            <= api_version <= versions[i].2
}

/// Whether a key and version are those of an API that is decoded.
spec fn known(api_key: i16, api_version: i16) -> bool {
    ||| api_key == api::PRODUCE && api_version == version::PRODUCE
    ||| api_key == api::FETCH && api_version == version::FETCH
    ||| api_key == api::LIST_OFFSETS && api_version == version::LIST_OFFSETS
    ||| api_key == api::METADATA && api_version == version::METADATA
    ||| api_key == api::API_VERSIONS && api_version == version::API_VERSIONS
    ||| api_key == api::FIND_COORDINATOR && api_version == version::FIND_COORDINATOR
    ||| api_key == api::INIT_PRODUCER_ID && api_version == version::INIT_PRODUCER_ID
    ||| api_key == api::ADD_PARTITIONS_TO_TXN && api_version == version::ADD_PARTITIONS_TO_TXN
    ||| api_key == api::END_TXN && api_version == version::END_TXN
    ||| api_key == api::JOIN_GROUP && api_version == version::JOIN_GROUP
    ||| api_key == api::SYNC_GROUP && api_version == version::SYNC_GROUP
    ||| api_key == api::HEARTBEAT && api_version == version::HEARTBEAT
    ||| api_key == api::LEAVE_GROUP && api_version == version::LEAVE_GROUP
    ||| api_key == api::OFFSET_COMMIT && api_version == version::OFFSET_COMMIT
    ||| api_key == api::OFFSET_FETCH && api_version == version::OFFSET_FETCH
}

#[verifier::spinoff_prover]
#[verifier::rlimit(60)]
proof fn lemma_decoded_body(s: Seq<u8>, pos: nat, api_key: i16, api_version: i16)
    requires
        request::parse_body(s, pos, api_key, api_version).result is Ok,
    ensures
        known(api_key, api_version),
{
}

proof fn lemma_decoded_version(frame: Seq<u8>)
    requires
        request::decoded_request(frame) is Ok,
    ensures
        known(
            request::decoded_request(frame)->Ok_0.header.api_key,
            request::decoded_request(frame)->Ok_0.header.api_version,
        ),
{
    let s = frame.skip(4);
    let head = request::parse_request_header(s, 0);
    assert(head.result is Ok);
    let header = head.result->Ok_0;
    let body = request::parse_body(s, head.end, header.api_key, header.api_version);
    assert(body.result is Ok);
    lemma_decoded_body(s, head.end, header.api_key, header.api_version);
}

/// The versions that a client is told are those that requests are decoded in: a
/// frame of any other version is not decoded. No API is told twice.
pub proof fn law_told_versions_are_the_decoded_ones<S: Shards>(
    engine: EngineModel<S>,
    header: HeaderModel,
    r: Result<Seq<u8>, Error>,
    frame: Seq<u8>,
) -> (versions: Seq<(i16, i16, i16)>)
    requires
        engine.answers(RequestModel { header, body: BodyModel::ApiVersions }, r),
    ensures
        r == codec::frame_result(
            header.correlation_id,
            response::api_versions_bytes(NO_ERROR, versions),
        ),
        request::decoded_request(frame) matches Ok(asked) ==> covers(
            versions,
            asked.header.api_key,
            asked.header.api_version,
        ),
        forall|i: int, j: int|
            0 <= i < j < versions.len() ==> (#[trigger] versions[i]).0 != (#[trigger] versions[j]).0,
{
    let versions = answers::advertised_versions();
    assert(versions[0] == (api::PRODUCE, version::PRODUCE, version::PRODUCE));
    assert(versions[1] == (api::FETCH, version::FETCH, version::FETCH));
    assert(versions[2] == (api::LIST_OFFSETS, version::LIST_OFFSETS, version::LIST_OFFSETS));
    assert(versions[3] == (api::METADATA, version::METADATA, version::METADATA));
    assert(versions[4] == (api::API_VERSIONS, version::API_VERSIONS, version::API_VERSIONS));
    assert(versions[5] == (
        api::FIND_COORDINATOR,
        version::FIND_COORDINATOR,
        version::FIND_COORDINATOR,
    ));
    assert(versions[6] == (
        api::INIT_PRODUCER_ID,
        version::INIT_PRODUCER_ID,
        version::INIT_PRODUCER_ID,
    ));
    assert(versions[7] == (
        api::ADD_PARTITIONS_TO_TXN,
        version::ADD_PARTITIONS_TO_TXN,
        version::ADD_PARTITIONS_TO_TXN,
    ));
    assert(versions[8] == (api::END_TXN, version::END_TXN, version::END_TXN));
    assert(versions[9] == (api::JOIN_GROUP, version::JOIN_GROUP, version::JOIN_GROUP));
    assert(versions[10] == (api::SYNC_GROUP, version::SYNC_GROUP, version::SYNC_GROUP));
    assert(versions[11] == (api::HEARTBEAT, version::HEARTBEAT, version::HEARTBEAT));
    assert(versions[12] == (api::LEAVE_GROUP, version::LEAVE_GROUP, version::LEAVE_GROUP));
    assert(versions[13] == (api::OFFSET_COMMIT, version::OFFSET_COMMIT, version::OFFSET_COMMIT));
    assert(versions[14] == (api::OFFSET_FETCH, version::OFFSET_FETCH, version::OFFSET_FETCH));
    if request::decoded_request(frame) is Ok {
        lemma_decoded_version(frame);
        let asked = request::decoded_request(frame)->Ok_0.header;
        assert(known(asked.api_key, asked.api_version));
    }
    versions
}

/// A client that asks for the versions in a version that is not known is told so,
/// and told the versions all the same: those that it gets when it asks in the
/// known version.
pub proof fn law_versions_are_told_in_any_version<S: Shards>(
    engine: EngineModel<S>,
    frame: Seq<u8>,
    r: Result<Seq<u8>, Error>,
    known_header: HeaderModel,
    known_answer: Result<Seq<u8>, Error>,
) -> (versions: Seq<(i16, i16, i16)>)
    requires
        request::decoded_request(frame) == Err::<RequestModel, Error>(Error::UnsupportedVersion),
        frame.len() >= 12,
        codec::i16_of(frame.subrange(4, 6)) == api::API_VERSIONS,
        engine.answers_frame(frame, r),
        engine.answers(
            RequestModel { header: known_header, body: BodyModel::ApiVersions },
            known_answer,
        ),
    ensures
        known_answer == codec::frame_result(
            known_header.correlation_id,
            response::api_versions_bytes(NO_ERROR, versions),
        ),
        r == codec::frame_result(
            codec::i32_of(frame.subrange(8, 12)),
            response::api_versions_bytes(UNSUPPORTED_VERSION, versions),
        ),
{
    answers::advertised_versions()
}

/// The partitions that metadata lists of a topic are those that can be produced
/// to and read from, and no others.
pub proof fn law_listed_partitions_are_those_that_exist(
    catalog: CatalogModel,
    node_id: i32,
    entry: TopicMetadataModel,
    partition: i32,
)
    requires
        true_of(catalog, node_id, entry),
    ensures
        catalog.checked(entry.name, partition) is Ok <==> exists|p: int|
            0 <= p < entry.partitions.len() && (#[trigger] entry.partitions[p]).partition
                == partition,
        catalog.checked(entry.name, partition) is Err ==> catalog.checked(entry.name, partition)
            == Err::<(), LogError>(
            if entry.error == NO_ERROR {
                LogError::UnknownPartition
            } else {
                LogError::UnknownTopic
            },
        ),
{
    if catalog.checked(entry.name, partition) is Ok {
        assert(entry.partitions[partition as int].partition == partition);
    }
    if exists|p: int|
        0 <= p < entry.partitions.len() && (#[trigger] entry.partitions[p]).partition == partition {
        let p = choose|p: int|
            0 <= p < entry.partitions.len() && (#[trigger] entry.partitions[p]).partition
                == partition;
        assert(entry.partitions[p].partition == p as i32);
    }
}

} // verus!
