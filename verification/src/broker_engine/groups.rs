//! Details of the consumer group protocol.

use vstd::prelude::*;

use crate::broker_wire::codec::{self, put_be};
use crate::broker_wire::protocol::Error;

verus! {

broadcast use crate::bytes::lemma_bytes_deep_view, crate::bytes::lemma_slice_deep_view;

/// The decimal digits of a number.
pub open spec fn decimal(value: nat) -> Seq<u8>
    decreases value,
{
    if value < 10 {
        seq![(48 + value) as u8]
    } else {
        decimal(value / 10).push((48 + value % 10) as u8)
    }
}

/// The bytes of `member-`.
pub open spec fn member_prefix() -> Seq<u8> {
    seq![109u8, 101, 109, 98, 101, 114, 45]
}

/// The distance of a number from zero.
pub open spec fn magnitude(value: i32) -> nat {
    if value >= 0 {
        value as nat
    } else {
        (-value) as nat
    }
}

/// The member id for a client that brings none.
pub open spec fn member_id_for(correlation_id: i32) -> Seq<u8> {
    member_prefix() + decimal(magnitude(correlation_id))
}

fn put_decimal(output: &mut Vec<u8>, value: u32)
    ensures
        final(output)@ == old(output)@ + decimal(value as nat),
    decreases value,
{
    let ghost before = output@;
    if value >= 10 {
        put_decimal(output, value / 10);
    }
    output.push(48 + (value % 10) as u8);
    proof {
        assert(output@ =~= before + decimal(value as nat));
    }
}

/// The member id for a client that brings none: its correlation id in decimal.
pub fn generated_member_id(correlation_id: i32) -> (r: Vec<u8>)
    ensures
        r@ == member_id_for(correlation_id),
{
    let mut member: Vec<u8> = vec![109u8, 101, 109, 98, 101, 114, 45];
    let value: u32 = if correlation_id >= 0 {
        correlation_id as u32
    } else {
        (-(correlation_id + 1)) as u32 + 1
    };
    proof {
        assert(member@ =~= member_prefix());
    }
    put_decimal(&mut member, value);
    member
}

/// One topic of a subscription.
pub open spec fn subscribed_topic_bytes(topic: Seq<u8>) -> Result<Seq<u8>, Error> {
    if topic.len() > i16::MAX {
        Err(Error::TooLarge)
    } else {
        Ok(codec::i16_bytes(topic.len() as i16) + topic)
    }
}

/// One topic of a subscription, for lists.
pub open spec fn subscribed_topic() -> spec_fn(Seq<u8>) -> Result<Seq<u8>, Error> {
    |topic: Seq<u8>| subscribed_topic_bytes(topic)
}

/// The metadata of a group member: version zero, its topics, no user data.
pub open spec fn subscription_bytes(topics: Seq<Seq<u8>>) -> Result<Seq<u8>, Error> {
    codec::join(
        codec::join(
            Ok(codec::i16_bytes(0) + codec::i32_bytes(topics.len() as i32)),
            codec::list_bytes(topics, subscribed_topic()),
        ),
        Ok(codec::i32_bytes((-1) as i32)),
    )
}

/// Encodes the metadata of a group member.
pub fn encode_subscription(topics: &Vec<Vec<u8>>) -> (r: Result<Vec<u8>, Error>)
    ensures
        codec::bytes_result(r) == subscription_bytes(topics.deep_view()),
{
    let ghost models = topics.deep_view();
    let ghost item = subscribed_topic();
    let mut bytes: Vec<u8> = Vec::new();
    put_be(&mut bytes, 0, 2);
    put_be(&mut bytes, (topics.len() as i32 as u32) as u64, 4);
    let ghost head = codec::i16_bytes(0) + codec::i32_bytes(models.len() as i32);
    let mut i: usize = 0;
    proof {
        assert(models.take(0) =~= seq![]);
        assert(bytes@ =~= head + seq![]);
    }
    while i < topics.len()
        invariant
            models == topics.deep_view(),
            item == subscribed_topic(),
            head == codec::i16_bytes(0) + codec::i32_bytes(models.len() as i32),
            i <= topics.len(),
            codec::list_bytes(models.take(i as int), item) is Ok,
            bytes@ == head + codec::list_bytes(models.take(i as int), item)->Ok_0,
        decreases topics.len() - i,
    {
        let topic = &topics[i];
        proof {
            assert(models.take(i + 1).drop_last() =~= models.take(i as int));
            assert(models.take(i + 1).last() == topic@);
        }
        if topic.len() > 0x7fff {
            proof {
                codec::lemma_list_error(models, i + 1, item);
            }
            return Err(Error::TooLarge);
        }
        put_be(&mut bytes, (topic.len() as i16 as u16) as u64, 2);
        bytes.extend_from_slice(topic.as_slice());
        proof {
            assert(bytes@ =~= head + codec::list_bytes(models.take(i + 1), item)->Ok_0);
        }
        i += 1;
    }
    proof {
        assert(models.take(i as int) =~= models);
    }
    put_be(&mut bytes, ((-1i32) as u32) as u64, 4);
    Ok(bytes)
}

/// The bytes of `charlotte-fixed-v1`, the group protocol.
pub open spec fn group_protocol() -> Seq<u8> {
    seq![
        99u8, 104, 97, 114, 108, 111, 116, 116, 101, 45, 102, 105, 120, 101, 100, 45, 118, 49,
    ]
}

pub(crate) fn group_protocol_name() -> (r: Vec<u8>)
    ensures
        r@ == group_protocol(),
{
    let name: Vec<u8> = vec![
        99u8, 104, 97, 114, 108, 111, 116, 116, 101, 45, 102, 105, 120, 101, 100, 45, 118, 49,
    ];
    proof {
        assert(name@ =~= group_protocol());
    }
    name
}

proof fn lemma_decimal_differs(a: nat, b: nat)
    requires
        decimal(a) == decimal(b),
    ensures
        a == b,
    decreases a,
{
    let text = decimal(a);
    lemma_decimal_len(a);
    lemma_decimal_len(b);
    if a >= 10 {
        assert(text.drop_last() =~= decimal(a / 10));
        assert(text.drop_last() =~= decimal(b / 10));
        lemma_decimal_differs(a / 10, b / 10);
    }
    assert(text.last() == 48 + a % 10);
    assert(text.last() == 48 + b % 10);
}

proof fn lemma_decimal_len(value: nat)
    ensures
        decimal(value).len() > 0,
        decimal(value).len() == 1 <==> value < 10,
    decreases value,
{
    if value >= 10 {
        lemma_decimal_len(value / 10);
    }
}

/// Members that bring no id get one that starts with `member-`, and different
/// ones when their requests have correlation ids of different sizes.
pub proof fn law_made_up_members_differ(a: i32, b: i32)
    ensures
        member_id_for(a) == member_id_for(b) <==> magnitude(a) == magnitude(b),
        member_id_for(a).take(7) == seq![109u8, 101, 109, 98, 101, 114, 45],
{
    let n = member_prefix().len() as int;
    assert(member_id_for(a).skip(n) =~= decimal(magnitude(a)));
    assert(member_id_for(b).skip(n) =~= decimal(magnitude(b)));
    assert(member_id_for(a).take(7) =~= member_prefix());
    if decimal(magnitude(a)) == decimal(magnitude(b)) {
        lemma_decimal_differs(magnitude(a), magnitude(b));
    }
}

} // verus!
