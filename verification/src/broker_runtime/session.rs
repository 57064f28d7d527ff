//! Deterministic ownership of connection/session protocol state.
//!
//! Partition logs remain owned by partition shards. A session shard owns only
//! the state that is serialized by one client session. Requests still cross an
//! explicit message boundary to the partition shard selected by
//! `(topic, partition)`.

use vstd::prelude::*;

verus! {

/// The index of a shard.
#[derive(Clone, Copy, Debug, Eq, Hash, PartialEq)]
pub struct ShardId(pub usize);

/// Stable identity for one logical broker session, taken from the sequence of
/// accepted connections.
#[derive(Clone, Copy, Debug, Eq, Hash, Ord, PartialEq, PartialOrd)]
pub struct SessionId(u64);

impl SessionId {
    /// The sequence number.
    pub closed spec fn number(self) -> u64 {
        self.0
    }

    /// Creates a session identity from a listener-owned sequence number.
    pub fn new(value: u64) -> (r: Self)
        ensures
            r.number() == value,
    {
        SessionId(value)
    }

    /// Returns the identity's numeric representation for diagnostics.
    pub fn get(self) -> (r: u64)
        ensures
            r == self.number(),
    {
        self.0
    }
}

/// Spreads sequence numbers over all 64 bits.
pub open spec fn mixed(value: u64) -> u64 {
    let first = value ^ (value >> 30u64);
    let second = first.wrapping_mul(0xbf58_476d_1ce4_e5b9);
    let third = second ^ (second >> 27u64);
    let fourth = third.wrapping_mul(0x94d0_49bb_1331_11eb);
    fourth ^ (fourth >> 31u64)
}

fn mix(value: u64) -> (r: u64)
    ensures
        r == mixed(value),
{
    let first: u64 = value ^ (value >> 30u64);
    let second: u64 = first.wrapping_mul(0xbf58_476d_1ce4_e5b9);
    let third: u64 = second ^ (second >> 27u64);
    let fourth: u64 = third.wrapping_mul(0x94d0_49bb_1331_11eb);
    fourth ^ (fourth >> 31u64)
}

/// Logical session-shard layout.
///
/// `first_shard` is a shard hint supplied by the embedding runtime. The layout
/// is independent of partition placement: the same session may issue requests
/// for any topic or partition.
#[derive(Clone, Copy, Debug, Eq, PartialEq)]
pub struct SessionShardLayout {
    first_shard: usize,
    shard_count: usize,
}

impl SessionShardLayout {
    /// The first shard of the layout.
    pub closed spec fn first(self) -> usize {
        self.first_shard
    }

    /// How many shards the layout has.
    pub closed spec fn count(self) -> usize {
        self.shard_count
    }

    /// A layout has a shard.
    pub open spec fn wf(self) -> bool {
        self.count() > 0
    }

    /// The place of the session with a number among the shards of the layout.
    pub open spec fn slot_of(self, number: u64) -> usize {
        mixed(number) as usize % self.count()
    }

    /// The place of a session among the shards of the layout.
    pub open spec fn slot(self, session: SessionId) -> usize {
        self.slot_of(session.number())
    }

    /// Creates a layout. A zero count is normalized to one so assignment is
    /// total even when a deployment temporarily has no session pool.
    pub fn new(first_shard: usize, shard_count: usize) -> (r: Self)
        ensures
            r.wf(),
            r.first() == first_shard,
            r.count() == if shard_count == 0 {
                1
            } else {
                shard_count
            },
    {
        SessionShardLayout {
            first_shard,
            shard_count: if shard_count == 0 {
                1
            } else {
                shard_count
            },
        }
    }

    /// Number of logical session shards.
    pub fn shard_count(self) -> (r: usize)
        ensures
            r == self.count(),
    {
        self.shard_count
    }

    /// Deterministically assigns a session to one logical shard.
    pub fn shard_for(self, session: SessionId) -> (r: ShardId)
        requires
            self.wf(),
            self.first() + self.slot(session) <= usize::MAX,
        ensures
            r.0 == self.first() + self.slot(session),
            self.first() <= r.0 < self.first() + self.count(),
    {
        ShardId(self.first_shard + (mix(session.0) as usize % self.shard_count))
    }
}

/// A number that is multiplied by another within 64 bits can be had back by a
/// third, when the product of these two is one.
proof fn lemma_product_is_undone(value: u64, by: u64, back: u64)
    requires
        (by * back) % 0x1_0000_0000_0000_0000 == 1,
    ensures
        (value.wrapping_mul(by) * back) % 0x1_0000_0000_0000_0000 == value,
{
    let m = 0x1_0000_0000_0000_0000int;
    let x = value as int;
    let y = by as int;
    let z = back as int;
    vstd::arithmetic::div_mod::lemma_mul_mod_noop_left(x * y, z, m);
    vstd::arithmetic::mul::lemma_mul_is_associative(x, y, z);
    vstd::arithmetic::div_mod::lemma_mul_mod_noop_right(x, y * z, m);
    assert((x * 1) % m == x);
}

/// Different sequence numbers stay different when they are spread.
pub proof fn law_spreading_keeps_numbers_apart(a: u64, b: u64)
    ensures
        mixed(a) == mixed(b) <==> a == b,
{
    if mixed(a) == mixed(b) {
        let (a1, b1) = (a ^ (a >> 30u64), b ^ (b >> 30u64));
        let (a2, b2) = (
            a1.wrapping_mul(0xbf58_476d_1ce4_e5b9),
            b1.wrapping_mul(0xbf58_476d_1ce4_e5b9),
        );
        let (a3, b3) = (a2 ^ (a2 >> 27u64), b2 ^ (b2 >> 27u64));
        let (a4, b4) = (
            a3.wrapping_mul(0x94d0_49bb_1331_11eb),
            b3.wrapping_mul(0x94d0_49bb_1331_11eb),
        );
        assert(a4 == b4) by (bit_vector)
            requires
                a4 ^ (a4 >> 31u64) == b4 ^ (b4 >> 31u64),
        ;
        lemma_product_is_undone(a3, 0x94d0_49bb_1331_11eb, 0x3196_42b2_d24d_8ec3);
        lemma_product_is_undone(b3, 0x94d0_49bb_1331_11eb, 0x3196_42b2_d24d_8ec3);
        assert(a2 == b2) by (bit_vector)
            requires
                a2 ^ (a2 >> 27u64) == b2 ^ (b2 >> 27u64),
        ;
        lemma_product_is_undone(a1, 0xbf58_476d_1ce4_e5b9, 0x96de_1b17_3f11_9089);
        lemma_product_is_undone(b1, 0xbf58_476d_1ce4_e5b9, 0x96de_1b17_3f11_9089);
        assert(a == b) by (bit_vector)
            requires
                a ^ (a >> 30u64) == b ^ (b >> 30u64),
        ;
    }
}

} // verus!
