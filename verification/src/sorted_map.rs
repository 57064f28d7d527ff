//! A map whose keys are kept in increasing order.

use vstd::prelude::*;

use crate::byte_order::{self, rank_bytes, Rank};

verus! {

/// A key type with a strict total order on what its values stand for.
pub trait SortKey: DeepView + Sized {
    /// Whether `a` comes strictly before `b`.
    spec fn precedes(a: <Self as DeepView>::V, b: <Self as DeepView>::V) -> bool;

    /// No key comes before itself.
    proof fn irreflexive(a: <Self as DeepView>::V)
        ensures
            !Self::precedes(a, a),
    ;

    /// The order is transitive.
    proof fn transitive(a: <Self as DeepView>::V, b: <Self as DeepView>::V, c: <Self as DeepView>::V)
        requires
            Self::precedes(a, b),
            Self::precedes(b, c),
        ensures
            Self::precedes(a, c),
    ;

    /// Of two different keys one comes before the other.
    proof fn total(a: <Self as DeepView>::V, b: <Self as DeepView>::V)
        ensures
            a == b || Self::precedes(a, b) || Self::precedes(b, a),
    ;

    /// Ranks two keys.
    fn rank(&self, other: &Self) -> (r: Rank)
        ensures
            r is Before ==> Self::precedes(self.deep_view(), other.deep_view()),
            r is Same ==> self.deep_view() == other.deep_view(),
            r is After ==> Self::precedes(other.deep_view(), self.deep_view()),
    ;
}

impl SortKey for Vec<u8> {
    open spec fn precedes(a: Seq<u8>, b: Seq<u8>) -> bool {
        byte_order::lex_lt(a, b)
    }

    proof fn irreflexive(a: Seq<u8>) {
        byte_order::lemma_lex_irreflexive(a);
    }

    proof fn transitive(a: Seq<u8>, b: Seq<u8>, c: Seq<u8>) {
        byte_order::lemma_lex_transitive(a, b, c);
    }

    proof fn total(a: Seq<u8>, b: Seq<u8>) {
        byte_order::lemma_lex_total(a, b);
    }

    fn rank(&self, other: &Self) -> (r: Rank) {
        proof {
            assert(self.deep_view() =~= self@);
            assert(other.deep_view() =~= other@);
        }
        rank_bytes(self.as_slice(), other.as_slice())
    }
}

impl SortKey for (Vec<u8>, i32) {
    open spec fn precedes(a: (Seq<u8>, i32), b: (Seq<u8>, i32)) -> bool {
        byte_order::lex_lt(a.0, b.0) || (a.0 == b.0 && a.1 < b.1)
    }

    proof fn irreflexive(a: (Seq<u8>, i32)) {
        byte_order::lemma_lex_irreflexive(a.0);
    }

    proof fn transitive(a: (Seq<u8>, i32), b: (Seq<u8>, i32), c: (Seq<u8>, i32)) {
        if byte_order::lex_lt(a.0, b.0) && byte_order::lex_lt(b.0, c.0) {
            byte_order::lemma_lex_transitive(a.0, b.0, c.0);
        }
    }

    proof fn total(a: (Seq<u8>, i32), b: (Seq<u8>, i32)) {
        byte_order::lemma_lex_total(a.0, b.0);
    }

    fn rank(&self, other: &Self) -> (r: Rank) {
        proof {
            assert(self.0.deep_view() =~= self.0@);
            assert(other.0.deep_view() =~= other.0@);
        }
        match rank_bytes(self.0.as_slice(), other.0.as_slice()) {
            Rank::Same => {
                if self.1 < other.1 {
                    Rank::Before
                } else if self.1 == other.1 {
                    Rank::Same
                } else {
                    Rank::After
                }
            },
            rank => rank,
        }
    }
}

/// Whether the keys of `s` strictly increase.
pub open spec fn increasing<K: SortKey>(s: Seq<<K as DeepView>::V>) -> bool {
    forall|i: int, j: int| 0 <= i < j < s.len() ==> K::precedes(#[trigger] s[i], #[trigger] s[j])
}

/// The members of `keys` in increasing order.
pub open spec fn in_order<K: SortKey>(keys: Set<<K as DeepView>::V>) -> Seq<<K as DeepView>::V> {
    choose|s: Seq<<K as DeepView>::V>| #[trigger] increasing::<K>(s) && s.to_set() == keys
}

/// Two increasing sequences of the same keys are equal.
pub proof fn lemma_increasing_unique<K: SortKey>(a: Seq<<K as DeepView>::V>, b: Seq<<K as DeepView>::V>)
    requires
        increasing::<K>(a),
        increasing::<K>(b),
        a.to_set() == b.to_set(),
    ensures
        a == b,
    decreases a.len(),
{
    if a.len() == 0 {
        if b.len() > 0 {
            assert(b.to_set().contains(b[0]));
            assert(a.contains(b[0]));
        }
        assert(a =~= b);
    } else {
        assert(a.to_set().contains(a[0]));
        assert(b.contains(a[0]));
        let i = choose|i: int| 0 <= i < b.len() && b[i] == a[0];
        assert(b.to_set().contains(b[0]));
        assert(a.contains(b[0]));
        let j = choose|j: int| 0 <= j < a.len() && a[j] == b[0];
        if i > 0 {
            assert(K::precedes(b[0], b[i]));
            if j > 0 {
                assert(K::precedes(a[0], a[j]));
                K::transitive(a[0], b[0], a[0]);
            }
            K::irreflexive(a[0]);
        }
        let ta = a.skip(1);
        let tb = b.skip(1);
        assert forall|k| ta.to_set().contains(k) implies tb.to_set().contains(k) by {
            let m = choose|m: int| 0 <= m < ta.len() && ta[m] == k;
            assert(a[m + 1] == k);
            assert(a.to_set().contains(k));
            let n = choose|n: int| 0 <= n < b.len() && b[n] == k;
            if n == 0 {
                assert(K::precedes(a[0], a[m + 1]));
                K::irreflexive(a[0]);
            }
            assert(tb[n - 1] == k);
        }
        assert forall|k| tb.to_set().contains(k) implies ta.to_set().contains(k) by {
            let m = choose|m: int| 0 <= m < tb.len() && tb[m] == k;
            assert(b[m + 1] == k);
            assert(b.to_set().contains(k));
            assert(a.contains(k));
            let n = choose|n: int| 0 <= n < a.len() && a[n] == k;
            if n == 0 {
                assert(K::precedes(b[0], b[m + 1]));
                K::irreflexive(b[0]);
            }
            assert(ta[n - 1] == k);
        }
        assert(ta.to_set() =~= tb.to_set());
        lemma_increasing_unique::<K>(ta, tb);
        assert(a =~= seq![a[0]] + ta);
        assert(b =~= seq![b[0]] + tb);
    }
}

/// One more key in an increasing sequence.
proof fn lemma_insert_in_order<K: SortKey>(s: Seq<<K as DeepView>::V>, key: <K as DeepView>::V) -> (r: Seq<<K as DeepView>::V>)
    requires
        increasing::<K>(s),
        !s.contains(key),
    ensures
        increasing::<K>(r),
        r.to_set() == s.to_set().insert(key),
    decreases s.len(),
{
    if s.len() == 0 {
        let r = seq![key];
        assert forall|k| #[trigger] r.to_set().contains(k) == s.to_set().insert(key).contains(k) by {
            if k == key {
                assert(r[0] == k);
            }
        }
        assert(r.to_set() =~= s.to_set().insert(key));
        r
    } else {
        let last = s.last();
        let shorter = s.drop_last();
        assert(s[s.len() - 1] == last);
        K::total(last, key);
        if K::precedes(last, key) {
            let r = s.push(key);
            assert forall|i: int, j: int| 0 <= i < j < r.len() implies K::precedes(
                #[trigger] r[i],
                #[trigger] r[j],
            ) by {
                if j == s.len() && i < s.len() - 1 {
                    K::transitive(s[i], last, key);
                }
            }
            assert forall|k| #[trigger] r.to_set().contains(k) == s.to_set().insert(key).contains(k) by {
                if s.contains(k) {
                    let n = choose|n: int| 0 <= n < s.len() && s[n] == k;
                    assert(r[n] == k);
                }
                if k == key {
                    assert(r[s.len() as int] == k);
                }
            }
            assert(r.to_set() =~= s.to_set().insert(key));
            r
        } else {
            assert(!shorter.contains(key)) by {
                if shorter.contains(key) {
                    let n = choose|n: int| 0 <= n < shorter.len() && shorter[n] == key;
                    assert(s[n] == key);
                }
            }
            let front = lemma_insert_in_order::<K>(shorter, key);
            let r = front.push(last);
            assert forall|i: int, j: int| 0 <= i < j < r.len() implies K::precedes(
                #[trigger] r[i],
                #[trigger] r[j],
            ) by {
                if j == front.len() {
                    assert(front.to_set().contains(front[i]));
                    if front[i] != key {
                        assert(shorter.contains(front[i]));
                        let n = choose|n: int| 0 <= n < shorter.len() && shorter[n] == front[i];
                        assert(K::precedes(s[n], s[s.len() - 1]));
                    }
                }
            }
            assert forall|k| #[trigger] r.to_set().contains(k) == s.to_set().insert(key).contains(k) by {
                if r.contains(k) {
                    let n = choose|n: int| 0 <= n < r.len() && r[n] == k;
                    if n < front.len() {
                        assert(front.to_set().contains(front[n]));
                        if k != key {
                            assert(shorter.contains(k));
                            let m = choose|m: int| 0 <= m < shorter.len() && shorter[m] == k;
                            assert(s[m] == k);
                        }
                    } else {
                        assert(s.contains(last));
                    }
                }
                if s.contains(k) || k == key {
                    if k == last {
                        assert(r[front.len() as int] == k);
                    } else {
                        if s.contains(k) {
                            let m = choose|m: int| 0 <= m < s.len() && s[m] == k;
                            assert(shorter[m] == k);
                            assert(shorter.to_set().contains(k));
                        }
                        assert(front.to_set().contains(k));
                        let n = choose|n: int| 0 <= n < front.len() && front[n] == k;
                        assert(r[n] == k);
                    }
                }
            }
            assert(r.to_set() =~= s.to_set().insert(key));
            r
        }
    }
}

proof fn lemma_order_exists<K: SortKey>(keys: Set<<K as DeepView>::V>) -> (r: Seq<<K as DeepView>::V>)
    requires
        keys.finite(),
    ensures
        increasing::<K>(r),
        r.to_set() == keys,
    decreases keys.len(),
{
    if keys.len() == 0 {
        let r = Seq::<<K as DeepView>::V>::empty();
        assert(r.to_set() =~= keys);
        r
    } else {
        let key = keys.choose();
        let rest = lemma_order_exists::<K>(keys.remove(key));
        assert(!rest.contains(key)) by {
            if rest.contains(key) {
                assert(rest.to_set().contains(key));
            }
        }
        let r = lemma_insert_in_order::<K>(rest, key);
        assert(r.to_set() =~= keys);
        r
    }
}

/// Every finite set of keys has an order.
pub proof fn lemma_in_order<K: SortKey>(keys: Set<<K as DeepView>::V>)
    requires
        keys.finite(),
    ensures
        increasing::<K>(in_order::<K>(keys)),
        in_order::<K>(keys).to_set() == keys,
        in_order::<K>(keys).no_duplicates(),
        in_order::<K>(keys).len() == keys.len(),
{
    let r = lemma_order_exists::<K>(keys);
    let listed = in_order::<K>(keys);
    assert forall|i: int, j: int| 0 <= i < j < listed.len() implies listed[i] != listed[j] by {
        assert(K::precedes(listed[i], listed[j]));
        K::irreflexive(listed[i]);
    }
    listed.unique_seq_to_set();
}

/// A map from keys to values, kept in increasing key order.
#[derive(Debug)]
pub struct SortedMap<K, V> {
    entries: Vec<(K, V)>,
}

impl<K: SortKey, V> SortedMap<K, V> {
    /// The keys, first to last.
    pub closed spec fn keys(self) -> Seq<<K as DeepView>::V> {
        Seq::new(self.entries@.len(), |i: int| self.entries@[i].0.deep_view())
    }

    /// The values, in the order of their keys.
    pub closed spec fn values(self) -> Seq<V> {
        Seq::new(self.entries@.len(), |i: int| self.entries@[i].1)
    }

    /// What the map says of each key.
    pub closed spec fn dict(self) -> Map<<K as DeepView>::V, V> {
        Map::new(
            |k: <K as DeepView>::V| self.keys().contains(k),
            |k: <K as DeepView>::V| self.values()[self.keys().index_of(k)],
        )
    }

    /// The keys strictly increase.
    pub closed spec fn wf(self) -> bool {
        increasing::<K>(self.keys())
    }

    /// How keys, values and lookups hang together.
    pub proof fn lemma_facts(self)
        requires
            self.wf(),
        ensures
            increasing::<K>(self.keys()),
            self.keys().len() == self.values().len(),
            self.keys().to_set() == self.dict().dom(),
            self.keys().no_duplicates(),
            self.dict().dom().finite(),
            self.dict().len() == self.keys().len(),
            in_order::<K>(self.dict().dom()) == self.keys(),
            forall|i: int|
                0 <= i < self.keys().len() ==> {
                    &&& self.dict().contains_key(#[trigger] self.keys()[i])
                    &&& self.dict()[self.keys()[i]] == self.values()[i]
                },
            forall|k: <K as DeepView>::V| #[trigger]
                self.dict().contains_key(k) <==> self.keys().contains(k),
    {
        let keys = self.keys();
        assert forall|i: int, j: int| 0 <= i < j < keys.len() implies keys[i] != keys[j] by {
            assert(K::precedes(keys[i], keys[j]));
            K::irreflexive(keys[i]);
        }
        assert(keys.no_duplicates());
        assert(keys.to_set() =~= self.dict().dom());
        keys.unique_seq_to_set();
        assert forall|i: int| 0 <= i < keys.len() implies {
            &&& self.dict().contains_key(#[trigger] keys[i])
            &&& self.dict()[keys[i]] == self.values()[i]
        } by {
            assert(keys.contains(keys[i]));
            let n = keys.index_of(keys[i]);
            assert(keys[n] == keys[i]);
        }
        let listed = in_order::<K>(self.dict().dom());
        assert(increasing::<K>(keys) && keys.to_set() == self.dict().dom());
        lemma_increasing_unique::<K>(keys, listed);
    }

    /// Creates an empty map.
    pub fn new() -> (r: Self)
        ensures
            r.wf(),
            r.dict() == Map::<<K as DeepView>::V, V>::empty(),
            r.values() == Seq::<V>::empty(),
    {
        let r = SortedMap { entries: Vec::new() };
        proof {
            assert(r.dict() =~= Map::<<K as DeepView>::V, V>::empty());
            assert(r.values() =~= Seq::<V>::empty());
        }
        r
    }

    /// Number of keys.
    pub fn len(&self) -> (r: usize)
        ensures
            r == self.keys().len(),
            r == self.values().len(),
    {
        self.entries.len()
    }

    /// The key at a position.
    pub fn key_at(&self, index: usize) -> (r: &K)
        requires
            index < self.keys().len(),
        ensures
            r.deep_view() == self.keys()[index as int],
    {
        &self.entries[index].0
    }

    /// The value at a position.
    pub fn value_at(&self, index: usize) -> (r: &V)
        requires
            index < self.values().len(),
        ensures
            *r == self.values()[index as int],
    {
        &self.entries[index].1
    }

    /// The value at a position, for update.
    pub fn value_at_mut(&mut self, index: usize) -> (r: &mut V)
        requires
            old(self).wf(),
            index < old(self).keys().len(),
        ensures
            *r == old(self).values()[index as int],
            final(self).dict() == old(self).dict().insert(
                old(self).keys()[index as int],
                *final(r),
            ),
            final(self).keys() == old(self).keys(),
            final(self).values() == old(self).values().update(index as int, *final(r)),
            final(self).wf(),
    {
        proof {
            self.lemma_facts();
        }
        proof {
            let before = *self;
            let i = index as int;
            let key = before.keys()[i];
            assert forall|after: Self, v: V|
                #![trigger after.dict(), before.dict().insert(key, v)]
                #![trigger after.wf(), before.dict().insert(key, v)]
                after.entries@ == before.entries@.update(i, (before.entries@[i].0, v)) implies {
                &&& after.dict() == before.dict().insert(key, v)
                &&& after.keys() == before.keys()
                &&& after.wf()
            } by {
                assert(after.keys() =~= before.keys());
                assert(after.values() =~= before.values().update(i, v));
                let want = before.dict().insert(key, v);
                assert forall|k| #[trigger] after.dict().contains_key(k) implies after.dict()[k] == want[k] by {
                    let n = before.keys().index_of(k);
                    assert(before.keys().contains(k));
                    assert(before.keys()[n] == k);
                }
                assert(after.dict() =~= want);
            }
        }
        let r = &mut self.entries[index].1;
        r
    }

    /// The position of a key, or the position it would take.
    fn seek(&self, key: &K) -> (r: (bool, usize))
        requires
            self.wf(),
        ensures
            r.1 <= self.keys().len(),
            r.0 ==> r.1 < self.keys().len() && self.keys()[r.1 as int] == key.deep_view(),
            !r.0 ==> !self.keys().contains(key.deep_view()),
            forall|i: int|
                0 <= i < r.1 ==> K::precedes(#[trigger] self.keys()[i], key.deep_view()),
            !r.0 ==> forall|i: int|
                r.1 <= i < self.keys().len() ==> K::precedes(
                    key.deep_view(),
                    #[trigger] self.keys()[i],
                ),
    {
        let ghost target = key.deep_view();
        let ghost keys = self.keys();
        let mut low: usize = 0;
        let mut high: usize = self.entries.len();
        while low < high
            invariant
                self.wf(),
                keys == self.keys(),
                target == key.deep_view(),
                low <= high <= self.entries.len(),
                forall|i: int| 0 <= i < low ==> K::precedes(#[trigger] keys[i], target),
                forall|i: int| high <= i < keys.len() ==> K::precedes(target, #[trigger] keys[i]),
            decreases high - low,
        {
            let middle: usize = low + (high - low) / 2;
            proof {
                assert(keys[middle as int] == self.entries@[middle as int].0.deep_view());
            }
            match self.entries[middle].0.rank(key) {
                Rank::Before => {
                    proof {
                        assert forall|i: int| 0 <= i < middle + 1 implies K::precedes(
                            #[trigger] keys[i],
                            target,
                        ) by {
                            if i < middle {
                                K::transitive(keys[i], keys[middle as int], target);
                            }
                        }
                    }
                    low = middle + 1;
                },
                Rank::Same => {
                    return (true, middle);
                },
                Rank::After => {
                    proof {
                        assert forall|i: int| middle <= i < keys.len() implies K::precedes(
                            target,
                            #[trigger] keys[i],
                        ) by {
                            if i > middle {
                                K::transitive(target, keys[middle as int], keys[i]);
                            }
                        }
                    }
                    high = middle;
                },
            }
        }
        proof {
            K::irreflexive(target);
            if keys.contains(target) {
                let n = choose|n: int| 0 <= n < keys.len() && keys[n] == target;
                assert(false);
            }
        }
        (false, low)
    }

    /// The position of a key.
    pub fn find(&self, key: &K) -> (r: Option<usize>)
        requires
            self.wf(),
        ensures
            match r {
                Some(i) => {
                    &&& i < self.keys().len()
                    &&& self.keys()[i as int] == key.deep_view()
                    &&& self.dict().contains_key(key.deep_view())
                    &&& self.values()[i as int] == self.dict()[key.deep_view()]
                },
                None => !self.dict().contains_key(key.deep_view()),
            },
    {
        proof {
            self.lemma_facts();
        }
        let (found, index) = self.seek(key);
        if found {
            Some(index)
        } else {
            None
        }
    }

    /// Looks up a key.
    pub fn get(&self, key: &K) -> (r: Option<&V>)
        requires
            self.wf(),
        ensures
            match r {
                Some(v) => {
                    &&& self.dict().contains_key(key.deep_view())
                    &&& *v == self.dict()[key.deep_view()]
                },
                None => !self.dict().contains_key(key.deep_view()),
            },
    {
        match self.find(key) {
            Some(index) => Some(self.value_at(index)),
            None => None,
        }
    }

    /// Whether a key is present.
    pub fn contains(&self, key: &K) -> (r: bool)
        requires
            self.wf(),
        ensures
            r == self.dict().contains_key(key.deep_view()),
    {
        self.find(key).is_some()
    }

    /// Sets the value of a key.
    pub fn insert(&mut self, key: K, value: V)
        requires
            old(self).wf(),
        ensures
            final(self).wf(),
            final(self).dict() == old(self).dict().insert(key.deep_view(), value),
    {
        let (found, index) = self.seek(&key);
        if found {
            *self.value_at_mut(index) = value;
        } else {
            let ghost before = *self;
            let ghost target = key.deep_view();
            proof {
                before.lemma_facts();
            }
            self.entries.insert(index, (key, value));
            proof {
                let i = index as int;
                let keys = self.keys();
                assert(keys =~= before.keys().insert(i, target));
                assert(self.values() =~= before.values().insert(i, value));
                assert(increasing::<K>(keys)) by {
                    assert forall|a: int, b: int| 0 <= a < b < keys.len() implies K::precedes(
                        #[trigger] keys[a],
                        #[trigger] keys[b],
                    ) by {
                        let ka = if a < i { before.keys()[a] } else if a == i { target } else { before.keys()[a - 1] };
                        let kb = if b < i { before.keys()[b] } else if b == i { target } else { before.keys()[b - 1] };
                        assert(K::precedes(ka, kb));
                    }
                }
                self.lemma_facts();
                let want = before.dict().insert(target, value);
                assert forall|k| self.dict().contains_key(k) == want.contains_key(k) by {
                    if self.dict().contains_key(k) {
                        let n = choose|n: int| 0 <= n < keys.len() && keys[n] == k;
                        if n < i {
                            assert(before.keys()[n] == k);
                        } else if n > i {
                            assert(before.keys()[n - 1] == k);
                        }
                    }
                    if want.contains_key(k) {
                        if k == target {
                            assert(keys[i] == k);
                        } else {
                            let n = choose|n: int| 0 <= n < before.keys().len() && before.keys()[n] == k;
                            assert(keys[if n < i { n } else { n + 1 }] == k);
                        }
                    }
                }
                assert forall|k| #[trigger] self.dict().contains_key(k) implies self.dict()[k] == want[k] by {
                    let n = choose|n: int| 0 <= n < keys.len() && keys[n] == k;
                    if n < i {
                        assert(before.keys()[n] == k);
                    } else if n > i {
                        assert(before.keys()[n - 1] == k);
                    }
                }
                assert(self.dict() =~= want);
            }
        }
    }

    /// Takes a key out and returns its value.
    pub fn remove(&mut self, key: &K) -> (r: Option<V>)
        requires
            old(self).wf(),
        ensures
            final(self).wf(),
            final(self).dict() == old(self).dict().remove(key.deep_view()),
            match r {
                Some(v) => {
                    &&& old(self).dict().contains_key(key.deep_view())
                    &&& v == old(self).dict()[key.deep_view()]
                },
                None => !old(self).dict().contains_key(key.deep_view()),
            },
    {
        let (found, index) = self.seek(key);
        proof {
            self.lemma_facts();
        }
        if !found {
            proof {
                assert(self.dict() =~= self.dict().remove(key.deep_view()));
            }
            return None;
        }
        let ghost before = *self;
        let ghost target = key.deep_view();
        let (_, value) = self.entries.remove(index);
        proof {
            let i = index as int;
            let keys = self.keys();
            assert(keys =~= before.keys().remove(i));
            assert(self.values() =~= before.values().remove(i));
            assert(increasing::<K>(keys)) by {
                assert forall|a: int, b: int| 0 <= a < b < keys.len() implies K::precedes(
                    #[trigger] keys[a],
                    #[trigger] keys[b],
                ) by {
                    let ka = before.keys()[if a < i { a } else { a + 1 }];
                    let kb = before.keys()[if b < i { b } else { b + 1 }];
                    assert(K::precedes(ka, kb));
                }
            }
            self.lemma_facts();
            let want = before.dict().remove(target);
            assert forall|k| self.dict().contains_key(k) == want.contains_key(k) by {
                if self.dict().contains_key(k) {
                    let n = choose|n: int| 0 <= n < keys.len() && keys[n] == k;
                    assert(before.keys()[if n < i { n } else { n + 1 }] == k);
                }
                if want.contains_key(k) {
                    let n = choose|n: int| 0 <= n < before.keys().len() && before.keys()[n] == k;
                    assert(keys[if n < i { n } else { n - 1 }] == k);
                }
            }
            assert forall|k| #[trigger] self.dict().contains_key(k) implies self.dict()[k] == want[k] by {
                let n = choose|n: int| 0 <= n < keys.len() && keys[n] == k;
                assert(before.keys()[if n < i { n } else { n + 1 }] == k);
            }
            assert(self.dict() =~= want);
        }
        Some(value)
    }
}

} // verus!
