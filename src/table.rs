use vstd::prelude::*;
use crate::hasher::CHasher;

verus! {

/// What the table asks of its key and value types: `==` on keys is equality
/// of values, and a clone of a key or of a value equals the original.
pub open spec fn key_value_laws<T: PartialEq + Clone, V: Clone>() -> bool {
    &&& <T as vstd::std_specs::cmp::PartialEqSpec>::obeys_eq_spec()
    &&& forall|a: T, b: T|
        #[trigger] <T as vstd::std_specs::cmp::PartialEqSpec>::eq_spec(&a, &b) <==> (a == b)
    &&& forall|a: T, b: T| #[trigger] call_ensures(T::clone, (&a,), b) ==> a == b
    &&& forall|a: V, b: V| #[trigger] call_ensures(V::clone, (&a,), b) ==> a == b
}

/// `n` is a power of two.
pub open spec fn is_power_of_two(n: nat) -> bool
    decreases n,
{
    if n <= 1 {
        n == 1
    } else {
        n % 2 == 0 && is_power_of_two(n / 2)
    }
}

/// The number of filled slots in `s`.
pub open spec fn occupied<A>(s: Seq<Option<A>>) -> nat
    decreases s.len(),
{
    if s.len() == 0 {
        0
    } else {
        occupied(s.drop_last()) + if s.last() is Some {
            1nat
        } else {
            0nat
        }
    }
}

proof fn lemma_occupied_fill<A>(s: Seq<Option<A>>, i: int, x: A)
    requires
        0 <= i < s.len(),
        s[i] is None,
    ensures
        occupied(s.update(i, Some(x))) == occupied(s) + 1,
    decreases s.len(),
{
    let t = s.update(i, Some(x));
    if i == s.len() - 1 {
        assert(t.drop_last() =~= s.drop_last());
    } else {
        assert(t.drop_last() =~= s.drop_last().update(i, Some(x)));
        lemma_occupied_fill(s.drop_last(), i, x);
    }
}

proof fn lemma_occupied_full<A>(s: Seq<Option<A>>)
    requires
        forall|i: int| 0 <= i < s.len() ==> #[trigger] s[i] is Some,
    ensures
        occupied(s) == s.len(),
    decreases s.len(),
{
    if s.len() > 0 {
        lemma_occupied_full(s.drop_last());
    }
}

/// The capacity that reserving room for `size` entries leaves a table of
/// capacity `cap` with: `cap` itself when `2 * size < cap`, else the least
/// `cap * 2^j` that is above `2 * size`.
pub open spec fn reserved_capacity(cap: nat, size: nat) -> nat
    decreases (if cap <= 2 * size {
        2 * size + 1 - cap
    } else {
        0
    }),
{
    if cap == 0 || 2 * size < cap {
        cap
    } else {
        reserved_capacity(2 * cap, size)
    }
}

proof fn lemma_power_of_two_step(a: nat, b: nat)
    requires
        is_power_of_two(a),
        is_power_of_two(b),
        a < b,
    ensures
        2 * a <= b,
    decreases b,
{
    if a > 1 {
        lemma_power_of_two_step(a / 2, b / 2);
    }
}

/// An open-addressing hash table with linear probing.
///
/// Each slot is empty or holds one key and its value. Lookup walks forward
/// from the key's home slot `K::hash(key) % capacity`, wrapping around, and
/// stops at the first slot that holds the key or is empty. Slots are never
/// emptied, except by a full rehash into a larger table.
#[verifier::reject_recursive_types(T)]
#[verifier::reject_recursive_types(V)]
pub struct CHashTable<T, V, K> where T: Clone + PartialEq, V: Clone, K: CHasher<T> {
    buckets: Vec<Option<(T, V)>>,
    objects_count: usize,
    _hasher: std::marker::PhantomData<K>,
    /// For each stored key, the value that lookup reaches.
    entries: Ghost<Map<T, V>>,
    /// For each stored key, how many slots past its home slot that value sits.
    offsets: Ghost<Map<T, nat>>,
    /// Keys that were inserted more than once; every other key is held by one slot.
    repeated: Ghost<Set<T>>,
}

impl<T, V, K> View for CHashTable<T, V, K> where T: Clone + PartialEq, V: Clone, K: CHasher<T> {
    type V = Map<T, V>;

    /// Each stored key, with the value that `get` returns for it.
    closed spec fn view(&self) -> Map<T, V> {
        self.entries@
    }
}

impl<T, V, K> CHashTable<T, V, K> where T: Clone + PartialEq, V: Clone, K: CHasher<T> {
    /// The number of slots.
    pub closed spec fn capacity(&self) -> nat {
        self.buckets@.len()
    }

    /// The number of filled slots.
    pub closed spec fn len(&self) -> nat {
        self.objects_count as nat
    }

    /// The keys that were inserted more than once. Which of its values lookup
    /// reaches for such a key may change when the table is rehashed.
    pub closed spec fn duplicated(&self) -> Set<T> {
        self.repeated@
    }

    /// The home slot of `k`.
    spec fn home(&self, k: T) -> int {
        K::spec_hash(k) as int % self.buckets@.len() as int
    }

    /// The slot `d` steps past the home slot of `k`, wrapping around.
    spec fn probe(&self, k: T, d: int) -> Option<(T, V)> {
        self.buckets@[(self.home(k) + d) % (self.buckets@.len() as int)]
    }

    /// The table's invariant.
    pub closed spec fn wf(&self) -> bool {
        let cap = self.buckets@.len();
        &&& key_value_laws::<T, V>()
        &&& is_power_of_two(cap)
        &&& cap >= 8
        &&& self.objects_count == occupied(self.buckets@)
        &&& self.objects_count * 2 <= cap
        &&& self.offsets@.dom() == self.entries@.dom()
        &&& forall|k: T| #[trigger]
            self.entries@.contains_key(k) ==> {
                &&& self.offsets@[k] < cap
                &&& self.probe(k, self.offsets@[k] as int) == Some((k, self.entries@[k]))
            }
        &&& forall|k: T, d: int|
            self.entries@.contains_key(k) && 0 <= d < self.offsets@[k] ==> {
                &&& #[trigger] self.probe(k, d) is Some
                &&& self.probe(k, d).unwrap().0 != k
            }
        &&& forall|i: int|
            0 <= i < cap && #[trigger] self.buckets@[i] is Some ==> self.entries@.contains_key(
                self.buckets@[i].unwrap().0,
            )
        &&& forall|i: int, j: int|
            0 <= i < cap && 0 <= j < cap && #[trigger] self.buckets@[i] is Some
                && #[trigger] self.buckets@[j] is Some && self.buckets@[i].unwrap().0
                == self.buckets@[j].unwrap().0 && !self.repeated@.contains(
                self.buckets@[i].unwrap().0,
            ) ==> i == j
    }

    fn empty_buckets(n: usize) -> (r: Vec<Option<(T, V)>>)
        ensures
            r@.len() == n,
            forall|i: int| 0 <= i < n ==> #[trigger] r@[i] is None,
            occupied(r@) == 0,
    {
        let mut r: Vec<Option<(T, V)>> = Vec::with_capacity(n);
        let mut i: usize = 0;
        while i < n
            invariant
                i <= n,
                r@.len() == i,
                forall|j: int| 0 <= j < i ==> #[trigger] r@[j] is None,
                occupied(r@) == 0,
            decreases n - i,
        {
            proof {
                assert(r@.push(None).drop_last() =~= r@);
            }
            r.push(None);
            i += 1;
        }
        r
    }

    /// A table with 8 empty slots.
    pub fn new() -> (t: Self)
        requires
            key_value_laws::<T, V>(),
        ensures
            t.wf(),
            t@ == Map::<T, V>::empty(),
            t.duplicated() == Set::<T>::empty(),
            t.capacity() == 8,
            t.len() == 0,
    {
        let t = CHashTable::<T, V, K> {
            buckets: Self::empty_buckets(8),
            objects_count: 0,
            _hasher: std::marker::PhantomData,
            entries: Ghost(Map::empty()),
            offsets: Ghost(Map::empty()),
            repeated: Ghost(Set::empty()),
        };
        proof {
            assert(is_power_of_two(1));
            assert(is_power_of_two(2));
            assert(is_power_of_two(4));
            assert(is_power_of_two(8));
        }
        t
    }

    /// The home slot of `key`.
    fn hash(&self, key: &T) -> (r: usize)
        requires
            self.buckets@.len() > 0,
        ensures
            r == self.home(*key),
    {
        K::hash(key) % self.buckets.len()
    }

    /// Stores `(key, value)` in the first empty slot at or after the home slot
    /// of `key`.
    fn place(&mut self, key: T, value: V)
        requires
            old(self).wf(),
            old(self).objects_count * 2 < old(self).buckets@.len(),
        ensures
            final(self).wf(),
            final(self).buckets@.len() == old(self).buckets@.len(),
            final(self).objects_count == old(self).objects_count + 1,
            final(self)@ == if old(self)@.contains_key(key) {
                old(self)@
            } else {
                old(self)@.insert(key, value)
            },
            final(self).repeated@ == if old(self)@.contains_key(key) {
                old(self).repeated@.insert(key)
            } else {
                old(self).repeated@
            },
    {
        let len = self.buckets.len();
        let start = self.hash(&key);
        let mut i: usize = 0;
        let mut idx: usize = start;
        proof {
            vstd::arithmetic::div_mod::lemma_small_mod(start as nat, len as nat);
        }
        while self.buckets[idx].is_some()
            invariant
                *self == *old(self),
                self.wf(),
                self.objects_count * 2 < len,
                len == self.buckets@.len(),
                i < len,
                idx == (self.home(key) + i) % (len as int),
                forall|d: int| 0 <= d < i ==> #[trigger] self.probe(key, d) is Some,
            decreases len - i,
        {
            proof {
                assert(self.probe(key, i as int) is Some);
                if i + 1 == len {
                    let h = self.home(key);
                    assert forall|j: int| 0 <= j < len implies #[trigger] self.buckets@[j] is Some by {
                        let d = if j >= h {
                            j - h
                        } else {
                            j - h + len
                        };
                        vstd::arithmetic::div_mod::lemma_small_mod(j as nat, len as nat);
                        assert((j + len) % (len as int) == j) by {
                            vstd::arithmetic::div_mod::lemma_add_mod_noop(j, len as int, len as int);
                            vstd::arithmetic::div_mod::lemma_small_mod(0, len as nat);
                        }
                        assert(self.probe(key, d) == self.buckets@[j]);
                    }
                    lemma_occupied_full(self.buckets@);
                }
                vstd::arithmetic::div_mod::lemma_add_mod_noop(self.home(key) + i, 1, len as int);
                vstd::arithmetic::div_mod::lemma_small_mod(1, len as nat);
            }
            i += 1;
            idx = (idx + 1) % len;
        }
        proof {
            lemma_occupied_fill(self.buckets@, idx as int, (key, value));
            assert(self.probe(key, i as int) == self.buckets@[idx as int]);
        }
        let ghost before = *self;
        self.buckets.set(idx, Some((key, value)));
        self.objects_count = self.objects_count + 1;
        proof {
            if before.entries@.contains_key(key) {
                self.repeated@ = before.repeated@.insert(key);
            } else {
                self.entries@ = before.entries@.insert(key, value);
                self.offsets@ = before.offsets@.insert(key, i as nat);
            }
            assert(self.home(key) == before.home(key));
            assert forall|k: T, d: int| #[trigger] self.probe(k, d) == before.probe(k, d) || (
            self.home(k) + d) % (len as int) == idx by {
                assert(self.home(k) == before.home(k));
            }
            assert(is_power_of_two(len as nat) && len >= 8 ==> len % 2 == 0);
        }
    }

    /// The slot that holds the value lookup reaches for the stored key `k`.
    spec fn slot_of(&self, k: T) -> int {
        (self.home(k) + self.offsets@[k]) % (self.buckets@.len() as int)
    }

    /// Grows the table to `new_size` slots, if that is more than it has, and
    /// places every stored pair anew, in the order of the old slots.
    fn realloc(&mut self, new_size: usize)
        requires
            old(self).wf(),
            is_power_of_two(new_size as nat),
        ensures
            final(self).wf(),
            final(self).buckets@.len() == if new_size <= old(self).buckets@.len() {
                old(self).buckets@.len()
            } else {
                new_size as nat
            },
            new_size <= old(self).buckets@.len() ==> *final(self) == *old(self),
            final(self).objects_count == old(self).objects_count,
            final(self)@.dom() == old(self)@.dom(),
            final(self).repeated@ == old(self).repeated@,
            forall|k: T|
                #![trigger final(self)@[k]]
                old(self)@.contains_key(k) && !old(self).repeated@.contains(k) ==> final(self)@[k]
                    == old(self)@[k],
    {
        if new_size <= self.buckets.len() {
            return;
        }
        let ghost prev = *self;
        proof {
            lemma_power_of_two_step(prev.buckets@.len(), new_size as nat);
        }
        let mut old_buckets = Self::empty_buckets(new_size);
        std::mem::swap(&mut self.buckets, &mut old_buckets);
        self.objects_count = 0;
        proof {
            self.entries@ = Map::empty();
            self.offsets@ = Map::empty();
            self.repeated@ = Set::empty();
        }
        let old_len = old_buckets.len();
        let mut i: usize = 0;
        while i < old_len
            invariant
                self.wf(),
                self.buckets@.len() == new_size,
                2 * old_len <= new_size,
                old_len == prev.buckets@.len(),
                prev.wf(),
                i <= old_len,
                old_buckets@.len() == old_len,
                forall|j: int| i <= j < old_len ==> old_buckets@[j] == prev.buckets@[j],
                self.objects_count == occupied(prev.buckets@.subrange(0, i as int)),
                self.objects_count <= i,
                forall|k: T|
                    #[trigger] self.entries@.contains_key(k) ==> prev.entries@.contains_key(k) && (
                    prev.repeated@.contains(k) || prev.slot_of(k) < i),
                forall|j: int|
                    0 <= j < i && #[trigger] prev.buckets@[j] is Some ==> self.entries@.contains_key(
                        prev.buckets@[j].unwrap().0,
                    ),
                forall|k: T|
                    #![trigger self.entries@[k]]
                    self.entries@.contains_key(k) && !prev.repeated@.contains(k)
                        ==> self.entries@[k] == prev.entries@[k],
                self.repeated@.subset_of(prev.repeated@),
            decreases old_len - i,
        {
            let slot = old_buckets[i].take();
            proof {
                assert(prev.buckets@.subrange(0, i + 1).drop_last() =~= prev.buckets@.subrange(
                    0,
                    i as int,
                ));
            }
            match slot {
                Some((k, v)) => {
                    proof {
                        assert(prev.buckets@[i as int] is Some);
                        assert(prev.entries@.contains_key(k));
                        let s = prev.slot_of(k);
                        assert(prev.probe(k, prev.offsets@[k] as int) == prev.buckets@[s]);
                        assert(prev.buckets@[s] is Some);
                        if !prev.repeated@.contains(k) {
                            assert(s == i);
                        }
                    }
                    self.place(k, v);
                },
                None => {},
            }
            i += 1;
        }
        proof {
            assert(prev.buckets@.subrange(0, old_len as int) =~= prev.buckets@);
            assert forall|k: T| prev.entries@.contains_key(k) implies self.entries@.contains_key(
                k,
            ) by {
                let s = prev.slot_of(k);
                assert(prev.probe(k, prev.offsets@[k] as int) == prev.buckets@[s]);
                assert(prev.buckets@[s] is Some);
            }
            assert(self.entries@.dom() =~= prev.entries@.dom());
            let mid = *self;
            self.repeated@ = prev.repeated@;
            assert forall|a: int, b: int|
                0 <= a < new_size && 0 <= b < new_size && #[trigger] self.buckets@[a] is Some
                    && #[trigger] self.buckets@[b] is Some && self.buckets@[a].unwrap().0
                    == self.buckets@[b].unwrap().0 && !self.repeated@.contains(
                    self.buckets@[a].unwrap().0,
                ) implies a == b by {
                assert(mid.buckets@[a] is Some && mid.buckets@[b] is Some);
                assert(!mid.repeated@.contains(mid.buckets@[a].unwrap().0));
            }
            assert forall|k: T, d: int|
                self.entries@.contains_key(k) && 0 <= d < self.offsets@[k] implies {
                &&& #[trigger] self.probe(k, d) is Some
                &&& self.probe(k, d).unwrap().0 != k
            } by {
                assert(mid.probe(k, d) == self.probe(k, d));
            }
        }
    }

    /// What inserting `value` under `key` into `pre` leaves: the table `post`.
    ///
    /// When half the slots or more are filled, the capacity first doubles and
    /// every entry is rehashed; either way, fewer than half the slots are filled
    /// when the new pair is placed. A key that is already stored is not
    /// overwritten: the new pair goes to a later slot of the same probe chain,
    /// lookup keeps reaching the earlier one, and the key counts as duplicated.
    /// Keys stored once keep their values, across a rehash too.
    pub open spec fn insert_outcome(pre: Self, key: T, value: V, post: Self) -> bool {
        &&& post.wf()
        &&& post.len() == pre.len() + 1
        &&& post.capacity() == if pre.len() * 2 >= pre.capacity() {
            2 * pre.capacity()
        } else {
            pre.capacity()
        }
        &&& pre.len() * 2 < post.capacity()
        &&& post@.dom() == pre@.dom().insert(key)
        &&& !pre@.contains_key(key) ==> post@[key] == value
        &&& forall|k: T|
            #![trigger post@[k]]
            pre@.contains_key(k) && !pre.duplicated().contains(k) ==> post@[k] == pre@[k]
        &&& pre.len() * 2 < pre.capacity() ==> post@ == if pre@.contains_key(key) {
            pre@
        } else {
            pre@.insert(key, value)
        }
        &&& post.duplicated() == if pre@.contains_key(key) {
            pre.duplicated().insert(key)
        } else {
            pre.duplicated()
        }
    }

    /// Stores `value` under `key`, as `insert_outcome` describes.
    pub fn insert(&mut self, key: &T, value: V)
        requires
            old(self).wf(),
            old(self).len() < usize::MAX / 4,
        ensures
            Self::insert_outcome(*old(self), *key, value, *final(self)),
    {
        if self.objects_count * 2 >= self.buckets.len() {
            proof {
                let n = self.buckets@.len();
                assert(is_power_of_two(2 * n)) by {
                    assert((2 * n) / 2 == n);
                }
            }
            self.realloc(self.buckets.len() * 2);
        }
        let k = key.clone();
        assert(k == *key);
        self.place(k, value);
        proof {
            assert(self@.dom() =~= old(self)@.dom().insert(*key));
        }
    }

    /// Makes room for `size` entries: afterwards `2 * size` is below the
    /// capacity, so that many entries fit before an insert grows the table.
    /// The capacity only ever doubles; a table that already has room is left
    /// as it is.
    pub fn reserve(&mut self, size: usize)
        requires
            old(self).wf(),
            size <= usize::MAX / 4,
        ensures
            final(self).wf(),
            final(self).capacity() == reserved_capacity(old(self).capacity(), size as nat),
            size * 2 < final(self).capacity(),
            final(self).len() == old(self).len(),
            final(self)@.dom() == old(self)@.dom(),
            forall|k: T|
                #![trigger final(self)@[k]]
                old(self)@.contains_key(k) && !old(self).duplicated().contains(k)
                    ==> final(self)@[k] == old(self)@[k],
            final(self).duplicated() == old(self).duplicated(),
            size * 2 < old(self).capacity() ==> *final(self) == *old(self),
    {
        if size * 2 >= self.buckets.len() {
            let mut new_size = self.buckets.len();
            while new_size <= size * 2
                invariant
                    is_power_of_two(new_size as nat),
                    new_size > 0,
                    size <= usize::MAX / 4,
                    new_size <= 4 * size,
                    reserved_capacity(new_size as nat, size as nat) == reserved_capacity(
                        old(self).capacity(),
                        size as nat,
                    ),
                decreases (if new_size <= 2 * size {
                    2 * size + 1 - new_size
                } else {
                    0
                }),
            {
                proof {
                    assert((2 * new_size) / 2 == new_size as int);
                }
                new_size = new_size * 2;
            }
            self.realloc(new_size);
        }
    }

    /// The value that lookup reaches for `key`, if `key` is stored.
    pub fn get(&mut self, key: &T) -> (r: Option<V>)
        requires
            old(self).wf(),
        ensures
            *final(self) == *old(self),
            r == if old(self)@.contains_key(*key) {
                Some(old(self)@[*key])
            } else {
                None
            },
    {
        let len = self.buckets.len();
        let start = self.hash(key);
        let mut i: usize = 0;
        let mut idx: usize = start;
        proof {
            vstd::arithmetic::div_mod::lemma_small_mod(start as nat, len as nat);
        }
        while i < len
            invariant
                self.wf(),
                len == self.buckets@.len(),
                i <= len,
                idx == (self.home(*key) + i) % (len as int),
                forall|d: int| 0 <= d < i ==> {
                    &&& #[trigger] self.probe(*key, d) is Some
                    &&& self.probe(*key, d).unwrap().0 != *key
                },
            decreases len - i,
        {
            proof {
                assert(self.probe(*key, i as int) == self.buckets@[idx as int]);
            }
            match &self.buckets[idx] {
                Some(pair) => {
                    if pair.0 == *key {
                        proof {
                            assert(self.buckets@[idx as int] is Some);
                            let o = self.offsets@[*key] as int;
                            if o < i {
                                assert(self.probe(*key, o) is Some);
                            }
                            if o > i {
                                assert(self.probe(*key, i as int) is Some);
                            }
                        }
                        return Some(pair.1.clone());
                    }
                },
                None => {
                    proof {
                        if self.entries@.contains_key(*key) {
                            let o = self.offsets@[*key] as int;
                            assert(self.probe(*key, o) is Some);
                            if o > i {
                                assert(self.probe(*key, i as int) is Some);
                            }
                        }
                    }
                    return None;
                },
            }
            proof {
                vstd::arithmetic::div_mod::lemma_add_mod_noop(self.home(*key) + i, 1, len as int);
                vstd::arithmetic::div_mod::lemma_small_mod(1, len as nat);
            }
            i += 1;
            idx = (idx + 1) % len;
        }
        proof {
            if self.entries@.contains_key(*key) {
                let o = self.offsets@[*key] as int;
                assert(self.probe(*key, o) is Some);
            }
        }
        None
    }
}



/// A table's fill ratio stays at one half or below, and its capacity is a
/// power of two, 8 or more.
pub proof fn lemma_load_bound<T, V, K>(t: CHashTable<T, V, K>) where
    T: Clone + PartialEq,
    V: Clone,
    K: CHasher<T>,

    requires
        t.wf(),
    ensures
        t.len() * 2 <= t.capacity(),
        is_power_of_two(t.capacity()),
        t.capacity() >= 8,
{
}

proof fn lemma_reserved_capacity_bounds(cap: nat, size: nat)
    requires
        cap > 0,
    ensures
        reserved_capacity(cap, size) >= cap,
        2 * size < reserved_capacity(cap, size),
    decreases (if cap <= 2 * size {
        2 * size + 1 - cap
    } else {
        0
    }),
{
    if 2 * size >= cap {
        lemma_reserved_capacity_bounds(2 * cap, size);
    }
}

/// Reserving never lowers the capacity, and reserving again for as many
/// entries or fewer leaves it as it is.
pub proof fn lemma_reserve_idempotent(cap: nat, first: nat, second: nat)
    requires
        cap > 0,
        second <= first,
    ensures
        reserved_capacity(cap, first) >= cap,
        reserved_capacity(reserved_capacity(cap, first), second) == reserved_capacity(cap, first),
{
    lemma_reserved_capacity_bounds(cap, first);
}

/// A key that none of a run of inserts used is not stored after the run.
pub proof fn lemma_never_inserted<T, V, K>(
    tables: Seq<CHashTable<T, V, K>>,
    pairs: Seq<(T, V)>,
    key: T,
) where T: Clone + PartialEq, V: Clone, K: CHasher<T>,

    requires
        tables.len() == pairs.len() + 1,
        tables[0]@ == Map::<T, V>::empty(),
        forall|i: int|
            0 <= i < pairs.len() ==> #[trigger] CHashTable::insert_outcome(
                tables[i],
                pairs[i].0,
                pairs[i].1,
                tables[i + 1],
            ),
        forall|i: int| 0 <= i < pairs.len() ==> #[trigger] pairs[i].0 != key,
    ensures
        !tables.last()@.contains_key(key),
    decreases pairs.len(),
{
    if pairs.len() > 0 {
        let n = pairs.len() - 1;
        lemma_never_inserted(tables.drop_last(), pairs.drop_last(), key);
        assert(CHashTable::insert_outcome(tables[n], pairs[n].0, pairs[n].1, tables[n + 1]));
        assert(pairs[n].0 != key);
    }
}

/// After a run of inserts into a fresh table with keys that are all
/// distinct, each key is stored with the value it was inserted with, and no
/// key is duplicated.
pub proof fn lemma_distinct_inserts<T, V, K>(
    tables: Seq<CHashTable<T, V, K>>,
    pairs: Seq<(T, V)>,
) where T: Clone + PartialEq, V: Clone, K: CHasher<T>,

    requires
        tables.len() == pairs.len() + 1,
        tables[0]@ == Map::<T, V>::empty(),
        tables[0].duplicated() == Set::<T>::empty(),
        forall|i: int|
            0 <= i < pairs.len() ==> #[trigger] CHashTable::insert_outcome(
                tables[i],
                pairs[i].0,
                pairs[i].1,
                tables[i + 1],
            ),
        forall|i: int, j: int|
            0 <= i < pairs.len() && 0 <= j < pairs.len() && i != j ==> #[trigger] pairs[i].0
                != #[trigger] pairs[j].0,
    ensures
        forall|i: int|
            0 <= i < pairs.len() ==> #[trigger] tables.last()@.contains_key(pairs[i].0)
                && tables.last()@[pairs[i].0] == pairs[i].1,
        tables.last().duplicated() == Set::<T>::empty(),
    decreases pairs.len(),
{
    if pairs.len() > 0 {
        let n = pairs.len() - 1;
        let pre = tables[n];
        let post = tables[n + 1];
        lemma_distinct_inserts(tables.drop_last(), pairs.drop_last());
        assert(CHashTable::insert_outcome(pre, pairs[n].0, pairs[n].1, post));
        assert forall|i: int| 0 <= i < n implies #[trigger] pairs.drop_last()[i].0 != pairs[n].0 by {
            assert(pairs[i].0 != pairs[n].0);
        }
        lemma_never_inserted(tables.drop_last(), pairs.drop_last(), pairs[n].0);
        assert forall|i: int| 0 <= i < pairs.len() implies #[trigger] post@.contains_key(
            pairs[i].0,
        ) && post@[pairs[i].0] == pairs[i].1 by {
            if i < n {
                assert(pairs.drop_last()[i] == pairs[i]);
                assert(pre@.contains_key(pairs[i].0));
            }
        }
    }
}

} // verus!
