//! The collections the components keep their work in: a queue, a table and a
//! set keyed by a 64-bit number, and a family of queues. All are seen through
//! the views of what they hold, so a contract never has to mention how an
//! item is stored.

use std::collections::{HashMap, HashSet, VecDeque};
use vstd::prelude::*;

verus! {

broadcast use vstd::std_specs::hash::group_hash_axioms;

/// A first-in first-out queue.
pub struct Fifo<T> {
    items: VecDeque<T>,
}

impl<T: View> View for Fifo<T> {
    type V = Seq<T::V>;

    closed spec fn view(&self) -> Seq<T::V> {
        self.items@.map_values(|t: T| t@)
    }
}

impl<T: View> Fifo<T> {
    /// An empty queue.
    pub fn new() -> (r: Self)
        ensures
            r@ == Seq::<T::V>::empty(),
    {
        let r = Fifo { items: VecDeque::new() };
        assert(r@ =~= Seq::<T::V>::empty());
        r
    }

    /// The number of queued items.
    pub fn len(&self) -> (r: usize)
        ensures
            r == self@.len(),
    {
        self.items.len()
    }

    /// Whether nothing is queued.
    pub fn is_empty(&self) -> (r: bool)
        ensures
            r == (self@.len() == 0),
    {
        self.items.len() == 0
    }

    /// Queues an item last.
    pub fn push_back(&mut self, item: T)
        ensures
            final(self)@ == old(self)@.push(item@),
    {
        self.items.push_back(item);
        assert(self@ =~= old(self)@.push(item@));
    }

    /// Queues an item first.
    pub fn push_front(&mut self, item: T)
        ensures
            final(self)@ == seq![item@] + old(self)@,
    {
        self.items.push_front(item);
        assert(self@ =~= seq![item@] + old(self)@);
    }

    /// Takes the first item out.
    pub fn pop_front(&mut self) -> (r: Option<T>)
        ensures
            r is Some <==> old(self)@.len() > 0,
            r matches Some(item) ==> item@ == old(self)@[0] && final(self)@
                == old(self)@.drop_first(),
            r is None ==> final(self)@ == old(self)@,
    {
        let r = self.items.pop_front();
        assert(r is Some ==> self@ =~= old(self)@.drop_first());
        r
    }

    /// Takes the item at position `i` out; the others keep their order.
    pub fn remove(&mut self, i: usize) -> (r: T)
        requires
            i < old(self)@.len(),
        ensures
            r@ == old(self)@[i as int],
            final(self)@ == old(self)@.remove(i as int),
    {
        let r = self.items.remove(i);
        assert(self@ =~= old(self)@.remove(i as int));
        r.unwrap()
    }

    /// The item at position `i`.
    pub fn at(&self, i: usize) -> (r: &T)
        requires
            i < self@.len(),
        ensures
            r@ == self@[i as int],
    {
        &self.items[i]
    }

    /// Drops everything.
    pub fn clear(&mut self)
        ensures
            final(self)@ == Seq::<T::V>::empty(),
    {
        self.items.clear();
        assert(self@ =~= Seq::<T::V>::empty());
    }
}

/// A table of items keyed by a 64-bit number (an address or a transaction
/// ID).
pub struct Table<T> {
    items: HashMap<u64, T>,
}

impl<T: View> View for Table<T> {
    type V = Map<u64, T::V>;

    closed spec fn view(&self) -> Map<u64, T::V> {
        self.items@.map_values(|t: T| t@)
    }
}

/// `keys` lists the keys of `m` in increasing order, each once.
pub open spec fn lists_keys<V>(keys: Seq<u64>, m: Map<u64, V>) -> bool {
    &&& forall|i: int, j: int| 0 <= i < j < keys.len() ==> keys[i] < keys[j]
    &&& forall|k: u64| #[trigger] keys.contains(k) <==> m.contains_key(k)
}

impl<T: View> Table<T> {
    /// An empty table.
    pub fn new() -> (r: Self)
        ensures
            r@ == Map::<u64, T::V>::empty(),
    {
        let r = Table { items: HashMap::new() };
        assert(r@ =~= Map::<u64, T::V>::empty());
        r
    }

    /// The number of entries.
    pub fn len(&self) -> (r: usize)
        ensures
            r == self@.len(),
            self@.dom().finite(),
    {
        assert(self@.dom() =~= self.items@.dom());
        self.items.len()
    }

    /// Whether the table has no entry.
    pub fn is_empty(&self) -> (r: bool)
        ensures
            r == (self@.len() == 0),
            r == (self@ == Map::<u64, T::V>::empty()),
            self@.dom().finite(),
    {
        assert(self@.dom() =~= self.items@.dom());
        let r = self.items.len() == 0;
        proof {
            if r {
                assert(self@.dom() =~= Set::<u64>::empty());
                assert(self@ =~= Map::<u64, T::V>::empty());
            }
        }
        r
    }

    /// Whether `key` has an entry.
    pub fn contains(&self, key: u64) -> (r: bool)
        ensures
            r == self@.contains_key(key),
    {
        self.items.contains_key(&key)
    }

    /// The entry of `key`.
    pub fn get(&self, key: u64) -> (r: Option<&T>)
        ensures
            r is Some <==> self@.contains_key(key),
            r matches Some(item) ==> item@ == self@[key],
    {
        self.items.get(&key)
    }

    /// Sets the entry of `key`; the result is the entry it replaces.
    pub fn insert(&mut self, key: u64, item: T) -> (r: Option<T>)
        ensures
            final(self)@ == old(self)@.insert(key, item@),
            r is Some <==> old(self)@.contains_key(key),
            r matches Some(prev) ==> prev@ == old(self)@[key],
    {
        let r = self.items.insert(key, item);
        assert(self@ =~= old(self)@.insert(key, item@));
        r
    }

    /// Takes the entry of `key` out.
    pub fn remove(&mut self, key: u64) -> (r: Option<T>)
        ensures
            final(self)@ == old(self)@.remove(key),
            r is Some <==> old(self)@.contains_key(key),
            r matches Some(item) ==> item@ == old(self)@[key],
    {
        let r = self.items.remove(&key);
        assert(self@ =~= old(self)@.remove(key));
        r
    }

    /// Drops every entry.
    pub fn clear(&mut self)
        ensures
            final(self)@ == Map::<u64, T::V>::empty(),
    {
        self.items.clear();
        assert(self@ =~= Map::<u64, T::V>::empty());
    }

    /// The keys in increasing order.
    pub fn sorted_keys(&self) -> (r: Vec<u64>)
        ensures
            lists_keys(r@, self@),
    {
        let mut r: Vec<u64> = Vec::new();
        for k in it: self.items.keys()
            invariant
                it.seq().unref().to_set() == self.items@.dom(),
                it.seq().no_duplicates(),
                forall|i: int, j: int| 0 <= i < j < r.len() ==> r[i] < r[j],
                forall|k: u64| #[trigger]
                    r@.contains(k) <==> it.seq().unref().take(it.index() as int).contains(k),
                it.index() == it.seq().len() ==> lists_keys(r@, self@),
        {
            proof {
                lemma_walk(it.seq(), it.index() as int);
                assert(it.seq()[it.index() as int] == k);
            }
            insert_sorted(&mut r, *k);
        }
        r
    }
}

/// A set of 64-bit numbers.
pub struct KeySet {
    items: HashSet<u64>,
}

impl View for KeySet {
    type V = Set<u64>;

    closed spec fn view(&self) -> Set<u64> {
        self.items@
    }
}

impl KeySet {
    /// An empty set.
    pub fn new() -> (r: KeySet)
        ensures
            r@ == Set::<u64>::empty(),
    {
        KeySet { items: HashSet::new() }
    }

    /// The number of members.
    pub fn len(&self) -> (r: usize)
        ensures
            r == self@.len(),
    {
        self.items.len()
    }

    /// Whether `key` is a member.
    pub fn contains(&self, key: u64) -> (r: bool)
        ensures
            r == self@.contains(key),
    {
        self.items.contains(&key)
    }

    /// Makes `key` a member.
    pub fn insert(&mut self, key: u64)
        ensures
            final(self)@ == old(self)@.insert(key),
    {
        let _ = self.items.insert(key);
    }

    /// Takes `key` out; the result is whether it was a member.
    pub fn remove(&mut self, key: u64) -> (r: bool)
        ensures
            final(self)@ == old(self)@.remove(key),
            r == old(self)@.contains(key),
    {
        self.items.remove(&key)
    }

    /// Takes every member out.
    pub fn clear(&mut self)
        ensures
            final(self)@ == Set::<u64>::empty(),
    {
        self.items.clear();
    }
}

/// The queue of `key` in a family of queues; empty where there is none.
pub open spec fn queue_of<V>(m: Map<u64, Seq<V>>, key: u64) -> Seq<V> {
    if m.contains_key(key) {
        m[key]
    } else {
        seq![]
    }
}

/// The family after `v` was queued under `key`.
pub open spec fn queued<V>(m: Map<u64, Seq<V>>, key: u64, v: V) -> Map<u64, Seq<V>> {
    m.insert(key, queue_of(m, key).push(v))
}

/// The first item under `key`.
pub open spec fn front_of<V>(m: Map<u64, Seq<V>>, key: u64) -> Option<V> {
    if queue_of(m, key).len() > 0 {
        Some(queue_of(m, key)[0])
    } else {
        None
    }
}

/// The family after the first item under `key`, if any, was taken out.
pub open spec fn unqueued<V>(m: Map<u64, Seq<V>>, key: u64) -> Map<u64, Seq<V>> {
    if queue_of(m, key).len() > 0 {
        m.insert(key, queue_of(m, key).drop_first())
    } else {
        m
    }
}

/// Queueing an item changes which one is first only where there was none.
pub proof fn lemma_front_after_queued<V>(m: Map<u64, Seq<V>>, key: u64, v: V, at: u64)
    ensures
        front_of(m, at) is Some ==> front_of(queued(m, key, v), at) == front_of(m, at),
        front_of(m, at) is None ==> front_of(queued(m, key, v), at) == (if at == key {
            Some(v)
        } else {
            None
        }),
{
}

/// A family of queues, one per 64-bit key.
pub struct Queues<T> {
    queues: Table<Fifo<T>>,
}

impl<T: View> View for Queues<T> {
    type V = Map<u64, Seq<T::V>>;

    closed spec fn view(&self) -> Map<u64, Seq<T::V>> {
        self.queues@
    }
}

impl<T: View> Queues<T> {
    /// A family of empty queues.
    pub fn new() -> (r: Self)
        ensures
            r@ == Map::<u64, Seq<T::V>>::empty(),
    {
        Queues { queues: Table::new() }
    }

    /// Whether nothing is queued under `key`.
    pub fn is_empty(&self, key: u64) -> (r: bool)
        ensures
            r == (queue_of(self@, key).len() == 0),
    {
        match self.queues.get(key) {
            Some(q) => q.is_empty(),
            None => true,
        }
    }

    /// The first item queued under `key`.
    pub fn front(&self, key: u64) -> (r: Option<&T>)
        ensures
            r is Some <==> front_of(self@, key) is Some,
            r matches Some(item) ==> Some(item@) == front_of(self@, key),
    {
        match self.queues.get(key) {
            Some(q) => if q.is_empty() {
                None
            } else {
                Some(q.at(0))
            },
            None => None,
        }
    }

    /// Queues an item under `key`.
    pub fn push(&mut self, key: u64, item: T)
        ensures
            final(self)@ == queued(old(self)@, key, item@),
    {
        let mut q = match self.queues.remove(key) {
            Some(q) => q,
            None => Fifo::new(),
        };
        q.push_back(item);
        let _ = self.queues.insert(key, q);
        assert(self@ =~= queued(old(self)@, key, item@));
    }

    /// Takes the first item queued under `key` out.
    pub fn pop(&mut self, key: u64) -> (r: Option<T>)
        ensures
            r is Some <==> front_of(old(self)@, key) is Some,
            r matches Some(item) ==> Some(item@) == front_of(old(self)@, key),
            final(self)@ == unqueued(old(self)@, key),
    {
        match self.queues.remove(key) {
            Some(mut q) => {
                let r = q.pop_front();
                let _ = self.queues.insert(key, q);
                assert(self@ =~= unqueued(old(self)@, key));
                r
            },
            None => {
                assert(self@ =~= old(self)@);
                None
            },
        }
    }

    /// Empties every queue.
    pub fn clear(&mut self)
        ensures
            final(self)@ == Map::<u64, Seq<T::V>>::empty(),
    {
        self.queues.clear();
    }
}

/// One step of a walk over distinct keys: the key at `n` is new, the first
/// `n + 1` keys are the first `n` and that one, and after the last step every
/// key has been seen.
proof fn lemma_walk(walk: Seq<&u64>, n: int)
    requires
        0 <= n < walk.len(),
        walk.no_duplicates(),
    ensures
        !walk.unref().take(n).contains(*walk[n]),
        forall|k: u64| #[trigger]
            walk.unref().take(n + 1).contains(k) <==> walk.unref().take(n).contains(k) || k
                == *walk[n],
        n + 1 == walk.len() ==> forall|k: u64|
            (#[trigger] walk.unref().take(n).contains(k) || k == *walk[n])
                <==> walk.unref().to_set().contains(k),
{
    let s = walk.unref();
    let next = s.take(n + 1);
    assert forall|k: u64| #[trigger] s.take(n + 1).contains(k) <==> s.take(n).contains(k) || k
        == s[n] by {
        assert(s.take(n + 1)[n] == s[n]);
        if s.take(n).contains(k) {
            let i = choose|i: int| 0 <= i < n && s.take(n)[i] == k;
            assert(s.take(n + 1)[i] == k);
        }
        if s.take(n + 1).contains(k) && k != s[n] {
            let i = choose|i: int| 0 <= i < next.len() && next[i] == k;
            assert(s.take(n)[i] == k);
        }
    }
    if s.take(n).contains(s[n]) {
        let i = choose|i: int| 0 <= i < n && s.take(n)[i] == s[n];
        assert(walk[i] == walk[n]);
    }
    if n + 1 == walk.len() {
        assert(s.take(n + 1) =~= s);
        assert forall|k: u64| (#[trigger] s.take(n).contains(k) || k == *walk[n]) <==> s.to_set().contains(
            k,
        ) by {
            assert(s.take(n + 1).contains(k) <==> s.to_set().contains(k));
        }
    }
}

/// The members of an increasing list that are not in a set.
pub fn keys_outside(all: &Vec<u64>, set: &KeySet) -> (r: Vec<u64>)
    requires
        forall|i: int, j: int| 0 <= i < j < all.len() ==> all[i] < all[j],
    ensures
        forall|i: int, j: int| 0 <= i < j < r.len() ==> r[i] < r[j],
        forall|a: u64| #[trigger]
            r@.contains(a) <==> all@.contains(a) && !set@.contains(a),
{
    let mut r: Vec<u64> = Vec::new();
    let mut i: usize = 0;
    while i < all.len()
        invariant
            i <= all.len(),
            forall|j: int, k: int| 0 <= j < k < all.len() ==> all[j] < all[k],
            forall|j: int, k: int| 0 <= j < k < r.len() ==> r[j] < r[k],
            forall|j: int| 0 <= j < r.len() && i < all.len() ==> r[j] < all[i as int],
            forall|a: u64| #[trigger]
                r@.contains(a) <==> !set@.contains(a) && exists|j: int|
                    0 <= j < i && all[j] == a,
        decreases all.len() - i,
    {
        let ghost before = r@;
        let a: u64 = all[i];
        if !set.contains(a) {
            r.push(a);
        }
        proof {
            assert forall|x: u64| #[trigger] r@.contains(x) <==> !set@.contains(x)
                && exists|j: int| 0 <= j < i + 1 && all[j] == x by {
                if r@.contains(x) {
                    let n = choose|n: int| 0 <= n < r.len() && r[n] == x;
                    if n < before.len() {
                        assert(before[n] == x);
                        assert(before.contains(x));
                    } else {
                        assert(all[i as int] == x);
                    }
                }
                if !set@.contains(x) && exists|j: int| 0 <= j < i + 1 && all[j] == x {
                    let j = choose|j: int| 0 <= j < i + 1 && all[j] == x;
                    if j < i {
                        assert(before.contains(x));
                        let n = choose|n: int| 0 <= n < before.len() && before[n] == x;
                        assert(r[n] == x);
                    } else {
                        assert(r[r.len() - 1] == x);
                    }
                }
            }
        }
        i = i + 1;
    }
    assert forall|a: u64| #[trigger] r@.contains(a) <==> all@.contains(a) && !set@.contains(a) by {
        if all@.contains(a) {
            let j = choose|j: int| 0 <= j < all.len() && all[j] == a;
            assert(all[j] == a);
        }
    }
    r
}

/// Inserts `k` into the increasing sequence `keys` at its place.
fn insert_sorted(keys: &mut Vec<u64>, k: u64)
    requires
        forall|i: int, j: int| 0 <= i < j < old(keys).len() ==> old(keys)[i] < old(keys)[j],
        !old(keys)@.contains(k),
    ensures
        forall|i: int, j: int| 0 <= i < j < final(keys).len() ==> final(keys)[i] < final(keys)[j],
        forall|x: u64| #[trigger] final(keys)@.contains(x) <==> old(keys)@.contains(x) || x == k,
{
    let mut i: usize = 0;
    while i < keys.len() && keys[i] < k
        invariant
            i <= keys.len(),
            forall|j: int| 0 <= j < i ==> keys[j] < k,
        decreases keys.len() - i,
    {
        i = i + 1;
    }
    assert(i < keys.len() ==> keys@.contains(keys[i as int]));
    keys.insert(i, k);
    proof {
        assert(keys[i as int] == k);
        assert forall|x: u64| #[trigger] keys@.contains(x) <==> old(keys)@.contains(x) || x == k by {
            if old(keys)@.contains(x) {
                let n = choose|n: int| 0 <= n < old(keys).len() && old(keys)[n] == x;
                assert(keys[if n < i { n } else { n + 1 }] == x);
            }
        }
    }
}

/// Each key has a queue of its own: what is queued comes out in order, and the queues
/// of other keys stay as they are.
pub proof fn lemma_queues_are_separate<V>(m: Map<u64, Seq<V>>, key: u64, v: V, at: u64)
    ensures
        queue_of(queued(m, key, v), at) == (if at == key {
            queue_of(m, at).push(v)
        } else {
            queue_of(m, at)
        }),
        queue_of(unqueued(m, key), at) == (if at == key && queue_of(m, at).len() > 0 {
            queue_of(m, at).drop_first()
        } else {
            queue_of(m, at)
        }),
        match front_of(m, at) {
            Some(w) => m.contains_key(at) && m[at].len() > 0 && w == m[at][0],
            None => !m.contains_key(at) || m[at].len() == 0,
        },
{
}

/// A list of the keys of a map has each of them exactly once, in increasing order.
pub proof fn lemma_listed_keys_are_sorted<V>(keys: Seq<u64>, m: Map<u64, V>, i: int, j: int)
    requires
        lists_keys(keys, m),
        0 <= i < keys.len(),
        0 <= j < keys.len(),
    ensures
        m.contains_key(keys[i]),
        i < j <==> keys[i] < keys[j],
        forall|k: u64| #[trigger] m.contains_key(k) ==> keys.contains(k),
{
    assert(keys.contains(keys[i]));
    if j < i {
        assert(keys[j] < keys[i]);
    }
}

} // verus!
