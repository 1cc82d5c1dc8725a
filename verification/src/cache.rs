use lru::LruCache;
use std::collections::HashMap;
use vstd::prelude::*;

verus! {

/// `lru::LruCache`: nothing is known of a value of it but what the
/// functions below say.
#[verifier::external_type_specification]
#[verifier::external_body]
#[verifier::reject_recursive_types(K)]
#[verifier::reject_recursive_types(V)]
#[verifier::reject_recursive_types(S)]
pub struct ExLruCache<K, V, S>(LruCache<K, V, S>);

/// `lru::DefaultHasher`, the hasher that an `lru::LruCache` has unless it
/// is given another: carried along, never looked into.
#[verifier::external_type_specification]
#[verifier::external_body]
pub struct ExDefaultHasher(lru::DefaultHasher);

/// The keys that a recency list holds, the most recently used first.
pub uninterp spec fn recent_keys(c: LruCache<u64, ()>) -> Seq<u64>;

/// The number of keys that a recency list was made to hold.
pub uninterp spec fn recent_limit(c: LruCache<u64, ()>) -> nat;

/// `s` with the key `k` taken out.
pub open spec fn without(s: Seq<u64>, k: u64) -> Seq<u64> {
    if s.contains(k) {
        s.remove(s.index_of(k))
    } else {
        s
    }
}

/// `s` with the key `k` moved, or put, to the front.
pub open spec fn to_front(s: Seq<u64>, k: u64) -> Seq<u64> {
    seq![k] + without(s, k)
}

/// The key that has to leave a list of at most `limit` keys when `k` is put
/// into it: the last one, where `k` is new and the list is full.
pub open spec fn evicted(s: Seq<u64>, k: u64, limit: nat) -> Option<u64> {
    if !s.contains(k) && limit > 0 && s.len() == limit {
        Some(s.last())
    } else {
        None
    }
}

/// The keys of a list of at most `limit` keys after `k` was put into it.
pub open spec fn pushed(s: Seq<u64>, k: u64, limit: nat) -> Seq<u64> {
    if s.contains(k) {
        to_front(s, k)
    } else if limit == 0 {
        s
    } else if s.len() == limit {
        seq![k] + s.drop_last()
    } else {
        seq![k] + s
    }
}

/// `lru::LruCache::new`: an empty list with the given capacity.
#[verifier::external_body]
fn recent_new(limit: usize) -> (c: LruCache<u64, ()>)
    ensures
        recent_keys(c) == Seq::<u64>::empty(),
        recent_limit(c) == limit,
{
    LruCache::new(limit)
}

/// `lru::LruCache::cap`: the capacity the list was made with.
#[verifier::external_body]
fn recent_cap(c: &LruCache<u64, ()>) -> (n: usize)
    ensures
        n == recent_limit(*c),
{
    c.cap()
}

/// `lru::LruCache::push`: a key already held moves to the front and comes
/// back; a new key goes to the front, and where the list was full its last
/// key leaves and comes back; a list of capacity zero takes nothing.
#[verifier::external_body]
fn recent_push(c: &mut LruCache<u64, ()>, k: u64) -> (r: Option<u64>)
    ensures
        recent_limit(*final(c)) == recent_limit(*old(c)),
        recent_keys(*final(c)) == pushed(recent_keys(*old(c)), k, recent_limit(*old(c))),
        r == if recent_keys(*old(c)).contains(k) {
            Some(k)
        } else {
            evicted(recent_keys(*old(c)), k, recent_limit(*old(c)))
        },
{
    c.push(k, ()).map(|e| e.0)
}

/// `lru::LruCache::get`: a key that is held moves to the front; the result
/// says whether it was held.
#[verifier::external_body]
fn recent_touch(c: &mut LruCache<u64, ()>, k: u64) -> (r: bool)
    ensures
        recent_limit(*final(c)) == recent_limit(*old(c)),
        r == recent_keys(*old(c)).contains(k),
        recent_keys(*final(c)) == if r {
            to_front(recent_keys(*old(c)), k)
        } else {
            recent_keys(*old(c))
        },
{
    c.get(&k).is_some()
}

/// `lru::LruCache::pop`: the key leaves the list; the result says whether
/// it was held.
#[verifier::external_body]
fn recent_pop(c: &mut LruCache<u64, ()>, k: u64) -> (r: bool)
    ensures
        recent_limit(*final(c)) == recent_limit(*old(c)),
        r == recent_keys(*old(c)).contains(k),
        recent_keys(*final(c)) == without(recent_keys(*old(c)), k),
{
    c.pop(&k).is_some()
}

/// Taking a key out of a list without repeats.
pub proof fn lemma_without(s: Seq<u64>, k: u64)
    requires
        s.no_duplicates(),
    ensures
        without(s, k).no_duplicates(),
        forall|x: u64| #[trigger] without(s, k).contains(x) <==> s.contains(x) && x != k,
        without(s, k).len() == if s.contains(k) {
            s.len() - 1
        } else {
            s.len() as int
        },
{
    if s.contains(k) {
        let i = s.index_of(k);
        let r = s.remove(i);
        assert forall|x: u64| #[trigger] r.contains(x) <==> s.contains(x) && x != k by {
            if r.contains(x) {
                let j = choose|j: int| 0 <= j < r.len() && r[j] == x;
                if j < i {
                    assert(s[j] == x);
                } else {
                    assert(s[j + 1] == x);
                }
            }
            if s.contains(x) && x != k {
                let j = choose|j: int| 0 <= j < s.len() && s[j] == x;
                if j < i {
                    assert(r[j] == x);
                } else {
                    assert(r[j - 1] == x);
                }
            }
        }
        assert forall|a: int, b: int| 0 <= a < r.len() && 0 <= b < r.len() && a != b implies r[a]
            != r[b] by {
            let sa = if a < i {
                a
            } else {
                a + 1
            };
            let sb = if b < i {
                b
            } else {
                b + 1
            };
            assert(r[a] == s[sa] && r[b] == s[sb]);
        }
    }
}

/// Putting a new key in front of a list without repeats.
pub proof fn lemma_front(s: Seq<u64>, k: u64)
    requires
        s.no_duplicates(),
        !s.contains(k),
    ensures
        (seq![k] + s).no_duplicates(),
        forall|x: u64| #[trigger] (seq![k] + s).contains(x) <==> x == k || s.contains(x),
{
    let r = seq![k] + s;
    assert forall|x: u64| #[trigger] r.contains(x) <==> x == k || s.contains(x) by {
        if r.contains(x) {
            let j = choose|j: int| 0 <= j < r.len() && r[j] == x;
            if j > 0 {
                assert(s[j - 1] == x);
            }
        }
        if x == k {
            assert(r[0] == x);
        }
        if s.contains(x) {
            let j = choose|j: int| 0 <= j < s.len() && s[j] == x;
            assert(r[j + 1] == x);
        }
    }
    assert forall|a: int, b: int| 0 <= a < r.len() && 0 <= b < r.len() && a != b implies r[a]
        != r[b] by {
        if a > 0 {
            assert(r[a] == s[a - 1]);
        }
        if b > 0 {
            assert(r[b] == s[b - 1]);
        }
    }
}

/// Dropping the last key of a list without repeats.
pub proof fn lemma_drop_last(s: Seq<u64>)
    requires
        s.no_duplicates(),
        s.len() > 0,
    ensures
        s.drop_last().no_duplicates(),
        forall|x: u64| #[trigger] s.drop_last().contains(x) <==> s.contains(x) && x != s.last(),
{
    let r = s.drop_last();
    assert forall|x: u64| #[trigger] r.contains(x) <==> s.contains(x) && x != s.last() by {
        if r.contains(x) {
            let j = choose|j: int| 0 <= j < r.len() && r[j] == x;
            assert(s[j] == x);
        }
        if s.contains(x) && x != s.last() {
            let j = choose|j: int| 0 <= j < s.len() && s[j] == x;
            assert(r[j] == x);
        }
    }
}

/// What a [`Cache`] holds: its keys, the most recently used first, its
/// entries, and the number of entries it may hold.
pub struct CacheView<V> {
    pub keys: Seq<u64>,
    pub map: Map<u64, V>,
    pub limit: nat,
}

impl<V> CacheView<V> {
    /// The keys are those of the entries, none twice, and no more than the
    /// limit allows.
    pub open spec fn wf(self) -> bool {
        &&& self.keys.no_duplicates()
        &&& self.keys.len() <= self.limit
        &&& forall|k: u64| #[trigger] self.keys.contains(k) <==> self.map.contains_key(k)
    }

    /// The empty cache for at most `limit` entries.
    pub open spec fn empty(limit: nat) -> Self {
        CacheView { keys: Seq::empty(), map: Map::empty(), limit }
    }

    /// The cache after the entry for `k`, if there is one, was used.
    pub open spec fn touch(self, k: u64) -> Self {
        CacheView {
            keys: if self.keys.contains(k) {
                to_front(self.keys, k)
            } else {
                self.keys
            },
            map: self.map,
            limit: self.limit,
        }
    }

    /// The cache after `v` was put under `k`.
    pub open spec fn put(self, k: u64, v: V) -> Self {
        CacheView {
            keys: pushed(self.keys, k, self.limit),
            map: if self.limit == 0 {
                self.map
            } else {
                match evicted(self.keys, k, self.limit) {
                    Some(e) => self.map.remove(e).insert(k, v),
                    None => self.map.insert(k, v),
                }
            },
            limit: self.limit,
        }
    }

    /// The cache after the entry for `k` was taken out.
    pub open spec fn pop(self, k: u64) -> Self {
        CacheView { keys: without(self.keys, k), map: self.map.remove(k), limit: self.limit }
    }
}

/// Using, putting and taking out keep a cache well formed.
pub proof fn lemma_cache_steps<V>(c: CacheView<V>, k: u64, v: V)
    requires
        c.wf(),
    ensures
        c.touch(k).wf(),
        c.put(k, v).wf(),
        c.pop(k).wf(),
        c.limit > 0 ==> c.put(k, v).map.contains_key(k) && c.put(k, v).map[k] == v,
{
    let s = c.keys;
    lemma_without(s, k);
    if s.contains(k) {
        lemma_front(without(s, k), k);
    } else if s.len() == c.limit && c.limit > 0 {
        lemma_drop_last(s);
        lemma_front(s.drop_last(), k);
        assert(s.contains(s.last())) by {
            assert(s[s.len() - 1] == s.last());
        }
    } else {
        lemma_front(s, k);
    }
}

/// A map from block offsets to values that holds at most a fixed number of
/// entries and lets the least recently used one go when a new one comes.
pub struct Cache<V> {
    order: LruCache<u64, ()>,
    items: HashMap<u64, V>,
}

impl<V> View for Cache<V> {
    type V = CacheView<V>;

    closed spec fn view(&self) -> CacheView<V> {
        CacheView {
            keys: recent_keys(self.order),
            map: self.items@,
            limit: recent_limit(self.order),
        }
    }
}

impl<V> Cache<V> {
    /// An empty cache for at most `limit` entries.
    pub fn new(limit: usize) -> (c: Self)
        ensures
            c@ == CacheView::<V>::empty(limit as nat),
            c@.wf(),
    {
        Cache { order: recent_new(limit), items: HashMap::new() }
    }

    /// Whether an entry for `k` is held. The order of use stays as it is.
    pub fn contains(&self, k: u64) -> (r: bool)
        ensures
            r == self@.map.contains_key(k),
    {
        self.items.contains_key(&k)
    }

    /// The entry for `k`, without counting as a use.
    pub fn peek(&self, k: u64) -> (r: Option<&V>)
        ensures
            match r {
                Some(v) => self@.map.contains_key(k) && *v == self@.map[k],
                None => !self@.map.contains_key(k),
            },
    {
        self.items.get(&k)
    }

    /// The entry for `k`, which becomes the most recently used.
    pub fn get(&mut self, k: u64) -> (r: Option<&V>)
        requires
            old(self)@.wf(),
        ensures
            final(self)@ == old(self)@.touch(k),
            final(self)@.wf(),
            match r {
                Some(v) => old(self)@.map.contains_key(k) && *v == old(self)@.map[k],
                None => !old(self)@.map.contains_key(k),
            },
    {
        proof {
            lemma_without(self@.keys, k);
            if self@.keys.contains(k) {
                lemma_front(without(self@.keys, k), k);
            }
        }
        recent_touch(&mut self.order, k);
        self.items.get(&k)
    }

    /// Puts `v` under `k` as the most recently used entry. Where `k` is new
    /// and the cache is full, the least recently used entry leaves. A cache
    /// with limit zero stays empty.
    pub fn put(&mut self, k: u64, v: V)
        requires
            old(self)@.wf(),
        ensures
            final(self)@ == old(self)@.put(k, v),
            final(self)@.wf(),
    {
        proof {
            lemma_cache_steps(self@, k, v);
        }
        if recent_cap(&self.order) == 0 {
            proof {
                if self@.keys.contains(k) {
                    assert(self@.keys.len() > 0);
                }
            }
            return ;
        }
        let gone: Option<u64> = recent_push(&mut self.order, k);
        match gone {
            Some(e) => {
                if e != k {
                    self.items.remove(&e);
                }
            },
            None => {},
        }
        self.items.insert(k, v);
        proof {
            assert(self@.map =~= old(self)@.put(k, v).map);
        }
    }

    /// Takes the entry for `k` out of the cache.
    pub fn pop(&mut self, k: u64) -> (r: Option<V>)
        requires
            old(self)@.wf(),
        ensures
            final(self)@ == old(self)@.pop(k),
            final(self)@.wf(),
            r == if old(self)@.map.contains_key(k) {
                Some(old(self)@.map[k])
            } else {
                None
            },
    {
        proof {
            lemma_without(self@.keys, k);
        }
        recent_pop(&mut self.order, k);
        self.items.remove(&k)
    }
}

} // verus!
