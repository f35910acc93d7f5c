//! A least-recently-used cache of proving keys, by circuit identifier.

use vstd::prelude::*;

use crate::backend::copy_bytes;
use crate::hash::Hash32;

verus! {

/// The LRU cache type of the `lru` crate.
#[verifier::external_type_specification]
#[verifier::external_body]
#[verifier::reject_recursive_types(K)]
#[verifier::reject_recursive_types(V)]
#[verifier::reject_recursive_types(S)]
pub struct ExLruCache<K, V, S>(lru::LruCache<K, V, S>);

/// The default hash builder of the `lru` crate.
#[verifier::external_type_specification]
#[verifier::external_body]
pub struct ExLruDefaultHasher(lru::DefaultHasher);

/// The entries of an LRU cache of proving keys, most recently used first.
pub uninterp spec fn lru_entries(c: lru::LruCache<Hash32, Vec<u8>>) -> Seq<(Seq<u8>, Seq<u8>)>;

/// The capacity of an LRU cache of proving keys.
pub uninterp spec fn lru_capacity(c: lru::LruCache<Hash32, Vec<u8>>) -> nat;

/// The keys of a list of entries.
pub open spec fn entry_keys(es: Seq<(Seq<u8>, Seq<u8>)>) -> Seq<Seq<u8>> {
    es.map_values(|e: (Seq<u8>, Seq<u8>)| e.0)
}

/// The position of `k` among the entries, if it is there.
pub open spec fn entry_position(es: Seq<(Seq<u8>, Seq<u8>)>, k: Seq<u8>) -> Option<int> {
    if exists|i: int| 0 <= i < es.len() && es[i].0 == k {
        Some(choose|i: int| 0 <= i < es.len() && es[i].0 == k)
    } else {
        None
    }
}

/// The entries after a use of the entry at `i`: it moves to the front.
pub open spec fn touched(es: Seq<(Seq<u8>, Seq<u8>)>, i: int) -> Seq<(Seq<u8>, Seq<u8>)> {
    seq![es[i]] + es.remove(i)
}

/// The entries after `push(k, v)` into a cache of capacity `cap`: `k` moves
/// to the front with the value `v`, replacing its entry when it has one and
/// otherwise evicting the least recently used entry when the cache is full.
pub open spec fn pushed(
    es: Seq<(Seq<u8>, Seq<u8>)>,
    cap: nat,
    k: Seq<u8>,
    v: Seq<u8>,
) -> Seq<(Seq<u8>, Seq<u8>)> {
    match entry_position(es, k) {
        Some(i) => seq![(k, v)] + es.remove(i),
        None => if es.len() == cap {
            seq![(k, v)] + es.drop_last()
        } else {
            seq![(k, v)] + es
        },
    }
}

/// Calls `lru::LruCache::new` with capacity `cap`: an empty cache.
#[verifier::external_body]
fn lru_new(cap: usize) -> (c: lru::LruCache<Hash32, Vec<u8>>)
    requires
        cap > 0,
    ensures
        lru_entries(c).len() == 0,
        lru_capacity(c) == cap,
{
    lru::LruCache::new(core::num::NonZeroUsize::new(cap).unwrap())
}

/// Calls `lru::LruCache::get` and clones the value found: the value of `k`,
/// which becomes the most recently used entry.
#[verifier::external_body]
fn lru_get(c: &mut lru::LruCache<Hash32, Vec<u8>>, k: &Hash32) -> (r: Option<Vec<u8>>)
    ensures
        lru_capacity(*final(c)) == lru_capacity(*old(c)),
        match entry_position(lru_entries(*old(c)), k@) {
            Some(i) => r matches Some(v) && v@ == lru_entries(*old(c))[i].1 && lru_entries(*final(c))
                == touched(lru_entries(*old(c)), i),
            None => r is None && lru_entries(*final(c)) == lru_entries(*old(c)),
        },
{
    c.get(k).cloned()
}

/// Calls `lru::LruCache::push`, dropping what it hands back (the replaced or
/// evicted entry).
#[verifier::external_body]
fn lru_push(c: &mut lru::LruCache<Hash32, Vec<u8>>, k: Hash32, v: Vec<u8>)
    ensures
        lru_capacity(*final(c)) == lru_capacity(*old(c)),
        lru_entries(*final(c)) == pushed(lru_entries(*old(c)), lru_capacity(*old(c)), k@, v@),
{
    c.push(k, v);
}

/// A cache mapping circuit identifiers to proving keys, which forgets the
/// least recently used key when it is full.
pub struct KeysCache {
    cache: lru::LruCache<Hash32, Vec<u8>>,
}

/// The entries hold distinct keys and do not exceed the capacity.
pub open spec fn lru_wf(es: Seq<(Seq<u8>, Seq<u8>)>, cap: nat) -> bool {
    &&& es.len() <= cap
    &&& forall|i: int, j: int| 0 <= i < j < es.len() ==> es[i].0 != es[j].0
}

impl KeysCache {
    /// The smallest capacity of a cache.
    pub const MIN_CAP: usize = 5;

    /// The entries of the cache, most recently used first.
    pub closed spec fn entries(&self) -> Seq<(Seq<u8>, Seq<u8>)> {
        lru_entries(self.cache)
    }

    /// The capacity of the cache.
    pub closed spec fn capacity(&self) -> nat {
        lru_capacity(self.cache)
    }

    /// The cache is well formed.
    pub open spec fn wf(&self) -> bool {
        lru_wf(self.entries(), self.capacity())
    }

    /// An empty cache holding up to `capacity` keys, and at least `MIN_CAP`.
    pub fn new(capacity: usize) -> (c: Self)
        ensures
            c.wf(),
            c.entries().len() == 0,
            c.capacity() == if capacity >= Self::MIN_CAP {
                capacity
            } else {
                Self::MIN_CAP
            },
    {
        let capacity = if capacity >= Self::MIN_CAP {
            capacity
        } else {
            Self::MIN_CAP
        };
        KeysCache { cache: lru_new(capacity) }
    }

    /// The proving key of `circuit`, when it is cached; it becomes the most
    /// recently used.
    pub fn get(&mut self, circuit: &Hash32) -> (r: Option<Vec<u8>>)
        requires
            old(self).wf(),
        ensures
            final(self).wf(),
            final(self).capacity() == old(self).capacity(),
            match entry_position(old(self).entries(), circuit@) {
                Some(i) => r matches Some(v) && v@ == old(self).entries()[i].1
                    && final(self).entries() == touched(old(self).entries(), i),
                None => r is None && final(self).entries() == old(self).entries(),
            },
    {
        let r = lru_get(&mut self.cache, circuit);
        proof {
            let es = lru_entries(old(self).cache);
            if let Some(i) = entry_position(es, circuit@) {
                lemma_touched_wf(es, lru_capacity(old(self).cache), i);
            }
        }
        r
    }

    /// Caches the proving key `pk` of `circuit` as the most recently used.
    pub fn set(&mut self, circuit: Hash32, pk: &[u8])
        requires
            old(self).wf(),
            old(self).capacity() > 0,
        ensures
            final(self).wf(),
            final(self).capacity() == old(self).capacity(),
            final(self).entries() == pushed(old(self).entries(), old(self).capacity(), circuit@, pk@),
    {
        let v = copy_bytes(pk);
        lru_push(&mut self.cache, circuit, v);
        proof {
            lemma_pushed_wf(lru_entries(old(self).cache), lru_capacity(old(self).cache), circuit@, pk@);
        }
    }
}

/// Moving an entry to the front keeps the entries well formed.
proof fn lemma_touched_wf(es: Seq<(Seq<u8>, Seq<u8>)>, cap: nat, i: int)
    requires
        lru_wf(es, cap),
        0 <= i < es.len(),
    ensures
        lru_wf(touched(es, i), cap),
{
    let t = touched(es, i);
    assert forall|a: int, b: int| 0 <= a < b < t.len() implies t[a].0 != t[b].0 by {
        let ia = if a == 0 { i } else if a - 1 < i { a - 1 } else { a };
        let ib = if b - 1 < i { b - 1 } else { b };
        assert(t[a] == es[ia]);
        assert(t[b] == es[ib]);
    }
}

/// A push keeps the entries well formed.
proof fn lemma_pushed_wf(es: Seq<(Seq<u8>, Seq<u8>)>, cap: nat, k: Seq<u8>, v: Seq<u8>)
    requires
        lru_wf(es, cap),
        cap > 0,
    ensures
        lru_wf(pushed(es, cap, k, v), cap),
{
    let p = pushed(es, cap, k, v);
    match entry_position(es, k) {
        Some(i) => {
            assert(0 <= i < es.len() && es[i].0 == k);
            assert forall|a: int, b: int| 0 <= a < b < p.len() implies p[a].0 != p[b].0 by {
                let ib = if b - 1 < i { b - 1 } else { b };
                assert(p[b] == es[ib]);
                if a > 0 {
                    let ia = if a - 1 < i { a - 1 } else { a };
                    assert(p[a] == es[ia]);
                }
            }
        },
        None => {
            let rest = if es.len() == cap { es.drop_last() } else { es };
            assert(p == seq![(k, v)] + rest);
            assert forall|a: int, b: int| 0 <= a < b < p.len() implies p[a].0 != p[b].0 by {
                assert(p[b] == rest[b - 1]);
                assert(rest[b - 1] == es[b - 1]);
                if a > 0 {
                    assert(p[a] == es[a - 1]);
                }
            }
        },
    }
}

/// What a cache gives back of a write: right after `set(circuit, pk)`, the
/// key of `circuit` is the most recently used entry and holds `pk`, so `get`
/// returns it.
pub proof fn lemma_set_then_get(es: Seq<(Seq<u8>, Seq<u8>)>, cap: nat, circuit: Seq<u8>, pk: Seq<u8>)
    requires
        lru_wf(es, cap),
        cap > 0,
    ensures
        entry_position(pushed(es, cap, circuit, pk), circuit) == Some(0int),
        pushed(es, cap, circuit, pk)[0] == (circuit, pk),
{
    let p = pushed(es, cap, circuit, pk);
    lemma_pushed_wf(es, cap, circuit, pk);
    assert(p[0].0 == circuit);
    let j = choose|i: int| 0 <= i < p.len() && p[i].0 == circuit;
    if j != 0 {
        assert(p[0].0 != p[j].0);
    }
}

/// The capacity of the cache of a virtual machine (its compiled modules or
/// its proving keys): a cache of capacity zero is refused.
pub fn vm_cache_capacity(capacity: usize) -> (r: Result<usize, String>)
    ensures
        capacity == 0 ==> (r matches Err(m) && m@ == "invalid capacity"@),
        capacity > 0 ==> r == Ok::<usize, String>(capacity),
{
    if capacity == 0 {
        Err(String::from_str("invalid capacity"))
    } else {
        Ok(capacity)
    }
}

} // verus!
