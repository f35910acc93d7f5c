//! Key-value data backends that hold the nodes, keys and payloads of trees.

use vstd::prelude::*;

use crate::hash::append_bytes;

verus! {

/// Returns a fresh vector holding the bytes of `src`.
pub fn copy_bytes(src: &[u8]) -> (out: Vec<u8>)
    ensures
        out@ == src@,
{
    let mut out: Vec<u8> = Vec::new();
    append_bytes(&mut out, src);
    out
}

/// Compares two byte strings.
pub fn bytes_eq(a: &[u8], b: &[u8]) -> (r: bool)
    ensures
        r == (a@ == b@),
{
    if a.len() != b.len() {
        return false;
    }
    let mut i: usize = 0;
    while i < a.len()
        invariant
            a@.len() == b@.len(),
            i <= a@.len(),
            forall|j: int| 0 <= j < i ==> a@[j] == b@[j],
        decreases a@.len() - i,
    {
        if a[i] != b[i] {
            return false;
        }
        i = i + 1;
    }
    assert(a@ =~= b@);
    true
}

/// A key-value store whose entries are addressed by a prefix and a key.
///
/// Its state is the map `store` from `(prefix, key)` to the stored bytes.
pub trait DataBackend {
    spec fn store(&self) -> Map<(Seq<u8>, Seq<u8>), Seq<u8>>;

    /// Returns the bytes stored under `(prefix, key)`.
    fn get(&self, prefix: &[u8], key: &[u8]) -> (r: Option<Vec<u8>>)
        ensures
            r is Some <==> self.store().contains_key((prefix@, key@)),
            r matches Some(v) ==> v@ == self.store()[(prefix@, key@)],
    ;

    /// Returns `true` when an entry is stored under `(prefix, key)`.
    fn has(&self, prefix: &[u8], key: &[u8]) -> (r: bool)
        ensures
            r == self.store().contains_key((prefix@, key@)),
    ;

    /// Removes the entry under `(prefix, key)`, returning the removed bytes.
    fn remove(&mut self, prefix: &[u8], key: &[u8]) -> (r: Option<Vec<u8>>)
        ensures
            final(self).store() == old(self).store().remove((prefix@, key@)),
            r is Some <==> old(self).store().contains_key((prefix@, key@)),
            r matches Some(v) ==> v@ == old(self).store()[(prefix@, key@)],
    ;

    /// Stores `data` under `(prefix, key)`, returning the replaced bytes.
    fn set(&mut self, prefix: &[u8], key: &[u8], data: &[u8]) -> (r: Option<Vec<u8>>)
        ensures
            final(self).store() == old(self).store().insert((prefix@, key@), data@),
            r is Some <==> old(self).store().contains_key((prefix@, key@)),
            r matches Some(v) ==> v@ == old(self).store()[(prefix@, key@)],
    ;
}

/// One stored entry: prefix, key and data.
pub type Entry = (Vec<u8>, Vec<u8>, Vec<u8>);

/// The address of an entry.
pub open spec fn entry_addr(e: Entry) -> (Seq<u8>, Seq<u8>) {
    (e.0@, e.1@)
}

/// The map of a list of entries, where later entries take precedence.
pub open spec fn entries_map(s: Seq<Entry>) -> Map<(Seq<u8>, Seq<u8>), Seq<u8>>
    decreases s.len(),
{
    if s.len() == 0 {
        Map::empty()
    } else {
        entries_map(s.drop_last()).insert(entry_addr(s.last()), s.last().2@)
    }
}

proof fn lemma_entries_lookup(s: Seq<Entry>, k: (Seq<u8>, Seq<u8>), i: int)
    requires
        0 <= i <= s.len(),
        forall|j: int| i <= j < s.len() ==> entry_addr(#[trigger] s[j]) != k,
    ensures
        entries_map(s).contains_key(k) == entries_map(s.take(i)).contains_key(k),
        entries_map(s).contains_key(k) ==> entries_map(s)[k] == entries_map(s.take(i))[k],
    decreases s.len(),
{
    if s.len() == i {
        assert(s.take(i) =~= s);
    } else {
        assert(entry_addr(s[s.len() - 1]) != k);
        lemma_entries_lookup(s.drop_last(), k, i);
        assert(s.drop_last().take(i) =~= s.take(i));
    }
}

/// An in-memory data backend.
pub struct MemoryBackend {
    entries: Vec<Entry>,
}

impl Default for MemoryBackend {
    fn default() -> (b: Self)
        ensures
            b.store() == Map::<(Seq<u8>, Seq<u8>), Seq<u8>>::empty(),
    {
        MemoryBackend::new()
    }
}

impl MemoryBackend {
    /// Creates an empty backend.
    pub fn new() -> (b: Self)
        ensures
            b.store() == Map::<(Seq<u8>, Seq<u8>), Seq<u8>>::empty(),
    {
        MemoryBackend { entries: Vec::new() }
    }

    fn find(&self, prefix: &[u8], key: &[u8]) -> (r: Option<usize>)
        ensures
            r is None ==> !self.store().contains_key((prefix@, key@)),
            r matches Some(i) ==> i < self.entries@.len() && self.store().contains_key(
                (prefix@, key@),
            ) && self.store()[(prefix@, key@)] == self.entries@[i as int].2@,
    {
        let ghost k = (prefix@, key@);
        let mut i: usize = self.entries.len();
        while i > 0
            invariant
                i <= self.entries@.len(),
                k == (prefix@, key@),
                forall|j: int| i <= j < self.entries@.len() ==> entry_addr(
                    #[trigger] self.entries@[j],
                ) != k,
            decreases i,
        {
            i = i - 1;
            let e = &self.entries[i];
            assert(entry_addr(self.entries@[i as int]) == (e.0@, e.1@));
            let same_prefix = bytes_eq(e.0.as_slice(), prefix);
            let same_key = bytes_eq(e.1.as_slice(), key);
            assert(same_prefix == (e.0@ == prefix@));
            assert(same_key == (e.1@ == key@));
            if same_prefix && same_key {
                proof {
                    lemma_entries_lookup(self.entries@, k, i + 1);
                    let t = self.entries@.take(i + 1);
                    assert(t.drop_last() =~= self.entries@.take(i as int));
                    assert(t.last() == self.entries@[i as int]);
                    assert(entries_map(t) == entries_map(t.drop_last()).insert(entry_addr(t.last()), t.last().2@));
                }
                return Some(i);
            }
            assert(entry_addr(self.entries@[i as int]) != k);
        }
        proof {
            lemma_entries_lookup(self.entries@, k, 0);
            assert(self.entries@.take(0) =~= Seq::<Entry>::empty());
        }
        None
    }
}

impl DataBackend for MemoryBackend {
    closed spec fn store(&self) -> Map<(Seq<u8>, Seq<u8>), Seq<u8>> {
        entries_map(self.entries@)
    }

    fn get(&self, prefix: &[u8], key: &[u8]) -> (r: Option<Vec<u8>>) {
        match self.find(prefix, key) {
            Some(i) => Some(copy_bytes(self.entries[i].2.as_slice())),
            None => None,
        }
    }

    fn has(&self, prefix: &[u8], key: &[u8]) -> (r: bool) {
        self.find(prefix, key).is_some()
    }

    fn remove(&mut self, prefix: &[u8], key: &[u8]) -> (r: Option<Vec<u8>>) {
        let ghost k = (prefix@, key@);
        let prev = self.get(prefix, key);
        let mut kept: Vec<Entry> = Vec::new();
        let mut i: usize = 0;
        while i < self.entries.len()
            invariant
                i <= self.entries@.len(),
                k == (prefix@, key@),
                entries_map(kept@) == entries_map(self.entries@.take(i as int)).remove(k),
            decreases self.entries@.len() - i,
        {
            let e = &self.entries[i];
            let ghost before = self.entries@.take(i as int);
            let ghost t = self.entries@.take(i + 1);
            assert(t.drop_last() =~= before);
            assert(t.last() == self.entries@[i as int]);
            assert(entries_map(t) == entries_map(before).insert(entry_addr(self.entries@[i as int]), self.entries@[i as int].2@));
            assert(entry_addr(self.entries@[i as int]) == (e.0@, e.1@));
            if bytes_eq(e.0.as_slice(), prefix) && bytes_eq(e.1.as_slice(), key) {
                assert(entries_map(self.entries@.take(i + 1)).remove(k) =~= entries_map(
                    before,
                ).remove(k));
            } else {
                let c: Entry = (
                    copy_bytes(e.0.as_slice()),
                    copy_bytes(e.1.as_slice()),
                    copy_bytes(e.2.as_slice()),
                );
                let ghost old_kept = kept@;
                kept.push(c);
                assert(kept@.drop_last() =~= old_kept);
                assert(entry_addr(kept@.last()) == entry_addr(self.entries@[i as int]));
                assert(entry_addr(self.entries@[i as int]) != k);
                assert(entries_map(kept@) =~= entries_map(self.entries@.take(i + 1)).remove(k));
            }
            i = i + 1;
        }
        assert(self.entries@.take(self.entries@.len() as int) =~= self.entries@);
        self.entries = kept;
        prev
    }

    fn set(&mut self, prefix: &[u8], key: &[u8], data: &[u8]) -> (r: Option<Vec<u8>>) {
        let ghost k = (prefix@, key@);
        let ghost before = self.store();
        let prev = self.remove(prefix, key);
        let ghost mid = self.entries@;
        self.entries.push((copy_bytes(prefix), copy_bytes(key), copy_bytes(data)));
        assert(self.entries@.drop_last() =~= mid);
        assert(self.store() =~= before.insert(k, data@));
        prev
    }
}

} // verus!
