use vstd::hash_map::StringHashMap;
use vstd::prelude::*;
use crate::bytes::{byte_len, text_len};
use crate::names::{distinct, listed};

pub mod manager;

verus! {

/// What a memtable holds for a key: a value, or none for a key that was deleted.
#[derive(Debug, Clone)]
pub struct MemtableEntry {
    pub value: Option<String>,
}

/// The keys of one table that were written since the last flush, with their
/// values. A deleted key stays, without a value, until the flush.
pub struct HashMemtable {
    table: StringHashMap<MemtableEntry>,
    keys: Vec<String>,
}

/// Most entries a memtable is made for before it grows.
pub const MEMTABLE_CAPACITY: usize = 100000;

/// What a memtable says of a key: its value, that it knows nothing of it, or
/// that the key was deleted.
#[derive(Debug, Clone, PartialEq, Eq)]
pub enum MemtableGetResult {
    Found(String),
    NotFound,
    Deleted,
}

/// What a memtable says of a key, as a value.
pub enum Reading {
    Found(Seq<char>),
    NotFound,
    Deleted,
}

impl View for MemtableGetResult {
    type V = Reading;

    open spec fn view(&self) -> Reading {
        match self {
            MemtableGetResult::Found(v) => Reading::Found(v@),
            MemtableGetResult::NotFound => Reading::NotFound,
            MemtableGetResult::Deleted => Reading::Deleted,
        }
    }
}

/// What a map from keys to optional values says of a key.
pub open spec fn reading(entries: Map<Seq<char>, Option<Seq<char>>>, key: Seq<char>) -> Reading {
    if entries.contains_key(key) {
        match entries[key] {
            Some(v) => Reading::Found(v),
            None => Reading::Deleted,
        }
    } else {
        Reading::NotFound
    }
}

/// The size that is given back when a key is written again: the bytes of
/// the value it had, none for a deleted key; nothing for a new key.
pub open spec fn previous_size(entries: Map<Seq<char>, Option<Seq<char>>>, key: Seq<char>) -> Option<
    usize,
> {
    if entries.contains_key(key) {
        match entries[key] {
            Some(v) => Some(byte_len(v) as usize),
            None => Some(0usize),
        }
    } else {
        None
    }
}

/// The value inside an entry.
pub open spec fn entry_value(e: MemtableEntry) -> Option<Seq<char>> {
    match e.value {
        Some(v) => Some(v@),
        None => None,
    }
}

impl HashMemtable {
    /// An empty memtable.
    pub fn new() -> (m: Self)
        ensures
            m.wf(),
            m.entries() == Map::<Seq<char>, Option<Seq<char>>>::empty(),
            m.key_list().len() == 0,
    {
        let m = HashMemtable {
            table: StringHashMap::with_capacity(MEMTABLE_CAPACITY),
            keys: Vec::new(),
        };
        assert(m.entries() =~= Map::<Seq<char>, Option<Seq<char>>>::empty());
        m
    }

    /// The keys and what is held for each.
    pub closed spec fn entries(&self) -> Map<Seq<char>, Option<Seq<char>>> {
        Map::new(
            |k: Seq<char>| self.table@.contains_key(k),
            |k: Seq<char>| entry_value(self.table@[k]),
        )
    }

    /// The keys in the order in which they were first written.
    pub closed spec fn key_list(&self) -> Seq<String> {
        self.keys@
    }

    /// Whether the list of keys names each key once and no other.
    pub closed spec fn wf(&self) -> bool {
        &&& distinct(self.keys@)
        &&& forall|k: Seq<char>| self.table@.contains_key(k) <==> listed(self.keys@, k)
    }

    /// The list of keys names the keys that are held, each once.
    pub proof fn lemma_keys(&self)
        requires
            self.wf(),
        ensures
            distinct(self.key_list()),
            forall|k: Seq<char>| self.entries().contains_key(k) <==> listed(self.key_list(), k),
    {
    }

    /// Writes a value under a key, over what was held for it. It gives the
    /// bytes of the value the key had, none for a key that was deleted, and
    /// nothing for a new key.
    pub fn put(&mut self, key: String, value: String) -> (r: Option<usize>)
        requires
            old(self).wf(),
        ensures
            final(self).wf(),
            final(self).entries() == old(self).entries().insert(key@, Some(value@)),
            r == previous_size(old(self).entries(), key@),
    {
        let previous = match self.table.get(key.as_str()) {
            Some(entry) => Some(
                match &entry.value {
                    Some(v) => text_len(v.as_str()),
                    None => 0,
                },
            ),
            None => None,
        };
        if previous.is_none() {
            let copy = key.clone();
            self.keys.push(copy);
            proof {
                let before = old(self).keys@;
                assert(!old(self).table@.contains_key(key@));
                assert(!listed(before, key@));
                assert forall|i: int, j: int| 0 <= i < j < self.keys@.len() implies self.keys@[i]@
                    != self.keys@[j]@ by {
                    if j == before.len() {
                        if before[i]@ == key@ {
                            assert(listed(before, key@));
                        }
                    } else {
                        assert(before[i]@ != before[j]@);
                    }
                }
                assert forall|k: Seq<char>| listed(self.keys@, k) <==> (listed(before, k) || k
                    == key@) by {
                    if listed(self.keys@, k) {
                        let i = choose|i: int| 0 <= i < self.keys@.len() && #[trigger] self.keys@[i]@
                            == k;
                        if i < before.len() {
                            assert(before[i]@ == k);
                        }
                    }
                    if listed(before, k) {
                        let i = choose|i: int| 0 <= i < before.len() && #[trigger] before[i]@ == k;
                        assert(self.keys@[i]@ == k);
                    }
                    if k == key@ {
                        assert(self.keys@[before.len() as int]@ == k);
                    }
                }
            }
        }
        let ghost listed_now = self.keys@;
        proof {
            if previous is Some {
                assert(old(self).table@.contains_key(key@));
                assert(listed(listed_now, key@));
            }
        }
        self.table.insert(key, MemtableEntry { value: Some(value) });
        proof {
            assert forall|k: Seq<char>| self.table@.contains_key(k) <==> listed(self.keys@, k) by {
                if k != key@ {
                    assert(self.table@.contains_key(k) == old(self).table@.contains_key(k));
                    assert(old(self).table@.contains_key(k) <==> listed(old(self).keys@, k));
                }
            }
        }
        assert(self.entries() =~= old(self).entries().insert(key@, Some(value@)));
        previous
    }

    /// Tells what is held for a key.
    pub fn get(&self, key: &str) -> (r: MemtableGetResult)
        ensures
            r@ == reading(self.entries(), key@),
    {
        match self.table.get(key) {
            Some(entry) => match &entry.value {
                Some(value) => MemtableGetResult::Found(value.clone()),
                None => MemtableGetResult::Deleted,
            },
            None => MemtableGetResult::NotFound,
        }
    }

    /// Marks a key as deleted, also one that was not held. It gives what
    /// `put` gives.
    pub fn delete(&mut self, key: &str) -> (r: Option<usize>)
        requires
            old(self).wf(),
        ensures
            final(self).wf(),
            final(self).entries() == old(self).entries().insert(key@, None),
            r == previous_size(old(self).entries(), key@),
    {
        let previous = match self.table.get(key) {
            Some(entry) => Some(
                match &entry.value {
                    Some(v) => text_len(v.as_str()),
                    None => 0,
                },
            ),
            None => None,
        };
        if previous.is_none() {
            self.keys.push(key.to_owned());
            proof {
                let before = old(self).keys@;
                assert(!old(self).table@.contains_key(key@));
                assert(!listed(before, key@));
                assert forall|i: int, j: int| 0 <= i < j < self.keys@.len() implies self.keys@[i]@
                    != self.keys@[j]@ by {
                    if j == before.len() {
                        if before[i]@ == key@ {
                            assert(listed(before, key@));
                        }
                    } else {
                        assert(before[i]@ != before[j]@);
                    }
                }
                assert forall|k: Seq<char>| listed(self.keys@, k) <==> (listed(before, k) || k
                    == key@) by {
                    if listed(self.keys@, k) {
                        let i = choose|i: int| 0 <= i < self.keys@.len() && #[trigger] self.keys@[i]@
                            == k;
                        if i < before.len() {
                            assert(before[i]@ == k);
                        }
                    }
                    if listed(before, k) {
                        let i = choose|i: int| 0 <= i < before.len() && #[trigger] before[i]@ == k;
                        assert(self.keys@[i]@ == k);
                    }
                    if k == key@ {
                        assert(self.keys@[before.len() as int]@ == k);
                    }
                }
            }
        }
        let ghost listed_now = self.keys@;
        proof {
            if previous is Some {
                assert(old(self).table@.contains_key(key@));
                assert(listed(listed_now, key@));
            }
        }
        self.table.insert(key.to_owned(), MemtableEntry { value: None });
        proof {
            assert forall|k: Seq<char>| self.table@.contains_key(k) <==> listed(self.keys@, k) by {
                if k != key@ {
                    assert(self.table@.contains_key(k) == old(self).table@.contains_key(k));
                    assert(old(self).table@.contains_key(k) <==> listed(old(self).keys@, k));
                }
            }
        }
        assert(self.entries() =~= old(self).entries().insert(key@, None));
        previous
    }

    /// Forgets every key.
    pub fn clear(&mut self)
        ensures
            final(self).wf(),
            final(self).entries() == Map::<Seq<char>, Option<Seq<char>>>::empty(),
            final(self).key_list().len() == 0,
    {
        self.table.clear();
        self.keys.clear();
        assert(self.entries() =~= Map::<Seq<char>, Option<Seq<char>>>::empty());
    }

    /// The number of keys.
    pub fn len(&self) -> (n: usize)
        ensures
            n == self.key_list().len(),
    {
        self.keys.len()
    }

    /// The key at `index` in the order in which the keys were first written.
    pub fn key_at(&self, index: usize) -> (key: &String)
        requires
            index < self.key_list().len(),
        ensures
            *key == self.key_list()[index as int],
    {
        &self.keys[index]
    }

    /// The bytes of all values held, deleted keys not counted; the largest
    /// `u64` where the sum goes beyond it.
    pub fn value_bytes(&self) -> (n: u64)
        requires
            self.wf(),
        ensures
            n == capped_sum(self.entries(), self.key_list(), self.key_list().len() as int),
    {
        let mut sum: u64 = 0;
        let mut i: usize = 0;
        while i < self.keys.len()
            invariant
                i <= self.keys.len(),
                self.wf(),
                sum == capped_sum(self.entries(), self.keys@, i as int),
            decreases self.keys.len() - i,
        {
            let size: u64 = match self.table.get(self.keys[i].as_str()) {
                Some(entry) => match &entry.value {
                    Some(v) => text_len(v.as_str()) as u64,
                    None => 0,
                },
                None => 0,
            };
            proof {
                assert(listed(self.keys@, self.keys@[i as int]@));
            }
            sum = sum.saturating_add(size);
            i += 1;
        }
        sum
    }
}

/// The bytes of the values held under the first `n` keys, deleted keys not
/// counted; the largest `u64` where the sum goes beyond it.
pub open spec fn capped_sum(
    entries: Map<Seq<char>, Option<Seq<char>>>,
    keys: Seq<String>,
    n: int,
) -> int
    decreases n,
{
    if n <= 0 {
        0
    } else {
        let before = capped_sum(entries, keys, n - 1);
        let size = match entries[keys[n - 1]@] {
            Some(v) => byte_len(v) as int,
            None => 0,
        };
        if before + size > u64::MAX {
            u64::MAX as int
        } else {
            before + size
        }
    }
}

impl Default for HashMemtable {
    fn default() -> (m: Self)
        ensures
            m.wf(),
            m.entries() == Map::<Seq<char>, Option<Seq<char>>>::empty(),
    {
        HashMemtable::new()
    }
}

} // verus!
