use vstd::prelude::*;
use crate::bytes::{byte_len, text_len};
use crate::errors::{failure, ErrorCodes, Errors};
use crate::memtable::{previous_size, reading, HashMemtable, MemtableGetResult, Reading};
use crate::names::{
    distinct, find_name, lemma_name_index, lemma_pushed, lemma_pushed_other, lemma_removed,
    lemma_removed_other, name_index,
};
use crate::system::SystemInfo;

verus! {

/// What a writer does next.
#[derive(Debug, Clone, Copy, PartialEq, Eq, Structural)]
pub enum WriteStep {
    /// The write is in the memtable.
    Done,
    /// Writes are held back; the writer waits a moment and tries again.
    Wait,
    /// The memtables are full; the writer asks for a flush, waits a moment
    /// and tries again.
    Flush,
}

/// The keys of a table and what is held for each.
pub type Entries = Map<Seq<char>, Option<Seq<char>>>;

/// The memtables of all tables in two generations: the active one, which
/// takes the writes, and the flushing one, which is read only and on its way
/// to the disk.
pub struct MemtableManager {
    pub names: Vec<String>,
    pub memtables: Vec<HashMemtable>,
    pub flushing_names: Vec<String>,
    pub flushing_memtables: Vec<HashMemtable>,
    pub memtable_current_size: u64,
    pub block_write: bool,
    pub memtable_size_soft_limit: u64,
    pub memtable_size_hard_limit: u64,
}

/// Whether each name has a memtable, no name occurs twice, and every
/// memtable is in order.
pub open spec fn generation_wf(names: Seq<String>, tables: Seq<HashMemtable>) -> bool {
    &&& names.len() == tables.len()
    &&& distinct(names)
    &&& forall|i: int| 0 <= i < tables.len() ==> (#[trigger] tables[i]).wf()
}

/// What a generation holds for a table; nothing for a table it does not know.
pub open spec fn held(names: Seq<String>, tables: Seq<HashMemtable>, table: Seq<char>) -> Option<
    Entries,
> {
    if name_index(names, table) < names.len() && name_index(names, table) < tables.len() {
        Some(tables[name_index(names, table)].entries())
    } else {
        None
    }
}

/// Three tenths of `total`, rounded down.
pub open spec fn soft_limit_of(total: u64) -> int {
    total as int * 3 / 10
}

/// Half of `total`, rounded down.
pub open spec fn hard_limit_of(total: u64) -> int {
    total as int / 2
}

/// The smaller of `a - b` and nothing below zero.
pub open spec fn minus(a: int, b: int) -> int {
    if a >= b {
        a - b
    } else {
        0
    }
}

impl MemtableManager {
    /// A manager without tables. The soft limit is three tenths and the hard
    /// limit half of the machine's memory.
    pub fn new(system_info: &SystemInfo) -> (m: Self)
        ensures
            m.wf(),
            m.names@.len() == 0,
            m.flushing_names@.len() == 0,
            m.memtable_current_size == 0,
            !m.block_write,
            m.memtable_size_soft_limit == soft_limit_of(system_info.total_memory),
            m.memtable_size_hard_limit == hard_limit_of(system_info.total_memory),
    {
        let total = system_info.total_memory;
        let soft = total / 10 * 3 + total % 10 * 3 / 10;
        MemtableManager {
            names: Vec::new(),
            memtables: Vec::new(),
            flushing_names: Vec::new(),
            flushing_memtables: Vec::new(),
            memtable_current_size: 0,
            block_write: false,
            memtable_size_soft_limit: soft,
            memtable_size_hard_limit: total / 2,
        }
    }

    /// Whether both generations are in order.
    pub open spec fn wf(&self) -> bool {
        &&& generation_wf(self.names@, self.memtables@)
        &&& generation_wf(self.flushing_names@, self.flushing_memtables@)
    }

    /// What the active generation holds for a table.
    pub open spec fn active(&self, table: Seq<char>) -> Option<Entries> {
        held(self.names@, self.memtables@, table)
    }

    /// What the flushing generation holds for a table.
    pub open spec fn flushing(&self, table: Seq<char>) -> Option<Entries> {
        held(self.flushing_names@, self.flushing_memtables@, table)
    }

    /// The bytes counted for the memtables.
    pub fn get_memtable_current_size(&self) -> (size: u64)
        ensures
            size == self.memtable_current_size,
    {
        self.memtable_current_size
    }

    /// The names of the tables.
    pub fn list_tables(&self) -> (tables: Vec<String>)
        ensures
            tables@.len() == self.names@.len(),
            forall|i: int| 0 <= i < tables@.len() ==> tables@[i]@ == self.names@[i]@,
    {
        let mut tables: Vec<String> = Vec::new();
        let mut i: usize = 0;
        while i < self.names.len()
            invariant
                i <= self.names.len(),
                tables@.len() == i,
                forall|j: int| 0 <= j < i ==> tables@[j]@ == self.names@[j]@,
            decreases self.names.len() - i,
        {
            tables.push(self.names[i].clone());
            i += 1;
        }
        tables
    }

    /// Gives a table an empty memtable, unless it has one.
    pub fn create_table(&mut self, table: &str)
        requires
            old(self).wf(),
        ensures
            final(self).wf(),
            final(self).active(table@) == match old(self).active(table@) {
                Some(held) => Some(held),
                None => Some(Map::<Seq<char>, Option<Seq<char>>>::empty()),
            },
            forall|other: Seq<char>|
                other != table@ ==> #[trigger] final(self).active(other) == old(self).active(other),
            final(self).flushing_names == old(self).flushing_names,
            final(self).flushing_memtables == old(self).flushing_memtables,
            final(self).memtable_current_size == old(self).memtable_current_size,
            final(self).block_write == old(self).block_write,
            final(self).memtable_size_soft_limit == old(self).memtable_size_soft_limit,
            final(self).memtable_size_hard_limit == old(self).memtable_size_hard_limit,
    {
        match find_name(&self.names, table) {
            Some(_) => {},
            None => {
                self.names.push(table.to_owned());
                self.memtables.push(HashMemtable::new());
                proof {
                    assert(self.names@.drop_last() =~= old(self).names@);
                    lemma_name_index(old(self).names@, table@);
                    lemma_pushed(old(self).names@, self.names@, table@);
                    assert forall|other: Seq<char>| other != table@ implies #[trigger] self.active(
                        other,
                    ) == old(self).active(other) by {
                        lemma_pushed_other(old(self).names@, self.names@, table@, other);
                        lemma_name_index(old(self).names@, other);
                        let k = name_index(old(self).names@, other);
                        if k < old(self).names@.len() {
                            assert(self.memtables@[k] == old(self).memtables@[k]);
                        }
                    }
                }
            },
        }
    }

    /// Gives each of the tables an empty memtable, unless it has one.
    pub fn load_table_list(&mut self, table_list: &Vec<String>)
        requires
            old(self).wf(),
        ensures
            final(self).wf(),
            forall|i: int|
                0 <= i < table_list@.len() ==> final(self).active(#[trigger] table_list@[i]@)
                    is Some,
            final(self).flushing_names == old(self).flushing_names,
            final(self).flushing_memtables == old(self).flushing_memtables,
            final(self).memtable_current_size == old(self).memtable_current_size,
    {
        let mut i: usize = 0;
        while i < table_list.len()
            invariant
                i <= table_list.len(),
                self.wf(),
                forall|j: int| 0 <= j < i ==> self.active(#[trigger] table_list@[j]@) is Some,
                self.flushing_names == old(self).flushing_names,
                self.flushing_memtables == old(self).flushing_memtables,
                self.memtable_current_size == old(self).memtable_current_size,
            decreases table_list.len() - i,
        {
            let ghost before = *self;
            self.create_table(table_list[i].as_str());
            proof {
                assert forall|j: int| 0 <= j < i + 1 implies self.active(
                    #[trigger] table_list@[j]@,
                ) is Some by {
                    if j < i && table_list@[j]@ != table_list@[i as int]@ {
                        assert(self.active(table_list@[j]@) == before.active(table_list@[j]@));
                    }
                }
            }
            i += 1;
        }
    }

    /// Takes a table's memtable away and counts the bytes of its values off.
    pub fn delete_table(&mut self, table: &str)
        requires
            old(self).wf(),
        ensures
            final(self).wf(),
            final(self).active(table@) is None,
            forall|other: Seq<char>|
                other != table@ ==> #[trigger] final(self).active(other) == old(self).active(other),
            final(self).flushing_names == old(self).flushing_names,
            final(self).flushing_memtables == old(self).flushing_memtables,
            old(self).active(table@) is None ==> final(self).memtable_current_size == old(self).memtable_current_size,
            final(self).memtable_current_size <= old(self).memtable_current_size,
    {
        match find_name(&self.names, table) {
            Some(i) => {
                let reclaimed = self.memtables[i].value_bytes();
                self.names.remove(i);
                self.memtables.remove(i);
                self.memtable_current_size = self.memtable_current_size.saturating_sub(reclaimed);
                proof {
                    lemma_removed(old(self).names@, i as int);
                    assert(self.names@ == old(self).names@.remove(i as int));
                    assert(self.memtables@ == old(self).memtables@.remove(i as int));
                    assert forall|other: Seq<char>| other != table@ implies #[trigger] self.active(
                        other,
                    ) == old(self).active(other) by {
                        lemma_removed_other(old(self).names@, i as int, other);
                        lemma_name_index(old(self).names@, other);
                        let k = name_index(old(self).names@, other);
                        if k < i {
                            assert(self.memtables@[k] == old(self).memtables@[k]);
                        } else if k < old(self).names@.len() {
                            assert(self.memtables@[k - 1] == old(self).memtables@[k]);
                        }
                    }
                    assert forall|j: int| 0 <= j < self.memtables@.len() implies (
                    #[trigger] self.memtables@[j]).wf() by {
                        let a = if j < i { j } else { j + 1 };
                        assert(self.memtables@[j] == old(self).memtables@[a]);
                    }
                }
            },
            None => {},
        }
    }

    /// Starts a flush: the active generation becomes the flushing one, every
    /// table gets an empty memtable, and the count of bytes starts again. It
    /// fails where writes are held back or a flushing generation is still
    /// there.
    pub fn trigger_flush(&mut self) -> (r: Result<(), Errors>)
        requires
            old(self).wf(),
        ensures
            final(self).wf(),
            r is Ok <==> !old(self).block_write && old(self).flushing_names@.len() == 0,
            final(self).memtable_size_soft_limit == old(self).memtable_size_soft_limit,
            final(self).memtable_size_hard_limit == old(self).memtable_size_hard_limit,
            match r {
                Ok(_) => {
                    &&& final(self).memtable_current_size == 0
                    &&& !final(self).block_write
                    &&& final(self).flushing_memtables == old(self).memtables
                    &&& final(self).flushing_names@ == old(self).names@
                    &&& final(self).flushing_names@.len() == old(self).names@.len()
                    &&& final(self).names == old(self).names
                    &&& forall|table: Seq<char>|
                        #![trigger final(self).flushing(table)]
                        #![trigger final(self).active(table)]
                        {
                            &&& final(self).flushing(table) == old(self).active(table)
                            &&& final(self).active(table) == match old(self).active(table) {
                                Some(_) => Some(Map::<Seq<char>, Option<Seq<char>>>::empty()),
                                None => None,
                            }
                        }
                },
                Err(e) => e.error_code == ErrorCodes::MemtableFlushAlreadyInProgress && *final(self)
                    == *old(self),
            },
    {
        if self.block_write || self.flushing_names.len() > 0 {
            return Err(Errors::new(ErrorCodes::MemtableFlushAlreadyInProgress));
        }
        self.block_write = true;
        self.memtable_current_size = 0;
        let mut fresh: Vec<HashMemtable> = Vec::new();
        let mut copies: Vec<String> = Vec::new();
        let mut i: usize = 0;
        while i < self.names.len()
            invariant
                i <= self.names.len(),
                fresh@.len() == i,
                copies@.len() == i,
                forall|j: int|
                    0 <= j < i ==> (#[trigger] fresh@[j]).wf() && fresh@[j].entries() == Map::<
                        Seq<char>,
                        Option<Seq<char>>,
                    >::empty(),
                forall|j: int| 0 <= j < i ==> (#[trigger] copies@[j]) == self.names@[j],
            decreases self.names.len() - i,
        {
            fresh.push(HashMemtable::new());
            copies.push(self.names[i].clone());
            i += 1;
        }
        assert(copies@ =~= self.names@);
        std::mem::swap(&mut self.memtables, &mut fresh);
        self.flushing_memtables = fresh;
        self.flushing_names = copies;
        self.block_write = false;
        proof {
            assert forall|table: Seq<char>|
                #![trigger self.flushing(table)]
                #![trigger self.active(table)]
                {
                    &&& self.flushing(table) == old(self).active(table)
                    &&& self.active(table) == match old(self).active(table) {
                        Some(_) => Some(Map::<Seq<char>, Option<Seq<char>>>::empty()),
                        None => None,
                    }
                } by {
                lemma_name_index(self.names@, table);
            }
        }
        Ok(())
    }

    /// Drops the flushing generation once it is on the disk.
    pub fn finish_flush(&mut self)
        requires
            old(self).wf(),
        ensures
            final(self).wf(),
            final(self).flushing_names@.len() == 0,
            final(self).flushing_memtables@.len() == 0,
            final(self).names == old(self).names,
            final(self).memtables == old(self).memtables,
            final(self).memtable_current_size == old(self).memtable_current_size,
            final(self).block_write == old(self).block_write,
            final(self).memtable_size_soft_limit == old(self).memtable_size_soft_limit,
            final(self).memtable_size_hard_limit == old(self).memtable_size_hard_limit,
    {
        self.flushing_names.clear();
        self.flushing_memtables.clear();
    }

    /// Writes a value under a key of a table. While writes are held back the
    /// writer is told to wait. A write whose key and value alone take more
    /// bytes than the hard limit allows is refused: no flush makes room for
    /// it. Where the bytes of key and value would take the count beyond the
    /// hard limit, the writer is told to ask for a flush.
    /// Else they are counted, and then the table is looked up: an unknown
    /// table is a failure, a known one takes the write, and the bytes of the
    /// value that the key had are counted off.
    pub fn put(&mut self, table: String, key: String, value: String) -> (r: Result<
        WriteStep,
        Errors,
    >)
        requires
            old(self).wf(),
        ensures
            final(self).wf(),
            final(self).names == old(self).names,
            final(self).flushing_names == old(self).flushing_names,
            final(self).flushing_memtables == old(self).flushing_memtables,
            final(self).block_write == old(self).block_write,
            final(self).memtable_size_soft_limit == old(self).memtable_size_soft_limit,
            final(self).memtable_size_hard_limit == old(self).memtable_size_hard_limit,
            forall|other: Seq<char>|
                other != table@ ==> #[trigger] final(self).active(other) == old(self).active(other),
            if old(self).block_write {
                r == Ok::<WriteStep, Errors>(WriteStep::Wait) && *final(self) == *old(self)
            } else if byte_len(key@) + byte_len(value@) > old(self).memtable_size_hard_limit {
                failure(r) == Some(ErrorCodes::ValueSizeTooLarge) && *final(self) == *old(self)
            } else if old(self).memtable_current_size + byte_len(key@) + byte_len(value@) > old(self).memtable_size_hard_limit {
                r == Ok::<WriteStep, Errors>(WriteStep::Flush) && *final(self) == *old(self)
            } else {
                match old(self).active(table@) {
                    None => {
                        &&& failure(r) == Some(ErrorCodes::TableNotFound)
                        &&& final(self).memtables == old(self).memtables
                        &&& final(self).memtable_current_size == old(self).memtable_current_size
                            + byte_len(key@) + byte_len(value@)
                    },
                    Some(held) => {
                        &&& r == Ok::<WriteStep, Errors>(WriteStep::Done)
                        &&& final(self).active(table@) == Some(held.insert(key@, Some(value@)))
                        &&& final(self).memtable_current_size == minus(
                            old(self).memtable_current_size + byte_len(key@) + byte_len(value@),
                            match previous_size(held, key@) {
                                Some(n) => n as int,
                                None => 0,
                            },
                        )
                    },
                }
            },
    {
        if self.block_write {
            return Ok(WriteStep::Wait);
        }
        let key_bytes = text_len(key.as_str()) as u64;
        let value_bytes = text_len(value.as_str()) as u64;
        let new_size = match key_bytes.checked_add(value_bytes) {
            Some(bytes) => {
                if bytes > self.memtable_size_hard_limit {
                    return Err(Errors::new(ErrorCodes::ValueSizeTooLarge));
                }
                match self.memtable_current_size.checked_add(bytes) {
                    Some(n) => n,
                    None => { return Ok(WriteStep::Flush); },
                }
            },
            None => { return Err(Errors::new(ErrorCodes::ValueSizeTooLarge)); },
        };
        if new_size > self.memtable_size_hard_limit {
            return Ok(WriteStep::Flush);
        }
        self.memtable_current_size = new_size;
        let index = match find_name(&self.names, table.as_str()) {
            Some(i) => i,
            None => { return Err(Errors::new(ErrorCodes::TableNotFound)); },
        };
        let old_size = self.memtables[index].put(key, value);
        match old_size {
            Some(n) => {
                self.memtable_current_size = self.memtable_current_size.saturating_sub(n as u64);
            },
            None => {},
        }
        proof {
            assert forall|other: Seq<char>| other != table@ implies #[trigger] self.active(other)
                == old(self).active(other) by {
                lemma_name_index(self.names@, other);
            }
        }
        Ok(WriteStep::Done)
    }

    /// Tells what the active generation holds for a key of a table; it knows
    /// nothing of a table it was not given.
    pub fn get(&self, table: &str, key: &str) -> (r: MemtableGetResult)
        ensures
            r@ == match self.active(table@) {
                Some(held) => reading(held, key@),
                None => Reading::NotFound,
            },
    {
        match find_name(&self.names, table) {
            Some(i) => {
                if i < self.memtables.len() {
                    self.memtables[i].get(key)
                } else {
                    MemtableGetResult::NotFound
                }
            },
            None => MemtableGetResult::NotFound,
        }
    }

    /// Tells what the flushing generation holds for a key of a table.
    pub fn get_from_flushing(&self, table: &str, key: &str) -> (r: MemtableGetResult)
        ensures
            r@ == match self.flushing(table@) {
                Some(held) => reading(held, key@),
                None => Reading::NotFound,
            },
    {
        match find_name(&self.flushing_names, table) {
            Some(i) => {
                if i < self.flushing_memtables.len() {
                    self.flushing_memtables[i].get(key)
                } else {
                    MemtableGetResult::NotFound
                }
            },
            None => MemtableGetResult::NotFound,
        }
    }

    /// Marks a key of a table as deleted, also one that was not held, so
    /// that what the disk holds for it is hidden until the flush. While
    /// writes are held back the writer is told to wait. The count of bytes
    /// stays as it is.
    pub fn delete(&mut self, table: String, key: String) -> (r: Result<WriteStep, Errors>)
        requires
            old(self).wf(),
        ensures
            final(self).wf(),
            final(self).names == old(self).names,
            final(self).flushing_names == old(self).flushing_names,
            final(self).flushing_memtables == old(self).flushing_memtables,
            final(self).block_write == old(self).block_write,
            final(self).memtable_current_size == old(self).memtable_current_size,
            final(self).memtable_size_soft_limit == old(self).memtable_size_soft_limit,
            final(self).memtable_size_hard_limit == old(self).memtable_size_hard_limit,
            forall|other: Seq<char>|
                other != table@ ==> #[trigger] final(self).active(other) == old(self).active(other),
            if old(self).block_write {
                r == Ok::<WriteStep, Errors>(WriteStep::Wait) && *final(self) == *old(self)
            } else {
                match old(self).active(table@) {
                    None => failure(r) == Some(ErrorCodes::TableNotFound) && *final(self) == *old(self),
                    Some(held) => {
                        &&& r == Ok::<WriteStep, Errors>(WriteStep::Done)
                        &&& final(self).active(table@) == Some(held.insert(key@, None))
                    },
                }
            },
    {
        if self.block_write {
            return Ok(WriteStep::Wait);
        }
        let index = match find_name(&self.names, table.as_str()) {
            Some(i) => i,
            None => { return Err(Errors::new(ErrorCodes::TableNotFound)); },
        };
        let _ = self.memtables[index].delete(key.as_str());
        proof {
            assert forall|other: Seq<char>| other != table@ implies #[trigger] self.active(other)
                == old(self).active(other) by {
                lemma_name_index(self.names@, other);
            }
        }
        Ok(WriteStep::Done)
    }
}

} // verus!
