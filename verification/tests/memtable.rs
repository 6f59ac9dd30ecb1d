use barus::errors::ErrorCodes;
use barus::memtable::manager::{MemtableManager, WriteStep};
use barus::memtable::{HashMemtable, MemtableGetResult};
use barus::system::SystemInfo;

fn manager(total_memory: u64) -> MemtableManager {
    MemtableManager::new(&SystemInfo { total_memory, cpu_count: 4 })
}

fn s(text: &str) -> String {
    text.to_string()
}

#[test]
fn a_memtable_holds_values_and_tombstones() {
    let mut table = HashMemtable::new();
    assert_eq!(table.get("k"), MemtableGetResult::NotFound);
    assert_eq!(table.put(s("k"), s("value")), None);
    assert_eq!(table.get("k"), MemtableGetResult::Found(s("value")));
    assert_eq!(table.put(s("k"), s("other")), Some(5));
    assert_eq!(table.get("k"), MemtableGetResult::Found(s("other")));
    assert_eq!(table.delete("k"), Some(5));
    assert_eq!(table.get("k"), MemtableGetResult::Deleted);
    assert_eq!(table.delete("k"), Some(0));
    assert_eq!(table.put(s("k"), s("é")), Some(0));
    assert_eq!(table.put(s("k"), s("x")), Some(2));
    assert_eq!(table.delete("absent"), None);
    assert_eq!(table.get("absent"), MemtableGetResult::Deleted);
    assert_eq!(table.len(), 2);
    assert_eq!(table.key_at(0), "k");
    assert_eq!(table.key_at(1), "absent");
    assert_eq!(table.value_bytes(), 1);
    table.clear();
    assert_eq!(table.len(), 0);
    assert_eq!(table.get("k"), MemtableGetResult::NotFound);
    assert_eq!(HashMemtable::default().len(), 0);
}

#[test]
fn keys_are_listed_once_in_the_order_of_their_first_write() {
    let mut table = HashMemtable::new();
    table.put(s("b"), s("1"));
    table.delete("a");
    table.put(s("c"), s("333"));
    table.put(s("b"), s("22"));
    table.put(s("a"), s("4444"));
    let keys: Vec<String> = (0..table.len()).map(|i| table.key_at(i).clone()).collect();
    assert_eq!(keys, vec!["b", "a", "c"]);
    assert_eq!(table.value_bytes(), 2 + 4 + 3);
}

#[test]
fn limits_are_three_tenths_and_half_of_the_memory() {
    let m = manager(1000);
    assert_eq!(m.memtable_size_soft_limit, 300);
    assert_eq!(m.memtable_size_hard_limit, 500);
    let odd = manager(7);
    assert_eq!(odd.memtable_size_soft_limit, 2);
    assert_eq!(odd.memtable_size_hard_limit, 3);
    let large = manager(u64::MAX);
    assert_eq!(large.memtable_size_soft_limit, 5534023222112865484);
    assert_eq!(large.memtable_size_hard_limit, u64::MAX / 2);
    assert_eq!(manager(17179869184).memtable_size_soft_limit, 5153960755);
    assert_eq!(m.get_memtable_current_size(), 0);
    assert!(!m.block_write);
}

#[test]
fn writes_go_to_the_active_memtable_of_their_table() {
    let mut m = manager(1000);
    m.create_table("t");
    m.create_table("u");
    m.create_table("t");
    assert_eq!(m.list_tables(), vec!["t", "u"]);
    assert_eq!(m.put(s("t"), s("k"), s("v1")).unwrap(), WriteStep::Done);
    assert_eq!(m.get_memtable_current_size(), 3);
    assert_eq!(m.get("t", "k"), MemtableGetResult::Found(s("v1")));
    assert_eq!(m.get("u", "k"), MemtableGetResult::NotFound);
    assert_eq!(m.get("nowhere", "k"), MemtableGetResult::NotFound);
    assert_eq!(m.get_from_flushing("t", "k"), MemtableGetResult::NotFound);
    assert_eq!(m.put(s("t"), s("k"), s("longer")).unwrap(), WriteStep::Done);
    assert_eq!(m.get_memtable_current_size(), 3 + 7 - 2);
    assert_eq!(m.delete(s("t"), s("k")).unwrap(), WriteStep::Done);
    assert_eq!(m.get("t", "k"), MemtableGetResult::Deleted);
    assert_eq!(m.get_memtable_current_size(), 8);
    assert_eq!(m.delete(s("u"), s("never")).unwrap(), WriteStep::Done);
    assert_eq!(m.get("u", "never"), MemtableGetResult::Deleted);
}

#[test]
fn a_write_to_an_unknown_table_fails_after_it_was_counted() {
    let mut m = manager(1000);
    let err = m.put(s("nowhere"), s("key"), s("value")).unwrap_err();
    assert_eq!(err.error_code, ErrorCodes::TableNotFound);
    assert_eq!(m.get_memtable_current_size(), 8);
    let err = m.delete(s("nowhere"), s("key")).unwrap_err();
    assert_eq!(err.error_code, ErrorCodes::TableNotFound);
    assert_eq!(m.get_memtable_current_size(), 8);
}

#[test]
fn a_full_memtable_asks_for_a_flush() {
    let mut m = manager(40);
    m.create_table("t");
    assert_eq!(m.memtable_size_hard_limit, 20);
    assert_eq!(m.put(s("t"), s("a"), s("123456789")).unwrap(), WriteStep::Done);
    assert_eq!(m.put(s("t"), s("b"), s("123456789")).unwrap(), WriteStep::Done);
    assert_eq!(m.get_memtable_current_size(), 20);
    assert_eq!(m.put(s("t"), s("c"), s("")).unwrap(), WriteStep::Flush);
    assert_eq!(m.get("t", "c"), MemtableGetResult::NotFound);
    assert_eq!(m.get_memtable_current_size(), 20);
    m.trigger_flush().unwrap();
    assert_eq!(m.get_memtable_current_size(), 0);
    assert_eq!(m.put(s("t"), s("c"), s("")).unwrap(), WriteStep::Done);
    assert_eq!(m.put(s("t"), s("d"), s(&"x".repeat(19))).unwrap(), WriteStep::Flush);
    assert!(m.get_memtable_current_size() <= m.memtable_size_hard_limit);
    let err = m.put(s("t"), s("d"), s(&"x".repeat(20))).unwrap_err();
    assert_eq!(err.error_code, ErrorCodes::ValueSizeTooLarge);
    assert_eq!(m.get_memtable_current_size(), 1);
    assert_eq!(m.get("t", "d"), MemtableGetResult::NotFound);
}

#[test]
fn a_flush_swaps_the_generations() {
    let mut m = manager(1000);
    m.create_table("t");
    m.create_table("u");
    m.put(s("t"), s("k"), s("v")).unwrap();
    m.delete(s("u"), s("gone")).unwrap();
    m.trigger_flush().unwrap();
    assert_eq!(m.get("t", "k"), MemtableGetResult::NotFound);
    assert_eq!(m.get_from_flushing("t", "k"), MemtableGetResult::Found(s("v")));
    assert_eq!(m.get_from_flushing("u", "gone"), MemtableGetResult::Deleted);
    assert_eq!(m.list_tables(), vec!["t", "u"]);
    assert_eq!(m.flushing_names, vec!["t", "u"]);
    assert_eq!(m.get_memtable_current_size(), 0);
    let busy = m.trigger_flush().unwrap_err();
    assert_eq!(busy.error_code, ErrorCodes::MemtableFlushAlreadyInProgress);
    assert_eq!(m.get_from_flushing("t", "k"), MemtableGetResult::Found(s("v")));
    m.put(s("t"), s("k"), s("newer")).unwrap();
    assert_eq!(m.get("t", "k"), MemtableGetResult::Found(s("newer")));
    m.finish_flush();
    assert_eq!(m.get_from_flushing("t", "k"), MemtableGetResult::NotFound);
    assert_eq!(m.get("t", "k"), MemtableGetResult::Found(s("newer")));
    m.trigger_flush().unwrap();
    assert_eq!(m.get_from_flushing("t", "k"), MemtableGetResult::Found(s("newer")));
}

#[test]
fn held_back_writers_are_told_to_wait() {
    let mut m = manager(1000);
    m.create_table("t");
    m.block_write = true;
    assert_eq!(m.put(s("t"), s("k"), s("v")).unwrap(), WriteStep::Wait);
    assert_eq!(m.delete(s("t"), s("k")).unwrap(), WriteStep::Wait);
    assert_eq!(m.get("t", "k"), MemtableGetResult::NotFound);
    assert_eq!(m.get_memtable_current_size(), 0);
    assert_eq!(
        m.trigger_flush().unwrap_err().error_code,
        ErrorCodes::MemtableFlushAlreadyInProgress
    );
    m.block_write = false;
    assert_eq!(m.put(s("t"), s("k"), s("v")).unwrap(), WriteStep::Done);
}

#[test]
fn a_dropped_table_gives_its_bytes_back() {
    let mut m = manager(1000);
    m.load_table_list(&vec![s("t"), s("u"), s("t")]);
    assert_eq!(m.list_tables(), vec!["t", "u"]);
    m.put(s("t"), s("a"), s("12345")).unwrap();
    m.put(s("t"), s("b"), s("1")).unwrap();
    m.delete(s("t"), s("b")).unwrap();
    m.put(s("u"), s("c"), s("77")).unwrap();
    assert_eq!(m.get_memtable_current_size(), 6 + 2 + 3);
    m.delete_table("t");
    assert_eq!(m.get_memtable_current_size(), 11 - 5);
    assert_eq!(m.list_tables(), vec!["u"]);
    assert_eq!(m.get("t", "a"), MemtableGetResult::NotFound);
    assert_eq!(m.get("u", "c"), MemtableGetResult::Found(s("77")));
    m.delete_table("t");
    m.delete_table("u");
    assert_eq!(m.get_memtable_current_size(), 4);
    assert!(m.list_tables().is_empty());
}
