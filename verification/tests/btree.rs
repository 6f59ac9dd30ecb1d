use barus::disktable::index::btree::{
    offset_to_segment, BTreeIndex, BTreeLeafEntry, BTreeMetadata, BTreeNode, BTreeNodePosition,
    BTreeNodeType, BTREE_ORDER, NODE_PAYLOAD_MAX, NODE_SIZE,
};
use barus::disktable::index::IndexManager;
use barus::disktable::segment::position::TableRecordPosition;
use barus::disktable::segment::segment_id::TableSegmentID;
use barus::errors::ErrorCodes;

fn at(segment: u64, offset: u32) -> TableRecordPosition {
    TableRecordPosition { segment_id: TableSegmentID(segment), offset }
}

fn opened() -> BTreeIndex {
    let mut index = BTreeIndex::new();
    index.initialize().unwrap();
    index
}

fn leaf_keys(index: &BTreeIndex, position: BTreeNodePosition, out: &mut Vec<String>) {
    let node = index.read_node(position).unwrap();
    match node.node_type {
        BTreeNodeType::Leaf => {
            for entry in &node.leaf_entries {
                out.push(entry.key.clone());
            }
        }
        BTreeNodeType::Internal => {
            leaf_keys(index, node.leftmost_child.unwrap(), out);
            for entry in &node.internal_entries {
                leaf_keys(index, entry.child_position, out);
            }
        }
    }
}

#[test]
fn new_nodes_are_empty() {
    let leaf = BTreeNode::new_leaf();
    assert!(leaf.is_leaf());
    assert_eq!(leaf.node_type, BTreeNodeType::Leaf);
    assert!(leaf.parent.is_none());
    assert!(leaf.leaf_entries.is_empty());
    assert!(leaf.leftmost_child.is_none());
    let internal = BTreeNode::new_internal();
    assert!(!internal.is_leaf());
    assert_eq!(internal.node_type, BTreeNodeType::Internal);
    assert!(internal.internal_entries.is_empty());
}

#[test]
fn a_node_is_full_at_order_minus_one() {
    let mut leaf = BTreeNode::new_leaf();
    for i in 0..62 {
        leaf.leaf_entries.push(BTreeLeafEntry { key: format!("k{}", i), position: at(1, i) });
    }
    assert!(!leaf.is_full(64));
    leaf.leaf_entries.push(BTreeLeafEntry { key: "last".to_string(), position: at(1, 99) });
    assert!(leaf.is_full(64));
    assert!(leaf.is_full(1));
    assert!(BTreeNode::new_leaf().is_full(1));
    assert!(!BTreeNode::new_leaf().is_full(2));
    assert!(!BTreeNode::new_internal().is_full(BTREE_ORDER));
}

#[test]
fn offsets_map_to_segment_files() {
    assert_eq!(offset_to_segment(0), (0, 0));
    assert_eq!(offset_to_segment(8192), (0, 8192));
    assert_eq!(offset_to_segment(1073741824), (1, 0));
    assert_eq!(offset_to_segment(3 * 1073741824 + 16384), (3, 16384));
}

#[test]
fn default_metadata_is_that_of_an_empty_index() {
    let m = BTreeMetadata::default();
    assert_eq!(m.root_position, None);
    assert_eq!(m.order, 64);
    assert_eq!(m.next_offset, 0);
}

#[test]
fn a_node_survives_encoding() {
    let mut node = BTreeNode::new_leaf();
    node.parent = Some(BTreeNodePosition { offset: 8192 });
    node.leaf_entries.push(BTreeLeafEntry { key: "alpha".to_string(), position: at(3, 77) });
    node.leaf_entries.push(BTreeLeafEntry { key: "béta".to_string(), position: at(4, 0) });
    let bytes = node.encode().unwrap();
    assert!(!bytes.is_empty());
    let back = BTreeNode::decode(&bytes).unwrap();
    assert_eq!(back.node_type, BTreeNodeType::Leaf);
    assert_eq!(back.parent, Some(BTreeNodePosition { offset: 8192 }));
    assert_eq!(back.leaf_entries.len(), 2);
    assert_eq!(back.leaf_entries[0].key, "alpha");
    assert_eq!(back.leaf_entries[0].position, at(3, 77));
    assert_eq!(back.leaf_entries[1].key, "béta");
    assert_eq!(back.leaf_entries[1].position, at(4, 0));
    assert!(back.internal_entries.is_empty());
    assert_eq!(back.leftmost_child, None);
}

#[test]
fn a_leaf_is_encoded_in_the_standard_layout() {
    let mut node = BTreeNode::new_leaf();
    node.leaf_entries.push(BTreeLeafEntry { key: "a".to_string(), position: at(1, 300) });
    let bytes = node.encode().unwrap();
    // kind 1, no parent, one leaf entry ("a", 1, 300 as 251 + u16), no internal entries, no leftmost child
    assert_eq!(bytes, vec![1, 0, 1, 1, b'a', 1, 251, 44, 1, 0, 0]);
}

#[test]
fn bytes_that_are_no_node_do_not_decode() {
    assert!(BTreeNode::decode(&[]).is_none());
    assert!(BTreeNode::decode(&[7, 0, 0, 0, 0]).is_none());
    assert!(BTreeNode::decode(&[1, 0, 253, 255, 255, 255, 255, 255, 255, 255, 127]).is_none());
    assert!(BTreeNode::decode(&[1, 0, 1, 1, 0xFF, 1, 1, 0, 0]).is_none());
}

#[test]
fn an_empty_index_finds_nothing() {
    let index = opened();
    assert_eq!(index.find(&"k".to_string()).unwrap(), None);
    assert_eq!(index.metadata.next_offset, 0);
    assert!(index.metadata_file.is_some());
    assert!(index.segments.is_empty());
}

#[test]
fn the_first_insert_plants_a_root_leaf() {
    let mut index = opened();
    index.insert("k".to_string(), at(1, 0)).unwrap();
    assert_eq!(index.metadata.root_position, Some(BTreeNodePosition { offset: 0 }));
    assert_eq!(index.metadata.next_offset, 8192);
    assert_eq!(index.segments.len(), 1);
    assert_eq!(index.segments[0].len(), NODE_SIZE);
    assert_eq!(index.find(&"k".to_string()).unwrap(), Some(at(1, 0)));
    assert_eq!(index.find(&"other".to_string()).unwrap(), None);
}

#[test]
fn a_block_is_length_payload_and_zeros() {
    let mut index = opened();
    index.insert("a".to_string(), at(1, 300)).unwrap();
    let block = &index.segments[0];
    assert_eq!(&block[0..4], &[0, 0, 0, 11]);
    assert_eq!(&block[4..15], &[1, 0, 1, 1, b'a', 1, 251, 44, 1, 0, 0]);
    assert!(block[15..].iter().all(|b| *b == 0));
    assert_eq!(block.len(), 8192);
}

#[test]
fn the_latest_insert_of_a_key_wins() {
    let mut index = opened();
    index.insert("k".to_string(), at(1, 0)).unwrap();
    index.insert("j".to_string(), at(1, 10)).unwrap();
    index.insert("k".to_string(), at(1, 20)).unwrap();
    index.insert("l".to_string(), at(1, 30)).unwrap();
    index.insert("k".to_string(), at(2, 40)).unwrap();
    assert_eq!(index.find(&"k".to_string()).unwrap(), Some(at(2, 40)));
    assert_eq!(index.find(&"j".to_string()).unwrap(), Some(at(1, 10)));
    assert_eq!(index.find(&"l".to_string()).unwrap(), Some(at(1, 30)));
    assert_eq!(index.find(&"m".to_string()).unwrap(), None);
}

#[test]
fn delete_takes_the_first_entry_out() {
    let mut index = opened();
    index.insert("a".to_string(), at(1, 1)).unwrap();
    index.insert("b".to_string(), at(1, 2)).unwrap();
    index.insert("b".to_string(), at(1, 3)).unwrap();
    index.delete(&"b".to_string()).unwrap();
    assert_eq!(index.find(&"b".to_string()).unwrap(), Some(at(1, 2)));
    index.delete(&"b".to_string()).unwrap();
    assert_eq!(index.find(&"b".to_string()).unwrap(), None);
    index.delete(&"b".to_string()).unwrap();
    index.delete(&"zz".to_string()).unwrap();
    assert_eq!(index.find(&"a".to_string()).unwrap(), Some(at(1, 1)));
    let mut empty = opened();
    empty.delete(&"a".to_string()).unwrap();
    assert_eq!(empty.metadata.next_offset, 0);
}

#[test]
fn update_replaces_the_position() {
    let mut index = opened();
    index.insert("a".to_string(), at(1, 1)).unwrap();
    index.update("a".to_string(), at(5, 50)).unwrap();
    assert_eq!(index.find(&"a".to_string()).unwrap(), Some(at(5, 50)));
    index.delete(&"a".to_string()).unwrap();
    assert_eq!(index.find(&"a".to_string()).unwrap(), None);
    index.update("new".to_string(), at(6, 60)).unwrap();
    assert_eq!(index.find(&"new".to_string()).unwrap(), Some(at(6, 60)));
}

#[test]
fn splits_keep_every_key_findable_and_in_order() {
    let mut index = opened();
    let count = 3000u32;
    for i in 0..count {
        let n = (i * 7919) % count;
        index.insert(format!("key{:05}", n), at(1, n)).unwrap();
    }
    for n in 0..count {
        assert_eq!(index.find(&format!("key{:05}", n)).unwrap(), Some(at(1, n)));
    }
    assert_eq!(index.find(&"key99999".to_string()).unwrap(), None);
    let root = index.metadata.root_position.unwrap();
    assert_eq!(index.read_node(root).unwrap().node_type, BTreeNodeType::Internal);
    let mut keys = Vec::new();
    leaf_keys(&index, root, &mut keys);
    assert_eq!(keys.len(), count as usize);
    assert!(keys.windows(2).all(|w| w[0] < w[1]));
    assert_eq!(index.metadata.next_offset % 8192, 0);
    assert_eq!(index.segments[0].len() as u64, index.metadata.next_offset);
    let mut offset = 0u64;
    while offset < index.metadata.next_offset {
        let node = index.read_node(BTreeNodePosition { offset }).unwrap();
        assert!(node.encode().unwrap().len() <= NODE_PAYLOAD_MAX);
        offset += 8192;
    }
}

#[test]
fn a_split_leaf_hands_its_upper_half_to_a_new_leaf() {
    let mut index = opened();
    for i in 0..63u32 {
        index.insert(format!("k{:02}", i), at(1, i)).unwrap();
    }
    let root = index.read_node(index.metadata.root_position.unwrap()).unwrap();
    assert_eq!(root.node_type, BTreeNodeType::Internal);
    assert_eq!(root.leftmost_child, Some(BTreeNodePosition { offset: 0 }));
    assert_eq!(root.internal_entries.len(), 1);
    assert_eq!(root.internal_entries[0].key, "k31");
    assert_eq!(root.internal_entries[0].child_position, BTreeNodePosition { offset: 8192 });
    assert_eq!(index.metadata.root_position, Some(BTreeNodePosition { offset: 16384 }));
    let lower = index.read_node(BTreeNodePosition { offset: 0 }).unwrap();
    let upper = index.read_node(BTreeNodePosition { offset: 8192 }).unwrap();
    assert_eq!(lower.leaf_entries.len(), 31);
    assert_eq!(upper.leaf_entries.len(), 32);
    assert_eq!(upper.leaf_entries[0].key, "k31");
    assert_eq!(lower.parent, Some(BTreeNodePosition { offset: 16384 }));
    assert_eq!(upper.parent, Some(BTreeNodePosition { offset: 16384 }));
}

#[test]
fn reading_outside_the_blocks_fails() {
    let mut index = opened();
    index.insert("k".to_string(), at(1, 0)).unwrap();
    let past = index.read_node(BTreeNodePosition { offset: 8192 }).unwrap_err();
    assert_eq!(past.error_code, ErrorCodes::FileReadError);
    let crooked = index.read_node(BTreeNodePosition { offset: 1 }).unwrap_err();
    assert_eq!(crooked.error_code, ErrorCodes::FileReadError);
    let far = index.read_node(BTreeNodePosition { offset: 5 * 1073741824 }).unwrap_err();
    assert_eq!(far.error_code, ErrorCodes::FileReadError);
    index.segments[0][0..4].copy_from_slice(&[0, 0, 0, 0]);
    assert_eq!(
        index.read_node(BTreeNodePosition { offset: 0 }).unwrap_err().error_code,
        ErrorCodes::FileReadError
    );
    index.segments[0][0..4].copy_from_slice(&[0, 0, 0x20, 0]);
    assert_eq!(
        index.read_node(BTreeNodePosition { offset: 0 }).unwrap_err().error_code,
        ErrorCodes::FileReadError
    );
    assert!(index.find(&"k".to_string()).is_err());
}

#[test]
fn a_node_too_large_for_a_block_is_refused() {
    let mut index = opened();
    let err = index.insert("k".repeat(9000), at(1, 0)).unwrap_err();
    assert_eq!(err.error_code, ErrorCodes::FileWriteError);
    assert_eq!(index.metadata.root_position, None);
    assert!(index.segments.is_empty());
}

#[test]
fn a_saved_index_opens_again() {
    let mut index = opened();
    for i in 0..200u32 {
        index.insert(format!("k{:03}", i), at(2, i)).unwrap();
    }
    let mut again = BTreeIndex::new();
    again.metadata_file = index.metadata_file.clone();
    again.segments = index.segments.clone();
    again.initialize().unwrap();
    assert_eq!(again.metadata, index.metadata);
    for i in 0..200u32 {
        assert_eq!(again.find(&format!("k{:03}", i)).unwrap(), Some(at(2, i)));
    }
    again.initialize().unwrap();
    assert_eq!(again.metadata, index.metadata);
}

#[test]
fn a_root_past_the_end_of_the_file_heals_the_index() {
    let mut index = opened();
    index.insert("k".to_string(), at(1, 0)).unwrap();
    let mut broken = BTreeIndex::new();
    broken.segments = index.segments.clone();
    broken.metadata = BTreeMetadata {
        root_position: Some(BTreeNodePosition { offset: 81920 }),
        order: 64,
        next_offset: 8192,
    };
    broken.save_metadata().unwrap();
    broken.metadata = BTreeMetadata::default();
    assert!(!broken.validate_index_files(&BTreeMetadata {
        root_position: Some(BTreeNodePosition { offset: 81920 }),
        order: 64,
        next_offset: 8192,
    }));
    broken.initialize().unwrap();
    assert_eq!(broken.metadata, BTreeMetadata::default());
    assert!(broken.segments.is_empty());
    assert_eq!(broken.find(&"k".to_string()).unwrap(), None);
    broken.insert("fresh".to_string(), at(9, 9)).unwrap();
    assert_eq!(broken.find(&"fresh".to_string()).unwrap(), Some(at(9, 9)));
    let mut reopened = BTreeIndex::new();
    reopened.metadata_file = broken.metadata_file.clone();
    reopened.segments = broken.segments.clone();
    reopened.initialize().unwrap();
    assert_eq!(reopened.find(&"fresh".to_string()).unwrap(), Some(at(9, 9)));
}

#[test]
fn metadata_that_contradicts_itself_heals_the_index() {
    let root_without_blocks = BTreeMetadata {
        root_position: Some(BTreeNodePosition { offset: 0 }),
        order: 64,
        next_offset: 0,
    };
    let blocks_without_root = BTreeMetadata { root_position: None, order: 64, next_offset: 8192 };
    for metadata in [root_without_blocks, blocks_without_root] {
        let mut index = opened();
        index.insert("k".to_string(), at(1, 0)).unwrap();
        assert!(!index.validate_index_files(&metadata));
        index.metadata = metadata;
        index.save_metadata().unwrap();
        index.initialize().unwrap();
        assert_eq!(index.metadata, BTreeMetadata::default());
        assert!(index.segments.is_empty());
    }
    let mut sound = opened();
    sound.insert("k".to_string(), at(1, 0)).unwrap();
    let metadata = sound.metadata;
    assert!(sound.validate_index_files(&metadata));
    assert!(opened().validate_index_files(&BTreeMetadata::default()));
}

#[test]
fn a_metadata_file_that_does_not_decode_is_a_failure() {
    let mut index = BTreeIndex::new();
    index.metadata_file = Some(vec![1]);
    let err = index.initialize().unwrap_err();
    assert_eq!(err.error_code, ErrorCodes::FileReadError);
}

#[test]
fn a_damaged_root_block_heals_the_index() {
    let mut index = opened();
    index.insert("k".to_string(), at(1, 0)).unwrap();
    index.segments[0][0..4].copy_from_slice(&[0x01, 0, 0, 0]);
    let metadata = index.metadata;
    assert!(!index.validate_index_files(&metadata));
    index.segments[0][0..4].copy_from_slice(&[0, 0, 0, 1]);
    index.segments[0][4] = 9;
    assert!(!index.validate_index_files(&metadata));
    index.initialize().unwrap();
    assert!(index.segments.is_empty());
    assert_eq!(index.metadata, BTreeMetadata::default());
}

#[test]
fn index_manager_keeps_tables_apart() {
    let mut manager = IndexManager::new();
    manager.add_record("t1", "k", &at(1, 1)).unwrap();
    manager.add_record("t2", "k", &at(2, 2)).unwrap();
    assert_eq!(manager.find_record("t1", "k").unwrap(), Some(at(1, 1)));
    assert_eq!(manager.find_record("t2", "k").unwrap(), Some(at(2, 2)));
    assert_eq!(manager.find_record("t3", "k").unwrap(), None);
    manager.update_record("t1", "k", &at(1, 9)).unwrap();
    assert_eq!(manager.find_record("t1", "k").unwrap(), Some(at(1, 9)));
    manager.delete_record("t2", "k").unwrap();
    assert_eq!(manager.find_record("t2", "k").unwrap(), None);
    manager.delete_index("t1");
    assert_eq!(manager.find_record("t1", "k").unwrap(), None);
    assert_eq!(manager.names, vec!["t2".to_string()]);
}

#[test]
fn replacing_and_taking_out_through_splits_touches_one_key_only() {
    let mut index = opened();
    let count = 1500u32;
    for n in 0..count {
        index.insert(format!("key{:05}", n), at(1, n)).unwrap();
    }
    for n in (0..count).step_by(3) {
        index.update(format!("key{:05}", n), at(2, n)).unwrap();
    }
    for n in 0..count {
        let want = if n % 3 == 0 { at(2, n) } else { at(1, n) };
        assert_eq!(index.find(&format!("key{:05}", n)).unwrap(), Some(want));
    }
    for n in (0..count).step_by(5) {
        index.delete(&format!("key{:05}", n)).unwrap();
    }
    for n in 0..count {
        let want = if n % 5 == 0 {
            None
        } else if n % 3 == 0 {
            Some(at(2, n))
        } else {
            Some(at(1, n))
        };
        assert_eq!(index.find(&format!("key{:05}", n)).unwrap(), want);
    }
    let root = index.metadata.root_position.unwrap();
    let mut keys = Vec::new();
    leaf_keys(&index, root, &mut keys);
    assert!(keys.windows(2).all(|w| w[0] < w[1]));
}

#[test]
fn a_root_that_starts_no_block_heals_the_index() {
    let mut index = opened();
    index.insert("k".to_string(), at(1, 0)).unwrap();
    index.insert("l".to_string(), at(1, 1)).unwrap();
    let crooked = BTreeMetadata {
        root_position: Some(BTreeNodePosition { offset: 4 }),
        order: 64,
        next_offset: 8192,
    };
    let mut shifted = vec![0u8; 4];
    shifted.extend_from_slice(&index.segments[0][..8188]);
    let mut broken = BTreeIndex::new();
    broken.segments = vec![shifted];
    assert!(!broken.validate_index_files(&crooked));
    broken.metadata = crooked;
    broken.save_metadata().unwrap();
    broken.metadata = BTreeMetadata::default();
    broken.initialize().unwrap();
    assert_eq!(broken.metadata, BTreeMetadata::default());
    assert!(broken.segments.is_empty());
    assert_eq!(broken.find(&"k".to_string()).unwrap(), None);
}

#[test]
fn a_node_that_cannot_be_written_changes_nothing() {
    let mut index = opened();
    index.insert("a".to_string(), at(1, 0)).unwrap();
    let metadata = index.metadata;
    let file = index.metadata_file.clone();
    let segments = index.segments.clone();
    let mut large = BTreeNode::new_leaf();
    large.leaf_entries.push(BTreeLeafEntry { key: "k".repeat(9000), position: at(1, 0) });
    let err = index.write_node(&large).unwrap_err();
    assert_eq!(err.error_code, ErrorCodes::FileWriteError);
    assert_eq!(index.metadata, metadata);
    assert_eq!(index.metadata_file, file);
    assert_eq!(index.segments, segments);
    let err = index.insert("k".repeat(9000), at(1, 0)).unwrap_err();
    assert_eq!(err.error_code, ErrorCodes::FileWriteError);
    assert_eq!(index.segments, segments);
    assert_eq!(index.find(&"a".to_string()).unwrap(), Some(at(1, 0)));
    let small = BTreeNode::new_leaf();
    let placed = index.write_node(&small).unwrap();
    assert_eq!(placed.offset, metadata.next_offset);
    assert_eq!(index.metadata.next_offset, metadata.next_offset + 8192);
}

#[test]
fn a_root_larger_than_a_block_heals_the_index() {
    let mut index = opened();
    for i in 0..200u32 {
        index.insert(format!("k{:03}", i), at(2, i)).unwrap();
    }
    assert!(index.segments[0].len() >= 2 * NODE_SIZE);
    let metadata = index.metadata;
    assert!(index.validate_index_files(&metadata));
    let root = metadata.root_position.unwrap().offset as usize;
    let mut broken = BTreeIndex::new();
    broken.segments = index.segments.clone();
    broken.segments[0][root..root + 4].copy_from_slice(&9000u32.to_be_bytes());
    if root + 4 + 9000 > broken.segments[0].len() {
        let len = root + 4 + 9000;
        broken.segments[0].resize(len, 0);
    }
    assert!(!broken.validate_index_files(&metadata));
    broken.metadata_file = index.metadata_file.clone();
    broken.initialize().unwrap();
    assert_eq!(broken.metadata, BTreeMetadata::default());
    assert!(broken.segments.is_empty());
}

#[test]
fn more_bytes_than_a_block_holds_are_no_node() {
    let mut node = BTreeNode::new_leaf();
    node.leaf_entries.push(BTreeLeafEntry { key: "k".repeat(9000), position: at(1, 0) });
    let bytes = node.encode().unwrap();
    assert!(bytes.len() > NODE_PAYLOAD_MAX);
    assert!(BTreeNode::decode(&bytes).is_none());
    let mut small = BTreeNode::new_leaf();
    small.leaf_entries.push(BTreeLeafEntry { key: "k".repeat(8000), position: at(1, 0) });
    let bytes = small.encode().unwrap();
    assert!(bytes.len() <= NODE_PAYLOAD_MAX);
    assert_eq!(BTreeNode::decode(&bytes).unwrap().leaf_entries[0].key.len(), 8000);
}
