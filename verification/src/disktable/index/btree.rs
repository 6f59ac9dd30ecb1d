use vstd::prelude::*;
use vstd::slice::slice_subrange;
use crate::bytes::{
    be_bytes_of, be_u32, grown, lemma_bytes_less_total, lemma_bytes_less_transitive, key_before, key_less, lemma_bytes_less_irreflexive, overlay, read_be_u32,
    u32_be_bytes, window, write_at, zeros,
};
use crate::codec::{
    decode_metadata_fields, decode_node_fields, encode_metadata_fields, encode_node_fields,
    internal_rows, leaf_rows, metadata_decoding, metadata_encoding, node_decoding, node_encoding,
    MetadataFields, NodeFields,
};
use crate::disktable::segment::position::TableRecordPosition;
use crate::disktable::segment::segment_id::TableSegmentID;
use crate::disktable::index::order::{
    adopted, at_least, at_most, child_at, in_order_at, internal_in_order, leaf_in_order,
    lemma_child_in_range, lemma_hole_filled, lemma_internal_split_in_order,
    lemma_leaf_changed_in_order, lemma_leaf_split_in_order, lemma_parent_took_child,
    lemma_root_split_in_order, lemma_shapes_in_order, lemma_shapes_kept,
    lemma_shapes_kept_twice, moved, ordered_but, shape, shapes_kept, with_child, Slot,
};
use crate::disktable::index::growth::{
    holds_apart, holds_new, lemma_leaf_grown, lemma_leaf_grown_apart, lemma_parent_grown,
    lemma_lookup_is_find, lemma_more_fuel, lemma_parent_split_grown, lemma_parent_took_grown,
    lemma_ready_below, lemma_root_split_grown, lemma_taken_out, lemma_whole_grown, ready, whole,
};
use crate::disktable::index::outcome::{
    grown_leaf, internal_split, leaf_split, put_below, put_in, reparented, reparented_all,
    replaced, split_finish, split_view, taken_out, updated, written,
};
use crate::errors::{failure, ErrorCodes, Errors};

verus! {

/// Size of one index segment file: 1 GiB.
pub const INDEX_SEGMENT_SIZE: u64 = 1073741824;

/// Size of the block that holds one node: 8 KiB.
pub const NODE_SIZE: usize = 8192;

/// Most bytes an encoded node may take: a block less its length prefix.
pub const NODE_PAYLOAD_MAX: usize = 8188;

/// Declared node sizes above this mark a corrupted index when it is opened.
pub const NODE_SIZE_SANITY_LIMIT: u32 = 10000000;

/// Entries per node at which the node is split, plus one.
pub const BTREE_ORDER: u16 = 64;

/// The name of the file that holds the metadata of an index.
pub const INDEX_METADATA_FILE: &'static str = "index.metadata";

/// A number in decimal digits, as bytes.
pub open spec fn decimal(n: nat) -> Seq<u8>
    decreases n,
{
    if n < 10 {
        seq![(48 + n) as u8]
    } else {
        decimal(n / 10).push((48 + n % 10) as u8)
    }
}

/// The name of a segment file of an index, as bytes: `index.btree` for the
/// first segment, and `index.btree.` with the number in decimal digits for
/// every other.
pub open spec fn index_file_name_bytes(segment_number: u64) -> Seq<u8> {
    if segment_number == 0 {
        vstd::utf8::encode_utf8("index.btree"@)
    } else {
        vstd::utf8::encode_utf8("index.btree."@) + decimal(segment_number as nat)
    }
}

/// `format!` with `index.btree.{}`: the words as they stand, then the
/// number as `Display` writes a `u64`, in decimal digits without a sign and
/// without zeros in front.
#[verifier::external_body]
pub(crate) fn numbered_index_file_name(segment_number: u64) -> (name: String)
    ensures
        vstd::utf8::encode_utf8(name@) == vstd::utf8::encode_utf8("index.btree."@) + decimal(
            segment_number as nat,
        ),
{
    format!("index.btree.{}", segment_number)
}

/// The name of the file that holds a segment of an index.
pub fn index_file_name(segment_number: u64) -> (name: String)
    ensures
        vstd::utf8::encode_utf8(name@) == index_file_name_bytes(segment_number),
{
    if segment_number == 0 {
        "index.btree".to_owned()
    } else {
        numbered_index_file_name(segment_number)
    }
}

/// The two kinds of node.
#[derive(Debug, Clone, Copy, PartialEq, Eq, Structural)]
pub enum BTreeNodeType {
    Internal,
    Leaf,
}

/// Where a node lies: the offset of its block in the index's address space.
#[derive(Debug, Clone, Copy, PartialEq, Eq, Structural)]
pub struct BTreeNodePosition {
    pub offset: u64,
}

/// An entry of a leaf: a key and where its record lies.
#[derive(Debug, Clone)]
pub struct BTreeLeafEntry {
    pub key: String,
    pub position: TableRecordPosition,
}

/// An entry of an internal node: a separator key and the child to its right.
#[derive(Debug, Clone)]
pub struct BTreeInternalEntry {
    pub key: String,
    pub child_position: BTreeNodePosition,
}

/// A node. A leaf uses `leaf_entries`; an internal node uses
/// `internal_entries` and `leftmost_child`.
#[derive(Debug, Clone)]
pub struct BTreeNode {
    pub node_type: BTreeNodeType,
    pub parent: Option<BTreeNodePosition>,
    pub leaf_entries: Vec<BTreeLeafEntry>,
    pub internal_entries: Vec<BTreeInternalEntry>,
    pub leftmost_child: Option<BTreeNodePosition>,
}

/// What the index remembers between runs.
#[derive(Debug, Clone, Copy, PartialEq, Eq, Structural)]
pub struct BTreeMetadata {
    pub root_position: Option<BTreeNodePosition>,
    pub order: u16,
    pub next_offset: u64,
}

/// A leaf entry as a value: key, segment number, offset.
pub struct LeafEntryView {
    pub key: Seq<char>,
    pub segment_id: u64,
    pub offset: u32,
}

/// An internal entry as a value: separator key and child offset.
pub struct InternalEntryView {
    pub key: Seq<char>,
    pub child: u64,
}

/// A node as a value.
pub struct BTreeNodeView {
    pub node_type: BTreeNodeType,
    pub parent: Option<u64>,
    pub leaf_entries: Seq<LeafEntryView>,
    pub internal_entries: Seq<InternalEntryView>,
    pub leftmost_child: Option<u64>,
}

impl View for BTreeLeafEntry {
    type V = LeafEntryView;

    open spec fn view(&self) -> LeafEntryView {
        LeafEntryView {
            key: self.key@,
            segment_id: self.position.segment_id.0,
            offset: self.position.offset,
        }
    }
}

impl View for BTreeInternalEntry {
    type V = InternalEntryView;

    open spec fn view(&self) -> InternalEntryView {
        InternalEntryView { key: self.key@, child: self.child_position.offset }
    }
}

/// The offset inside an optional position.
pub open spec fn offset_of(p: Option<BTreeNodePosition>) -> Option<u64> {
    match p {
        Some(q) => Some(q.offset),
        None => None,
    }
}

/// The leaf entries of a vector as values.
pub open spec fn leaf_views(entries: Seq<BTreeLeafEntry>) -> Seq<LeafEntryView> {
    Seq::new(entries.len(), |i: int| entries[i]@)
}

/// The internal entries of a vector as values.
pub open spec fn internal_views(entries: Seq<BTreeInternalEntry>) -> Seq<InternalEntryView> {
    Seq::new(entries.len(), |i: int| entries[i]@)
}

impl View for BTreeNode {
    type V = BTreeNodeView;

    open spec fn view(&self) -> BTreeNodeView {
        BTreeNodeView {
            node_type: self.node_type,
            parent: offset_of(self.parent),
            leaf_entries: leaf_views(self.leaf_entries@),
            internal_entries: internal_views(self.internal_entries@),
            leftmost_child: offset_of(self.leftmost_child),
        }
    }
}

impl BTreeNode {
    /// An empty leaf.
    pub fn new_leaf() -> (node: Self)
        ensures
            node@ == (BTreeNodeView {
                node_type: BTreeNodeType::Leaf,
                parent: None,
                leaf_entries: Seq::empty(),
                internal_entries: Seq::empty(),
                leftmost_child: None,
            }),
    {
        let node = BTreeNode {
            node_type: BTreeNodeType::Leaf,
            parent: None,
            leaf_entries: Vec::new(),
            internal_entries: Vec::new(),
            leftmost_child: None,
        };
        assert(node@.leaf_entries =~= Seq::empty());
        assert(node@.internal_entries =~= Seq::empty());
        node
    }

    /// An empty internal node.
    pub fn new_internal() -> (node: Self)
        ensures
            node@ == (BTreeNodeView {
                node_type: BTreeNodeType::Internal,
                parent: None,
                leaf_entries: Seq::empty(),
                internal_entries: Seq::empty(),
                leftmost_child: None,
            }),
    {
        let node = BTreeNode {
            node_type: BTreeNodeType::Internal,
            parent: None,
            leaf_entries: Vec::new(),
            internal_entries: Vec::new(),
            leftmost_child: None,
        };
        assert(node@.leaf_entries =~= Seq::empty());
        assert(node@.internal_entries =~= Seq::empty());
        node
    }

    /// Whether the node is a leaf.
    pub fn is_leaf(&self) -> (r: bool)
        ensures
            r == (self.node_type == BTreeNodeType::Leaf),
    {
        self.node_type == BTreeNodeType::Leaf
    }

    /// Whether the node holds as many entries as a node of the given order may: `order - 1`.
    pub fn is_full(&self, order: u16) -> (r: bool)
        requires
            order >= 1,
        ensures
            r == node_full(self@, order),
    {
        let limit: usize = (order - 1) as usize;
        match self.node_type {
            BTreeNodeType::Leaf => self.leaf_entries.len() >= limit,
            BTreeNodeType::Internal => self.internal_entries.len() >= limit,
        }
    }
}

/// Whether a node holds at least `order - 1` entries of its kind.
pub open spec fn node_full(node: BTreeNodeView, order: u16) -> bool {
    match node.node_type {
        BTreeNodeType::Leaf => node.leaf_entries.len() >= order - 1,
        BTreeNodeType::Internal => node.internal_entries.len() >= order - 1,
    }
}

impl Default for BTreeMetadata {
    fn default() -> (m: Self)
        ensures
            m == fresh_metadata(),
    {
        BTreeMetadata { root_position: None, order: BTREE_ORDER, next_offset: 0 }
    }
}

/// The metadata of an empty index.
pub open spec fn fresh_metadata() -> BTreeMetadata {
    BTreeMetadata { root_position: None, order: BTREE_ORDER, next_offset: 0 }
}


/// The number under which a kind of node is encoded.
pub open spec fn kind_index(t: BTreeNodeType) -> u32 {
    match t {
        BTreeNodeType::Internal => 0,
        BTreeNodeType::Leaf => 1,
    }
}

/// The fields of a node in the order in which they are encoded.
pub open spec fn node_fields(node: BTreeNodeView) -> NodeFields {
    (
        kind_index(node.node_type),
        node.parent,
        Seq::new(
            node.leaf_entries.len(),
            |i: int|
                (
                    node.leaf_entries[i].key,
                    node.leaf_entries[i].segment_id,
                    node.leaf_entries[i].offset,
                ),
        ),
        Seq::new(
            node.internal_entries.len(),
            |i: int| (node.internal_entries[i].key, node.internal_entries[i].child),
        ),
        node.leftmost_child,
    )
}

/// The node that decoded fields stand for; none where the kind is unknown.
pub open spec fn fields_node(f: NodeFields) -> Option<BTreeNodeView> {
    if f.0 > 1 {
        None
    } else {
        Some(
            BTreeNodeView {
                node_type: if f.0 == 0 {
                    BTreeNodeType::Internal
                } else {
                    BTreeNodeType::Leaf
                },
                parent: f.1,
                leaf_entries: Seq::new(
                    f.2.len(),
                    |i: int| LeafEntryView { key: f.2[i].0, segment_id: f.2[i].1, offset: f.2[i].2 },
                ),
                internal_entries: Seq::new(
                    f.3.len(),
                    |i: int| InternalEntryView { key: f.3[i].0, child: f.3[i].1 },
                ),
                leftmost_child: f.4,
            },
        )
    }
}

/// The fields of a node stand for that node.
pub proof fn lemma_fields_round_trip(node: BTreeNodeView)
    ensures
        fields_node(node_fields(node)) == Some(node),
{
    let back = fields_node(node_fields(node)).unwrap();
    assert(back.leaf_entries =~= node.leaf_entries);
    assert(back.internal_entries =~= node.internal_entries);
}

/// The bytes that stand for a node, where the encoder gives any.
pub open spec fn encoded_node(node: BTreeNodeView) -> Option<Seq<u8>> {
    node_encoding(node_fields(node))
}

/// The node that bytes stand for, where they are no more than a block
/// holds and stand for one.
pub open spec fn decoded_node(data: Seq<u8>) -> Option<BTreeNodeView> {
    if data.len() > NODE_PAYLOAD_MAX {
        None
    } else {
        match node_decoding(data) {
            Some(f) => fields_node(f),
            None => None,
        }
    }
}

/// The fields of the metadata in the order in which they are encoded.
pub open spec fn metadata_fields(m: BTreeMetadata) -> MetadataFields {
    (offset_of(m.root_position), m.order, m.next_offset)
}

/// The metadata that bytes stand for, where they stand for any.
pub open spec fn decoded_metadata(data: Seq<u8>) -> Option<BTreeMetadata> {
    match metadata_decoding(data) {
        Some(f) => Some(
            BTreeMetadata {
                root_position: match f.0 {
                    Some(offset) => Some(BTreeNodePosition { offset }),
                    None => None,
                },
                order: f.1,
                next_offset: f.2,
            },
        ),
        None => None,
    }
}

impl BTreeNode {
    /// Encodes the node. The bytes are those the encoder gives for the node's
    /// fields; when they fit into a block, decoding them gives the node back.
    pub fn encode(&self) -> (r: Option<Vec<u8>>)
        ensures
            match r {
                Some(bytes) => {
                    &&& encoded_node(self@) == Some(bytes@)
                    &&& bytes@.len() > 0
                    &&& bytes@.len() <= NODE_PAYLOAD_MAX ==> decoded_node(bytes@) == Some(self@)
                },
                None => encoded_node(self@) is None,
            },
    {
        let kind: u32 = match self.node_type {
            BTreeNodeType::Internal => 0,
            BTreeNodeType::Leaf => 1,
        };
        let parent = match self.parent {
            Some(p) => Some(p.offset),
            None => None,
        };
        let leftmost = match self.leftmost_child {
            Some(p) => Some(p.offset),
            None => None,
        };
        let mut leaves: Vec<(String, u64, u32)> = Vec::new();
        let mut i: usize = 0;
        while i < self.leaf_entries.len()
            invariant
                i <= self.leaf_entries.len(),
                leaves@.len() == i,
                forall|j: int|
                    0 <= j < i ==> (#[trigger] leaves@[j]).0@ == self.leaf_entries@[j].key@
                        && leaves@[j].1 == self.leaf_entries@[j].position.segment_id.0
                        && leaves@[j].2 == self.leaf_entries@[j].position.offset,
            decreases self.leaf_entries.len() - i,
        {
            let entry = &self.leaf_entries[i];
            leaves.push((entry.key.clone(), entry.position.segment_id.0, entry.position.offset));
            i += 1;
        }
        let mut internals: Vec<(String, u64)> = Vec::new();
        let mut k: usize = 0;
        while k < self.internal_entries.len()
            invariant
                k <= self.internal_entries.len(),
                internals@.len() == k,
                forall|j: int|
                    0 <= j < k ==> (#[trigger] internals@[j]).0@ == self.internal_entries@[j].key@
                        && internals@[j].1 == self.internal_entries@[j].child_position.offset,
            decreases self.internal_entries.len() - k,
        {
            let entry = &self.internal_entries[k];
            internals.push((entry.key.clone(), entry.child_position.offset));
            k += 1;
        }
        proof {
            assert(leaf_rows(leaves@) =~= node_fields(self@).2);
            assert(internal_rows(internals@) =~= node_fields(self@).3);
            lemma_fields_round_trip(self@);
        }
        match encode_node_fields(kind, parent, &leaves, &internals, leftmost) {
            Ok(bytes) => Some(bytes),
            Err(_) => None,
        }
    }

    /// Decodes a node from the front of `data`. There is none where the
    /// decoder reads no fields or the kind is neither of the two.
    pub fn decode(data: &[u8]) -> (r: Option<BTreeNode>)
        ensures
            match r {
                Some(node) => decoded_node(data@) == Some(node@),
                None => decoded_node(data@) is None,
            },
    {
        if data.len() > NODE_PAYLOAD_MAX {
            return None;
        }
        let fields = match decode_node_fields(data) {
            Ok(f) => f,
            Err(_) => { return None; },
        };
        let (kind, parent, leaves, internals, leftmost) = fields;
        if kind > 1 {
            return None;
        }
        let node_type = if kind == 0 {
            BTreeNodeType::Internal
        } else {
            BTreeNodeType::Leaf
        };
        let mut leaf_entries: Vec<BTreeLeafEntry> = Vec::new();
        let mut i: usize = 0;
        while i < leaves.len()
            invariant
                i <= leaves.len(),
                leaf_entries@.len() == i,
                forall|j: int|
                    0 <= j < i ==> (#[trigger] leaf_entries@[j])@ == (LeafEntryView {
                        key: leaves@[j].0@,
                        segment_id: leaves@[j].1,
                        offset: leaves@[j].2,
                    }),
            decreases leaves.len() - i,
        {
            let row = &leaves[i];
            leaf_entries.push(
                BTreeLeafEntry {
                    key: row.0.clone(),
                    position: TableRecordPosition {
                        segment_id: TableSegmentID(row.1),
                        offset: row.2,
                    },
                },
            );
            i += 1;
        }
        let mut internal_entries: Vec<BTreeInternalEntry> = Vec::new();
        let mut k: usize = 0;
        while k < internals.len()
            invariant
                k <= internals.len(),
                internal_entries@.len() == k,
                forall|j: int|
                    0 <= j < k ==> (#[trigger] internal_entries@[j])@ == (InternalEntryView {
                        key: internals@[j].0@,
                        child: internals@[j].1,
                    }),
            decreases internals.len() - k,
        {
            let row = &internals[k];
            internal_entries.push(
                BTreeInternalEntry {
                    key: row.0.clone(),
                    child_position: BTreeNodePosition { offset: row.1 },
                },
            );
            k += 1;
        }
        let node = BTreeNode {
            node_type,
            parent: match parent {
                Some(offset) => Some(BTreeNodePosition { offset }),
                None => None,
            },
            leaf_entries,
            internal_entries,
            leftmost_child: match leftmost {
                Some(offset) => Some(BTreeNodePosition { offset }),
                None => None,
            },
        };
        proof {
            let f = (kind, parent, leaf_rows(leaves@), internal_rows(internals@), leftmost);
            let v = fields_node(f).unwrap();
            assert(node@.leaf_entries =~= v.leaf_entries);
            assert(node@.internal_entries =~= v.internal_entries);
        }
        Some(node)
    }
}

/// The contents of the segment files.
pub open spec fn images(files: Seq<Vec<u8>>) -> Seq<Seq<u8>> {
    Seq::new(files.len(), |i: int| files[i]@)
}

/// The number of the segment file that holds a logical offset.
pub open spec fn segment_number(offset: u64) -> int {
    offset as int / 1073741824
}

/// Where in its segment file a logical offset lies.
pub open spec fn segment_offset(offset: u64) -> int {
    offset as int % 1073741824
}

/// Whether an offset is the start of a block.
pub open spec fn block_aligned(offset: u64) -> bool {
    offset as int % 8192 == 0
}

/// Splits a logical offset into the segment file's number and the offset in that file.
pub fn offset_to_segment(logical_offset: u64) -> (r: (u64, u64))
    ensures
        r.0 == segment_number(logical_offset),
        r.1 == segment_offset(logical_offset),
        r.1 < INDEX_SEGMENT_SIZE,
{
    (logical_offset / INDEX_SEGMENT_SIZE, logical_offset % INDEX_SEGMENT_SIZE)
}

/// The bytes of the segment file that holds `offset`; none where that file is missing.
pub open spec fn segment_bytes(files: Seq<Seq<u8>>, offset: u64) -> Seq<u8> {
    if segment_number(offset) < files.len() {
        files[segment_number(offset)]
    } else {
        Seq::empty()
    }
}

/// The payload length that the four bytes at `offset` declare.
pub open spec fn declared_len(files: Seq<Seq<u8>>, offset: u64) -> int {
    be_u32(window(segment_bytes(files, offset), segment_offset(offset), 4))
}

/// Whether a block with a payload lies at `offset`: the offset starts a
/// block, the length prefix lies inside the file, it declares more than
/// nothing and no more than a block holds, and the payload lies inside the
/// file.
pub open spec fn block_present(files: Seq<Seq<u8>>, offset: u64) -> bool {
    &&& block_aligned(offset)
    &&& segment_offset(offset) + 4 <= segment_bytes(files, offset).len()
    &&& 0 < declared_len(files, offset) <= NODE_PAYLOAD_MAX
    &&& segment_offset(offset) + 4 + declared_len(files, offset) <= segment_bytes(
        files,
        offset,
    ).len()
}

/// The payload of the block at `offset`.
pub open spec fn block_payload(files: Seq<Seq<u8>>, offset: u64) -> Seq<u8> {
    window(segment_bytes(files, offset), segment_offset(offset) + 4, declared_len(files, offset))
}

/// The node stored at `offset`, where a block lies there and its payload decodes.
pub open spec fn node_at(files: Seq<Seq<u8>>, offset: u64) -> Option<BTreeNodeView> {
    if block_present(files, offset) {
        decoded_node(block_payload(files, offset))
    } else {
        None
    }
}

/// A block: the length of the payload in four bytes, most significant first,
/// the payload, and zeros up to the block's size.
pub open spec fn block_bytes(payload: Seq<u8>) -> Seq<u8>
    recommends
        payload.len() <= NODE_PAYLOAD_MAX,
{
    u32_be_bytes(payload.len() as u32) + payload + Seq::new(
        (NODE_PAYLOAD_MAX - payload.len()) as nat,
        |i: int| 0u8,
    )
}

/// The files after a block with `payload` was stored at `offset`. The file is
/// made where the offset starts the segment after the last.
pub open spec fn stored(files: Seq<Seq<u8>>, offset: u64, payload: Seq<u8>) -> Seq<Seq<u8>>
    recommends
        segment_number(offset) <= files.len(),
{
    let file = segment_bytes(files, offset);
    let at = segment_offset(offset);
    let written = overlay(grown(file, at + NODE_SIZE), at, block_bytes(payload));
    if segment_number(offset) < files.len() {
        files.update(segment_number(offset), written)
    } else {
        files.push(written)
    }
}

/// Whether every node that could be read before, at an offset outside
/// `touched`, reads the same afterwards.
pub open spec fn kept_except(before: Seq<Seq<u8>>, after: Seq<Seq<u8>>, touched: Set<u64>) -> bool {
    forall|q: u64|
        !touched.contains(q) && (#[trigger] node_at(before, q)) is Some ==> node_at(after, q)
            == node_at(before, q)
}

/// A stored block can be read back.
pub proof fn lemma_stored_present(files: Seq<Seq<u8>>, offset: u64, payload: Seq<u8>)
    requires
        block_aligned(offset),
        0 < payload.len() <= NODE_PAYLOAD_MAX,
        segment_number(offset) <= files.len(),
    ensures
        block_present(stored(files, offset, payload), offset),
        block_payload(stored(files, offset, payload), offset) == payload,
{
    let after = stored(files, offset, payload);
    let at = segment_offset(offset);
    let file = segment_bytes(after, offset);
    let block = block_bytes(payload);
    crate::bytes::lemma_be_u32_round_trip(payload.len() as u32);
    assert(block.len() == NODE_SIZE);
    assert(at % 8192 == 0);
    assert(at + NODE_SIZE <= 1073741824);
    assert(file.len() >= at + NODE_SIZE);
    assert(window(file, at, 4) =~= u32_be_bytes(payload.len() as u32));
    assert(window(file, at + 4, payload.len() as int) =~= payload);
}

/// Storing a block leaves every other block as it was.
pub proof fn lemma_stored_frame(files: Seq<Seq<u8>>, offset: u64, payload: Seq<u8>, q: u64)
    requires
        block_aligned(offset),
        payload.len() <= NODE_PAYLOAD_MAX,
        segment_number(offset) <= files.len(),
        q != offset,
        block_present(files, q),
    ensures
        block_present(stored(files, offset, payload), q),
        block_payload(stored(files, offset, payload), q) == block_payload(files, q),
{
    let after = stored(files, offset, payload);
    let at = segment_offset(offset);
    let qat = segment_offset(q);
    let block = block_bytes(payload);
    assert(block.len() == NODE_SIZE);
    assert(segment_number(q) < files.len());
    if segment_number(q) != segment_number(offset) {
        assert(segment_bytes(after, q) == segment_bytes(files, q));
    } else {
        let old_file = segment_bytes(files, q);
        let new_file = segment_bytes(after, q);
        assert(qat != at);
        assert(at % 8192 == 0 && qat % 8192 == 0);
        assert(qat + 8192 <= at || at + 8192 <= qat);
        assert(window(new_file, qat, 4) =~= window(old_file, qat, 4));
        let len = declared_len(files, q);
        assert(window(new_file, qat + 4, len) =~= window(old_file, qat + 4, len));
    }
}

/// Storing a block keeps every node but the one at the block's offset.
pub proof fn lemma_stored_keeps(files: Seq<Seq<u8>>, offset: u64, payload: Seq<u8>)
    requires
        block_aligned(offset),
        payload.len() <= NODE_PAYLOAD_MAX,
        segment_number(offset) <= files.len(),
    ensures
        kept_except(files, stored(files, offset, payload), set![offset]),
{
    let after = stored(files, offset, payload);
    assert forall|q: u64|
        !set![offset].contains(q) && (#[trigger] node_at(files, q)) is Some implies node_at(
        after,
        q,
    ) == node_at(files, q) by {
        lemma_stored_frame(files, offset, payload, q);
    }
}

/// Whether every offset outside `touched` reads the same before and afterwards,
/// be it a node or nothing.
pub open spec fn same_except(before: Seq<Seq<u8>>, after: Seq<Seq<u8>>, touched: Set<u64>) -> bool {
    forall|q: u64| !touched.contains(q) ==> #[trigger] node_at(after, q) == node_at(before, q)
}

/// Storing a block over one that was there changes what no other offset reads.
pub proof fn lemma_restored_same(files: Seq<Seq<u8>>, offset: u64, payload: Seq<u8>)
    requires
        block_present(files, offset),
        payload.len() <= NODE_PAYLOAD_MAX,
    ensures
        same_except(files, stored(files, offset, payload), set![offset]),
{
    let after = stored(files, offset, payload);
    let at = segment_offset(offset);
    let block = block_bytes(payload);
    assert(block.len() == NODE_SIZE);
    assert forall|q: u64| !set![offset].contains(q) implies #[trigger] node_at(after, q)
        == node_at(files, q) by {
        if block_aligned(q) {
            let qat = segment_offset(q);
            if segment_number(q) != segment_number(offset) {
                assert(segment_bytes(after, q) == segment_bytes(files, q));
            } else {
                let old_file = segment_bytes(files, q);
                let new_file = segment_bytes(after, q);
                assert(qat != at);
                assert(at % 8192 == 0 && qat % 8192 == 0);
                assert(qat + 8192 <= at || at + 8192 <= qat);
                if qat + 8192 <= at {
                    assert(window(new_file, qat, 4) =~= window(old_file, qat, 4));
                    let len = declared_len(files, q);
                    if 0 < len <= NODE_PAYLOAD_MAX {
                        assert(window(new_file, qat + 4, len) =~= window(old_file, qat + 4, len));
                    }
                } else {
                    if qat + 4 <= old_file.len() {
                        assert(window(new_file, qat, 4) =~= window(old_file, qat, 4));
                        let len = declared_len(files, q);
                        if 0 < len <= NODE_PAYLOAD_MAX && qat + 4 + len <= old_file.len() {
                            assert(window(new_file, qat + 4, len) =~= window(
                                old_file,
                                qat + 4,
                                len,
                            ));
                        }
                        if 0 < len <= NODE_PAYLOAD_MAX && qat + 4 + len <= new_file.len() {
                            assert(new_file.len() == old_file.len() || new_file.len() == at
                                + NODE_SIZE);
                        }
                    } else {
                        assert(new_file.len() == old_file.len() || new_file.len() == at
                            + NODE_SIZE);
                    }
                }
            }
        }
    }
}

/// An index: its metadata and the images of its files.
pub struct BTreeIndex {
    /// The metadata in use.
    pub metadata: BTreeMetadata,
    /// The metadata file; none while there is no such file.
    pub metadata_file: Option<Vec<u8>>,
    /// The segment files in the order of their numbers.
    pub segments: Vec<Vec<u8>>,
    /// What is known of the nodes of the tree, by their offsets. It is kept
    /// for the proofs only.
    pub slots: Ghost<Map<u64, Slot>>,
}

/// Builds the block that holds `payload`.
pub fn frame_block(payload: &Vec<u8>) -> (block: Vec<u8>)
    requires
        payload@.len() <= NODE_PAYLOAD_MAX,
    ensures
        block@ == block_bytes(payload@),
{
    let mut block = zeros(NODE_SIZE);
    let header = be_bytes_of(payload.len() as u32);
    write_at(&mut block, 0, header.as_slice());
    write_at(&mut block, 4, payload.as_slice());
    assert(block@ =~= block_bytes(payload@));
    block
}

impl BTreeIndex {
    /// An index without files and with the metadata of an empty index.
    pub fn new() -> (index: Self)
        ensures
            index.metadata == fresh_metadata(),
            index.metadata_file is None,
            index.segments@.len() == 0,
            index.slots@ == Map::<u64, Slot>::empty(),
            index.sound(),
    {
        BTreeIndex {
            metadata: BTreeMetadata { root_position: None, order: BTREE_ORDER, next_offset: 0 },
            metadata_file: None,
            segments: Vec::new(),
            slots: Ghost(Map::empty()),
        }
    }

    /// The contents of the segment files.
    pub open spec fn files(&self) -> Seq<Seq<u8>> {
        images(self.segments@)
    }

    /// Whether the tree is in order: the root is known without bounds and
    /// with no node above it, and every known node is in order, so that the
    /// keys of every leaf never go down and lie between the separators
    /// around the leaf. An index without a root is in order.
    pub open spec fn ordered(&self) -> bool {
        match self.metadata.root_position {
            None => true,
            Some(root) => {
                &&& self.slots@.contains_key(root.offset)
                &&& self.slots@[root.offset].lo is None
                &&& self.slots@[root.offset].hi is None
                &&& self.slots@[root.offset].up is None
                &&& ordered_but(self.files(), self.slots@, self.metadata.next_offset, None)
            },
        }
    }

    /// Whether the tree is sound: it is in order, what is known of the nodes
    /// tells the way up from every node, no leaf holds a key twice, and the
    /// tree is no higher than a search goes deep. An index is sound when it is
    /// made, and putting in, taking out and replacing entries keep it sound
    /// where they succeed.
    pub closed spec fn sound(&self) -> bool {
        whole(*self)
    }

    /// A sound tree is in order.
    pub proof fn lemma_sound_ordered(&self)
        requires
            self.sound(),
        ensures
            self.ordered(),
            self.height() <= MAX_TREE_DEPTH,
            self.metadata.root_position is Some ==> self.lookup_never_fails(),
    {
        if self.metadata.root_position is Some {
            assert forall|key: Seq<char>| #[trigger] self.lookup(key) != Lookup::Broken by {
                lemma_lookup_is_find(*self, key);
            }
        }
    }

    /// Whether no search from the root fails.
    pub open spec fn lookup_never_fails(&self) -> bool {
        forall|key: Seq<char>| #[trigger] self.lookup(key) != Lookup::Broken
    }

    /// The number of levels of the tree, as far as it is known.
    pub open spec fn height(&self) -> nat {
        match self.metadata.root_position {
            None => 0,
            Some(root) => self.slots@[root.offset].height,
        }
    }

    /// Stores a block at `offset`, growing the segment file where it is too
    /// short and making it where `offset` starts the segment after the last.
    /// A segment further out cannot be made.
    pub fn store_block(&mut self, offset: u64, payload: &Vec<u8>) -> (r: Result<(), Errors>)
        requires
            block_aligned(offset),
            payload@.len() <= NODE_PAYLOAD_MAX,
        ensures
            final(self).metadata == old(self).metadata,
            final(self).metadata_file == old(self).metadata_file,
            final(self).slots == old(self).slots,
            match r {
                Ok(_) => {
                    &&& segment_number(offset) <= old(self).segments@.len()
                    &&& final(self).files() == stored(old(self).files(), offset, payload@)
                },
                Err(e) => {
                    &&& e.error_code == ErrorCodes::FileOpenError
                    &&& segment_number(offset) > old(self).segments@.len()
                    &&& final(self).segments == old(self).segments
                },
            },
    {
        let (number, at) = offset_to_segment(offset);
        let count = self.segments.len();
        if number > count as u64 {
            return Err(Errors::new(ErrorCodes::FileOpenError));
        }
        let number: usize = number as usize;
        let at: usize = at as usize;
        if number == count {
            self.segments.push(Vec::new());
        }
        let block = frame_block(payload);
        let file = &mut self.segments[number];
        let ghost before = file@;
        if file.len() < at + NODE_SIZE {
            let missing = zeros(at + NODE_SIZE - file.len());
            file.extend_from_slice(missing.as_slice());
        }
        assert(file@ =~= grown(before, at + NODE_SIZE));
        write_at(file, at, block.as_slice());
        assert(self.files() =~= stored(old(self).files(), offset, payload@));
        Ok(())
    }

    /// Reads the node at `position`. It fails where no block with a payload
    /// lies there or the payload does not decode.
    pub fn read_node(&self, position: BTreeNodePosition) -> (r: Result<BTreeNode, Errors>)
        ensures
            match r {
                Ok(node) => node_at(self.files(), position.offset) == Some(node@),
                Err(e) => e.error_code == ErrorCodes::FileReadError && node_at(
                    self.files(),
                    position.offset,
                ) is None,
            },
    {
        if position.offset % (NODE_SIZE as u64) != 0 {
            return Err(Errors::new(ErrorCodes::FileReadError));
        }
        let (number, at) = offset_to_segment(position.offset);
        if number >= self.segments.len() as u64 {
            return Err(Errors::new(ErrorCodes::FileReadError));
        }
        let file = &self.segments[number as usize];
        let at: usize = at as usize;
        let file_size = file.len();
        if at + 4 > file_size {
            return Err(Errors::new(ErrorCodes::FileReadError));
        }
        let node_size: usize = read_be_u32(file.as_slice(), at) as usize;
        if node_size == 0 {
            return Err(Errors::new(ErrorCodes::FileReadError));
        }
        if node_size > NODE_PAYLOAD_MAX {
            return Err(Errors::new(ErrorCodes::FileReadError));
        }
        if at + 4 + node_size > file_size {
            return Err(Errors::new(ErrorCodes::FileReadError));
        }
        let payload = slice_subrange(file.as_slice(), at + 4, at + 4 + node_size);
        match BTreeNode::decode(payload) {
            Some(node) => Ok(node),
            None => Err(Errors::new(ErrorCodes::FileReadError)),
        }
    }

    /// Whether the metadata file holds the metadata in use.
    pub open spec fn metadata_saved(&self) -> bool {
        &&& self.metadata_file is Some
        &&& metadata_encoding(metadata_fields(self.metadata)) == Some(self.metadata_file.unwrap()@)
        &&& decoded_metadata(self.metadata_file.unwrap()@) == Some(self.metadata)
    }

    /// Writes the metadata in use to the metadata file.
    pub fn save_metadata(&mut self) -> (r: Result<(), Errors>)
        ensures
            final(self).metadata == old(self).metadata,
            final(self).segments == old(self).segments,
            final(self).slots == old(self).slots,
            r is Ok,
            match r {
                Ok(_) => final(self).metadata_saved(),
                Err(e) => e.error_code == ErrorCodes::FileWriteError && final(self).metadata_file
                    == old(self).metadata_file,
            },
    {
        let root = match self.metadata.root_position {
            Some(p) => Some(p.offset),
            None => None,
        };
        match encode_metadata_fields(root, self.metadata.order, self.metadata.next_offset) {
            Ok(bytes) => {
                self.metadata_file = Some(bytes);
                Ok(())
            },
            Err(_) => Err(Errors::new(ErrorCodes::FileWriteError)),
        }
    }

    /// Whether `node` can be written over the block at `offset`: the offset
    /// starts a block in a segment that exists or comes next, and the node's
    /// encoding fits into a block.
    pub open spec fn can_update(&self, offset: u64, node: BTreeNodeView) -> bool {
        &&& encoded_node(node) is Some
        &&& encoded_node(node).unwrap().len() <= NODE_PAYLOAD_MAX
        &&& block_aligned(offset)
        &&& segment_number(offset) <= self.segments@.len()
    }

    /// Writes `node` over the block at `position`. Every other node stays as
    /// it was. Nothing changes where the node cannot be written.
    pub fn update_node(&mut self, position: BTreeNodePosition, node: &BTreeNode) -> (r: Result<
        (),
        Errors,
    >)
        ensures
            final(self).metadata == old(self).metadata,
            final(self).metadata_file == old(self).metadata_file,
            final(self).slots == old(self).slots,
            r is Ok ==> shapes_kept(old(self).files(), final(self).files(), set![position.offset]),
            r is Ok <==> old(self).can_update(position.offset, node@),
            match updated(old(self).files(), position.offset, node@) {
                Some(now) => r is Ok && final(self).files() == now,
                None => r is Err,
            },
            match r {
                Ok(_) => {
                    &&& final(self).files() == stored(
                        old(self).files(),
                        position.offset,
                        encoded_node(node@).unwrap(),
                    )
                    &&& node_at(final(self).files(), position.offset) == Some(node@)
                    &&& kept_except(old(self).files(), final(self).files(), set![position.offset])
                    &&& block_present(old(self).files(), position.offset) ==> same_except(
                        old(self).files(),
                        final(self).files(),
                        set![position.offset],
                    )
                },
                Err(e) => {
                    &&& final(self).segments == old(self).segments
                    &&& e.error_code == ErrorCodes::FileWriteError || e.error_code
                        == ErrorCodes::FileOpenError
                },
            },
    {
        let encoded = match node.encode() {
            Some(bytes) => bytes,
            None => { return Err(Errors::new(ErrorCodes::FileWriteError)); },
        };
        if encoded.len() > NODE_PAYLOAD_MAX {
            return Err(Errors::new(ErrorCodes::FileWriteError));
        }
        if position.offset % (NODE_SIZE as u64) != 0 {
            return Err(Errors::new(ErrorCodes::FileWriteError));
        }
        proof {
            if segment_number(position.offset) <= self.segments@.len() {
                lemma_stored_present(self.files(), position.offset, encoded@);
                lemma_stored_keeps(self.files(), position.offset, encoded@);
                lemma_shapes_kept(
                    self.files(),
                    stored(self.files(), position.offset, encoded@),
                    set![position.offset],
                );
                if block_present(self.files(), position.offset) {
                    lemma_restored_same(self.files(), position.offset, encoded@);
                }
            }
        }
        self.store_block(position.offset, &encoded)
    }

    /// Whether `node` can be written as a new block: its encoding fits into a
    /// block, the next free offset starts a block in a segment that exists or
    /// comes next, the offset after it can be told, and the metadata with that
    /// offset can be encoded.
    pub open spec fn can_write(&self, node: BTreeNodeView) -> bool {
        &&& self.can_update(self.metadata.next_offset, node)
        &&& self.metadata.next_offset + NODE_SIZE <= u64::MAX
        &&& metadata_encoding(
            metadata_fields(
                BTreeMetadata {
                    next_offset: (self.metadata.next_offset + NODE_SIZE) as u64,
                    ..self.metadata
                },
            ),
        ) is Some
    }

/// Why a node cannot be written as a new block: it is too large for a
    /// block, the next free offset starts no block or has no block behind it,
    /// or it lies in a segment beyond the one that comes next. Nothing for a
    /// node that can be written.
    pub open spec fn write_fault(&self, node: BTreeNodeView) -> Option<ErrorCodes> {
        if encoded_node(node) is None || encoded_node(node).unwrap().len() > NODE_PAYLOAD_MAX
            || !block_aligned(self.metadata.next_offset) || self.metadata.next_offset + NODE_SIZE
            > u64::MAX {
            Some(ErrorCodes::FileWriteError)
        } else if segment_number(self.metadata.next_offset) > self.segments@.len() {
            Some(ErrorCodes::FileOpenError)
        } else {
            None
        }
    }

    /// Writes `node` as a new block at the next free offset, moves that offset
    /// on by one block and saves the metadata. Every other node stays as it
    /// was. A node that cannot be written changes nothing: one that is too
    /// large for a block is a write failure.
    pub fn write_node(&mut self, node: &BTreeNode) -> (r: Result<BTreeNodePosition, Errors>)
        ensures
            final(self).metadata.root_position == old(self).metadata.root_position,
            final(self).metadata.order == old(self).metadata.order,
            final(self).slots == old(self).slots,
            shapes_kept(
                old(self).files(),
                final(self).files(),
                set![old(self).metadata.next_offset],
            ),
            r is Ok <==> old(self).can_write(node@),
            failure(r) == old(self).write_fault(node@),
            r is Err ==> *final(self) == *old(self),
            match written(old(self).files(), old(self).metadata.next_offset, node@) {
                Some(now) => r is Ok && final(self).files() == now.0
                    && final(self).metadata.next_offset == now.1,
                None => r is Err,
            },
            kept_except(
                old(self).files(),
                final(self).files(),
                set![old(self).metadata.next_offset],
            ),
            match r {
                Ok(position) => {
                    &&& position.offset == old(self).metadata.next_offset
                    &&& final(self).metadata.next_offset == old(self).metadata.next_offset
                        + NODE_SIZE
                    &&& final(self).files() == stored(
                        old(self).files(),
                        position.offset,
                        encoded_node(node@).unwrap(),
                    )
                    &&& node_at(final(self).files(), position.offset) == Some(node@)
                    &&& final(self).metadata_saved()
                },
                Err(_) => true,
            },
    {
        let encoded = match node.encode() {
            Some(bytes) => bytes,
            None => { return Err(Errors::new(ErrorCodes::FileWriteError)); },
        };
        if encoded.len() > NODE_PAYLOAD_MAX {
            return Err(Errors::new(ErrorCodes::FileWriteError));
        }
        let offset = self.metadata.next_offset;
        if offset % (NODE_SIZE as u64) != 0 {
            return Err(Errors::new(ErrorCodes::FileWriteError));
        }
        let next = match offset.checked_add(NODE_SIZE as u64) {
            Some(n) => n,
            None => { return Err(Errors::new(ErrorCodes::FileWriteError)); },
        };
        proof {
            if segment_number(offset) <= self.segments@.len() {
                lemma_stored_present(self.files(), offset, encoded@);
                lemma_stored_keeps(self.files(), offset, encoded@);
                lemma_shapes_kept(
                    self.files(),
                    stored(self.files(), offset, encoded@),
                    set![offset],
                );
            }
        }
        match self.store_block(offset, &encoded) {
            Ok(_) => {},
            Err(e) => { return Err(e); },
        }
        self.metadata.next_offset = next;
        match self.save_metadata() {
            Ok(_) => {},
            Err(e) => { return Err(e); },
        }
        Ok(BTreeNodePosition { offset })
    }

    /// Decides whether the files fit the metadata `metadata` read from the
    /// metadata file.
    pub fn validate_index_files(&self, metadata: &BTreeMetadata) -> (valid: bool)
        ensures
            valid == index_valid(self.files(), *metadata),
    {
        if metadata.next_offset == 0 {
            return metadata.root_position.is_none();
        }
        let root = match metadata.root_position {
            Some(p) => p,
            None => { return false; },
        };
        let (last_segment, _) = offset_to_segment(metadata.next_offset);
        if last_segment >= self.segments.len() as u64 {
            return false;
        }
        if root.offset % (NODE_SIZE as u64) != 0 {
            return false;
        }
        let (number, at) = offset_to_segment(root.offset);
        if number >= self.segments.len() as u64 {
            return false;
        }
        let file = &self.segments[number as usize];
        let at: usize = at as usize;
        let file_size = file.len();
        if at + 4 > file_size {
            return false;
        }
        let node_size = read_be_u32(file.as_slice(), at);
        if node_size > NODE_SIZE_SANITY_LIMIT {
            return false;
        }
        if node_size == 0 {
            return false;
        }
        let node_size: usize = node_size as usize;
        if node_size > NODE_PAYLOAD_MAX {
            return false;
        }
        if node_size > file_size - at - 4 {
            return false;
        }
        let payload = slice_subrange(file.as_slice(), at + 4, at + 4 + node_size);
        BTreeNode::decode(payload).is_some()
    }

    /// Opens the index. Without a metadata file the index starts empty and
    /// the file is written. With one that does not decode the call fails. With
    /// one that the files do not fit, the segment files are dropped, the index
    /// starts empty and the file is written anew.
    pub fn initialize(&mut self) -> (r: Result<(), Errors>)
        ensures
            final(self).slots == old(self).slots,
            r is Ok <==> (old(self).metadata_file matches Some(bytes) ==> decoded_metadata(bytes@)
                is Some),
            old(self).sound() && final(self).segments == old(self).segments
                && final(self).metadata.root_position is None ==> final(self).sound(),
            match old(self).metadata_file {
                Some(bytes) => match decoded_metadata(bytes@) {
                    Some(m) => if index_valid(old(self).files(), m) {
                        &&& r is Ok
                        &&& final(self).metadata == m
                        &&& final(self).metadata_file == old(self).metadata_file
                        &&& final(self).segments == old(self).segments
                    } else {
                        &&& final(self).segments@.len() == 0
                        &&& final(self).started_empty(r, old(self).metadata_file)
                    },
                    None => {
                        &&& failure(r) == Some(ErrorCodes::FileReadError)
                        &&& *final(self) == *old(self)
                    },
                },
                None => {
                    &&& final(self).segments == old(self).segments
                    &&& final(self).started_empty(r, old(self).metadata_file)
                },
            },
    {
        let decoded = match &self.metadata_file {
            Some(bytes) => match decode_metadata_fields(bytes.as_slice()) {
                Ok(f) => Some(
                    BTreeMetadata {
                        root_position: match f.0 {
                            Some(offset) => Some(BTreeNodePosition { offset }),
                            None => None,
                        },
                        order: f.1,
                        next_offset: f.2,
                    },
                ),
                Err(_) => { return Err(Errors::new(ErrorCodes::FileReadError)); },
            },
            None => None,
        };
        match decoded {
            Some(metadata) => {
                if self.validate_index_files(&metadata) {
                    self.metadata = metadata;
                    Ok(())
                } else {
                    self.cleanup_index_files();
                    self.metadata = BTreeMetadata::default();
                    self.save_metadata()
                }
            },
            None => {
                self.metadata = BTreeMetadata::default();
                self.save_metadata()
            },
        }
    }

    /// What holds after the index was started empty: the metadata in use is
    /// that of an empty index; the call succeeded exactly when that metadata
    /// can be encoded; the metadata file holds it then, and is as before
    /// otherwise.
    pub open spec fn started_empty(
        &self,
        r: Result<(), Errors>,
        file_before: Option<Vec<u8>>,
    ) -> bool {
        &&& self.metadata == fresh_metadata()
        &&& r is Ok <==> metadata_encoding(metadata_fields(fresh_metadata())) is Some
        &&& match r {
            Ok(_) => self.metadata_saved(),
            Err(e) => e.error_code == ErrorCodes::FileWriteError && self.metadata_file
                == file_before,
        }
    }

    /// Drops every segment file.
    pub fn cleanup_index_files(&mut self)
        ensures
            final(self).segments@.len() == 0,
            final(self).metadata == old(self).metadata,
            final(self).metadata_file == old(self).metadata_file,
            final(self).slots == old(self).slots,
    {
        self.segments.clear();
    }
}

/// Whether the block of the root can be read: it lies in a segment file
/// that is there, and a node is stored at its offset. So the offset starts a
/// block, the block declares a payload of more than nothing and no more than a
/// block holds, inside the file, and the payload decodes.
pub open spec fn root_block_sound(files: Seq<Seq<u8>>, offset: u64) -> bool {
    &&& segment_number(offset) < files.len()
    &&& node_at(files, offset) is Some
}

/// Whether the files fit the metadata. An index that never wrote a block has
/// no root. One that did has a root, every segment file up to the one of the
/// next free offset, and a root block that can be trusted.
pub open spec fn index_valid(files: Seq<Seq<u8>>, m: BTreeMetadata) -> bool {
    if m.next_offset == 0 {
        m.root_position is None
    } else {
        &&& m.root_position is Some
        &&& segment_number(m.next_offset) < files.len()
        &&& root_block_sound(files, m.root_position.unwrap().offset)
    }
}


/// The deepest path from the root that a search follows. A tree built here
/// with the default order stays far below it; a path that goes on is taken as
/// damage.
pub const MAX_TREE_DEPTH: u64 = 64;

/// Where the record of a leaf entry lies.
pub open spec fn entry_position(e: LeafEntryView) -> TableRecordPosition {
    TableRecordPosition { segment_id: TableSegmentID(e.segment_id), offset: e.offset }
}

/// The position under the first entry with the given key.
pub open spec fn leaf_lookup(entries: Seq<LeafEntryView>, key: Seq<char>) -> Option<
    TableRecordPosition,
>
    decreases entries.len(),
{
    if entries.len() == 0 {
        None
    } else if entries[0].key == key {
        Some(entry_position(entries[0]))
    } else {
        leaf_lookup(entries.skip(1), key)
    }
}

/// The number of entries at the front whose key comes before `key`: the
/// place where an entry with `key` goes in a sorted leaf.
pub open spec fn leaf_insert_index(entries: Seq<LeafEntryView>, key: Seq<char>) -> int
    decreases entries.len(),
{
    if entries.len() == 0 || !key_before(entries[0].key, key) {
        0
    } else {
        1 + leaf_insert_index(entries.skip(1), key)
    }
}

/// The number of separators at the front that `key` does not come before.
pub open spec fn descend_index(entries: Seq<InternalEntryView>, key: Seq<char>) -> int
    decreases entries.len(),
{
    if entries.len() == 0 || key_before(key, entries[0].key) {
        0
    } else {
        1 + descend_index(entries.skip(1), key)
    }
}

/// The child under which `key` belongs: the leftmost child where `key` comes
/// before the first separator, else the child of the last separator that
/// `key` does not come before, counted from the front.
pub open spec fn child_for(leftmost: u64, entries: Seq<InternalEntryView>, key: Seq<char>) -> u64 {
    let i = descend_index(entries, key);
    if i == 0 {
        leftmost
    } else {
        entries[i - 1].child
    }
}

/// The index stays inside the leaf.
pub proof fn lemma_leaf_insert_index_bounds(entries: Seq<LeafEntryView>, key: Seq<char>)
    ensures
        0 <= leaf_insert_index(entries, key) <= entries.len(),
    decreases entries.len(),
{
    if entries.len() > 0 {
        lemma_leaf_insert_index_bounds(entries.skip(1), key);
    }
}

/// An entry put where its key belongs is the first one found under that key.
pub proof fn lemma_lookup_after_insert(entries: Seq<LeafEntryView>, e: LeafEntryView)
    ensures
        leaf_lookup(entries.insert(leaf_insert_index(entries, e.key), e), e.key) == Some(
            entry_position(e),
        ),
    decreases entries.len(),
{
    lemma_leaf_insert_index_bounds(entries, e.key);
    let at = leaf_insert_index(entries, e.key);
    let after = entries.insert(at, e);
    if at == 0 {
        assert(after[0] == e);
    } else {
        assert(key_before(entries[0].key, e.key));
        lemma_bytes_less_irreflexive(vstd::utf8::encode_utf8(e.key));
        assert(entries[0].key != e.key);
        assert(after[0] == entries[0]);
        lemma_lookup_after_insert(entries.skip(1), e);
        assert(after.skip(1) =~= entries.skip(1).insert(at - 1, e));
    }
}

/// An entry put anywhere into a leaf changes nothing for other keys.
pub proof fn lemma_lookup_other_key(
    entries: Seq<LeafEntryView>,
    at: int,
    e: LeafEntryView,
    key: Seq<char>,
)
    requires
        0 <= at <= entries.len(),
        e.key != key,
    ensures
        leaf_lookup(entries.insert(at, e), key) == leaf_lookup(entries, key),
    decreases entries.len(),
{
    let after = entries.insert(at, e);
    if at == 0 {
        assert(after[0] == e);
        assert(after.skip(1) =~= entries);
    } else {
        assert(after[0] == entries[0]);
        if entries[0].key != key {
            lemma_lookup_other_key(entries.skip(1), at - 1, e, key);
            assert(after.skip(1) =~= entries.skip(1).insert(at - 1, e));
        }
    }
}

/// Finds the position under the first entry of a leaf with the given key.
pub fn find_in_leaf(entries: &Vec<BTreeLeafEntry>, key: &String) -> (r: Option<
    TableRecordPosition,
>)
    ensures
        r == leaf_lookup(leaf_views(entries@), key@),
{
    let ghost all = leaf_views(entries@);
    let mut i: usize = 0;
    assert(all.skip(0) =~= all);
    while i < entries.len()
        invariant
            i <= entries.len(),
            all == leaf_views(entries@),
            leaf_lookup(all, key@) == leaf_lookup(all.skip(i as int), key@),
        decreases entries.len() - i,
    {
        let entry = &entries[i];
        assert(all.skip(i as int)[0] == entry@);
        assert(all.skip(i as int).skip(1) =~= all.skip(i + 1));
        if entry.key == *key {
            return Some(entry.position);
        }
        i += 1;
    }
    assert(all.skip(i as int).len() == 0);
    None
}

/// Finds where an entry with `key` goes in a leaf.
pub fn leaf_insert_point(entries: &Vec<BTreeLeafEntry>, key: &String) -> (at: usize)
    ensures
        at == leaf_insert_index(leaf_views(entries@), key@),
        at <= entries@.len(),
{
    let ghost all = leaf_views(entries@);
    let mut i: usize = 0;
    assert(all.skip(0) =~= all);
    while i < entries.len()
        invariant
            i <= entries.len(),
            all == leaf_views(entries@),
            leaf_insert_index(all, key@) == i + leaf_insert_index(all.skip(i as int), key@),
        decreases entries.len() - i,
    {
        let entry = &entries[i];
        assert(all.skip(i as int)[0] == entry@);
        assert(all.skip(i as int).skip(1) =~= all.skip(i + 1));
        if !key_less(entry.key.as_str(), key.as_str()) {
            return i;
        }
        i += 1;
    }
    assert(all.skip(i as int).len() == 0);
    i
}

/// Finds the first entry of a leaf with the given key; the number of entries where there is none.
pub fn leaf_first_point(entries: &Vec<BTreeLeafEntry>, key: &String) -> (at: usize)
    ensures
        at == first_index(leaf_views(entries@), key@),
        at <= entries@.len(),
{
    let ghost all = leaf_views(entries@);
    assert(all.skip(0) =~= all);
    let mut i: usize = 0;
    while i < entries.len()
        invariant
            i <= entries.len(),
            all == leaf_views(entries@),
            first_index(all, key@) == i + first_index(all.skip(i as int), key@),
        decreases entries.len() - i,
    {
        let entry = &entries[i];
        assert(all.skip(i as int)[0] == entry@);
        assert(all.skip(i as int).skip(1) =~= all.skip(i + 1));
        if entry.key == *key {
            return i;
        }
        i += 1;
    }
    assert(all.skip(i as int).len() == 0);
    i
}

/// Chooses the child of an internal node under which `key` belongs, and
/// tells behind how many separators it hangs.
pub fn choose_child(
    leftmost: BTreeNodePosition,
    entries: &Vec<BTreeInternalEntry>,
    key: &String,
) -> (r: (BTreeNodePosition, usize))
    ensures
        r.1 == descend_index(internal_views(entries@), key@),
        r.1 <= entries@.len(),
        r.0.offset == child_for(leftmost.offset, internal_views(entries@), key@),
{
    let ghost all = internal_views(entries@);
    let mut child = leftmost;
    let mut i: usize = 0;
    assert(all.skip(0) =~= all);
    while i < entries.len()
        invariant
            i <= entries.len(),
            all == internal_views(entries@),
            descend_index(all, key@) == i + descend_index(all.skip(i as int), key@),
            child.offset == if i == 0 {
                leftmost.offset
            } else {
                all[i - 1].child
            },
        decreases entries.len() - i,
    {
        let entry = &entries[i];
        assert(all.skip(i as int)[0] == entry@);
        assert(all.skip(i as int).skip(1) =~= all.skip(i + 1));
        if key_less(key.as_str(), entry.key.as_str()) {
            return (child, i);
        }
        child = entry.child_position;
        i += 1;
    }
    assert(all.skip(i as int).len() == 0);
    (child, i)
}

/// What a search gives: a position, nothing, or a tree that cannot be followed.
pub enum Lookup {
    Found(TableRecordPosition),
    Missing,
    Broken,
}

/// The search for `key` from the node at `offset` down, going at most `fuel` nodes deep.
pub open spec fn lookup_from(files: Seq<Seq<u8>>, offset: u64, key: Seq<char>, fuel: nat) -> Lookup
    decreases fuel,
{
    if fuel == 0 {
        Lookup::Broken
    } else {
        match node_at(files, offset) {
            None => Lookup::Broken,
            Some(node) => match node.node_type {
                BTreeNodeType::Leaf => match leaf_lookup(node.leaf_entries, key) {
                    Some(p) => Lookup::Found(p),
                    None => Lookup::Missing,
                },
                BTreeNodeType::Internal => match node.leftmost_child {
                    None => Lookup::Broken,
                    Some(leftmost) => lookup_from(
                        files,
                        child_for(leftmost, node.internal_entries, key),
                        key,
                        (fuel - 1) as nat,
                    ),
                },
            },
        }
    }
}

/// The search for `key` from the root that the metadata names.
pub open spec fn lookup_tree(files: Seq<Seq<u8>>, root: Option<BTreeNodePosition>, key: Seq<char>) -> Lookup {
    match root {
        None => Lookup::Missing,
        Some(p) => lookup_from(files, p.offset, key, MAX_TREE_DEPTH as nat),
    }
}

/// Whether a result says what a search gave.
pub open spec fn tells(r: Result<Option<TableRecordPosition>, Errors>, found: Lookup) -> bool {
    match found {
        Lookup::Found(p) => r is Ok && r->Ok_0 == Some(p),
        Lookup::Missing => r is Ok && r->Ok_0 is None,
        Lookup::Broken => failure(r) == Some(ErrorCodes::FileReadError),
    }
}

impl BTreeIndex {
    /// What a search for `key` gives in the index as it stands.
    pub open spec fn lookup(&self, key: Seq<char>) -> Lookup {
        lookup_tree(self.files(), self.metadata.root_position, key)
    }

    /// Searches the node at `node_pos` and below for `key`.
    pub fn find_in_node(&self, node_pos: BTreeNodePosition, key: &String) -> (r: Result<
        Option<TableRecordPosition>,
        Errors,
    >)
        ensures
            tells(r, lookup_from(self.files(), node_pos.offset, key@, MAX_TREE_DEPTH as nat)),
    {
        let mut current = node_pos;
        let mut fuel: u64 = MAX_TREE_DEPTH;
        while fuel > 0
            invariant
                lookup_from(self.files(), node_pos.offset, key@, MAX_TREE_DEPTH as nat)
                    == lookup_from(self.files(), current.offset, key@, fuel as nat),
            decreases fuel,
        {
            let node = match self.read_node(current) {
                Ok(n) => n,
                Err(e) => { return Err(e); },
            };
            match node.node_type {
                BTreeNodeType::Leaf => {
                    return Ok(find_in_leaf(&node.leaf_entries, key));
                },
                BTreeNodeType::Internal => {
                    let leftmost = match node.leftmost_child {
                        Some(p) => p,
                        None => { return Err(Errors::new(ErrorCodes::FileReadError)); },
                    };
                    let (child, _) = choose_child(leftmost, &node.internal_entries, key);
                    current = child;
                    fuel = fuel - 1;
                },
            }
        }
        Err(Errors::new(ErrorCodes::FileReadError))
    }

    /// Searches the index for `key`. It gives the position under the first
    /// entry with that key in the leaf that the descent reaches.
    pub fn find(&self, key: &String) -> (r: Result<Option<TableRecordPosition>, Errors>)
        ensures
            tells(r, self.lookup(key@)),
    {
        match self.metadata.root_position {
            Some(root) => self.find_in_node(root, key),
            None => Ok(None),
        }
    }
}


/// Whether `after` differs from `before` in one leaf, at `offset`, into which
/// the entry `e` was put at index `at`.
pub open spec fn leaf_grew(
    before: Seq<Seq<u8>>,
    after: Seq<Seq<u8>>,
    offset: u64,
    at: int,
    e: LeafEntryView,
) -> bool {
    &&& node_at(before, offset) is Some
    &&& node_at(before, offset).unwrap().node_type == BTreeNodeType::Leaf
    &&& 0 <= at <= node_at(before, offset).unwrap().leaf_entries.len()
    &&& node_at(after, offset) == Some(
        BTreeNodeView {
            leaf_entries: node_at(before, offset).unwrap().leaf_entries.insert(at, e),
            ..node_at(before, offset).unwrap()
        },
    )
    &&& same_except(before, after, set![offset])
}

/// Whether `after` differs from `before` in one leaf into which `e` was put.
pub open spec fn one_leaf_grew(before: Seq<Seq<u8>>, after: Seq<Seq<u8>>, e: LeafEntryView) -> bool {
    exists|offset: u64, at: int| #[trigger] leaf_grew(before, after, offset, at, e)
}

/// Where files differ in one leaf only, and that leaf gives the same for
/// `key` before and afterwards, every search for `key` gives the same.
pub proof fn lemma_lookup_same(
    before: Seq<Seq<u8>>,
    after: Seq<Seq<u8>>,
    leaf: u64,
    key: Seq<char>,
    start: u64,
    fuel: nat,
)
    requires
        same_except(before, after, set![leaf]),
        node_at(before, leaf) is Some,
        node_at(after, leaf) is Some,
        node_at(before, leaf).unwrap().node_type == BTreeNodeType::Leaf,
        node_at(after, leaf).unwrap().node_type == BTreeNodeType::Leaf,
        leaf_lookup(node_at(before, leaf).unwrap().leaf_entries, key) == leaf_lookup(
            node_at(after, leaf).unwrap().leaf_entries,
            key,
        ),
    ensures
        lookup_from(after, start, key, fuel) == lookup_from(before, start, key, fuel),
    decreases fuel,
{
    if fuel > 0 {
        if start != leaf {
            assert(!set![leaf].contains(start));
            assert(node_at(after, start) == node_at(before, start));
            match node_at(before, start) {
                Some(node) => {
                    if node.node_type == BTreeNodeType::Internal && node.leftmost_child is Some {
                        lemma_lookup_same(
                            before,
                            after,
                            leaf,
                            key,
                            child_for(node.leftmost_child.unwrap(), node.internal_entries, key),
                            (fuel - 1) as nat,
                        );
                    }
                },
                None => {},
            }
        }
    }
}

/// Putting an entry into one leaf changes no search for another key.
pub proof fn lemma_other_keys_same(
    before: Seq<Seq<u8>>,
    after: Seq<Seq<u8>>,
    e: LeafEntryView,
    key: Seq<char>,
    start: u64,
    fuel: nat,
)
    requires
        one_leaf_grew(before, after, e),
        key != e.key,
    ensures
        lookup_from(after, start, key, fuel) == lookup_from(before, start, key, fuel),
{
    let (offset, at) = choose|offset: u64, at: int| #[trigger]
        leaf_grew(before, after, offset, at, e);
    lemma_lookup_other_key(node_at(before, offset).unwrap().leaf_entries, at, e, key);
    lemma_lookup_same(before, after, offset, key, start, fuel);
}

/// The index at which a node with `n` entries is split.
pub open spec fn middle(n: nat) -> int {
    n as int / 2
}

/// The lower half of a leaf that is split at `mid`.
pub open spec fn lower_leaf(node: BTreeNodeView, mid: int) -> BTreeNodeView {
    BTreeNodeView { leaf_entries: node.leaf_entries.subrange(0, mid), ..node }
}

/// The upper half of a leaf that is split at `mid`: a new leaf with the same parent.
pub open spec fn upper_leaf(node: BTreeNodeView, mid: int) -> BTreeNodeView {
    BTreeNodeView {
        node_type: BTreeNodeType::Leaf,
        parent: node.parent,
        leaf_entries: node.leaf_entries.subrange(mid, node.leaf_entries.len() as int),
        internal_entries: Seq::empty(),
        leftmost_child: None,
    }
}

/// The lower half of an internal node that is split at `mid`: the entries
/// below `mid`, under the same leftmost child.
pub open spec fn lower_internal(node: BTreeNodeView, mid: int) -> BTreeNodeView {
    BTreeNodeView { internal_entries: node.internal_entries.subrange(0, mid), ..node }
}

/// The upper half of an internal node that is split at `mid`: the entries
/// above `mid`, under the child of the entry at `mid`.
pub open spec fn upper_internal(node: BTreeNodeView, mid: int) -> BTreeNodeView {
    BTreeNodeView {
        node_type: BTreeNodeType::Internal,
        parent: node.parent,
        leaf_entries: Seq::empty(),
        internal_entries: node.internal_entries.subrange(
            mid + 1,
            node.internal_entries.len() as int,
        ),
        leftmost_child: Some(node.internal_entries[mid].child),
    }
}

/// A node with another parent.
pub open spec fn with_parent(node: BTreeNodeView, parent: u64) -> BTreeNodeView {
    BTreeNodeView { parent: Some(parent), ..node }
}

/// Whether two nodes agree in everything but the parent.
pub open spec fn same_but_parent(a: BTreeNodeView, b: BTreeNodeView) -> bool {
    a == (BTreeNodeView { parent: a.parent, ..b })
}

/// Whether a failure is one of those that reading and writing nodes give.
pub open spec fn node_failure(e: Errors) -> bool {
    e.error_code == ErrorCodes::FileReadError || e.error_code == ErrorCodes::FileWriteError
        || e.error_code == ErrorCodes::FileOpenError
}

/// The leaf with one entry.
pub open spec fn single_leaf(e: LeafEntryView) -> BTreeNodeView {
    BTreeNodeView {
        node_type: BTreeNodeType::Leaf,
        parent: None,
        leaf_entries: seq![e],
        internal_entries: Seq::empty(),
        leftmost_child: None,
    }
}

impl BTreeIndex {
    /// Sets the parent of the node at `child` to `parent`. Nothing changes
    /// where the node cannot be read or written.
    pub fn reparent(&mut self, child: BTreeNodePosition, parent: BTreeNodePosition) -> (r: Result<
        (),
        Errors,
    >)
        ensures
            final(self).metadata == old(self).metadata,
            final(self).metadata_file == old(self).metadata_file,
            final(self).slots == old(self).slots,
            shapes_kept(old(self).files(), final(self).files(), Set::empty()),
            match reparented(old(self).files(), child.offset, parent.offset) {
                Some(now) => r is Ok && final(self).files() == now,
                None => r is Err,
            },
            match r {
                Ok(_) => {
                    &&& node_at(old(self).files(), child.offset) is Some
                    &&& node_at(final(self).files(), child.offset) == Some(
                        with_parent(node_at(old(self).files(), child.offset).unwrap(), parent.offset),
                    )
                    &&& same_except(old(self).files(), final(self).files(), set![child.offset])
                },
                Err(e) => node_failure(e) && final(self).segments == old(self).segments,
            },
    {
        let mut node = match self.read_node(child) {
            Ok(n) => n,
            Err(e) => { return Err(e); },
        };
        node.parent = Some(parent);
        self.update_node(child, &node)
    }

    /// Splits a leaf that holds at least one entry: the entries from the
    /// middle on go to a new leaf, the node keeps the others. It gives the
    /// first key of the new leaf and the new leaf's position.
    pub fn split_leaf_node(&mut self, node_pos: BTreeNodePosition, node: BTreeNode) -> (r: Result<
        Option<(String, BTreeNodePosition)>,
        Errors,
    >)
        requires
            node.leaf_entries@.len() >= 1,
        ensures
            final(self).metadata.root_position == old(self).metadata.root_position,
            final(self).metadata.order == old(self).metadata.order,
            final(self).metadata.next_offset >= old(self).metadata.next_offset,
            match leaf_split(
                old(self).files(),
                old(self).metadata.next_offset,
                node_pos.offset,
                node@,
            ) {
                Some(put) => r matches Ok(Some(s)) && final(self).files() == put.files
                    && final(self).metadata.next_offset == put.next && put.split == Some(
                    (s.0@, s.1.offset),
                ),
                None => r is Err,
            },
            match r {
                Ok(split) => {
                    &&& split matches Some(s)
                    &&& s.0@ == node@.leaf_entries[middle(node@.leaf_entries.len())].key
                    &&& s.1.offset == old(self).metadata.next_offset
                    &&& final(self).metadata.next_offset == old(self).metadata.next_offset
                        + NODE_SIZE
                    &&& node_at(final(self).files(), node_pos.offset) == Some(
                        lower_leaf(node@, middle(node@.leaf_entries.len())),
                    )
                    &&& s.1 != node_pos ==> node_at(final(self).files(), s.1.offset) == Some(
                        upper_leaf(node@, middle(node@.leaf_entries.len())),
                    )
                    &&& kept_except(
                        old(self).files(),
                        final(self).files(),
                        set![node_pos.offset, s.1.offset],
                    )
                    &&& final(self).slots@ == old(self).slots@.insert(
                        node_pos.offset,
                        Slot { hi: Some(s.0@), ..old(self).slots@[node_pos.offset] },
                    ).insert(
                        s.1.offset,
                        Slot { lo: Some(s.0@), ..old(self).slots@[node_pos.offset] },
                    )
                    &&& old(self).settled(node_pos.offset) && node@.node_type
                        == BTreeNodeType::Leaf && leaf_in_order(
                        node@,
                        old(self).slots@[node_pos.offset],
                    ) ==> split_settled(
                        *old(self),
                        *final(self),
                        node_pos.offset,
                        s.0@,
                        s.1.offset,
                    )
                },
                Err(e) => node_failure(e) && final(self).slots == old(self).slots,
            },
    {
        let mut node = node;
        let ghost whole = node@;
        let mid = node.leaf_entries.len() / 2;
        let split_key = node.leaf_entries[mid].key.clone();
        let mut new_node = BTreeNode::new_leaf();
        new_node.leaf_entries = node.leaf_entries.split_off(mid);
        new_node.parent = node.parent;
        proof {
            assert(new_node@.leaf_entries =~= upper_leaf(whole, mid as int).leaf_entries);
            assert(new_node@.internal_entries =~= Seq::empty());
            assert(node@.leaf_entries =~= lower_leaf(whole, mid as int).leaf_entries);
            assert(node@.internal_entries =~= whole.internal_entries);
        }
        let new_node_pos = match self.write_node(&new_node) {
            Ok(p) => p,
            Err(e) => { return Err(e); },
        };
        let ghost between = self.files();
        match self.update_node(node_pos, &node) {
            Ok(_) => {},
            Err(e) => { return Err(e); },
        }
        proof {
            let touched = set![node_pos.offset, new_node_pos.offset];
            assert forall|q: u64|
                !touched.contains(q) && (#[trigger] node_at(old(self).files(), q))
                    is Some implies node_at(self.files(), q) == node_at(old(self).files(), q) by {
                assert(!set![new_node_pos.offset].contains(q));
                assert(!set![node_pos.offset].contains(q));
                assert(node_at(between, q) == node_at(old(self).files(), q));
            }
            if new_node_pos != node_pos {
                assert(!set![node_pos.offset].contains(new_node_pos.offset));
            }
            let slot = self.slots@[node_pos.offset];
            self.slots@ = self.slots@.insert(
                node_pos.offset,
                Slot { hi: Some(split_key@), ..slot },
            ).insert(new_node_pos.offset, Slot { lo: Some(split_key@), ..slot });
            if old(self).settled(node_pos.offset) && whole.node_type == BTreeNodeType::Leaf
                && leaf_in_order(whole, old(self).slots@[node_pos.offset]) {
                let next = old(self).metadata.next_offset;
                assert(in_order_at(old(self).files(), old(self).slots@, next, node_pos.offset));
                if old(self).slots@.contains_key(next) {
                    assert(in_order_at(old(self).files(), old(self).slots@, next, next));
                }
                lemma_shapes_kept(old(self).files(), self.files(), touched);
                lemma_leaf_split_in_order(
                    old(self).files(),
                    self.files(),
                    old(self).slots@,
                    next,
                    node_pos.offset,
                    whole,
                    mid as int,
                );
                assert forall|q: u64|
                    #[trigger] old(self).slots@.contains_key(q) && q != node_pos.offset && old(self).slots@[q].height >= old(self).slots@[node_pos.offset].height implies self.slots@.contains_key(
                    q,
                ) && self.slots@[q] == old(self).slots@[q] && shape(node_at(self.files(), q))
                    == shape(node_at(old(self).files(), q)) by {
                    assert(in_order_at(old(self).files(), old(self).slots@, next, q));
                    assert(!touched.contains(q));
                }
            }
        }
        Ok(Some((split_key, new_node_pos)))
    }

    /// Splits an internal node that holds at least one entry: the entries
    /// above the middle go to a new node, whose leftmost child is the child of
    /// the middle entry; the node keeps the entries below the middle and its
    /// own leftmost child. The children that moved are given the new node as
    /// parent. It gives the key of the middle entry and the new node's position.
    #[verifier::rlimit(60)]
    pub fn split_internal_node(
        &mut self,
        node_pos: BTreeNodePosition,
        node: BTreeNode,
    ) -> (r: Result<Option<(String, BTreeNodePosition)>, Errors>)
        requires
            node.internal_entries@.len() >= 1,
        ensures
            final(self).metadata.root_position == old(self).metadata.root_position,
            final(self).metadata.order == old(self).metadata.order,
            final(self).metadata.next_offset >= old(self).metadata.next_offset,
            match internal_split(
                old(self).files(),
                old(self).metadata.next_offset,
                node_pos.offset,
                node@,
            ) {
                Some(put) => r matches Ok(Some(s)) && final(self).files() == put.files
                    && final(self).metadata.next_offset == put.next && put.split == Some(
                    (s.0@, s.1.offset),
                ),
                None => r is Err,
            },
            match r {
                Ok(split) => {
                    &&& split matches Some(s)
                    &&& s.0@ == node@.internal_entries[middle(node@.internal_entries.len())].key
                    &&& s.1.offset == old(self).metadata.next_offset
                    &&& final(self).metadata.next_offset == old(self).metadata.next_offset
                        + NODE_SIZE
                    &&& node_at(final(self).files(), node_pos.offset) == Some(
                        lower_internal(node@, middle(node@.internal_entries.len())),
                    )
                    &&& s.1 != node_pos ==> {
                        &&& node_at(final(self).files(), s.1.offset) is Some
                        &&& same_but_parent(
                            node_at(final(self).files(), s.1.offset).unwrap(),
                            upper_internal(node@, middle(node@.internal_entries.len())),
                        )
                    }
                    &&& final(self).slots@ == adopted(
                        old(self).slots@,
                        node@,
                        middle(node@.internal_entries.len()),
                        node_pos.offset,
                        s.1.offset,
                    )
                    &&& shapes_kept(
                        old(self).files(),
                        final(self).files(),
                        set![node_pos.offset, s.1.offset],
                    )
                    &&& old(self).open_at(node_pos.offset, node@) ==> split_settled(
                        *old(self),
                        *final(self),
                        node_pos.offset,
                        s.0@,
                        s.1.offset,
                    )
                },
                Err(e) => node_failure(e) && final(self).slots == old(self).slots,
            },
    {
        proof {
            reveal(internal_split);
        }
        let mut rest = node;
        let ghost whole = node@;
        let mid = rest.internal_entries.len() / 2;
        let split_key = rest.internal_entries[mid].key.clone();
        let mut new_node = BTreeNode::new_internal();
        new_node.internal_entries = rest.internal_entries.split_off(mid + 1);
        let mid_entry = match rest.internal_entries.pop() {
            Some(entry) => entry,
            None => { return Err(Errors::new(ErrorCodes::FileReadError)); },
        };
        new_node.leftmost_child = Some(mid_entry.child_position);
        new_node.parent = rest.parent;
        proof {
            assert(rest@.internal_entries =~= lower_internal(whole, mid as int).internal_entries);
            assert(rest@.leaf_entries =~= whole.leaf_entries);
            assert(new_node@.internal_entries =~= upper_internal(
                whole,
                mid as int,
            ).internal_entries);
            assert(new_node@.leaf_entries =~= Seq::empty());
            assert(new_node@ == upper_internal(whole, mid as int));
        }
        let ghost upper = new_node@;
        let new_node_pos = match self.write_node(&new_node) {
            Ok(p) => p,
            Err(e) => { return Err(e); },
        };
        let ghost written = self.files();
        match self.reparent(mid_entry.child_position, new_node_pos) {
            Ok(_) => {},
            Err(e) => { return Err(e); },
        }
        proof {
            if mid_entry.child_position != new_node_pos {
                assert(!set![mid_entry.child_position.offset].contains(new_node_pos.offset));
            }
            assert(upper.internal_entries.skip(0) =~= upper.internal_entries);
            reveal(internal_split);
        }
        let ghost first = self.files();
        let mut i: usize = 0;
        while i < new_node.internal_entries.len()
            invariant
                i <= new_node.internal_entries.len(),
                new_node@.internal_entries == upper.internal_entries,
                whole == node@,
                internal_split(
                    old(self).files(),
                    old(self).metadata.next_offset,
                    node_pos.offset,
                    whole,
                ) == split_finish(
                    reparented_all(
                        self.files(),
                        upper.internal_entries.skip(i as int),
                        new_node_pos.offset,
                    ),
                    node_pos.offset,
                    lower_internal(whole, mid as int),
                    (old(self).metadata.next_offset + NODE_SIZE) as u64,
                    whole.internal_entries[mid as int].key,
                    new_node_pos.offset,
                ),
                self.metadata.root_position == old(self).metadata.root_position,
                self.metadata.order == old(self).metadata.order,
                self.metadata.next_offset == old(self).metadata.next_offset + NODE_SIZE,
                self.slots == old(self).slots,
                node_at(self.files(), new_node_pos.offset) is Some,
                same_but_parent(node_at(self.files(), new_node_pos.offset).unwrap(), upper),
                shapes_kept(written, self.files(), Set::empty()),
            decreases new_node.internal_entries.len() - i,
        {
            let child = new_node.internal_entries[i].child_position;
            let ghost before_step = self.files();
            proof {
                crate::disktable::index::outcome::lemma_told_step(
                    self.files(),
                    upper.internal_entries,
                    i as int,
                    new_node_pos.offset,
                );
                assert(upper.internal_entries[i as int].child == child.offset);
            }
            match self.reparent(child, new_node_pos) {
                Ok(_) => {},
                Err(e) => { return Err(e); },
            }
            proof {
                if child != new_node_pos {
                    assert(!set![child.offset].contains(new_node_pos.offset));
                }
                lemma_shapes_kept_twice(
                    written,
                    before_step,
                    self.files(),
                    Set::empty(),
                    Set::empty(),
                );
                assert(Set::<u64>::empty().union(Set::empty()) =~= Set::empty());
            }
            i += 1;
        }
        let ghost before_update = self.files();
        match self.update_node(node_pos, &rest) {
            Ok(_) => {},
            Err(e) => { return Err(e); },
        }
        proof {
            if new_node_pos != node_pos {
                assert(!set![node_pos.offset].contains(new_node_pos.offset));
                assert(node_at(self.files(), new_node_pos.offset) == node_at(
                    before_update,
                    new_node_pos.offset,
                ));
            }
            let at = node_pos.offset;
            let fresh = new_node_pos.offset;
            self.slots@ = adopted(old(self).slots@, whole, mid as int, at, fresh);
            let next = old(self).metadata.next_offset;
            lemma_shapes_kept_twice(
                old(self).files(),
                written,
                before_update,
                set![next],
                Set::empty(),
            );
            lemma_shapes_kept_twice(
                old(self).files(),
                before_update,
                self.files(),
                set![next].union(Set::empty()),
                set![at],
            );
            assert(set![next].union(Set::empty()).union(set![at]) =~= set![at, next]);
            if old(self).open_at(at, whole) {
                if old(self).slots@.contains_key(next) {
                    if next != at {
                        assert(in_order_at(old(self).files(), old(self).slots@, next, next));
                    }
                }
                lemma_internal_split_in_order(
                    old(self).files(),
                    self.files(),
                    old(self).slots@,
                    next,
                    at,
                    whole,
                    mid as int,
                );
                assert forall|q: u64|
                    #[trigger] old(self).slots@.contains_key(q) && q != at && old(self).slots@[q].height >= old(self).slots@[at].height implies self.slots@.contains_key(
                    q,
                ) && self.slots@[q] == old(self).slots@[q] && shape(node_at(self.files(), q))
                    == shape(node_at(old(self).files(), q)) by {
                    assert(in_order_at(old(self).files(), old(self).slots@, next, q));
                    assert(!set![at, next].contains(q));
                    if moved(whole, mid as int, q) {
                        let j = choose|j: int|
                            mid < j <= whole.internal_entries.len() && #[trigger] child_at(whole, j)
                                == q;
                        assert(old(self).slots@[child_at(whole, j)]
                            == crate::disktable::index::order::expected_slot(
                            whole,
                            old(self).slots@[at],
                            at,
                            j,
                        ));
                    }
                }
            }
        }
        Ok(Some((split_key, new_node_pos)))
    }

    /// Puts an entry into the tree below `node_pos`, going at most `fuel`
    /// nodes deep. Where a node on the way fills up it is split, and a split of
    /// the node at `node_pos` is handed back: the separator and the new node.
    /// Where no block was added, exactly one leaf grew by the entry, and the
    /// search from `node_pos` finds it. Where every known node is in order
    /// and the part of the tree below `node_pos` did not hold the key, the
    /// searches from the node, or from the two nodes it was split into, find
    /// the entry and give for other keys what the search from the node gave.
    ///
    /// It succeeds exactly where every node on the way can be read, every
    /// node it writes over and every node it adds fits its block, and the
    /// files have room for the blocks; the files are then those that
    /// `put_below` gives.
    #[verifier::rlimit(100)]
    pub fn insert_into_node(
        &mut self,
        node_pos: BTreeNodePosition,
        key: &String,
        position: TableRecordPosition,
        order: u16,
        fuel: u64,
    ) -> (r: Result<Option<(String, BTreeNodePosition)>, Errors>)
        requires
            order >= 1,
        ensures
            final(self).metadata.root_position == old(self).metadata.root_position,
            final(self).metadata.order == old(self).metadata.order,
            final(self).metadata.next_offset >= old(self).metadata.next_offset,
            r matches Err(e) ==> node_failure(e),
            r matches Ok(Some(_)) ==> final(self).metadata.next_offset > old(self).metadata.next_offset,
            r is Ok && final(self).metadata.next_offset == old(self).metadata.next_offset ==> {
                &&& r matches Ok(None)
                &&& final(self).metadata_file == old(self).metadata_file
                &&& one_leaf_grew(
                    old(self).files(),
                    final(self).files(),
                    LeafEntryView {
                        key: key@,
                        segment_id: position.segment_id.0,
                        offset: position.offset,
                    },
                )
                &&& lookup_from(final(self).files(), node_pos.offset, key@, fuel as nat)
                    == Lookup::Found(position)
            },
            old(self).settled(node_pos.offset) && at_least(
                key@,
                old(self).slots@[node_pos.offset].lo,
            ) && at_most(key@, old(self).slots@[node_pos.offset].hi) ==> match r {
                Ok(None) => {
                    &&& final(self).settled(node_pos.offset)
                    &&& final(self).slots@[node_pos.offset] == old(self).slots@[node_pos.offset]
                    &&& kept_above(*old(self), *final(self), node_pos.offset)
                },
                Ok(Some(s)) => split_settled(
                    *old(self),
                    *final(self),
                    node_pos.offset,
                    s.0@,
                    s.1.offset,
                ),
                Err(_) => true,
            },
            old(self).settled(node_pos.offset) && r is Ok ==> old(self).slots@[node_pos.offset].height
                <= fuel,
            match put_below(
                old(self).files(),
                old(self).metadata.next_offset,
                node_pos.offset,
                LeafEntryView {
                    key: key@,
                    segment_id: position.segment_id.0,
                    offset: position.offset,
                },
                order,
                fuel as nat,
            ) {
                Some(put) => r matches Ok(s) && final(self).files() == put.files
                    && final(self).metadata.next_offset == put.next && split_view(s) == put.split,
                None => r is Err,
            },
            ready(*old(self), node_pos.offset, key@) ==> match r {
                Ok(None) => holds_new(
                    *old(self),
                    *final(self),
                    node_pos.offset,
                    key@,
                    position,
                ),
                Ok(Some(s)) => holds_apart(
                    *old(self),
                    *final(self),
                    node_pos.offset,
                    key@,
                    position,
                    s.0@,
                    s.1.offset,
                ),
                Err(_) => true,
            },
        decreases fuel,
    {
        if fuel == 0 {
            return Err(Errors::new(ErrorCodes::FileReadError));
        }
        let ghost able = ready(*old(self), node_pos.offset, key@);
        let ghost known = old(self).settled(node_pos.offset);
        let ghost bounded = old(self).settled(node_pos.offset) && at_least(
            key@,
            old(self).slots@[node_pos.offset].lo,
        ) && at_most(key@, old(self).slots@[node_pos.offset].hi);
        let ghost slot = old(self).slots@[node_pos.offset];
        let ghost e = LeafEntryView {
            key: key@,
            segment_id: position.segment_id.0,
            offset: position.offset,
        };
        let mut node = match self.read_node(node_pos) {
            Ok(n) => n,
            Err(e) => { return Err(e); },
        };
        let ghost read = node@;
        match node.node_type {
            BTreeNodeType::Leaf => {
                let at = leaf_insert_point(&node.leaf_entries, key);
                node.leaf_entries.insert(at, BTreeLeafEntry { key: key.clone(), position });
                proof {
                    if known {
                        assert(in_order_at(
                            old(self).files(),
                            old(self).slots@,
                            old(self).metadata.next_offset,
                            node_pos.offset,
                        ));
                    }
                    assert(node@.leaf_entries =~= read.leaf_entries.insert(at as int, e));
                    assert(node@.internal_entries =~= read.internal_entries);
                    assert(node@ == grown_leaf(read, e));
                    lemma_lookup_after_insert(read.leaf_entries, e);
                    if bounded {
                        assert(in_order_at(
                            old(self).files(),
                            old(self).slots@,
                            old(self).metadata.next_offset,
                            node_pos.offset,
                        ));
                        lemma_insert_keeps_sorted(read.leaf_entries, e);
                        assert forall|i: int| 0 <= i < node@.leaf_entries.len() implies at_least(
                            (#[trigger] node@.leaf_entries[i]).key,
                            slot.lo,
                        ) && at_most(node@.leaf_entries[i].key, slot.hi) by {
                            if i < at {
                                assert(node@.leaf_entries[i] == read.leaf_entries[i]);
                            } else if i > at {
                                assert(node@.leaf_entries[i] == read.leaf_entries[i - 1]);
                            }
                        }
                        assert(leaf_in_order(node@, slot));
                    }
                }
                if node.is_full(order) {
                    let ghost whole = node@;
                    let r = self.split_leaf_node(node_pos, node);
                    proof {
                        if able && r is Ok {
                            lemma_leaf_grown_apart(
                                *old(self),
                                *self,
                                node_pos.offset,
                                e,
                                whole,
                                r->Ok_0->Some_0.1.offset,
                            );
                        }
                    }
                    r
                } else {
                    match self.update_node(node_pos, &node) {
                        Ok(_) => {},
                        Err(e) => { return Err(e); },
                    }
                    proof {
                        assert(leaf_grew(
                            old(self).files(),
                            self.files(),
                            node_pos.offset,
                            at as int,
                            e,
                        ));
                        if bounded {
                            lemma_leaf_changed_in_order(
                                old(self).files(),
                                self.files(),
                                self.slots@,
                                self.metadata.next_offset,
                                node_pos.offset,
                                node@,
                            );
                            assert forall|q: u64|
                                #[trigger] old(self).slots@.contains_key(q) && q != node_pos.offset
                                    && old(self).slots@[q].height >= slot.height implies self.slots@.contains_key(
                                q,
                            ) && self.slots@[q] == old(self).slots@[q] && shape(
                                node_at(self.files(), q),
                            ) == shape(node_at(old(self).files(), q)) by {
                                assert(!set![node_pos.offset].contains(q));
                            }
                        }
                        if able {
                            lemma_leaf_grown(*old(self), *self, node_pos.offset, e);
                        }
                    }
                    Ok(None)
                }
            },
            BTreeNodeType::Internal => {
                let leftmost = match node.leftmost_child {
                    Some(p) => p,
                    None => { return Err(Errors::new(ErrorCodes::FileReadError)); },
                };
                let (child, insert_index) = choose_child(leftmost, &node.internal_entries, key);
                proof {
                    if bounded {
                        assert(in_order_at(
                            old(self).files(),
                            old(self).slots@,
                            old(self).metadata.next_offset,
                            node_pos.offset,
                        ));
                        lemma_child_in_range(read, slot, key@);
                        assert(child.offset == child_at(read, insert_index as int));
                        assert(old(self).slots@[child.offset]
                            == crate::disktable::index::order::expected_slot(
                            read,
                            slot,
                            node_pos.offset,
                            insert_index as int,
                        ));
                    }
                    if able {
                        lemma_ready_below(*old(self), node_pos.offset, key@);
                    }
                    if known {
                        assert(in_order_at(
                            old(self).files(),
                            old(self).slots@,
                            old(self).metadata.next_offset,
                            node_pos.offset,
                        ));
                        crate::disktable::index::order::lemma_descend_index(
                            read.internal_entries,
                            key@,
                        );
                        assert(old(self).slots@.contains_key(
                            child_at(read, insert_index as int),
                        ));
                        assert(old(self).slots@[child_at(read, insert_index as int)]
                            == crate::disktable::index::order::expected_slot(
                            read,
                            slot,
                            node_pos.offset,
                            insert_index as int,
                        ));
                        assert(child.offset == child_at(read, insert_index as int));
                    }
                }
                let split = match self.insert_into_node(child, key, position, order, fuel - 1) {
                    Ok(s) => s,
                    Err(e) => { return Err(e); },
                };
                let ghost below = *self;
                match split {
                    Some((split_key, new_child_pos)) => {
                        match self.reparent(new_child_pos, node_pos) {
                            Ok(_) => {},
                            Err(e) => { return Err(e); },
                        }
                        let ghost hung = *self;
                        node.internal_entries.insert(
                            insert_index,
                            BTreeInternalEntry { key: split_key, child_position: new_child_pos },
                        );
                        proof {
                            assert(node@.internal_entries =~= read.internal_entries.insert(
                                insert_index as int,
                                InternalEntryView { key: split_key@, child: new_child_pos.offset },
                            ));
                            assert(node@.leaf_entries =~= read.leaf_entries);
                            assert(node@ == with_child(
                                read,
                                insert_index as int,
                                split_key@,
                                new_child_pos.offset,
                            ));
                            if bounded {
                                lemma_after_child_split(
                                    *old(self),
                                    below,
                                    hung,
                                    node_pos.offset,
                                    read,
                                    insert_index as int,
                                    split_key@,
                                    new_child_pos.offset,
                                );
                                assert(node@ == with_child(
                                    read,
                                    insert_index as int,
                                    split_key@,
                                    new_child_pos.offset,
                                ));
                            }
                        }
                        if node.is_full(order) {
                            let r = self.split_internal_node(node_pos, node);
                            proof {
                                if bounded && r is Ok {
                                    lemma_split_above(
                                        *old(self),
                                        hung,
                                        *self,
                                        node_pos.offset,
                                        r->Ok_0->Some_0.0@,
                                        r->Ok_0->Some_0.1.offset,
                                    );
                                }
                                if able && r is Ok {
                                    lemma_parent_split_grown(
                                        *old(self),
                                        below,
                                        hung,
                                        *self,
                                        node_pos.offset,
                                        key@,
                                        position,
                                        split_key@,
                                        new_child_pos.offset,
                                        r->Ok_0->Some_0.1.offset,
                                    );
                                }
                            }
                            r
                        } else {
                            match self.update_node(node_pos, &node) {
                                Ok(_) => {},
                                Err(e) => { return Err(e); },
                            }
                            proof {
                                if bounded {
                                    lemma_hole_filled(
                                        hung.files(),
                                        self.files(),
                                        self.slots@,
                                        self.metadata.next_offset,
                                        node_pos.offset,
                                        node@,
                                    );
                                    assert forall|q: u64|
                                        #[trigger] old(self).slots@.contains_key(q) && q
                                            != node_pos.offset && old(self).slots@[q].height
                                            >= slot.height implies self.slots@.contains_key(q)
                                        && self.slots@[q] == old(self).slots@[q] && shape(
                                        node_at(self.files(), q),
                                    ) == shape(node_at(old(self).files(), q)) by {
                                        assert(!set![node_pos.offset].contains(q));
                                        assert(shape(node_at(hung.files(), q)) == shape(
                                            node_at(old(self).files(), q),
                                        ));
                                        assert(in_order_at(
                                            old(self).files(),
                                            old(self).slots@,
                                            old(self).metadata.next_offset,
                                            q,
                                        ));
                                    }
                                }
                                if able {
                                    lemma_parent_took_grown(
                                        *old(self),
                                        below,
                                        hung,
                                        *self,
                                        node_pos.offset,
                                        key@,
                                        position,
                                        split_key@,
                                        new_child_pos.offset,
                                    );
                                }
                            }
                            Ok(None)
                        }
                    },
                    None => {
                        proof {
                            if self.metadata.next_offset == old(self).metadata.next_offset {
                                let (offset, at) = choose|offset: u64, at: int| #[trigger]
                                    leaf_grew(old(self).files(), self.files(), offset, at, e);
                                assert(offset != node_pos.offset);
                                assert(!set![offset].contains(node_pos.offset));
                                assert(node_at(self.files(), node_pos.offset) == Some(read));
                            }
                            if bounded {
                                assert(old(self).slots@[node_pos.offset].height > old(self).slots@[child.offset].height);
                            }
                            if able {
                                lemma_parent_grown(
                                    *old(self),
                                    *self,
                                    node_pos.offset,
                                    key@,
                                    position,
                                );
                            }
                        }
                        Ok(None)
                    },
                }
            },
        }
    }

    /// Whether a new root stands above the node at `was`: an internal node
    /// with that node as its leftmost child and one entry, both children
    /// naming it as the node above them, and the metadata saved with it.
    pub open spec fn root_raised(&self, was: u64) -> bool {
        &&& self.metadata.root_position matches Some(top)
        &&& node_at(self.files(), top.offset) matches Some(node)
        &&& node.node_type == BTreeNodeType::Internal
        &&& node.leftmost_child == Some(was)
        &&& node.internal_entries.len() == 1
        &&& node_at(self.files(), was) matches Some(left) && left.parent == Some(top.offset)
        &&& node_at(self.files(), node.internal_entries[0].child) matches Some(right)
            && right.parent == Some(top.offset)
        &&& self.metadata_saved()
    }

    /// Whether the first entry of an empty index can be put in: a leaf with
    /// that entry can be written, and the metadata that names it as root can
    /// be encoded.
    pub open spec fn can_plant(&self, e: LeafEntryView) -> bool {
        &&& self.can_write(single_leaf(e))
        &&& metadata_encoding(
            metadata_fields(
                BTreeMetadata {
                    root_position: Some(BTreeNodePosition { offset: self.metadata.next_offset }),
                    order: self.metadata.order,
                    next_offset: (self.metadata.next_offset + NODE_SIZE) as u64,
                },
            ),
        ) is Some
    }

    /// Puts `key` with `position` into the index. An empty index gets a leaf
    /// with that entry as root. Else the entry goes into the leaf under which
    /// the key belongs, in front of the entries that do not come before it;
    /// nodes that fill up are split, and a split of the root gives a new root.
    ///
    /// Where the index was empty, or no block was added, a search for `key`
    /// finds `position` afterwards and a search for any other key gives what
    /// it gave before. In a sound index that did not hold `key` the same holds
    /// through every split, and the index stays sound. The descent goes one
    /// level less deep than a search, so that a new root never puts a leaf out
    /// of a search's reach.
    ///
    /// It succeeds exactly where `put_in` gives files and metadata, and
    /// leaves those.
    pub fn insert(&mut self, key: String, position: TableRecordPosition) -> (r: Result<(), Errors>)
        ensures
            match put_in(
                old(self).files(),
                old(self).metadata,
                LeafEntryView {
                    key: key@,
                    segment_id: position.segment_id.0,
                    offset: position.offset,
                },
            ) {
                Some(out) => r is Ok && final(self).files() == out.0 && final(self).metadata
                    == out.1,
                None => r is Err,
            },
            final(self).metadata.order == old(self).metadata.order,
            final(self).metadata.next_offset >= old(self).metadata.next_offset,
            r matches Err(e) ==> node_failure(e),
            old(self).metadata.root_position is None ==> {
                &&& r is Ok <==> old(self).can_plant(
                    LeafEntryView {
                        key: key@,
                        segment_id: position.segment_id.0,
                        offset: position.offset,
                    },
                )
                &&& r is Ok ==> {
                    &&& final(self).metadata.root_position == Some(
                        BTreeNodePosition { offset: old(self).metadata.next_offset },
                    )
                    &&& final(self).metadata.next_offset == old(self).metadata.next_offset
                        + NODE_SIZE
                    &&& final(self).metadata_saved()
                }
            },
            r is Ok && (old(self).metadata.root_position is None || final(self).metadata.next_offset == old(self).metadata.next_offset) ==> {
                &&& final(self).lookup(key@) == Lookup::Found(position)
                &&& forall|other: Seq<char>|
                    other != key@ ==> #[trigger] final(self).lookup(other) == old(self).lookup(
                        other,
                    )
            },
            r is Ok && old(self).ordered() ==> final(self).ordered(),
            r is Ok && old(self).metadata.root_position is Some && final(self).metadata.root_position != old(self).metadata.root_position ==> final(self).root_raised(old(self).metadata.root_position.unwrap().offset),
            r is Ok && old(self).sound() && old(self).lookup(key@) == Lookup::Missing ==> {
                &&& final(self).sound()
                &&& final(self).lookup(key@) == Lookup::Found(position)
                &&& forall|other: Seq<char>|
                    other != key@ ==> #[trigger] final(self).lookup(other) == old(self).lookup(
                        other,
                    )
            },
    {
        let ghost e = LeafEntryView {
            key: key@,
            segment_id: position.segment_id.0,
            offset: position.offset,
        };
        let root_pos = match self.metadata.root_position {
            Some(p) => p,
            None => {
                let mut root = BTreeNode::new_leaf();
                root.leaf_entries.push(BTreeLeafEntry { key, position });
                proof {
                    assert(root@.leaf_entries =~= seq![e]);
                    assert(root@.internal_entries =~= Seq::empty());
                }
                let root_pos = match self.write_node(&root) {
                    Ok(p) => p,
                    Err(e) => { return Err(e); },
                };
                self.metadata.root_position = Some(root_pos);
                match self.save_metadata() {
                    Ok(_) => {},
                    Err(e) => { return Err(e); },
                }
                proof {
                    self.slots@ = Map::<u64, Slot>::empty().insert(
                        root_pos.offset,
                        Slot { lo: None, hi: None, height: 1, up: None },
                    );
                    crate::bytes::lemma_bytes_less_irreflexive(vstd::utf8::encode_utf8(key@));
                    assert(leaf_in_order(single_leaf(e), self.slots@[root_pos.offset]));
                    assert(in_order_at(
                        self.files(),
                        self.slots@,
                        self.metadata.next_offset,
                        root_pos.offset,
                    ));
                    assert forall|other: Seq<char>| other != key@ implies #[trigger] self.lookup(
                        other,
                    ) == old(self).lookup(other) by {
                        assert(seq![e][0] == e);
                        assert(seq![e].skip(1).len() == 0);
                        assert(leaf_lookup(seq![e].skip(1), other) is None);
                        assert(leaf_lookup(seq![e], other) is None);
                        assert(node_at(self.files(), root_pos.offset) == Some(single_leaf(e)));
                    }
                    assert(seq![e][0] == e);
                    assert(leaf_lookup(seq![e], key@) == Some(position));
                    assert(node_at(self.files(), root_pos.offset) == Some(single_leaf(e)));
                    assert(crate::disktable::index::search::leaf_distinct(seq![e]));
                    assert(whole(*self));
                }
                return Ok(());
            },
        };
        let order = self.metadata.order;
        if order == 0 {
            return Err(Errors::new(ErrorCodes::FileReadError));
        }
        let ghost able = old(self).sound() && old(self).lookup(key@) == Lookup::Missing;
        let split = match self.insert_into_node(
            root_pos,
            &key,
            position,
            order,
            MAX_TREE_DEPTH - 1,
        ) {
            Ok(s) => s,
            Err(e) => { return Err(e); },
        };
        proof {
            if able {
                lemma_lookup_is_find(*old(self), key@);
            }
        }
        match split {
            Some((split_key, new_node_pos)) => {
                let mut new_root = BTreeNode::new_internal();
                new_root.leftmost_child = Some(root_pos);
                new_root.internal_entries.push(
                    BTreeInternalEntry { key: split_key, child_position: new_node_pos },
                );
                proof {
                    assert(new_root@.internal_entries =~= seq![
                        InternalEntryView { key: split_key@, child: new_node_pos.offset },
                    ]);
                    assert(new_root@.leaf_entries =~= Seq::empty());
                }
                let ghost split_done = *self;
                let ghost top = new_root@;
                let new_root_pos = match self.write_node(&new_root) {
                    Ok(p) => p,
                    Err(e) => { return Err(e); },
                };
                let ghost written = self.files();
                match self.reparent(root_pos, new_root_pos) {
                    Ok(_) => {},
                    Err(e) => { return Err(e); },
                }
                let ghost half = self.files();
                match self.reparent(new_node_pos, new_root_pos) {
                    Ok(_) => {},
                    Err(e) => { return Err(e); },
                }
                self.metadata.root_position = Some(new_root_pos);
                match self.save_metadata() {
                    Ok(_) => {},
                    Err(e) => { return Err(e); },
                }
                proof {
                    if new_root_pos != root_pos {
                        assert(!set![root_pos.offset].contains(new_root_pos.offset));
                        assert(node_at(half, new_root_pos.offset) == Some(top));
                        if new_node_pos != new_root_pos {
                            assert(!set![new_node_pos.offset].contains(new_root_pos.offset));
                        }
                        if new_node_pos != root_pos {
                            assert(!set![new_node_pos.offset].contains(root_pos.offset));
                        }
                        assert(top.internal_entries[0].child == new_node_pos.offset);
                        assert(self.root_raised(root_pos.offset));
                    }
                    if old(self).ordered() {
                        let slots = split_done.slots@;
                        let next = split_done.metadata.next_offset;
                        let height = slots[root_pos.offset].height;
                        assert(in_order_at(split_done.files(), slots, next, root_pos.offset));
                        assert(in_order_at(split_done.files(), slots, next, new_node_pos.offset));
                        lemma_shapes_kept_twice(written, half, self.files(), Set::empty(), Set::empty());
                        assert(Set::<u64>::empty().union(Set::empty()) =~= Set::empty());
                        lemma_shapes_kept_twice(
                            split_done.files(),
                            written,
                            self.files(),
                            set![next],
                            Set::empty(),
                        );
                        assert(set![next].union(Set::empty()) =~= set![next]);
                        assert(shape(node_at(self.files(), next)) == shape(Some(top))) by {
                            assert(node_at(written, next) == Some(top));
                        }
                        lemma_root_split_in_order(
                            split_done.files(),
                            self.files(),
                            slots,
                            next,
                            root_pos.offset,
                            split_key@,
                            new_node_pos.offset,
                            height,
                        );
                        self.slots@ = slots.insert(
                            root_pos.offset,
                            Slot { up: Some(next), ..slots[root_pos.offset] },
                        ).insert(
                            new_node_pos.offset,
                            Slot { up: Some(next), ..slots[new_node_pos.offset] },
                        ).insert(next, Slot { lo: None, hi: None, height: height + 1, up: None });
                        if able {
                            lemma_root_split_grown(
                                *old(self),
                                split_done,
                                *self,
                                root_pos.offset,
                                key@,
                                position,
                                split_key@,
                                new_node_pos.offset,
                            );
                            assert(whole(*self));
                            lemma_whole_grown(*old(self), *self, key@, position);
                        }
                    }
                }
                Ok(())
            },
            None => {
                proof {
                    if self.metadata.next_offset == old(self).metadata.next_offset {
                        assert forall|other: Seq<char>| other != key@ implies #[trigger]
                            self.lookup(other) == old(self).lookup(other) by {
                            lemma_other_keys_same(
                                old(self).files(),
                                self.files(),
                                e,
                                other,
                                root_pos.offset,
                                MAX_TREE_DEPTH as nat,
                            );
                        }
                        lemma_more_fuel(
                            self.files(),
                            root_pos.offset,
                            key@,
                            (MAX_TREE_DEPTH - 1) as nat,
                            MAX_TREE_DEPTH as nat,
                        );
                    }
                    if able {
                        assert(whole(*self));
                        lemma_whole_grown(*old(self), *self, key@, position);
                    }
                }
                Ok(())
            },
        }
    }
}


/// The index of the first entry with the given key; the number of entries where there is none.
pub open spec fn first_index(entries: Seq<LeafEntryView>, key: Seq<char>) -> int
    decreases entries.len(),
{
    if entries.len() == 0 || entries[0].key == key {
        0
    } else {
        1 + first_index(entries.skip(1), key)
    }
}

/// The entries without the first one that has the given key.
pub open spec fn without_first(entries: Seq<LeafEntryView>, key: Seq<char>) -> Seq<LeafEntryView> {
    if first_index(entries, key) < entries.len() {
        entries.remove(first_index(entries, key))
    } else {
        entries
    }
}

/// The index stays inside the leaf or names its end, and names an entry with the key.
pub proof fn lemma_first_index(entries: Seq<LeafEntryView>, key: Seq<char>)
    ensures
        0 <= first_index(entries, key) <= entries.len(),
        first_index(entries, key) < entries.len() ==> entries[first_index(entries, key)].key
            == key,
        first_index(entries, key) == entries.len() <==> leaf_lookup(entries, key) is None,
    decreases entries.len(),
{
    if entries.len() > 0 && entries[0].key != key {
        lemma_first_index(entries.skip(1), key);
    }
}

/// Taking the first entry with a key out of a leaf changes nothing for other keys.
pub proof fn lemma_without_first_other_key(
    entries: Seq<LeafEntryView>,
    key: Seq<char>,
    other: Seq<char>,
)
    requires
        other != key,
    ensures
        leaf_lookup(without_first(entries, key), other) == leaf_lookup(entries, other),
    decreases entries.len(),
{
    lemma_first_index(entries, key);
    let at = first_index(entries, key);
    if at < entries.len() {
        let after = entries.remove(at);
        if at == 0 {
            assert(after =~= entries.skip(1));
        } else {
            assert(after[0] == entries[0]);
            lemma_first_index(entries.skip(1), key);
            lemma_without_first_other_key(entries.skip(1), key, other);
            assert(after.skip(1) =~= entries.skip(1).remove(at - 1));
        }
    }
}

/// A key that a leaf holds once is gone when its first entry is taken out.
pub proof fn lemma_without_first_once(entries: Seq<LeafEntryView>, key: Seq<char>)
    requires
        forall|i: int, j: int|
            0 <= i < j < entries.len() && entries[i].key == key ==> entries[j].key != key,
    ensures
        leaf_lookup(without_first(entries, key), key) is None,
    decreases entries.len(),
{
    lemma_first_index(entries, key);
    let at = first_index(entries, key);
    if at < entries.len() {
        let after = entries.remove(at);
        if at == 0 {
            assert(after =~= entries.skip(1));
            lemma_absent(entries.skip(1), key);
        } else {
            assert(after[0] == entries[0]);
            lemma_first_index(entries.skip(1), key);
            assert forall|i: int, j: int|
                0 <= i < j < entries.skip(1).len() && entries.skip(1)[i].key
                    == key implies entries.skip(1)[j].key != key by {
                assert(entries[i + 1].key == key);
            }
            lemma_without_first_once(entries.skip(1), key);
            assert(after.skip(1) =~= entries.skip(1).remove(at - 1));
        }
    }
}

/// A search in a leaf finds nothing under a key that no entry has.
pub proof fn lemma_absent(entries: Seq<LeafEntryView>, key: Seq<char>)
    requires
        forall|i: int| 0 <= i < entries.len() ==> entries[i].key != key,
    ensures
        leaf_lookup(entries, key) is None,
    decreases entries.len(),
{
    if entries.len() > 0 {
        assert forall|i: int| 0 <= i < entries.skip(1).len() implies entries.skip(1)[i].key
            != key by {
            assert(entries[i + 1].key != key);
        }
        lemma_absent(entries.skip(1), key);
    }
}

/// The leaf that the descent for `key` reaches from the node at `offset`,
/// going at most `fuel` nodes deep; none where the tree cannot be followed.
pub open spec fn leaf_for(files: Seq<Seq<u8>>, offset: u64, key: Seq<char>, fuel: nat) -> Option<
    u64,
>
    decreases fuel,
{
    if fuel == 0 {
        None
    } else {
        match node_at(files, offset) {
            None => None,
            Some(node) => match node.node_type {
                BTreeNodeType::Leaf => Some(offset),
                BTreeNodeType::Internal => match node.leftmost_child {
                    None => None,
                    Some(leftmost) => leaf_for(
                        files,
                        child_for(leftmost, node.internal_entries, key),
                        key,
                        (fuel - 1) as nat,
                    ),
                },
            },
        }
    }
}

/// A search gives what the leaf that the descent reaches holds.
pub proof fn lemma_lookup_in_leaf(files: Seq<Seq<u8>>, offset: u64, key: Seq<char>, fuel: nat)
    ensures
        match leaf_for(files, offset, key, fuel) {
            None => lookup_from(files, offset, key, fuel) == Lookup::Broken,
            Some(leaf) => {
                &&& node_at(files, leaf) is Some
                &&& node_at(files, leaf).unwrap().node_type == BTreeNodeType::Leaf
                &&& lookup_from(files, offset, key, fuel) == match leaf_lookup(
                    node_at(files, leaf).unwrap().leaf_entries,
                    key,
                ) {
                    Some(p) => Lookup::Found(p),
                    None => Lookup::Missing,
                }
            },
        },
    decreases fuel,
{
    if fuel > 0 {
        match node_at(files, offset) {
            Some(node) => {
                if node.node_type == BTreeNodeType::Internal && node.leftmost_child is Some {
                    lemma_lookup_in_leaf(
                        files,
                        child_for(node.leftmost_child.unwrap(), node.internal_entries, key),
                        key,
                        (fuel - 1) as nat,
                    );
                }
            },
            None => {},
        }
    }
}

/// Where files differ in one leaf only, every descent reaches the leaf it reached before.
pub proof fn lemma_leaf_for_same(
    before: Seq<Seq<u8>>,
    after: Seq<Seq<u8>>,
    leaf: u64,
    key: Seq<char>,
    start: u64,
    fuel: nat,
)
    requires
        same_except(before, after, set![leaf]),
        node_at(before, leaf) is Some,
        node_at(after, leaf) is Some,
        node_at(before, leaf).unwrap().node_type == BTreeNodeType::Leaf,
        node_at(after, leaf).unwrap().node_type == BTreeNodeType::Leaf,
    ensures
        leaf_for(after, start, key, fuel) == leaf_for(before, start, key, fuel),
    decreases fuel,
{
    if fuel > 0 {
        if start != leaf {
            assert(!set![leaf].contains(start));
            assert(node_at(after, start) == node_at(before, start));
            match node_at(before, start) {
                Some(node) => {
                    if node.node_type == BTreeNodeType::Internal && node.leftmost_child is Some {
                        lemma_leaf_for_same(
                            before,
                            after,
                            leaf,
                            key,
                            child_for(node.leftmost_child.unwrap(), node.internal_entries, key),
                            (fuel - 1) as nat,
                        );
                    }
                },
                None => {},
            }
        }
    }
}

/// What a search for `key` gives once the first entry with `key` is out of
/// the leaf that the descent from `root` reaches.
pub open spec fn lookup_without_first(
    files: Seq<Seq<u8>>,
    root: Option<BTreeNodePosition>,
    key: Seq<char>,
) -> Lookup {
    match root {
        None => Lookup::Missing,
        Some(p) => match leaf_for(files, p.offset, key, MAX_TREE_DEPTH as nat) {
            None => Lookup::Broken,
            Some(leaf) => match leaf_lookup(
                without_first(node_at(files, leaf).unwrap().leaf_entries, key),
                key,
            ) {
                Some(p) => Lookup::Found(p),
                None => Lookup::Missing,
            },
        },
    }
}

impl BTreeIndex {
    /// Finds the leaf under which `key` belongs, from the node at `node_pos` down.
    pub fn descend(&self, node_pos: BTreeNodePosition, key: &String) -> (r: Result<
        (BTreeNodePosition, BTreeNode),
        Errors,
    >)
        ensures
            match r {
                Ok(found) => {
                    &&& leaf_for(self.files(), node_pos.offset, key@, MAX_TREE_DEPTH as nat)
                        == Some(found.0.offset)
                    &&& node_at(self.files(), found.0.offset) == Some(found.1@)
                    &&& found.1@.node_type == BTreeNodeType::Leaf
                },
                Err(e) => {
                    &&& e.error_code == ErrorCodes::FileReadError
                    &&& leaf_for(self.files(), node_pos.offset, key@, MAX_TREE_DEPTH as nat)
                        is None
                },
            },
    {
        let mut current = node_pos;
        let mut fuel: u64 = MAX_TREE_DEPTH;
        while fuel > 0
            invariant
                leaf_for(self.files(), node_pos.offset, key@, MAX_TREE_DEPTH as nat) == leaf_for(
                    self.files(),
                    current.offset,
                    key@,
                    fuel as nat,
                ),
            decreases fuel,
        {
            let node = match self.read_node(current) {
                Ok(n) => n,
                Err(e) => { return Err(e); },
            };
            match node.node_type {
                BTreeNodeType::Leaf => {
                    return Ok((current, node));
                },
                BTreeNodeType::Internal => {
                    let leftmost = match node.leftmost_child {
                        Some(p) => p,
                        None => { return Err(Errors::new(ErrorCodes::FileReadError)); },
                    };
                    let (child, _) = choose_child(leftmost, &node.internal_entries, key);
                    current = child;
                    fuel = fuel - 1;
                },
            }
        }
        Err(Errors::new(ErrorCodes::FileReadError))
    }

    /// Takes the first entry with `key` out of the leaf under which `key`
    /// belongs, from the node at `node_pos` down, and says whether there was
    /// one. No node is joined with another or given up.
    pub fn delete_from_node(&mut self, node_pos: BTreeNodePosition, key: &String) -> (r: Result<
        bool,
        Errors,
    >)
        ensures
            final(self).metadata == old(self).metadata,
            final(self).metadata_file == old(self).metadata_file,
            final(self).slots == old(self).slots,
            match taken_out(old(self).files(), Some(node_pos), key@) {
                Some(now) => r is Ok && final(self).files() == now,
                None => r is Err,
            },
            match leaf_for(old(self).files(), node_pos.offset, key@, MAX_TREE_DEPTH as nat) {
                None => failure(r) == Some(ErrorCodes::FileReadError) && final(self).segments
                    == old(self).segments,
                Some(leaf) => {
                    let node = node_at(old(self).files(), leaf).unwrap();
                    let shrunk = BTreeNodeView {
                        leaf_entries: without_first(node.leaf_entries, key@),
                        ..node
                    };
                    if first_index(node.leaf_entries, key@) < node.leaf_entries.len() {
                        &&& r is Ok <==> old(self).can_update(leaf, shrunk)
                        &&& r matches Ok(found) ==> {
                            &&& found
                            &&& node_at(final(self).files(), leaf) == Some(shrunk)
                            &&& same_except(old(self).files(), final(self).files(), set![leaf])
                        }
                        &&& r matches Err(e) ==> node_failure(e) && final(self).segments == old(self).segments
                    } else {
                        r matches Ok(found) && !found && final(self).segments == old(self).segments
                    }
                },
            },
    {
        let (leaf_pos, mut node) = match self.descend(node_pos, key) {
            Ok(found) => found,
            Err(e) => { return Err(e); },
        };
        let ghost all = node@.leaf_entries;
        let ghost read = node@;
        let i = leaf_first_point(&node.leaf_entries, key);
        proof {
            lemma_first_index(all, key@);
        }
        if i < node.leaf_entries.len() {
            node.leaf_entries.remove(i);
            proof {
                assert(node@.leaf_entries =~= all.remove(i as int));
                assert(node@.internal_entries =~= read.internal_entries);
            }
            match self.update_node(leaf_pos, &node) {
                Ok(_) => Ok(true),
                Err(e) => Err(e),
            }
        } else {
            Ok(false)
        }
    }

    /// Takes the first entry with `key` out of the leaf under which `key`
    /// belongs. A search for any other key gives afterwards what it gave
    /// before; a search for `key` gives what the leaf holds under it without
    /// that entry, which is nothing in a sound index. A sound index stays
    /// sound. It succeeds exactly where the leaf can be reached and written
    /// over, and leaves the files that `taken_out` gives.
    pub fn delete(&mut self, key: &String) -> (r: Result<(), Errors>)
        ensures
            final(self).metadata == old(self).metadata,
            final(self).metadata_file == old(self).metadata_file,
            final(self).slots == old(self).slots,
            old(self).ordered() ==> final(self).ordered(),
            r matches Err(e) ==> node_failure(e) && final(self).segments == old(self).segments,
            old(self).sound() ==> final(self).sound(),
            r is Ok && old(self).sound() ==> final(self).lookup(key@) == Lookup::Missing,
            match taken_out(old(self).files(), old(self).metadata.root_position, key@) {
                Some(now) => r is Ok && final(self).files() == now,
                None => r is Err,
            },
            r is Ok ==> {
                &&& final(self).lookup(key@) == lookup_without_first(
                    old(self).files(),
                    old(self).metadata.root_position,
                    key@,
                )
                &&& forall|other: Seq<char>|
                    other != key@ ==> #[trigger] final(self).lookup(other) == old(self).lookup(
                        other,
                    )
            },
    {
        let root_pos = match self.metadata.root_position {
            Some(p) => p,
            None => { return Ok(()); },
        };
        let r = self.delete_from_node(root_pos, key);
        proof {
            let before = old(self).files();
            let after = self.files();
            let fuel = MAX_TREE_DEPTH as nat;
            lemma_lookup_in_leaf(before, root_pos.offset, key@, fuel);
            if r is Ok {
                let leaf = leaf_for(before, root_pos.offset, key@, fuel).unwrap();
                let entries = node_at(before, leaf).unwrap().leaf_entries;
                lemma_first_index(entries, key@);
                if first_index(entries, key@) < entries.len() {
                    lemma_leaf_for_same(before, after, leaf, key@, root_pos.offset, fuel);
                    lemma_lookup_in_leaf(after, root_pos.offset, key@, fuel);
                    assert forall|other: Seq<char>| other != key@ implies #[trigger] self.lookup(
                        other,
                    ) == old(self).lookup(other) by {
                        lemma_without_first_other_key(entries, key@, other);
                        lemma_lookup_same(before, after, leaf, other, root_pos.offset, fuel);
                    }
                } else {
                    assert(self.files() =~= old(self).files());
                }
                if old(self).sound() {
                    lemma_taken_out(*old(self), *self, key@);
                }
            } else {
                assert(self.files() =~= old(self).files());
            }
        }
        match r {
            Ok(_) => Ok(()),
            Err(e) => Err(e),
        }
    }

    /// Takes the first entry with `key` out and puts `key` with `position`
    /// in. Where no block was added, a search for `key` finds `position`
    /// afterwards and a search for any other key gives what it gave before.
    /// In a sound index the same holds through every split, and the index
    /// stays sound. It succeeds exactly where `replaced` gives files and
    /// metadata, and leaves those.
    pub fn update(&mut self, key: String, position: TableRecordPosition) -> (r: Result<(), Errors>)
        ensures
            match replaced(
                old(self).files(),
                old(self).metadata,
                LeafEntryView {
                    key: key@,
                    segment_id: position.segment_id.0,
                    offset: position.offset,
                },
            ) {
                Some(out) => r is Ok && final(self).files() == out.0 && final(self).metadata
                    == out.1,
                None => r is Err,
            },
            r is Ok && old(self).ordered() ==> final(self).ordered(),
            final(self).metadata.order == old(self).metadata.order,
            final(self).metadata.next_offset >= old(self).metadata.next_offset,
            r matches Err(e) ==> node_failure(e),
            r is Ok && (old(self).metadata.root_position is None || final(self).metadata.next_offset == old(self).metadata.next_offset) ==> {
                &&& final(self).lookup(key@) == Lookup::Found(position)
                &&& forall|other: Seq<char>|
                    other != key@ ==> #[trigger] final(self).lookup(other) == old(self).lookup(
                        other,
                    )
            },
            r is Ok && old(self).sound() ==> {
                &&& final(self).sound()
                &&& final(self).lookup(key@) == Lookup::Found(position)
                &&& forall|other: Seq<char>|
                    other != key@ ==> #[trigger] final(self).lookup(other) == old(self).lookup(
                        other,
                    )
            },
    {
        match self.delete(&key) {
            Ok(_) => {},
            Err(e) => { return Err(e); },
        }
        let ghost between = *self;
        let r = self.insert(key, position);
        proof {
            if r is Ok && (old(self).metadata.root_position is None || self.metadata.next_offset
                == old(self).metadata.next_offset) {
                assert forall|other: Seq<char>| other != key@ implies #[trigger] self.lookup(
                    other,
                ) == old(self).lookup(other) by {
                    assert(between.lookup(other) == old(self).lookup(other));
                }
            }
            if r is Ok && old(self).sound() {
                assert forall|other: Seq<char>| other != key@ implies #[trigger] self.lookup(
                    other,
                ) == old(self).lookup(other) by {
                    assert(between.lookup(other) == old(self).lookup(other));
                }
            }
        }
        r
    }
}

/// Whether the keys of a leaf never go down: no entry comes before an
/// entry in front of it.
pub open spec fn leaf_sorted(entries: Seq<LeafEntryView>) -> bool {
    forall|i: int, j: int|
        0 <= i < j < entries.len() ==> !key_before(
            (#[trigger] entries[j]).key,
            (#[trigger] entries[i]).key,
        )
}

/// Whether the separators of an internal node never go down.
pub open spec fn separators_sorted(entries: Seq<InternalEntryView>) -> bool {
    forall|i: int, j: int|
        0 <= i < j < entries.len() ==> !key_before(
            (#[trigger] entries[j]).key,
            (#[trigger] entries[i]).key,
        )
}

/// The entries in front of the place where a key goes come before the key;
/// the entry at that place, where there is one, does not.
pub proof fn lemma_leaf_insert_index(entries: Seq<LeafEntryView>, key: Seq<char>)
    ensures
        0 <= leaf_insert_index(entries, key) <= entries.len(),
        forall|i: int|
            0 <= i < leaf_insert_index(entries, key) ==> key_before(
                (#[trigger] entries[i]).key,
                key,
            ),
        leaf_insert_index(entries, key) < entries.len() ==> !key_before(
            entries[leaf_insert_index(entries, key)].key,
            key,
        ),
    decreases entries.len(),
{
    if entries.len() > 0 && key_before(entries[0].key, key) {
        lemma_leaf_insert_index(entries.skip(1), key);
        assert forall|i: int| 0 <= i < leaf_insert_index(entries, key) implies key_before(
            (#[trigger] entries[i]).key,
            key,
        ) by {
            if i > 0 {
                assert(entries.skip(1)[i - 1] == entries[i]);
            }
        }
    }
}

/// A leaf whose keys never go down stays so when an entry is put where its
/// key belongs.
pub proof fn lemma_insert_keeps_sorted(entries: Seq<LeafEntryView>, e: LeafEntryView)
    requires
        leaf_sorted(entries),
    ensures
        leaf_sorted(entries.insert(leaf_insert_index(entries, e.key), e)),
{
    let at = leaf_insert_index(entries, e.key);
    let after = entries.insert(at, e);
    lemma_leaf_insert_index(entries, e.key);
    let new_key = vstd::utf8::encode_utf8(e.key);
    assert forall|i: int, j: int| 0 <= i < j < after.len() implies !key_before(
        (#[trigger] after[j]).key,
        (#[trigger] after[i]).key,
    ) by {
        let a = vstd::utf8::encode_utf8(after[i].key);
        let b = vstd::utf8::encode_utf8(after[j].key);
        if j == at {
            // an entry in front of the new one comes before it
            assert(after[i] == entries[i]);
            if crate::bytes::bytes_less(b, a) {
                lemma_bytes_less_transitive(b, a, new_key);
                crate::bytes::lemma_bytes_less_irreflexive(new_key);
            }
        } else if i == at {
            // the new one does not come after an entry behind it
            assert(after[j] == entries[j - 1]);
            if at < j - 1 {
                assert(!key_before(entries[j - 1].key, entries[at].key));
            }
            if crate::bytes::bytes_less(b, new_key) {
                let first = vstd::utf8::encode_utf8(entries[at].key);
                lemma_bytes_less_total(first, b);
                if crate::bytes::bytes_less(first, b) {
                    lemma_bytes_less_transitive(first, b, new_key);
                }
            }
        } else {
            let x = if i < at { i } else { i - 1 };
            let y = if j < at { j } else { j - 1 };
            assert(after[i] == entries[x]);
            assert(after[j] == entries[y]);
        }
    }
}

/// Splitting a leaf whose keys never go down keeps the order of its
/// entries: the two halves one after the other are the leaf as it was, the
/// keys of neither half go down, no key of the lower half comes after the
/// first key of the upper half, and no key of the upper half comes before it.
pub proof fn lemma_split_leaf_keeps_order(node: BTreeNodeView, mid: int)
    requires
        leaf_sorted(node.leaf_entries),
        0 <= mid < node.leaf_entries.len(),
    ensures
        lower_leaf(node, mid).leaf_entries + upper_leaf(node, mid).leaf_entries
            == node.leaf_entries,
        leaf_sorted(lower_leaf(node, mid).leaf_entries),
        leaf_sorted(upper_leaf(node, mid).leaf_entries),
        forall|i: int|
            0 <= i < mid ==> !key_before(
                node.leaf_entries[mid].key,
                (#[trigger] lower_leaf(node, mid).leaf_entries[i]).key,
            ),
        forall|i: int|
            0 <= i < node.leaf_entries.len() - mid ==> !key_before(
                (#[trigger] upper_leaf(node, mid).leaf_entries[i]).key,
                node.leaf_entries[mid].key,
            ),
{
    let lower = lower_leaf(node, mid).leaf_entries;
    let upper = upper_leaf(node, mid).leaf_entries;
    assert(lower + upper =~= node.leaf_entries);
    assert forall|i: int, j: int| 0 <= i < j < lower.len() implies !key_before(
        (#[trigger] lower[j]).key,
        (#[trigger] lower[i]).key,
    ) by {
        assert(lower[i] == node.leaf_entries[i] && lower[j] == node.leaf_entries[j]);
    }
    assert forall|i: int, j: int| 0 <= i < j < upper.len() implies !key_before(
        (#[trigger] upper[j]).key,
        (#[trigger] upper[i]).key,
    ) by {
        assert(upper[i] == node.leaf_entries[mid + i] && upper[j] == node.leaf_entries[mid + j]);
    }
    assert forall|i: int| 0 <= i < mid implies !key_before(
        node.leaf_entries[mid].key,
        (#[trigger] lower[i]).key,
    ) by {
        assert(lower[i] == node.leaf_entries[i]);
    }
    assert forall|i: int| 0 <= i < node.leaf_entries.len() - mid implies !key_before(
        (#[trigger] upper[i]).key,
        node.leaf_entries[mid].key,
    ) by {
        assert(upper[i] == node.leaf_entries[mid + i]);
        if i > 0 {
            assert(!key_before(node.leaf_entries[mid + i].key, node.leaf_entries[mid].key));
        } else {
            crate::bytes::lemma_bytes_less_irreflexive(
                vstd::utf8::encode_utf8(node.leaf_entries[mid].key),
            );
        }
    }
}

/// The children of an internal node from left to right.
pub open spec fn children(node: BTreeNodeView) -> Seq<u64> {
    seq![node.leftmost_child.unwrap()] + Seq::new(
        node.internal_entries.len(),
        |i: int| node.internal_entries[i].child,
    )
}

/// Splitting an internal node whose separators never go down keeps the
/// order of its children: the children of the two halves one after the other
/// are the children of the node as it was, the separators of neither half go
/// down, no separator of the lower half comes after the key that goes up, and
/// no separator of the upper half comes before it.
pub proof fn lemma_split_internal_keeps_order(node: BTreeNodeView, mid: int)
    requires
        separators_sorted(node.internal_entries),
        node.leftmost_child is Some,
        0 <= mid < node.internal_entries.len(),
    ensures
        children(lower_internal(node, mid)) + children(upper_internal(node, mid)) == children(
            node,
        ),
        separators_sorted(lower_internal(node, mid).internal_entries),
        separators_sorted(upper_internal(node, mid).internal_entries),
        forall|i: int|
            0 <= i < mid ==> !key_before(
                node.internal_entries[mid].key,
                (#[trigger] lower_internal(node, mid).internal_entries[i]).key,
            ),
        forall|i: int|
            0 <= i < node.internal_entries.len() - mid - 1 ==> !key_before(
                (#[trigger] upper_internal(node, mid).internal_entries[i]).key,
                node.internal_entries[mid].key,
            ),
{
    let lower = lower_internal(node, mid).internal_entries;
    let upper = upper_internal(node, mid).internal_entries;
    assert(children(lower_internal(node, mid)) + children(upper_internal(node, mid))
        =~= children(node));
    assert forall|i: int, j: int| 0 <= i < j < lower.len() implies !key_before(
        (#[trigger] lower[j]).key,
        (#[trigger] lower[i]).key,
    ) by {
        assert(lower[i] == node.internal_entries[i] && lower[j] == node.internal_entries[j]);
    }
    assert forall|i: int, j: int| 0 <= i < j < upper.len() implies !key_before(
        (#[trigger] upper[j]).key,
        (#[trigger] upper[i]).key,
    ) by {
        assert(upper[i] == node.internal_entries[mid + 1 + i]);
        assert(upper[j] == node.internal_entries[mid + 1 + j]);
    }
    assert forall|i: int| 0 <= i < mid implies !key_before(
        node.internal_entries[mid].key,
        (#[trigger] lower[i]).key,
    ) by {
        assert(lower[i] == node.internal_entries[i]);
    }
    assert forall|i: int| 0 <= i < node.internal_entries.len() - mid - 1 implies !key_before(
        (#[trigger] upper[i]).key,
        node.internal_entries[mid].key,
    ) by {
        assert(upper[i] == node.internal_entries[mid + 1 + i]);
    }
}

impl BTreeIndex {
    /// Whether every known node is in order and the node at `at` is known.
    pub open spec fn settled(&self, at: u64) -> bool {
        &&& ordered_but(self.files(), self.slots@, self.metadata.next_offset, None)
        &&& self.slots@.contains_key(at)
    }

    /// Whether every known node is in order but the one at `at`, which is
    /// about to be written with `node`, an internal node that is in order.
    pub open spec fn open_at(&self, at: u64, node: BTreeNodeView) -> bool {
        &&& ordered_but(self.files(), self.slots@, self.metadata.next_offset, Some(at))
        &&& self.slots@.contains_key(at)
        &&& at < self.metadata.next_offset
        &&& block_aligned(at)
        &&& node.node_type == BTreeNodeType::Internal
        &&& internal_in_order(node, self.slots@[at], self.slots@, at)
    }
}

/// Whether what is known of the nodes at or above the level of the node at
/// `at`, but for that node, is as it was, and those nodes kept their shapes.
pub open spec fn kept_above(before: BTreeIndex, after: BTreeIndex, at: u64) -> bool {
    forall|q: u64|
        #[trigger] before.slots@.contains_key(q) && q != at && before.slots@[q].height
            >= before.slots@[at].height ==> after.slots@.contains_key(q) && after.slots@[q]
            == before.slots@[q] && shape(node_at(after.files(), q)) == shape(
            node_at(before.files(), q),
        )
}

/// What holds after the node at `at` was split and `key` goes up with the
/// new node at `fresh`: the node is bounded above by the key and the new node
/// below by it, the key lies within the bounds the node had, every known node
/// is in order but the node above the two, and nothing changed at or above
/// their level.
pub open spec fn split_settled(
    before: BTreeIndex,
    after: BTreeIndex,
    at: u64,
    key: Seq<char>,
    fresh: u64,
) -> bool {
    &&& !before.slots@.contains_key(fresh)
    &&& after.slots@.contains_key(at)
    &&& after.slots@[at] == (Slot { hi: Some(key), ..before.slots@[at] })
    &&& after.slots@.contains_key(fresh)
    &&& after.slots@[fresh] == (Slot { lo: Some(key), ..before.slots@[at] })
    &&& at_least(key, before.slots@[at].lo)
    &&& at_most(key, before.slots@[at].hi)
    &&& ordered_but(
        after.files(),
        after.slots@,
        after.metadata.next_offset,
        before.slots@[at].up,
    )
    &&& kept_above(before, after, at)
}

/// After the child at place `i` of the node at `at` was split and the new
/// child was told its parent, the node with the separator and the new child
/// taken in is in order, and every other known node is.
#[verifier::rlimit(60)]
pub proof fn lemma_after_child_split(
    before: BTreeIndex,
    below: BTreeIndex,
    hung: BTreeIndex,
    at: u64,
    node: BTreeNodeView,
    i: int,
    key: Seq<char>,
    fresh: u64,
)
    requires
        before.settled(at),
        node_at(before.files(), at) == Some(node),
        node.node_type == BTreeNodeType::Internal,
        node.leftmost_child is Some,
        0 <= i <= node.internal_entries.len(),
        split_settled(before, below, child_at(node, i), key, fresh),
        hung.slots == below.slots,
        hung.metadata.next_offset == below.metadata.next_offset,
        before.metadata.next_offset <= below.metadata.next_offset,
        shapes_kept(below.files(), hung.files(), Set::empty()),
    ensures
        hung.open_at(at, with_child(node, i, key, fresh)),
        hung.slots@[at] == before.slots@[at],
        kept_above(before, hung, at),
        !before.slots@.contains_key(hung.metadata.next_offset),
{
    let child = child_at(node, i);
    let slot = before.slots@[at];
    assert(in_order_at(before.files(), before.slots@, before.metadata.next_offset, at));
    assert(internal_in_order(node, slot, before.slots@, at));
    assert(slot.height >= 2);
    assert(before.slots@[child].up == Some(at)) by {
        assert(before.slots@[child_at(node, i)]
            == crate::disktable::index::order::expected_slot(node, slot, at, i));
    }
    assert(before.slots@[child].height < slot.height) by {
        assert(before.slots@[child_at(node, i)]
            == crate::disktable::index::order::expected_slot(node, slot, at, i));
    }
    assert(child != at);
    assert(below.slots@.contains_key(at) && below.slots@[at] == slot);
    assert(before.slots@[child] == crate::disktable::index::order::expected_slot(
        node,
        slot,
        at,
        i,
    ));
    assert(before.slots@.contains_key(child));
    lemma_shapes_in_order(
        below.files(),
        hung.files(),
        below.slots@,
        below.metadata.next_offset,
        hung.metadata.next_offset,
        Some(at),
    );
    assert forall|j: int|
        0 <= j <= node.internal_entries.len() && j != i implies hung.slots@.contains_key(
        #[trigger] child_at(node, j),
    ) && hung.slots@[child_at(node, j)] == before.slots@[child_at(node, j)] by {
        let c = child_at(node, j);
        assert(before.slots@[c] == crate::disktable::index::order::expected_slot(
            node,
            slot,
            at,
            j,
        ));
        assert(before.slots@.contains_key(c));
        if j < i {
            assert(child_at(node, j) != child_at(node, i));
        } else {
            assert(child_at(node, i) != child_at(node, j));
        }
    }
    lemma_parent_took_child(node, before.slots@, hung.slots@, at, i, key, fresh);
    assert forall|q: u64|
        #[trigger] before.slots@.contains_key(q) && q != at && before.slots@[q].height
            >= before.slots@[at].height implies hung.slots@.contains_key(q) && hung.slots@[q]
        == before.slots@[q] && shape(node_at(hung.files(), q)) == shape(
        node_at(before.files(), q),
    ) by {
        assert(in_order_at(before.files(), before.slots@, before.metadata.next_offset, q));
        assert(shape(node_at(below.files(), q)) == shape(node_at(before.files(), q)));
    }
    if before.slots@.contains_key(hung.metadata.next_offset) {
        assert(in_order_at(
            before.files(),
            before.slots@,
            before.metadata.next_offset,
            hung.metadata.next_offset,
        ));
    }
}

/// A split of the node at `at` that follows the split of one of its
/// children is a split of the node as it was before either.
pub proof fn lemma_split_above(
    before: BTreeIndex,
    hung: BTreeIndex,
    after: BTreeIndex,
    at: u64,
    key: Seq<char>,
    fresh: u64,
)
    requires
        before.slots@.contains_key(at),
        hung.slots@[at] == before.slots@[at],
        kept_above(before, hung, at),
        split_settled(hung, after, at, key, fresh),
        !before.slots@.contains_key(fresh),
    ensures
        split_settled(before, after, at, key, fresh),
{
    assert forall|q: u64|
        #[trigger] before.slots@.contains_key(q) && q != at && before.slots@[q].height
            >= before.slots@[at].height implies after.slots@.contains_key(q) && after.slots@[q]
        == before.slots@[q] && shape(node_at(after.files(), q)) == shape(
        node_at(before.files(), q),
    ) by {
        assert(hung.slots@.contains_key(q));
    }
}

} // verus!
