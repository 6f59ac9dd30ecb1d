//! What putting an entry into the index leaves in the files, and when it succeeds.

use vstd::prelude::*;
use crate::disktable::index::btree::{
    block_aligned, child_for, encoded_node, first_index, leaf_for, leaf_insert_index,
    lower_internal, lower_leaf, middle, node_at, node_full, segment_number, single_leaf, stored,
    upper_internal, upper_leaf, with_parent, without_first, BTreeMetadata, BTreeNodePosition,
    BTreeNodeType, BTreeNodeView, InternalEntryView, LeafEntryView, MAX_TREE_DEPTH,
    NODE_PAYLOAD_MAX, NODE_SIZE,
};
use crate::disktable::index::growth::root_above;
use crate::disktable::index::order::with_child;

verus! {

/// Whether the encoding of a node fits into a block.
pub open spec fn fits(node: BTreeNodeView) -> bool {
    encoded_node(node) is Some && encoded_node(node).unwrap().len() <= NODE_PAYLOAD_MAX
}

/// The files after a node was written over the block at `offset`; nothing
/// where the node does not fit into a block, the offset starts no block, or
/// it lies in a segment beyond the one that comes next.
pub open spec fn updated(files: Seq<Seq<u8>>, offset: u64, node: BTreeNodeView) -> Option<
    Seq<Seq<u8>>,
> {
    if fits(node) && block_aligned(offset) && segment_number(offset) <= files.len() {
        Some(stored(files, offset, encoded_node(node).unwrap()))
    } else {
        None
    }
}

/// The files and the next free offset after a node was written as a new
/// block at the next free offset `next`; nothing where it cannot be written
/// there or no block lies behind that offset.
pub open spec fn written(files: Seq<Seq<u8>>, next: u64, node: BTreeNodeView) -> Option<
    (Seq<Seq<u8>>, u64),
> {
    if next + NODE_SIZE <= u64::MAX {
        match updated(files, next, node) {
            Some(now) => Some((now, (next + NODE_SIZE) as u64)),
            None => None,
        }
    } else {
        None
    }
}

/// The files after the node at `child` was told that the node at `parent`
/// stands above it; nothing where it cannot be read or written.
pub open spec fn reparented(files: Seq<Seq<u8>>, child: u64, parent: u64) -> Option<Seq<Seq<u8>>> {
    match node_at(files, child) {
        Some(node) => updated(files, child, with_parent(node, parent)),
        None => None,
    }
}

/// The files after the children of the entries, one after the other, were
/// told that the node at `parent` stands above them.
pub open spec fn reparented_all(
    files: Seq<Seq<u8>>,
    entries: Seq<InternalEntryView>,
    parent: u64,
) -> Option<Seq<Seq<u8>>>
    decreases entries.len(),
{
    if entries.len() == 0 {
        Some(files)
    } else {
        match reparented(files, entries[0].child, parent) {
            Some(now) => reparented_all(now, entries.skip(1), parent),
            None => None,
        }
    }
}

/// Telling the children from place `i` on is telling the child at place `i`
/// and then those behind it.
pub proof fn lemma_told_step(
    files: Seq<Seq<u8>>,
    entries: Seq<InternalEntryView>,
    i: int,
    parent: u64,
)
    requires
        0 <= i < entries.len(),
    ensures
        reparented_all(files, entries.skip(i), parent) == (match reparented(
            files,
            entries[i].child,
            parent,
        ) {
            Some(now) => reparented_all(now, entries.skip(i + 1), parent),
            None => None,
        }),
{
    let rest = entries.skip(i);
    assert(rest[0] == entries[i]);
    assert(rest.skip(1) =~= entries.skip(i + 1));
}

/// What putting an entry in leaves: the files, the next free offset, and,
/// where the node was split, the key that goes up with the new node.
pub struct Put {
    pub files: Seq<Seq<u8>>,
    pub next: u64,
    pub split: Option<(Seq<char>, u64)>,
}

/// A leaf after it was split at its middle: the upper half is written as a
/// new block, then the leaf is written over with its lower half.
pub open spec fn leaf_split(files: Seq<Seq<u8>>, next: u64, at: u64, node: BTreeNodeView) -> Option<
    Put,
> {
    let mid = middle(node.leaf_entries.len());
    match written(files, next, upper_leaf(node, mid)) {
        Some(added) => match updated(added.0, at, lower_leaf(node, mid)) {
            Some(now) => Some(
                Put { files: now, next: added.1, split: Some((node.leaf_entries[mid].key, next)) },
            ),
            None => None,
        },
        None => None,
    }
}

/// The end of the split of an internal node: once the children that moved
/// were told of the new node, the node is written over with its lower half.
pub open spec fn split_finish(
    told: Option<Seq<Seq<u8>>>,
    at: u64,
    lower: BTreeNodeView,
    next: u64,
    key: Seq<char>,
    fresh: u64,
) -> Option<Put> {
    match told {
        Some(files) => match updated(files, at, lower) {
            Some(now) => Some(Put { files: now, next, split: Some((key, fresh)) }),
            None => None,
        },
        None => None,
    }
}

/// An internal node after it was split at its middle: the upper half is
/// written as a new block, the children that moved are told of it, the child
/// of the middle entry first, then the node is written over with its lower
/// half.
#[verifier::opaque]
pub open spec fn internal_split(
    files: Seq<Seq<u8>>,
    next: u64,
    at: u64,
    node: BTreeNodeView,
) -> Option<Put> {
    let mid = middle(node.internal_entries.len());
    let upper = upper_internal(node, mid);
    match written(files, next, upper) {
        Some(added) => match reparented(added.0, node.internal_entries[mid].child, next) {
            Some(first) => split_finish(
                reparented_all(first, upper.internal_entries, next),
                at,
                lower_internal(node, mid),
                added.1,
                node.internal_entries[mid].key,
                next,
            ),
            None => None,
        },
        None => None,
    }
}

/// The key and the new node that a split hands up, as values.
pub open spec fn split_view(
    split: Option<(String, crate::disktable::index::btree::BTreeNodePosition)>,
) -> Option<(Seq<char>, u64)> {
    match split {
        Some(up) => Some((up.0@, up.1.offset)),
        None => None,
    }
}

/// A leaf with an entry put in where its key belongs.
pub open spec fn grown_leaf(node: BTreeNodeView, e: LeafEntryView) -> BTreeNodeView {
    BTreeNodeView {
        leaf_entries: node.leaf_entries.insert(leaf_insert_index(node.leaf_entries, e.key), e),
        ..node
    }
}

/// What putting an entry in below the node at `at` leaves, going at most
/// `fuel` nodes deep: the leaf under which the key belongs takes the entry;
/// a node that is full afterwards is split, and the node above it takes the
/// key that goes up with the new node, after the new node was told of the
/// node above it. Nothing where a node on the way cannot be read or written.
pub open spec fn put_below(
    files: Seq<Seq<u8>>,
    next: u64,
    at: u64,
    e: LeafEntryView,
    order: u16,
    fuel: nat,
) -> Option<Put>
    decreases fuel,
{
    if fuel == 0 {
        None
    } else {
        match node_at(files, at) {
            None => None,
            Some(node) => match node.node_type {
                BTreeNodeType::Leaf => {
                    let grown = grown_leaf(node, e);
                    if node_full(grown, order) {
                        leaf_split(files, next, at, grown)
                    } else {
                        match updated(files, at, grown) {
                            Some(now) => Some(Put { files: now, next, split: None }),
                            None => None,
                        }
                    }
                },
                BTreeNodeType::Internal => match node.leftmost_child {
                    None => None,
                    Some(leftmost) => match put_below(
                        files,
                        next,
                        child_for(leftmost, node.internal_entries, e.key),
                        e,
                        order,
                        (fuel - 1) as nat,
                    ) {
                        None => None,
                        Some(below) => match below.split {
                            None => Some(below),
                            Some(up) => match reparented(below.files, up.1, at) {
                                None => None,
                                Some(hung) => {
                                    let taken = with_child(
                                        node,
                                        crate::disktable::index::btree::descend_index(
                                            node.internal_entries,
                                            e.key,
                                        ),
                                        up.0,
                                        up.1,
                                    );
                                    if node_full(taken, order) {
                                        internal_split(hung, below.next, at, taken)
                                    } else {
                                        match updated(hung, at, taken) {
                                            Some(now) => Some(
                                                Put { files: now, next: below.next, split: None },
                                            ),
                                            None => None,
                                        }
                                    }
                                },
                            },
                        },
                    },
                },
            },
        }
    }
}

/// What putting an entry into an index leaves, as files and metadata. An
/// index without a root gets a leaf with the entry as its root. Else the
/// entry is put in below the root, one level less deep than a search goes;
/// where the root was split, a new root is written above the two halves, both
/// are told of it, the old root first, and the metadata names the new root.
/// Nothing where the order is zero or a node cannot be read or written.
pub open spec fn put_in(files: Seq<Seq<u8>>, metadata: BTreeMetadata, e: LeafEntryView) -> Option<
    (Seq<Seq<u8>>, BTreeMetadata),
> {
    match metadata.root_position {
        None => match written(files, metadata.next_offset, single_leaf(e)) {
            Some(added) => Some(
                (
                    added.0,
                    BTreeMetadata {
                        root_position: Some(BTreeNodePosition { offset: metadata.next_offset }),
                        order: metadata.order,
                        next_offset: added.1,
                    },
                ),
            ),
            None => None,
        },
        Some(root) => if metadata.order == 0 {
            None
        } else {
            match put_below(
                files,
                metadata.next_offset,
                root.offset,
                e,
                metadata.order,
                (MAX_TREE_DEPTH - 1) as nat,
            ) {
                None => None,
                Some(put) => match put.split {
                    None => Some((put.files, BTreeMetadata { next_offset: put.next, ..metadata })),
                    Some(up) => match written(
                        put.files,
                        put.next,
                        root_above(root.offset, up.0, up.1),
                    ) {
                        None => None,
                        Some(added) => match reparented(added.0, root.offset, put.next) {
                            None => None,
                            Some(first) => match reparented(first, up.1, put.next) {
                                None => None,
                                Some(both) => Some(
                                    (
                                        both,
                                        BTreeMetadata {
                                            root_position: Some(
                                                BTreeNodePosition { offset: put.next },
                                            ),
                                            order: metadata.order,
                                            next_offset: added.1,
                                        },
                                    ),
                                ),
                            },
                        },
                    },
                },
            }
        },
    }
}

/// The files after the first entry with a key was taken out of the leaf
/// under which the key belongs: the leaf written over without that entry, and
/// the files as they were where the leaf holds no such entry or the index has
/// no root. Nothing where the leaf cannot be reached or written.
pub open spec fn taken_out(
    files: Seq<Seq<u8>>,
    root: Option<BTreeNodePosition>,
    key: Seq<char>,
) -> Option<Seq<Seq<u8>>> {
    match root {
        None => Some(files),
        Some(top) => match leaf_for(files, top.offset, key, MAX_TREE_DEPTH as nat) {
            None => None,
            Some(leaf) => {
                let node = node_at(files, leaf).unwrap();
                if first_index(node.leaf_entries, key) < node.leaf_entries.len() {
                    updated(
                        files,
                        leaf,
                        BTreeNodeView {
                            leaf_entries: without_first(node.leaf_entries, key),
                            ..node
                        },
                    )
                } else {
                    Some(files)
                }
            },
        },
    }
}

/// What replacing the entry of a key leaves: the first entry with the key
/// is taken out, then the entry is put in.
pub open spec fn replaced(files: Seq<Seq<u8>>, metadata: BTreeMetadata, e: LeafEntryView) -> Option<
    (Seq<Seq<u8>>, BTreeMetadata),
> {
    match taken_out(files, metadata.root_position, e.key) {
        Some(now) => put_in(now, metadata, e),
        None => None,
    }
}

} // verus!
