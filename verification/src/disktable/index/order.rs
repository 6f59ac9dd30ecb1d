//! What it means for the nodes of the index to be in order, and what keeps them so.

use vstd::prelude::*;
use crate::bytes::{
    bytes_less, key_before, lemma_bytes_less_irreflexive, lemma_bytes_less_total,
    lemma_bytes_less_transitive,
};
use crate::disktable::index::btree::{
    block_aligned, child_for, descend_index, kept_except, leaf_sorted,
    lemma_split_internal_keeps_order, lemma_split_leaf_keeps_order, lower_internal, lower_leaf,
    node_at, separators_sorted, upper_internal, upper_leaf, BTreeNodeType, BTreeNodeView,
    InternalEntryView,
};

verus! {

/// What is known of a node of the tree without reading it: the keys below
/// it lie between `lo` and `hi`, both included, where there is such a bound;
/// `height` counts the nodes from it down to a leaf; `up` is the node above it.
pub struct Slot {
    pub lo: Option<Seq<char>>,
    pub hi: Option<Seq<char>>,
    pub height: nat,
    pub up: Option<u64>,
}

/// Whether a key does not come before a lower bound.
pub open spec fn at_least(key: Seq<char>, lo: Option<Seq<char>>) -> bool {
    match lo {
        Some(l) => !key_before(key, l),
        None => true,
    }
}

/// Whether a key does not come after an upper bound.
pub open spec fn at_most(key: Seq<char>, hi: Option<Seq<char>>) -> bool {
    match hi {
        Some(h) => !key_before(h, key),
        None => true,
    }
}

/// The child of an internal node at place `i`, counted from the leftmost child as place 0.
pub open spec fn child_at(node: BTreeNodeView, i: int) -> u64 {
    if i == 0 {
        node.leftmost_child.unwrap()
    } else {
        node.internal_entries[i - 1].child
    }
}

/// The lower bound of the child at place `i`: the separator in front of it,
/// or the lower bound of the node for the leftmost child.
pub open spec fn floor_of(node: BTreeNodeView, slot: Slot, i: int) -> Option<Seq<char>> {
    if i == 0 {
        slot.lo
    } else {
        Some(node.internal_entries[i - 1].key)
    }
}

/// The upper bound of the child at place `i`: the separator behind it, or
/// the upper bound of the node for the last child.
pub open spec fn ceiling_of(node: BTreeNodeView, slot: Slot, i: int) -> Option<Seq<char>> {
    if i < node.internal_entries.len() {
        Some(node.internal_entries[i].key)
    } else {
        slot.hi
    }
}

/// What is known of the child at place `i` of a node at `at`.
pub open spec fn expected_slot(node: BTreeNodeView, slot: Slot, at: u64, i: int) -> Slot {
    Slot {
        lo: floor_of(node, slot, i),
        hi: ceiling_of(node, slot, i),
        height: (slot.height - 1) as nat,
        up: Some(at),
    }
}

/// Whether a leaf is in order: its keys never go down and lie between its bounds.
pub open spec fn leaf_in_order(node: BTreeNodeView, slot: Slot) -> bool {
    &&& slot.height == 1
    &&& leaf_sorted(node.leaf_entries)
    &&& forall|i: int|
        0 <= i < node.leaf_entries.len() ==> at_least(
            (#[trigger] node.leaf_entries[i]).key,
            slot.lo,
        ) && at_most(node.leaf_entries[i].key, slot.hi)
}

/// Whether an internal node is in order: its separators never go down and
/// lie between its bounds, each child is known with the bounds that the
/// separators around it give, one level further down and with this node above
/// it, and no child occurs twice.
pub open spec fn internal_in_order(
    node: BTreeNodeView,
    slot: Slot,
    slots: Map<u64, Slot>,
    at: u64,
) -> bool {
    &&& slot.height >= 2
    &&& node.leftmost_child is Some
    &&& separators_sorted(node.internal_entries)
    &&& forall|i: int|
        0 <= i < node.internal_entries.len() ==> at_least(
            (#[trigger] node.internal_entries[i]).key,
            slot.lo,
        ) && at_most(node.internal_entries[i].key, slot.hi)
    &&& forall|i: int|
        0 <= i <= node.internal_entries.len() ==> slots.contains_key(#[trigger] child_at(node, i))
            && slots[child_at(node, i)] == expected_slot(node, slot, at, i)
    &&& forall|i: int, j: int|
        0 <= i < j <= node.internal_entries.len() ==> #[trigger] child_at(node, i)
            != #[trigger] child_at(node, j)
}

/// Whether a node is in order.
pub open spec fn node_in_order(node: BTreeNodeView, slot: Slot, slots: Map<u64, Slot>, at: u64) -> bool {
    match node.node_type {
        BTreeNodeType::Leaf => leaf_in_order(node, slot),
        BTreeNodeType::Internal => internal_in_order(node, slot, slots, at),
    }
}

/// Whether the node stored at `p` is in order: it lies in a block below the
/// next free offset, can be read, and is in order with what is known of it.
pub open spec fn in_order_at(
    files: Seq<Seq<u8>>,
    slots: Map<u64, Slot>,
    next_offset: u64,
    p: u64,
) -> bool {
    &&& p < next_offset
    &&& block_aligned(p)
    &&& node_at(files, p) is Some
    &&& node_in_order(node_at(files, p).unwrap(), slots[p], slots, p)
}

/// Whether every known node is in order, but for the one at `hole`.
pub open spec fn ordered_but(
    files: Seq<Seq<u8>>,
    slots: Map<u64, Slot>,
    next_offset: u64,
    hole: Option<u64>,
) -> bool {
    forall|p: u64|
        #[trigger] slots.contains_key(p) && Some(p) != hole ==> in_order_at(
            files,
            slots,
            next_offset,
            p,
        )
}

/// A node without what it says of the node above it.
pub open spec fn shape(node: Option<BTreeNodeView>) -> Option<BTreeNodeView> {
    match node {
        Some(n) => Some(BTreeNodeView { parent: None, ..n }),
        None => None,
    }
}

/// Whether every node that could be read before, at an offset outside
/// `touched`, reads the same afterwards but for what it says of the node
/// above it.
pub open spec fn shapes_kept(before: Seq<Seq<u8>>, after: Seq<Seq<u8>>, touched: Set<u64>) -> bool {
    forall|q: u64|
        !touched.contains(q) && (#[trigger] node_at(before, q)) is Some ==> shape(
            node_at(after, q),
        ) == shape(node_at(before, q))
}

/// Whether being in order does not depend on what a node says of the node above it.
pub proof fn lemma_shape_in_order(
    a: BTreeNodeView,
    b: BTreeNodeView,
    slot: Slot,
    slots: Map<u64, Slot>,
    at: u64,
)
    requires
        shape(Some(a)) == shape(Some(b)),
    ensures
        node_in_order(a, slot, slots, at) == node_in_order(b, slot, slots, at),
{
    assert(a.leaf_entries == b.leaf_entries);
    assert(a.internal_entries == b.internal_entries);
    assert(a.leftmost_child == b.leftmost_child);
    assert(a.node_type == b.node_type);
    assert forall|i: int| child_at(a, i) == child_at(b, i) by {}
    assert forall|i: int| expected_slot(a, slot, at, i) == expected_slot(b, slot, at, i) by {}
}

/// Splitting a leaf that is in order leaves every known node in order but
/// the node above the leaf: the leaf keeps its lower half, bounded above by
/// the first key of the upper half, and the new leaf takes the upper half,
/// bounded below by that key.
pub proof fn lemma_leaf_split_in_order(
    before: Seq<Seq<u8>>,
    after: Seq<Seq<u8>>,
    slots: Map<u64, Slot>,
    next_offset: u64,
    leaf: u64,
    node: BTreeNodeView,
    mid: int,
)
    requires
        ordered_but(before, slots, next_offset, None),
        slots.contains_key(leaf),
        !slots.contains_key(next_offset),
        block_aligned(next_offset),
        next_offset + 8192 <= u64::MAX,
        node.node_type == BTreeNodeType::Leaf,
        leaf_in_order(node, slots[leaf]),
        0 <= mid < node.leaf_entries.len(),
        shape(node_at(after, leaf)) == shape(Some(lower_leaf(node, mid))),
        shape(node_at(after, next_offset)) == shape(Some(upper_leaf(node, mid))),
        shapes_kept(before, after, set![leaf, next_offset]),
    ensures
        ordered_but(
            after,
            slots.insert(
                leaf,
                Slot { hi: Some(node.leaf_entries[mid].key), ..slots[leaf] },
            ).insert(next_offset, Slot { lo: Some(node.leaf_entries[mid].key), ..slots[leaf] }),
            (next_offset + 8192) as u64,
            slots[leaf].up,
        ),
        at_least(node.leaf_entries[mid].key, slots[leaf].lo),
        at_most(node.leaf_entries[mid].key, slots[leaf].hi),
{
    let split_key = node.leaf_entries[mid].key;
    let slot = slots[leaf];
    let lower_slot = Slot { hi: Some(split_key), ..slot };
    let upper_slot = Slot { lo: Some(split_key), ..slot };
    let now = slots.insert(leaf, lower_slot).insert(next_offset, upper_slot);
    let next = (next_offset + 8192) as u64;
    lemma_split_leaf_keeps_order(node, mid);
    assert(in_order_at(before, slots, next_offset, leaf));
    assert forall|p: u64| #[trigger] now.contains_key(p) && Some(p) != slot.up implies in_order_at(
        after,
        now,
        next,
        p,
    ) by {
        if p == next_offset {
            let upper = upper_leaf(node, mid);
            let stored = node_at(after, p).unwrap();
            lemma_shape_in_order(stored, upper, upper_slot, now, p);
            assert forall|i: int| 0 <= i < upper.leaf_entries.len() implies at_least(
                (#[trigger] upper.leaf_entries[i]).key,
                upper_slot.lo,
            ) && at_most(upper.leaf_entries[i].key, upper_slot.hi) by {
                assert(upper.leaf_entries[i] == node.leaf_entries[mid + i]);
            }
        } else if p == leaf {
            let lower = lower_leaf(node, mid);
            let stored = node_at(after, p).unwrap();
            lemma_shape_in_order(stored, lower, lower_slot, now, p);
            assert forall|i: int| 0 <= i < lower.leaf_entries.len() implies at_least(
                (#[trigger] lower.leaf_entries[i]).key,
                lower_slot.lo,
            ) && at_most(lower.leaf_entries[i].key, lower_slot.hi) by {
                assert(lower.leaf_entries[i] == node.leaf_entries[i]);
            }
        } else {
            assert(slots.contains_key(p));
            assert(in_order_at(before, slots, next_offset, p));
            assert(!set![leaf, next_offset].contains(p));
            let old_node = node_at(before, p).unwrap();
            let stored = node_at(after, p).unwrap();
            lemma_shape_in_order(stored, old_node, slots[p], now, p);
            if old_node.node_type == BTreeNodeType::Internal {
                assert forall|i: int| 0 <= i <= old_node.internal_entries.len() implies now.contains_key(
                    #[trigger] child_at(old_node, i),
                ) && now[child_at(old_node, i)] == expected_slot(old_node, slots[p], p, i) by {
                    let c = child_at(old_node, i);
                    assert(slots.contains_key(c));
                    if c == leaf {
                        assert(slots[leaf].up == Some(p));
                    }
                }
            }
        }
    }
    assert(node.leaf_entries[mid].key == split_key);
}

/// Nodes that read the same read the same but for what they say of the node above them.
pub proof fn lemma_shapes_kept(before: Seq<Seq<u8>>, after: Seq<Seq<u8>>, touched: Set<u64>)
    requires
        kept_except(before, after, touched),
    ensures
        shapes_kept(before, after, touched),
{
}

/// Where the nodes keep their shapes and what is known of them stays, and
/// the next free offset does not go back, every known node stays in order,
/// but for the nodes that were touched.
pub proof fn lemma_kept_in_order(
    before: Seq<Seq<u8>>,
    after: Seq<Seq<u8>>,
    slots: Map<u64, Slot>,
    next_before: u64,
    next_after: u64,
    touched: Set<u64>,
    p: u64,
)
    requires
        shapes_kept(before, after, touched),
        next_before <= next_after,
        slots.contains_key(p),
        in_order_at(before, slots, next_before, p),
        !touched.contains(p),
    ensures
        in_order_at(after, slots, next_after, p),
{
    lemma_shape_in_order(node_at(after, p).unwrap(), node_at(before, p).unwrap(), slots[p], slots, p);
}

/// A leaf that was written over with a leaf that is in order leaves every
/// known node in order.
pub proof fn lemma_leaf_changed_in_order(
    before: Seq<Seq<u8>>,
    after: Seq<Seq<u8>>,
    slots: Map<u64, Slot>,
    next_offset: u64,
    leaf: u64,
    node: BTreeNodeView,
)
    requires
        ordered_but(before, slots, next_offset, None),
        slots.contains_key(leaf),
        node.node_type == BTreeNodeType::Leaf,
        leaf_in_order(node, slots[leaf]),
        shape(node_at(after, leaf)) == shape(Some(node)),
        shapes_kept(before, after, set![leaf]),
    ensures
        ordered_but(after, slots, next_offset, None),
{
    assert(in_order_at(before, slots, next_offset, leaf));
    assert forall|p: u64| #[trigger] slots.contains_key(p) implies in_order_at(
        after,
        slots,
        next_offset,
        p,
    ) by {
        if p == leaf {
            lemma_shape_in_order(node_at(after, p).unwrap(), node, slots[p], slots, p);
        } else {
            assert(in_order_at(before, slots, next_offset, p));
            lemma_kept_in_order(before, after, slots, next_offset, next_offset, set![leaf], p);
        }
    }
}

/// A key that comes before another does not come after it.
pub proof fn lemma_key_order_one_way(a: Seq<char>, b: Seq<char>)
    requires
        key_before(a, b),
    ensures
        !key_before(b, a),
{
    let x = vstd::utf8::encode_utf8(a);
    let y = vstd::utf8::encode_utf8(b);
    if bytes_less(y, x) {
        lemma_bytes_less_transitive(x, y, x);
        lemma_bytes_less_irreflexive(x);
    }
}

/// Of three keys that never go down, the first does not come after the last.
pub proof fn lemma_key_order_chain(a: Seq<char>, b: Seq<char>, c: Seq<char>)
    requires
        !key_before(b, a),
        !key_before(c, b),
    ensures
        !key_before(c, a),
{
    let x = vstd::utf8::encode_utf8(a);
    let y = vstd::utf8::encode_utf8(b);
    let z = vstd::utf8::encode_utf8(c);
    if bytes_less(z, x) {
        lemma_bytes_less_total(x, y);
        lemma_bytes_less_total(y, z);
        if bytes_less(x, y) {
            lemma_bytes_less_transitive(z, x, y);
        } else if bytes_less(y, z) {
            lemma_bytes_less_transitive(y, z, x);
        }
    }
}

/// A key that does not come before a key within bounds is above the lower bound.
pub proof fn lemma_above_floor(key: Seq<char>, inner: Seq<char>, lo: Option<Seq<char>>)
    requires
        !key_before(key, inner),
        at_least(inner, lo),
    ensures
        at_least(key, lo),
{
    if lo is Some {
        lemma_key_order_chain(lo.unwrap(), inner, key);
    }
}

/// A key that does not come after a key within bounds is below the upper bound.
pub proof fn lemma_below_ceiling(key: Seq<char>, inner: Seq<char>, hi: Option<Seq<char>>)
    requires
        !key_before(inner, key),
        at_most(inner, hi),
    ensures
        at_most(key, hi),
{
    if hi is Some {
        lemma_key_order_chain(key, inner, hi.unwrap());
    }
}

/// The separators in front of the place where the descent goes on do not
/// come after the key; the separator at that place, where there is one, does.
pub proof fn lemma_descend_index(entries: Seq<InternalEntryView>, key: Seq<char>)
    ensures
        0 <= descend_index(entries, key) <= entries.len(),
        forall|i: int|
            0 <= i < descend_index(entries, key) ==> !key_before(
                key,
                (#[trigger] entries[i]).key,
            ),
        descend_index(entries, key) < entries.len() ==> key_before(
            key,
            entries[descend_index(entries, key)].key,
        ),
    decreases entries.len(),
{
    if entries.len() > 0 && !key_before(key, entries[0].key) {
        lemma_descend_index(entries.skip(1), key);
        assert forall|i: int| 0 <= i < descend_index(entries, key) implies !key_before(
            key,
            (#[trigger] entries[i]).key,
        ) by {
            if i > 0 {
                assert(entries.skip(1)[i - 1] == entries[i]);
            }
        }
    }
}

/// A key within the bounds of an internal node lies within the bounds of
/// the child under which it belongs.
pub proof fn lemma_child_in_range(node: BTreeNodeView, slot: Slot, key: Seq<char>)
    requires
        node.leftmost_child is Some,
        at_least(key, slot.lo),
        at_most(key, slot.hi),
    ensures
        0 <= descend_index(node.internal_entries, key) <= node.internal_entries.len(),
        child_for(node.leftmost_child.unwrap(), node.internal_entries, key) == child_at(
            node,
            descend_index(node.internal_entries, key),
        ),
        at_least(key, floor_of(node, slot, descend_index(node.internal_entries, key))),
        at_most(key, ceiling_of(node, slot, descend_index(node.internal_entries, key))),
{
    lemma_descend_index(node.internal_entries, key);
    let i = descend_index(node.internal_entries, key);
    if i < node.internal_entries.len() {
        lemma_key_order_one_way(key, node.internal_entries[i].key);
    }
    if i > 0 {
        assert(!key_before(key, node.internal_entries[i - 1].key));
    }
}

/// The node above a child that was split, with the separator and the new
/// child put behind the child.
pub open spec fn with_child(node: BTreeNodeView, i: int, key: Seq<char>, child: u64) -> BTreeNodeView {
    BTreeNodeView {
        internal_entries: node.internal_entries.insert(i, InternalEntryView { key, child }),
        ..node
    }
}

/// An internal node that was in order is in order again once it has taken
/// the separator and the new node that the split of its child at place `i`
/// gave.
pub proof fn lemma_parent_took_child(
    node: BTreeNodeView,
    before: Map<u64, Slot>,
    after: Map<u64, Slot>,
    at: u64,
    i: int,
    key: Seq<char>,
    fresh: u64,
)
    requires
        node.node_type == BTreeNodeType::Internal,
        before.contains_key(at),
        internal_in_order(node, before[at], before, at),
        0 <= i <= node.internal_entries.len(),
        after.contains_key(at),
        after[at] == before[at],
        !before.contains_key(fresh),
        after.contains_key(fresh),
        after.contains_key(child_at(node, i)),
        after[child_at(node, i)] == (Slot { hi: Some(key), ..before[child_at(node, i)] }),
        after[fresh] == (Slot { lo: Some(key), ..before[child_at(node, i)] }),
        at_least(key, before[child_at(node, i)].lo),
        at_most(key, before[child_at(node, i)].hi),
        forall|j: int|
            0 <= j <= node.internal_entries.len() && j != i ==> after.contains_key(
                #[trigger] child_at(node, j),
            ) && after[child_at(node, j)] == before[child_at(node, j)],
    ensures
        internal_in_order(with_child(node, i, key, fresh), after[at], after, at),
{
    let taken = with_child(node, i, key, fresh);
    let slot = before[at];
    let old_entries = node.internal_entries;
    let entries = taken.internal_entries;
    let n = old_entries.len() as int;
    assert(before[child_at(node, i)] == expected_slot(node, slot, at, i));
    // the separators never go down
    assert forall|a: int, b: int| 0 <= a < b < entries.len() implies !key_before(
        (#[trigger] entries[b]).key,
        (#[trigger] entries[a]).key,
    ) by {
        if b == i {
            assert(entries[a] == old_entries[a]);
            assert(before[child_at(node, i)].lo == Some(old_entries[i - 1].key));
            if a < i - 1 {
                assert(!key_before(old_entries[i - 1].key, old_entries[a].key));
            } else {
                lemma_bytes_less_irreflexive(vstd::utf8::encode_utf8(old_entries[a].key));
            }
            lemma_key_order_chain(old_entries[a].key, old_entries[i - 1].key, key);
        } else if a == i {
            assert(entries[b] == old_entries[b - 1]);
            assert(before[child_at(node, i)].hi == Some(old_entries[i].key));
            if i < b - 1 {
                assert(!key_before(old_entries[b - 1].key, old_entries[i].key));
            } else {
                lemma_bytes_less_irreflexive(vstd::utf8::encode_utf8(old_entries[i].key));
            }
            lemma_key_order_chain(key, old_entries[i].key, old_entries[b - 1].key);
        } else {
            let x = if a < i { a } else { a - 1 };
            let y = if b < i { b } else { b - 1 };
            assert(entries[a] == old_entries[x]);
            assert(entries[b] == old_entries[y]);
        }
    }
    // the separators lie between the bounds
    assert forall|a: int| 0 <= a < entries.len() implies at_least(
        (#[trigger] entries[a]).key,
        slot.lo,
    ) && at_most(entries[a].key, slot.hi) by {
        if a == i {
            if i > 0 {
                lemma_above_floor(key, old_entries[i - 1].key, slot.lo);
            }
            if i < n {
                lemma_below_ceiling(key, old_entries[i].key, slot.hi);
            }
        } else {
            let x = if a < i { a } else { a - 1 };
            assert(entries[a] == old_entries[x]);
        }
    }
    // each child is known as the separators around it say
    assert forall|a: int| 0 <= a <= entries.len() implies after.contains_key(
        #[trigger] child_at(taken, a),
    ) && after[child_at(taken, a)] == expected_slot(taken, slot, at, a) by {
        if a <= i {
            assert(child_at(taken, a) == child_at(node, a));
            assert(before[child_at(node, a)] == expected_slot(node, slot, at, a));
            if a < i {
                assert(entries[a] == old_entries[a]);
            }
        } else if a == i + 1 {
            assert(child_at(taken, a) == fresh);
            if a < entries.len() {
                assert(entries[a] == old_entries[a - 1]);
            }
        } else {
            assert(child_at(taken, a) == child_at(node, a - 1));
            assert(before[child_at(node, a - 1)] == expected_slot(node, slot, at, a - 1));
            assert(entries[a - 1] == old_entries[a - 2]);
            if a < entries.len() {
                assert(entries[a] == old_entries[a - 1]);
            }
        }
    }
    // no child occurs twice
    assert forall|a: int, b: int| 0 <= a < b <= entries.len() implies #[trigger] child_at(taken, a)
        != #[trigger] child_at(taken, b) by {
        let x = if a <= i { a } else { a - 1 };
        let y = if b <= i { b } else { b - 1 };
        if a == i + 1 {
            assert(child_at(taken, a) == fresh);
            assert(child_at(taken, b) == child_at(node, y));
            assert(before.contains_key(child_at(node, y)));
        } else if b == i + 1 {
            assert(child_at(taken, b) == fresh);
            assert(child_at(taken, a) == child_at(node, x));
            assert(before.contains_key(child_at(node, x)));
        } else {
            assert(child_at(taken, a) == child_at(node, x));
            assert(child_at(taken, b) == child_at(node, y));
        }
    }
}

/// Once the node at the hole is written in order, every known node is in order.
pub proof fn lemma_hole_filled(
    before: Seq<Seq<u8>>,
    after: Seq<Seq<u8>>,
    slots: Map<u64, Slot>,
    next_offset: u64,
    hole: u64,
    node: BTreeNodeView,
)
    requires
        ordered_but(before, slots, next_offset, Some(hole)),
        slots.contains_key(hole),
        hole < next_offset,
        block_aligned(hole),
        node_in_order(node, slots[hole], slots, hole),
        shape(node_at(after, hole)) == shape(Some(node)),
        shapes_kept(before, after, set![hole]),
    ensures
        ordered_but(after, slots, next_offset, None),
{
    assert forall|p: u64| #[trigger] slots.contains_key(p) implies in_order_at(
        after,
        slots,
        next_offset,
        p,
    ) by {
        if p == hole {
            lemma_shape_in_order(node_at(after, p).unwrap(), node, slots[p], slots, p);
        } else {
            assert(in_order_at(before, slots, next_offset, p));
            lemma_kept_in_order(before, after, slots, next_offset, next_offset, set![hole], p);
        }
    }
}

/// Writes that keep the shapes of all nodes keep every known node in order.
pub proof fn lemma_shapes_in_order(
    before: Seq<Seq<u8>>,
    after: Seq<Seq<u8>>,
    slots: Map<u64, Slot>,
    next_before: u64,
    next_after: u64,
    hole: Option<u64>,
)
    requires
        ordered_but(before, slots, next_before, hole),
        shapes_kept(before, after, Set::empty()),
        next_before <= next_after,
    ensures
        ordered_but(after, slots, next_after, hole),
{
    assert forall|p: u64| #[trigger] slots.contains_key(p) && Some(p) != hole implies in_order_at(
        after,
        slots,
        next_after,
        p,
    ) by {
        assert(in_order_at(before, slots, next_before, p));
        lemma_kept_in_order(before, after, slots, next_before, next_after, Set::empty(), p);
    }
}

/// Shapes that are kept over two steps are kept over both.
pub proof fn lemma_shapes_kept_twice(
    a: Seq<Seq<u8>>,
    b: Seq<Seq<u8>>,
    c: Seq<Seq<u8>>,
    first: Set<u64>,
    second: Set<u64>,
)
    requires
        shapes_kept(a, b, first),
        shapes_kept(b, c, second),
    ensures
        shapes_kept(a, c, first.union(second)),
{
    assert forall|q: u64|
        !first.union(second).contains(q) && (#[trigger] node_at(a, q)) is Some implies shape(
        node_at(c, q),
    ) == shape(node_at(a, q)) by {
        assert(shape(node_at(b, q)) == shape(node_at(a, q)));
        assert(node_at(b, q) is Some);
    }
}

/// What is known after an internal node at `at` was split behind place
/// `mid`: the node is bounded above by the key that goes up, the new node at
/// `fresh` is bounded below by it, and the children that moved have the new
/// node above them.
pub open spec fn adopted(
    slots: Map<u64, Slot>,
    node: BTreeNodeView,
    mid: int,
    at: u64,
    fresh: u64,
) -> Map<u64, Slot> {
    Map::new(
        |q: u64| slots.contains_key(q) || q == fresh,
        |q: u64|
            if q == fresh {
                Slot { lo: Some(node.internal_entries[mid].key), ..slots[at] }
            } else if q == at {
                Slot { hi: Some(node.internal_entries[mid].key), ..slots[at] }
            } else if moved(node, mid, q) {
                Slot { up: Some(fresh), ..slots[q] }
            } else {
                slots[q]
            },
    )
}

/// Whether `q` is a child that moves to the new node when an internal node
/// is split behind place `mid`.
pub open spec fn moved(node: BTreeNodeView, mid: int, q: u64) -> bool {
    exists|j: int| mid < j <= node.internal_entries.len() && #[trigger] child_at(node, j) == q
}

/// Splitting an internal node that is in order leaves every known node in
/// order but the node above it.
pub proof fn lemma_internal_split_in_order(
    before: Seq<Seq<u8>>,
    after: Seq<Seq<u8>>,
    slots: Map<u64, Slot>,
    next_offset: u64,
    at: u64,
    node: BTreeNodeView,
    mid: int,
)
    requires
        ordered_but(before, slots, next_offset, Some(at)),
        slots.contains_key(at),
        at < next_offset,
        block_aligned(at),
        !slots.contains_key(next_offset),
        block_aligned(next_offset),
        next_offset + 8192 <= u64::MAX,
        node.node_type == BTreeNodeType::Internal,
        internal_in_order(node, slots[at], slots, at),
        0 <= mid < node.internal_entries.len(),
        shape(node_at(after, at)) == shape(Some(lower_internal(node, mid))),
        shape(node_at(after, next_offset)) == shape(Some(upper_internal(node, mid))),
        shapes_kept(before, after, set![at, next_offset]),
    ensures
        ordered_but(
            after,
            adopted(slots, node, mid, at, next_offset),
            (next_offset + 8192) as u64,
            slots[at].up,
        ),
        at_least(node.internal_entries[mid].key, slots[at].lo),
        at_most(node.internal_entries[mid].key, slots[at].hi),
{
    let up_key = node.internal_entries[mid].key;
    let slot = slots[at];
    let now = adopted(slots, node, mid, at, next_offset);
    let next = (next_offset + 8192) as u64;
    let lower = lower_internal(node, mid);
    let upper = upper_internal(node, mid);
    let lower_slot = Slot { hi: Some(up_key), ..slot };
    let upper_slot = Slot { lo: Some(up_key), ..slot };
    let n = node.internal_entries.len() as int;
    lemma_split_internal_keeps_order(node, mid);
    assert(now[at] == lower_slot);
    assert(now[next_offset] == upper_slot);
    // a child is not the node itself, and no child is new
    assert forall|j: int| 0 <= j <= n implies #[trigger] child_at(node, j) != at && child_at(
        node,
        j,
    ) != next_offset by {
        assert(slots[child_at(node, j)] == expected_slot(node, slot, at, j));
        assert(slots.contains_key(child_at(node, j)));
    }
    assert forall|p: u64| #[trigger] now.contains_key(p) && Some(p) != slot.up implies in_order_at(
        after,
        now,
        next,
        p,
    ) by {
        if p == at {
            let stored = node_at(after, p).unwrap();
            lemma_shape_in_order(stored, lower, lower_slot, now, p);
            assert forall|a: int| 0 <= a < lower.internal_entries.len() implies at_least(
                (#[trigger] lower.internal_entries[a]).key,
                lower_slot.lo,
            ) && at_most(lower.internal_entries[a].key, lower_slot.hi) by {
                assert(lower.internal_entries[a] == node.internal_entries[a]);
            }
            assert forall|a: int| 0 <= a <= lower.internal_entries.len() implies now.contains_key(
                #[trigger] child_at(lower, a),
            ) && now[child_at(lower, a)] == expected_slot(lower, lower_slot, p, a) by {
                assert(child_at(lower, a) == child_at(node, a));
                assert(slots[child_at(node, a)] == expected_slot(node, slot, at, a));
                if a < mid {
                    assert(lower.internal_entries[a] == node.internal_entries[a]);
                }
                if a > 0 {
                    assert(lower.internal_entries[a - 1] == node.internal_entries[a - 1]);
                }
                if moved(node, mid, child_at(node, a)) {
                    let j = choose|j: int|
                        mid < j <= node.internal_entries.len() && #[trigger] child_at(node, j)
                            == child_at(node, a);
                    assert(child_at(node, a) != child_at(node, j));
                }
            }
            assert forall|a: int, b: int|
                0 <= a < b <= lower.internal_entries.len() implies #[trigger] child_at(lower, a)
                != #[trigger] child_at(lower, b) by {
                assert(child_at(lower, a) == child_at(node, a));
                assert(child_at(lower, b) == child_at(node, b));
            }
        } else if p == next_offset {
            let stored = node_at(after, p).unwrap();
            lemma_shape_in_order(stored, upper, upper_slot, now, p);
            assert forall|a: int| 0 <= a < upper.internal_entries.len() implies at_least(
                (#[trigger] upper.internal_entries[a]).key,
                upper_slot.lo,
            ) && at_most(upper.internal_entries[a].key, upper_slot.hi) by {
                assert(upper.internal_entries[a] == node.internal_entries[mid + 1 + a]);
            }
            assert forall|a: int| 0 <= a <= upper.internal_entries.len() implies now.contains_key(
                #[trigger] child_at(upper, a),
            ) && now[child_at(upper, a)] == expected_slot(upper, upper_slot, p, a) by {
                assert(child_at(upper, a) == child_at(node, mid + 1 + a));
                assert(slots[child_at(node, mid + 1 + a)] == expected_slot(
                    node,
                    slot,
                    at,
                    mid + 1 + a,
                ));
                assert(moved(node, mid, child_at(node, mid + 1 + a)));
                if a < upper.internal_entries.len() {
                    assert(upper.internal_entries[a] == node.internal_entries[mid + 1 + a]);
                }
                if a > 0 {
                    assert(upper.internal_entries[a - 1] == node.internal_entries[mid + a]);
                }
            }
            assert forall|a: int, b: int|
                0 <= a < b <= upper.internal_entries.len() implies #[trigger] child_at(upper, a)
                != #[trigger] child_at(upper, b) by {
                assert(child_at(upper, a) == child_at(node, mid + 1 + a));
                assert(child_at(upper, b) == child_at(node, mid + 1 + b));
            }
        } else {
            assert(slots.contains_key(p));
            assert(in_order_at(before, slots, next_offset, p));
            assert(!set![at, next_offset].contains(p));
            let old_node = node_at(before, p).unwrap();
            let stored = node_at(after, p).unwrap();
            lemma_shape_in_order(stored, old_node, now[p], now, p);
            assert(now[p].lo == slots[p].lo && now[p].hi == slots[p].hi && now[p].height
                == slots[p].height);
            if old_node.node_type == BTreeNodeType::Internal {
                assert forall|a: int| 0 <= a <= old_node.internal_entries.len() implies now.contains_key(
                    #[trigger] child_at(old_node, a),
                ) && now[child_at(old_node, a)] == expected_slot(old_node, now[p], p, a) by {
                    let c = child_at(old_node, a);
                    assert(slots.contains_key(c));
                    assert(slots[c] == expected_slot(old_node, slots[p], p, a));
                    assert(slots[c].up == Some(p));
                    if c == at {
                        assert(slot.up == Some(p));
                    }
                    if moved(node, mid, c) {
                        let j = choose|j: int|
                            mid < j <= node.internal_entries.len() && #[trigger] child_at(node, j)
                                == c;
                        assert(slots[child_at(node, j)] == expected_slot(node, slot, at, j));
                    }
                }
            }
        }
    }
}

/// A new root above a root that was split leaves every known node in order.
pub proof fn lemma_root_split_in_order(
    before: Seq<Seq<u8>>,
    after: Seq<Seq<u8>>,
    slots: Map<u64, Slot>,
    next_offset: u64,
    root: u64,
    key: Seq<char>,
    fresh: u64,
    height: nat,
)
    requires
        ordered_but(before, slots, next_offset, None),
        slots.contains_key(root),
        slots.contains_key(fresh),
        root != fresh,
        slots[root] == (Slot { lo: None, hi: Some(key), height, up: None }),
        slots[fresh] == (Slot { lo: Some(key), hi: None, height, up: None }),
        height >= 1,
        block_aligned(next_offset),
        next_offset + 8192 <= u64::MAX,
        shapes_kept(before, after, set![next_offset]),
        node_at(after, next_offset) is Some,
        shape(node_at(after, next_offset)) == shape(
            Some(
                BTreeNodeView {
                    node_type: BTreeNodeType::Internal,
                    parent: None,
                    leaf_entries: Seq::empty(),
                    internal_entries: seq![InternalEntryView { key, child: fresh }],
                    leftmost_child: Some(root),
                },
            ),
        ),
    ensures
        ordered_but(
            after,
            slots.insert(root, Slot { up: Some(next_offset), ..slots[root] }).insert(
                fresh,
                Slot { up: Some(next_offset), ..slots[fresh] },
            ).insert(next_offset, Slot { lo: None, hi: None, height: height + 1, up: None }),
            (next_offset + 8192) as u64,
            None,
        ),
{
    let top = BTreeNodeView {
        node_type: BTreeNodeType::Internal,
        parent: None,
        leaf_entries: Seq::empty(),
        internal_entries: seq![InternalEntryView { key, child: fresh }],
        leftmost_child: Some(root),
    };
    let top_slot = Slot { lo: None, hi: None, height: height + 1, up: None };
    let now = slots.insert(root, Slot { up: Some(next_offset), ..slots[root] }).insert(
        fresh,
        Slot { up: Some(next_offset), ..slots[fresh] },
    ).insert(next_offset, top_slot);
    let next = (next_offset + 8192) as u64;
    assert(in_order_at(before, slots, next_offset, root));
    assert(in_order_at(before, slots, next_offset, fresh));
    assert(!slots.contains_key(next_offset)) by {
        if slots.contains_key(next_offset) {
            assert(in_order_at(before, slots, next_offset, next_offset));
        }
    }
    assert forall|p: u64| #[trigger] now.contains_key(p) implies in_order_at(after, now, next, p) by {
        if p == next_offset {
            let stored = node_at(after, p).unwrap();
            lemma_shape_in_order(stored, top, top_slot, now, p);
            assert(child_at(top, 0) == root);
            assert(child_at(top, 1) == fresh);
            assert forall|a: int| 0 <= a <= top.internal_entries.len() implies now.contains_key(
                #[trigger] child_at(top, a),
            ) && now[child_at(top, a)] == expected_slot(top, top_slot, p, a) by {
                if a == 0 {
                } else {
                    assert(a == 1);
                }
            }
            assert forall|a: int, b: int|
                0 <= a < b <= top.internal_entries.len() implies #[trigger] child_at(top, a)
                != #[trigger] child_at(top, b) by {
                assert(a == 0 && b == 1);
            }
        } else {
            assert(slots.contains_key(p));
            assert(in_order_at(before, slots, next_offset, p));
            assert(!set![next_offset].contains(p));
            let old_node = node_at(before, p).unwrap();
            let stored = node_at(after, p).unwrap();
            lemma_shape_in_order(stored, old_node, now[p], now, p);
            if old_node.node_type == BTreeNodeType::Internal {
                assert forall|a: int| 0 <= a <= old_node.internal_entries.len() implies now.contains_key(
                    #[trigger] child_at(old_node, a),
                ) && now[child_at(old_node, a)] == expected_slot(old_node, now[p], p, a) by {
                    let c = child_at(old_node, a);
                    assert(slots.contains_key(c));
                    assert(slots[c] == expected_slot(old_node, slots[p], p, a));
                    assert(slots[c].up == Some(p));
                }
            }
        }
    }
}

} // verus!
