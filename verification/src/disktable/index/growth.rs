//! What putting a key into the index does to every search, through every split.

use vstd::prelude::*;
use crate::bytes::key_before;
use crate::disktable::index::btree::{
    child_for, descend_index, entry_position, first_index, kept_above, kept_except, leaf_for,
    leaf_grew, leaf_insert_index, leaf_lookup, leaf_sorted, lemma_after_child_split,
    lemma_first_index, lemma_leaf_insert_index_bounds, lemma_lookup_after_insert,
    lemma_lookup_in_leaf, lemma_lookup_other_key, lemma_without_first_once, lookup_from,
    lookup_without_first, lower_internal, lower_leaf, middle, node_at, same_but_parent, same_except,
    split_settled, upper_internal, upper_leaf, without_first, BTreeIndex, BTreeNodeType,
    BTreeNodeView, InternalEntryView, LeafEntryView, Lookup, MAX_TREE_DEPTH,
};
use crate::disktable::index::order::{
    adopted, at_least, at_most, child_at, expected_slot, in_order_at, internal_in_order,
    lemma_child_in_range, lemma_descend_index, lemma_hole_filled, ordered_but, shape, shapes_kept,
    with_child, Slot,
};
use crate::disktable::index::search::{
    find_in, found_after, leaf_distinct, leaves_distinct, lemma_distinct_kept,
    lemma_enough_fuel, lemma_insert_keeps_distinct, lemma_internal_split_search, lemma_leaf_split_search,
    lemma_search_kept, lemma_took_child_search, lemma_under_one, lemma_under_up,
    lemma_ups_after_adopt, lemma_ups_after_split, outside_kept, under, ups_ok,
};
use crate::disktable::segment::position::TableRecordPosition;

verus! {

/// Whether what is known of the nodes tells the way up from every node, and
/// no known leaf holds a key twice.
pub open spec fn traced(index: BTreeIndex) -> bool {
    &&& ups_ok(index.slots@)
    &&& leaves_distinct(index.files(), index.slots@)
}

/// Whether `key` can be put in below the node at `at`: every known node is
/// in order, the key lies within the bounds of the node, and the part of the
/// tree below the node does not hold it.
pub open spec fn ready(index: BTreeIndex, at: u64, key: Seq<char>) -> bool {
    &&& index.settled(at)
    &&& at_least(key, index.slots@[at].lo)
    &&& at_most(key, index.slots@[at].hi)
    &&& traced(index)
    &&& find_in(index.files(), index.slots@, at, key) == Lookup::Missing
}

/// What holds after `key` was put in below the node at `at` and that node
/// was not split: a search from the node finds `position` under `key` and
/// gives for every other key what it gave before, and no node outside the part
/// of the tree below the node changed its shape.
pub open spec fn holds_new(
    before: BTreeIndex,
    after: BTreeIndex,
    at: u64,
    key: Seq<char>,
    position: TableRecordPosition,
) -> bool {
    &&& traced(after)
    &&& outside_kept(before.files(), before.slots@, after.files(), at)
    &&& forall|k: Seq<char>|
        find_in(after.files(), after.slots@, at, k) == found_after(
            #[trigger] find_in(before.files(), before.slots@, at, k),
            k,
            key,
            position,
        )
}

/// What holds after `key` was put in below the node at `at` and that node
/// was split, with `sep` going up and the new node at `fresh`: a search from
/// the node, for a key that comes before `sep`, or from the new node, for
/// another key, finds `position` under `key` and gives for every other key what
/// the search from the node gave before; no node outside the part of the tree
/// that was below the node changed its shape.
pub open spec fn holds_apart(
    before: BTreeIndex,
    after: BTreeIndex,
    at: u64,
    key: Seq<char>,
    position: TableRecordPosition,
    sep: Seq<char>,
    fresh: u64,
) -> bool {
    &&& traced(after)
    &&& outside_kept(before.files(), before.slots@, after.files(), at)
    &&& forall|k: Seq<char>|
        (if key_before(k, sep) {
            find_in(after.files(), after.slots@, at, k)
        } else {
            find_in(after.files(), after.slots@, fresh, k)
        }) == found_after(
            #[trigger] find_in(before.files(), before.slots@, at, k),
            k,
            key,
            position,
        )
}

/// A leaf that took an entry where its key belongs, and did not hold the
/// key before, gives the entry for the key and for every other key what it
/// gave.
pub proof fn lemma_leaf_grown(before: BTreeIndex, after: BTreeIndex, at: u64, e: LeafEntryView)
    requires
        ready(before, at, e.key),
        node_at(before.files(), at) is Some,
        leaf_grew(
            before.files(),
            after.files(),
            at,
            leaf_insert_index(node_at(before.files(), at).unwrap().leaf_entries, e.key),
            e,
        ),
        after.slots@ == before.slots@,
    ensures
        holds_new(before, after, at, e.key, entry_position(e)),
{
    let slots = before.slots@;
    let read = node_at(before.files(), at).unwrap();
    let i = leaf_insert_index(read.leaf_entries, e.key);
    assert(in_order_at(before.files(), slots, before.metadata.next_offset, at));
    assert(slots[at].height == 1);
    assert(leaf_lookup(read.leaf_entries, e.key) is None);
    assert(leaves_distinct(before.files(), slots));
    assert(leaf_distinct(read.leaf_entries));
    lemma_insert_keeps_distinct(read.leaf_entries, i, e);
    assert forall|p: u64|
        !set![at].contains(p) && (#[trigger] slots.contains_key(p)) implies slots.contains_key(p)
        && shape(node_at(after.files(), p)) == shape(node_at(before.files(), p)) by {
        assert(node_at(after.files(), p) == node_at(before.files(), p));
    }
    lemma_distinct_kept(before.files(), after.files(), slots, slots, set![at]);
    assert forall|x: u64| #[trigger] slots.contains_key(x) && !under(slots, x, at) implies shape(
        node_at(after.files(), x),
    ) == shape(node_at(before.files(), x)) by {
        assert(under(slots, at, at));
        assert(!set![at].contains(x));
        assert(node_at(after.files(), x) == node_at(before.files(), x));
    }
    assert forall|k: Seq<char>|
        find_in(after.files(), after.slots@, at, k) == found_after(
            #[trigger] find_in(before.files(), before.slots@, at, k),
            k,
            e.key,
            entry_position(e),
        ) by {
        if k == e.key {
            lemma_lookup_after_insert(read.leaf_entries, e);
        } else {
            lemma_lookup_other_key(read.leaf_entries, i, e, k);
        }
    }
}

/// A leaf that took an entry where its key belongs, did not hold the key
/// before, and was split gives in the half on a key's side what the leaf gave
/// for the key, and the entry for its key.
pub proof fn lemma_leaf_grown_apart(
    before: BTreeIndex,
    after: BTreeIndex,
    at: u64,
    e: LeafEntryView,
    node: BTreeNodeView,
    fresh: u64,
)
    requires
        ready(before, at, e.key),
        node_at(before.files(), at) is Some,
        node_at(before.files(), at).unwrap().node_type == BTreeNodeType::Leaf,
        node.node_type == BTreeNodeType::Leaf,
        node.leaf_entries == node_at(before.files(), at).unwrap().leaf_entries.insert(
            leaf_insert_index(node_at(before.files(), at).unwrap().leaf_entries, e.key),
            e,
        ),
        leaf_sorted(node.leaf_entries),
        node_at(after.files(), at) == Some(lower_leaf(node, middle(node.leaf_entries.len()))),
        node_at(after.files(), fresh) == Some(upper_leaf(node, middle(node.leaf_entries.len()))),
        kept_except(before.files(), after.files(), set![at, fresh]),
        !before.slots@.contains_key(fresh),
        after.slots@ == before.slots@.insert(
            at,
            Slot {
                hi: Some(node.leaf_entries[middle(node.leaf_entries.len())].key),
                ..before.slots@[at]
            },
        ).insert(
            fresh,
            Slot {
                lo: Some(node.leaf_entries[middle(node.leaf_entries.len())].key),
                ..before.slots@[at]
            },
        ),
    ensures
        holds_apart(
            before,
            after,
            at,
            e.key,
            entry_position(e),
            node.leaf_entries[middle(node.leaf_entries.len())].key,
            fresh,
        ),
{
    let slots = before.slots@;
    let read = node_at(before.files(), at).unwrap();
    let i = leaf_insert_index(read.leaf_entries, e.key);
    let mid = middle(node.leaf_entries.len());
    let sep = node.leaf_entries[mid].key;
    lemma_leaf_insert_index_bounds(read.leaf_entries, e.key);
    assert(in_order_at(before.files(), slots, before.metadata.next_offset, at));
    assert(slots[at].height == 1);
    assert(leaf_lookup(read.leaf_entries, e.key) is None);
    assert(leaf_distinct(read.leaf_entries));
    lemma_insert_keeps_distinct(read.leaf_entries, i, e);
    lemma_ups_after_split(slots, at, sep, fresh);
    let lower = lower_leaf(node, mid);
    let upper = upper_leaf(node, mid);
    assert(leaf_distinct(lower.leaf_entries)) by {
        assert forall|a: int, b: int| 0 <= a < b < lower.leaf_entries.len() implies (
        #[trigger] lower.leaf_entries[a]).key != (#[trigger] lower.leaf_entries[b]).key by {
            assert(lower.leaf_entries[a] == node.leaf_entries[a]);
            assert(lower.leaf_entries[b] == node.leaf_entries[b]);
        }
    }
    assert(leaf_distinct(upper.leaf_entries)) by {
        assert forall|a: int, b: int| 0 <= a < b < upper.leaf_entries.len() implies (
        #[trigger] upper.leaf_entries[a]).key != (#[trigger] upper.leaf_entries[b]).key by {
            assert(upper.leaf_entries[a] == node.leaf_entries[mid + a]);
            assert(upper.leaf_entries[b] == node.leaf_entries[mid + b]);
        }
    }
    let touched = set![at, fresh];
    assert forall|p: u64|
        !touched.contains(p) && (#[trigger] after.slots@.contains_key(p)) implies slots.contains_key(
        p,
    ) && shape(node_at(after.files(), p)) == shape(node_at(before.files(), p)) by {
        assert(slots.contains_key(p));
        assert(in_order_at(before.files(), slots, before.metadata.next_offset, p));
        assert(node_at(after.files(), p) == node_at(before.files(), p));
    }
    lemma_distinct_kept(before.files(), after.files(), slots, after.slots@, touched);
    assert forall|x: u64| #[trigger] slots.contains_key(x) && !under(slots, x, at) implies shape(
        node_at(after.files(), x),
    ) == shape(node_at(before.files(), x)) by {
        assert(under(slots, at, at));
        assert(!touched.contains(x));
        assert(in_order_at(before.files(), slots, before.metadata.next_offset, x));
        assert(node_at(after.files(), x) == node_at(before.files(), x));
    }
    assert forall|k: Seq<char>|
        (if key_before(k, sep) {
            find_in(after.files(), after.slots@, at, k)
        } else {
            find_in(after.files(), after.slots@, fresh, k)
        }) == found_after(
            #[trigger] find_in(before.files(), before.slots@, at, k),
            k,
            e.key,
            entry_position(e),
        ) by {
        assert(after.slots@[at].height == 1);
        assert(after.slots@[fresh].height == 1);
        lemma_leaf_split_search(node, mid, k);
        if k == e.key {
            lemma_lookup_after_insert(read.leaf_entries, e);
        } else {
            lemma_lookup_other_key(read.leaf_entries, i, e, k);
        }
    }
}

/// Where the key went into the part of the tree below a child of the node
/// at `at` and the child was not split, what holds of the child holds of the
/// node.
pub proof fn lemma_parent_grown(
    before: BTreeIndex,
    after: BTreeIndex,
    at: u64,
    key: Seq<char>,
    position: TableRecordPosition,
)
    requires
        ready(before, at, key),
        node_at(before.files(), at) is Some,
        node_at(before.files(), at).unwrap().node_type == BTreeNodeType::Internal,
        ({
            let node = node_at(before.files(), at).unwrap();
            let child = child_at(node, descend_index(node.internal_entries, key));
            &&& holds_new(before, after, child, key, position)
            &&& kept_above(before, after, child)
            &&& after.slots@.contains_key(child)
            &&& after.slots@[child] == before.slots@[child]
        }),
    ensures
        holds_new(before, after, at, key, position),
{
    let slots = before.slots@;
    let next = before.metadata.next_offset;
    let node = node_at(before.files(), at).unwrap();
    lemma_descend_index(node.internal_entries, key);
    let i = descend_index(node.internal_entries, key);
    let child = child_at(node, i);
    assert(in_order_at(before.files(), slots, next, at));
    assert(internal_in_order(node, slots[at], slots, at));
    assert(slots.contains_key(child_at(node, i)));
    assert(slots[child_at(node, i)] == expected_slot(node, slots[at], at, i));
    assert(child != at);
    assert(shape(node_at(after.files(), at)) == shape(node_at(before.files(), at)));
    let now = node_at(after.files(), at).unwrap();
    assert(now.node_type == node.node_type);
    assert(now.internal_entries == node.internal_entries);
    assert(now.leftmost_child == node.leftmost_child);
    assert(after.slots@[at] == slots[at]);
    assert forall|x: u64| #[trigger] slots.contains_key(x) && !under(slots, x, at) implies shape(
        node_at(after.files(), x),
    ) == shape(node_at(before.files(), x)) by {
        if under(slots, x, child) {
            lemma_under_up(slots, x, child);
        }
    }
    assert forall|k: Seq<char>|
        find_in(after.files(), after.slots@, at, k) == found_after(
            #[trigger] find_in(before.files(), before.slots@, at, k),
            k,
            key,
            position,
        ) by {
        lemma_descend_index(node.internal_entries, k);
        let d = descend_index(node.internal_entries, k);
        let c = child_for(node.leftmost_child.unwrap(), node.internal_entries, k);
        assert(c == child_at(node, d));
        assert(slots.contains_key(child_at(node, d)));
        assert(slots[child_at(node, d)] == expected_slot(node, slots[at], at, d));
        if d == i {
            assert(find_in(before.files(), slots, child, k) == find_in(
                before.files(),
                slots,
                at,
                k,
            ));
        } else {
            if d < i {
                assert(child_at(node, d) != child_at(node, i));
            } else {
                assert(child_at(node, i) != child_at(node, d));
            }
            assert(after.slots@[c] == slots[c]);
            assert forall|x: u64|
                #[trigger] slots.contains_key(x) && under(slots, x, c) implies shape(
                node_at(after.files(), x),
            ) == shape(node_at(before.files(), x)) by {
                if under(slots, x, child) {
                    lemma_under_one(slots, x, c, child);
                }
            }
            lemma_search_kept(
                before.files(),
                after.files(),
                slots,
                next,
                None,
                c,
                k,
                slots[c].height,
            );
        }
    }
}

/// Where a key can be put in below an internal node, it can be put in below
/// the child under which it belongs.
pub proof fn lemma_ready_below(before: BTreeIndex, at: u64, key: Seq<char>)
    requires
        ready(before, at, key),
        node_at(before.files(), at) is Some,
        node_at(before.files(), at).unwrap().node_type == BTreeNodeType::Internal,
    ensures
        ready(
            before,
            child_at(
                node_at(before.files(), at).unwrap(),
                descend_index(node_at(before.files(), at).unwrap().internal_entries, key),
            ),
            key,
        ),
{
    let slots = before.slots@;
    let node = node_at(before.files(), at).unwrap();
    let i = descend_index(node.internal_entries, key);
    assert(in_order_at(before.files(), slots, before.metadata.next_offset, at));
    assert(internal_in_order(node, slots[at], slots, at));
    lemma_child_in_range(node, slots[at], key);
    assert(slots.contains_key(child_at(node, i)));
    assert(slots[child_at(node, i)] == expected_slot(node, slots[at], at, i));
}

/// After the child under which `key` belongs was split, the search for a
/// key `k` that goes on from the node with the separator taken in, in the
/// files as the child left them, gives what the search from the node gave
/// before, and `position` for `key`.
pub proof fn lemma_through_child(
    before: BTreeIndex,
    below: BTreeIndex,
    at: u64,
    key: Seq<char>,
    position: TableRecordPosition,
    sep: Seq<char>,
    fresh: u64,
    k: Seq<char>,
)
    requires
        ready(before, at, key),
        node_at(before.files(), at) is Some,
        node_at(before.files(), at).unwrap().node_type == BTreeNodeType::Internal,
        ({
            let node = node_at(before.files(), at).unwrap();
            let i = descend_index(node.internal_entries, key);
            &&& holds_apart(before, below, child_at(node, i), key, position, sep, fresh)
            &&& split_settled(before, below, child_at(node, i), sep, fresh)
            &&& crate::disktable::index::btree::separators_sorted(
                with_child(node, i, sep, fresh).internal_entries,
            )
        }),
    ensures
        ({
            let node = node_at(before.files(), at).unwrap();
            let i = descend_index(node.internal_entries, key);
            let taken = with_child(node, i, sep, fresh);
            lookup_from(
                below.files(),
                child_at(taken, descend_index(taken.internal_entries, k)),
                k,
                (before.slots@[at].height - 1) as nat,
            ) == found_after(find_in(before.files(), before.slots@, at, k), k, key, position)
        }),
{
    let slots = before.slots@;
    let next = before.metadata.next_offset;
    let node = node_at(before.files(), at).unwrap();
    lemma_descend_index(node.internal_entries, key);
    lemma_descend_index(node.internal_entries, k);
    let i = descend_index(node.internal_entries, key);
    let d = descend_index(node.internal_entries, k);
    let child = child_at(node, i);
    let taken = with_child(node, i, sep, fresh);
    assert(in_order_at(before.files(), slots, next, at));
    assert(internal_in_order(node, slots[at], slots, at));
    assert(slots.contains_key(child_at(node, i)));
    assert(slots[child_at(node, i)] == expected_slot(node, slots[at], at, i));
    assert(slots.contains_key(child_at(node, d)));
    assert(slots[child_at(node, d)] == expected_slot(node, slots[at], at, d));
    lemma_took_child_search(node, i, sep, fresh, k);
    let c = child_for(node.leftmost_child.unwrap(), node.internal_entries, k);
    assert(c == child_at(node, d));
    assert(find_in(before.files(), slots, at, k) == find_in(before.files(), slots, c, k));
    if d == i {
        assert(below.slots@[child].height == slots[child].height);
        assert(below.slots@[fresh].height == slots[child].height);
    } else {
        if d < i {
            assert(child_at(node, d) != child_at(node, i));
        } else {
            assert(child_at(node, i) != child_at(node, d));
        }
        assert forall|x: u64| #[trigger] slots.contains_key(x) && under(slots, x, c) implies shape(
            node_at(below.files(), x),
        ) == shape(node_at(before.files(), x)) by {
            if under(slots, x, child) {
                lemma_under_one(slots, x, c, child);
            }
        }
        lemma_search_kept(before.files(), below.files(), slots, next, None, c, k, slots[c].height);
    }
}

/// Where the key went into the part of the tree below a child of the node
/// at `at`, the child was split and the node took the separator and the new
/// child without being split, a search from the node finds the key and gives
/// for every other key what it gave before.
pub proof fn lemma_parent_took_grown(
    before: BTreeIndex,
    below: BTreeIndex,
    hung: BTreeIndex,
    after: BTreeIndex,
    at: u64,
    key: Seq<char>,
    position: TableRecordPosition,
    sep: Seq<char>,
    fresh: u64,
)
    requires
        ready(before, at, key),
        node_at(before.files(), at) is Some,
        node_at(before.files(), at).unwrap().node_type == BTreeNodeType::Internal,
        ({
            let node = node_at(before.files(), at).unwrap();
            let i = descend_index(node.internal_entries, key);
            &&& holds_apart(before, below, child_at(node, i), key, position, sep, fresh)
            &&& split_settled(before, below, child_at(node, i), sep, fresh)
            &&& node_at(after.files(), at) == Some(with_child(node, i, sep, fresh))
        }),
        hung.slots == below.slots,
        hung.metadata.next_offset == below.metadata.next_offset,
        before.metadata.next_offset <= below.metadata.next_offset,
        shapes_kept(below.files(), hung.files(), Set::empty()),
        after.slots == hung.slots,
        after.metadata.next_offset == hung.metadata.next_offset,
        shapes_kept(hung.files(), after.files(), set![at]),
    ensures
        holds_new(before, after, at, key, position),
{
    let slots = before.slots@;
    let node = node_at(before.files(), at).unwrap();
    lemma_descend_index(node.internal_entries, key);
    let i = descend_index(node.internal_entries, key);
    let child = child_at(node, i);
    let taken = with_child(node, i, sep, fresh);
    let height = slots[at].height;
    lemma_after_child_split(before, below, hung, at, node, i, sep, fresh);
    assert(internal_in_order(taken, hung.slots@[at], hung.slots@, at));
    lemma_hole_filled(
        hung.files(),
        after.files(),
        after.slots@,
        after.metadata.next_offset,
        at,
        taken,
    );
    assert(in_order_at(before.files(), slots, before.metadata.next_offset, at));
    assert(slots[child_at(node, i)] == expected_slot(node, slots[at], at, i));
    assert(slots.contains_key(child_at(node, i)));
    assert(below.slots@[at] == slots[at]);
    lemma_below_kept(below, hung, after, at, set![at]);
    lemma_distinct_kept(below.files(), after.files(), below.slots@, after.slots@, set![at]);
    assert forall|x: u64| #[trigger] slots.contains_key(x) && !under(slots, x, at) implies shape(
        node_at(after.files(), x),
    ) == shape(node_at(before.files(), x)) by {
        if under(slots, x, child) {
            lemma_under_up(slots, x, child);
        }
        assert(under(slots, at, at));
        assert(in_order_at(before.files(), slots, before.metadata.next_offset, x));
        assert(shape(node_at(below.files(), x)) == shape(node_at(before.files(), x)));
        assert(shape(node_at(hung.files(), x)) == shape(node_at(below.files(), x)));
        assert(!set![at].contains(x));
    }
    assert forall|k: Seq<char>|
        find_in(after.files(), after.slots@, at, k) == found_after(
            #[trigger] find_in(before.files(), before.slots@, at, k),
            k,
            key,
            position,
        ) by {
        lemma_through_child(before, below, at, key, position, sep, fresh, k);
        lemma_descend_index(taken.internal_entries, k);
        let n = descend_index(taken.internal_entries, k);
        let c = child_at(taken, n);
        assert(hung.slots@.contains_key(child_at(taken, n)));
        assert(hung.slots@[child_at(taken, n)] == expected_slot(taken, hung.slots@[at], at, n));
        assert(c == child_for(taken.leftmost_child.unwrap(), taken.internal_entries, k));
        lemma_search_below(below, after, at, c, k);
    }
}

/// Where the files changed after a child of the node at `at` was split,
/// every known node but the node itself and those in `touched` kept the shape
/// that the split of the child left.
pub proof fn lemma_below_kept(
    below: BTreeIndex,
    hung: BTreeIndex,
    after: BTreeIndex,
    at: u64,
    touched: Set<u64>,
)
    requires
        ordered_but(below.files(), below.slots@, below.metadata.next_offset, Some(at)),
        shapes_kept(below.files(), hung.files(), Set::empty()),
        shapes_kept(hung.files(), after.files(), touched),
        touched.contains(at),
        forall|p: u64| #[trigger] after.slots@.contains_key(p) && !touched.contains(p) ==> below.slots@.contains_key(p),
        forall|p: u64|
            touched.contains(p) && node_at(after.files(), p) is Some ==> (#[trigger] node_at(
                after.files(),
                p,
            )).unwrap().node_type == BTreeNodeType::Internal,
    ensures
        forall|p: u64|
            !touched.contains(p) && (#[trigger] below.slots@.contains_key(p)) ==> shape(
                node_at(after.files(), p),
            ) == shape(node_at(below.files(), p)),
        forall|p: u64|
            !touched.contains(p) && (#[trigger] after.slots@.contains_key(p))
                ==> below.slots@.contains_key(p) && shape(node_at(after.files(), p)) == shape(
                node_at(below.files(), p),
            ),
        forall|p: u64|
            touched.contains(p) && (#[trigger] after.slots@.contains_key(p)) && node_at(
                after.files(),
                p,
            ) is Some && node_at(after.files(), p).unwrap().node_type == BTreeNodeType::Leaf
                ==> leaf_distinct(node_at(after.files(), p).unwrap().leaf_entries),
{
    assert forall|p: u64|
        !touched.contains(p) && (#[trigger] below.slots@.contains_key(p)) implies shape(
        node_at(after.files(), p),
    ) == shape(node_at(below.files(), p)) by {
        assert(in_order_at(below.files(), below.slots@, below.metadata.next_offset, p));
        assert(shape(node_at(hung.files(), p)) == shape(node_at(below.files(), p)));
        assert(node_at(hung.files(), p) is Some);
    }
    assert forall|p: u64|
        touched.contains(p) && (#[trigger] after.slots@.contains_key(p)) && node_at(
            after.files(),
            p,
        ) is Some && node_at(after.files(), p).unwrap().node_type
            == BTreeNodeType::Leaf implies leaf_distinct(
        node_at(after.files(), p).unwrap().leaf_entries,
    ) by {
        assert(node_at(after.files(), p).unwrap().node_type == BTreeNodeType::Internal);
    }
}

/// A search from a child of the node at `at` gives in the files as they are
/// in the end what it gave in the files as the split of a child left them, as
/// long as the known nodes below the level of the node kept their shapes.
pub proof fn lemma_search_below(
    below: BTreeIndex,
    after: BTreeIndex,
    at: u64,
    c: u64,
    k: Seq<char>,
)
    requires
        ordered_but(below.files(), below.slots@, below.metadata.next_offset, Some(at)),
        ups_ok(below.slots@),
        below.slots@.contains_key(at),
        below.slots@.contains_key(c),
        below.slots@[c].height < below.slots@[at].height,
        forall|p: u64|
            (#[trigger] below.slots@.contains_key(p)) && below.slots@[p].height
                < below.slots@[at].height ==> shape(node_at(after.files(), p)) == shape(
                node_at(below.files(), p),
            ),
    ensures
        lookup_from(after.files(), c, k, below.slots@[c].height) == lookup_from(
            below.files(),
            c,
            k,
            below.slots@[c].height,
        ),
{
    lemma_search_kept(
        below.files(),
        after.files(),
        below.slots@,
        below.metadata.next_offset,
        Some(at),
        c,
        k,
        below.slots@[c].height,
    );
}

/// Where the key went into the part of the tree below a child of the node
/// at `at`, the child was split, the node took the separator and the new child
/// and was split in turn, a search from the half of the node on a key's side
/// finds the key and gives for every other key what the search from the node
/// gave before.
pub proof fn lemma_parent_split_grown(
    before: BTreeIndex,
    below: BTreeIndex,
    hung: BTreeIndex,
    after: BTreeIndex,
    at: u64,
    key: Seq<char>,
    position: TableRecordPosition,
    sep: Seq<char>,
    fresh: u64,
    second: u64,
)
    requires
        ready(before, at, key),
        node_at(before.files(), at) is Some,
        node_at(before.files(), at).unwrap().node_type == BTreeNodeType::Internal,
        ({
            let node = node_at(before.files(), at).unwrap();
            let i = descend_index(node.internal_entries, key);
            let taken = with_child(node, i, sep, fresh);
            let mid = middle(taken.internal_entries.len());
            &&& holds_apart(before, below, child_at(node, i), key, position, sep, fresh)
            &&& split_settled(before, below, child_at(node, i), sep, fresh)
            &&& node_at(after.files(), at) == Some(lower_internal(taken, mid))
            &&& node_at(after.files(), second) is Some
            &&& same_but_parent(
                node_at(after.files(), second).unwrap(),
                upper_internal(taken, mid),
            )
            &&& after.slots@ == adopted(hung.slots@, taken, mid, at, second)
            &&& split_settled(hung, after, at, taken.internal_entries[mid].key, second)
        }),
        second == hung.metadata.next_offset,
        hung.slots == below.slots,
        hung.metadata.next_offset == below.metadata.next_offset,
        before.metadata.next_offset <= below.metadata.next_offset,
        shapes_kept(below.files(), hung.files(), Set::empty()),
        shapes_kept(hung.files(), after.files(), set![at, second]),
    ensures
        ({
            let node = node_at(before.files(), at).unwrap();
            let i = descend_index(node.internal_entries, key);
            let taken = with_child(node, i, sep, fresh);
            let mid = middle(taken.internal_entries.len());
            holds_apart(before, after, at, key, position, taken.internal_entries[mid].key, second)
        }),
{
    let slots = before.slots@;
    let node = node_at(before.files(), at).unwrap();
    lemma_descend_index(node.internal_entries, key);
    let i = descend_index(node.internal_entries, key);
    let child = child_at(node, i);
    let taken = with_child(node, i, sep, fresh);
    let mid = middle(taken.internal_entries.len());
    let up_key = taken.internal_entries[mid].key;
    lemma_after_child_split(before, below, hung, at, node, i, sep, fresh);
    assert(internal_in_order(taken, hung.slots@[at], hung.slots@, at));
    assert(in_order_at(before.files(), slots, before.metadata.next_offset, at));
    assert(slots[child_at(node, i)] == expected_slot(node, slots[at], at, i));
    assert(slots.contains_key(child_at(node, i)));
    assert(below.slots@[at] == slots[at]);
    lemma_ups_after_adopt(hung.slots@, taken, mid, at, second);
    let touched = set![at, second];
    assert(!hung.slots@.contains_key(second));
    lemma_below_kept(below, hung, after, at, touched);
    lemma_distinct_kept(below.files(), after.files(), below.slots@, after.slots@, touched);
    assert forall|x: u64| #[trigger] slots.contains_key(x) && !under(slots, x, at) implies shape(
        node_at(after.files(), x),
    ) == shape(node_at(before.files(), x)) by {
        if under(slots, x, child) {
            lemma_under_up(slots, x, child);
        }
        assert(under(slots, at, at));
        assert(in_order_at(before.files(), slots, before.metadata.next_offset, x));
        assert(shape(node_at(below.files(), x)) == shape(node_at(before.files(), x)));
        assert(shape(node_at(hung.files(), x)) == shape(node_at(below.files(), x)));
        assert(x != second);
        assert(x != at);
        assert(!touched.contains(x));
    }
    assert(hung.slots@.contains_key(at));
    assert(after.slots@[at].height == slots[at].height);
    assert(after.slots@[second].height == slots[at].height);
    assert(slots[at].height >= 2);
    assert forall|k: Seq<char>|
        (if key_before(k, up_key) {
            find_in(after.files(), after.slots@, at, k)
        } else {
            find_in(after.files(), after.slots@, second, k)
        }) == found_after(
            #[trigger] find_in(before.files(), before.slots@, at, k),
            k,
            key,
            position,
        ) by {
        lemma_through_child(before, below, at, key, position, sep, fresh, k);
        lemma_descend_index(taken.internal_entries, k);
        let n = descend_index(taken.internal_entries, k);
        let c = child_at(taken, n);
        assert(hung.slots@.contains_key(child_at(taken, n)));
        assert(hung.slots@[child_at(taken, n)] == expected_slot(taken, hung.slots@[at], at, n));
        lemma_search_below(below, after, at, c, k);
        lemma_halves_search(after.files(), taken, mid, at, second, k, slots[at].height);
    }
}

/// After an internal node was split, the search from the half on the key's
/// side goes on at the child at which the search from the whole node went on.
pub proof fn lemma_halves_search(
    files: Seq<Seq<u8>>,
    node: BTreeNodeView,
    mid: int,
    at: u64,
    second: u64,
    k: Seq<char>,
    height: nat,
)
    requires
        node.node_type == BTreeNodeType::Internal,
        node.leftmost_child is Some,
        crate::disktable::index::btree::separators_sorted(node.internal_entries),
        0 <= mid < node.internal_entries.len(),
        height >= 2,
        node_at(files, at) == Some(lower_internal(node, mid)),
        node_at(files, second) is Some,
        same_but_parent(node_at(files, second).unwrap(), upper_internal(node, mid)),
    ensures
        (if key_before(k, node.internal_entries[mid].key) {
            lookup_from(files, at, k, height)
        } else {
            lookup_from(files, second, k, height)
        }) == lookup_from(
            files,
            child_at(node, descend_index(node.internal_entries, k)),
            k,
            (height - 1) as nat,
        ),
{
    let lower = lower_internal(node, mid);
    let upper = upper_internal(node, mid);
    let stored = node_at(files, second).unwrap();
    lemma_internal_split_search(node, mid, k);
    if key_before(k, node.internal_entries[mid].key) {
        lemma_descend_index(lower.internal_entries, k);
        let m = descend_index(lower.internal_entries, k);
        assert(child_at(lower, m) == child_for(
            lower.leftmost_child.unwrap(),
            lower.internal_entries,
            k,
        ));
    } else {
        lemma_descend_index(upper.internal_entries, k);
        let m = descend_index(upper.internal_entries, k);
        assert(stored.internal_entries == upper.internal_entries);
        assert(stored.leftmost_child == upper.leftmost_child);
        assert(stored.node_type == BTreeNodeType::Internal);
        assert(child_at(upper, m) == child_for(
            stored.leftmost_child.unwrap(),
            stored.internal_entries,
            k,
        ));
    }
}

/// The root that is written above a root that was split.
pub open spec fn root_above(root: u64, sep: Seq<char>, fresh: u64) -> BTreeNodeView {
    BTreeNodeView {
        node_type: BTreeNodeType::Internal,
        parent: None,
        leaf_entries: Seq::empty(),
        internal_entries: seq![InternalEntryView { key: sep, child: fresh }],
        leftmost_child: Some(root),
    }
}

/// What is known of the nodes once a new root stands above a root that was split.
pub open spec fn raised(slots: Map<u64, Slot>, root: u64, fresh: u64, next: u64) -> Map<u64, Slot> {
    slots.insert(root, Slot { up: Some(next), ..slots[root] }).insert(
        fresh,
        Slot { up: Some(next), ..slots[fresh] },
    ).insert(next, Slot { lo: None, hi: None, height: slots[root].height + 1, up: None })
}

/// Where the key went into the tree, the root was split and a new root was
/// written above the two halves, a search from the new root finds the key and
/// gives for every other key what the search from the root gave before.
pub proof fn lemma_root_split_grown(
    before: BTreeIndex,
    split: BTreeIndex,
    after: BTreeIndex,
    root: u64,
    key: Seq<char>,
    position: TableRecordPosition,
    sep: Seq<char>,
    fresh: u64,
)
    requires
        ready(before, root, key),
        before.slots@[root].up is None,
        holds_apart(before, split, root, key, position, sep, fresh),
        split_settled(before, split, root, sep, fresh),
        after.slots@ == raised(split.slots@, root, fresh, split.metadata.next_offset),
        shapes_kept(split.files(), after.files(), set![split.metadata.next_offset]),
        shape(node_at(after.files(), split.metadata.next_offset)) == shape(
            Some(root_above(root, sep, fresh)),
        ),
    ensures
        traced(after),
        forall|k: Seq<char>|
            #[trigger] find_in(after.files(), after.slots@, split.metadata.next_offset, k)
                == found_after(
                find_in(before.files(), before.slots@, root, k),
                k,
                key,
                position,
            ),
{
    let slots = split.slots@;
    let next = split.metadata.next_offset;
    let now = after.slots@;
    let height = slots[root].height;
    assert(!slots.contains_key(next)) by {
        if slots.contains_key(next) {
            assert(in_order_at(split.files(), slots, next, next));
        }
    }
    assert(root != fresh);
    assert(slots[fresh].height == height);
    assert forall|p: u64| #[trigger] now.contains_key(p) && now[p].up is Some implies now.contains_key(
        now[p].up.unwrap(),
    ) && now[now[p].up.unwrap()].height == now[p].height + 1 by {
        if p != root && p != fresh {
            assert(slots.contains_key(p));
            let u = slots[p].up.unwrap();
            assert(slots.contains_key(u));
        }
    }
    assert forall|p: u64|
        !set![next].contains(p) && (#[trigger] now.contains_key(p)) implies slots.contains_key(p)
        && shape(node_at(after.files(), p)) == shape(node_at(split.files(), p)) by {
        assert(slots.contains_key(p));
        assert(in_order_at(split.files(), slots, next, p));
    }
    let top = node_at(after.files(), next).unwrap();
    assert(top.node_type == BTreeNodeType::Internal);
    lemma_distinct_kept(split.files(), after.files(), slots, now, set![next]);
    assert forall|k: Seq<char>|
        #[trigger] find_in(after.files(), after.slots@, next, k) == found_after(
            find_in(before.files(), before.slots@, root, k),
            k,
            key,
            position,
        ) by {
        assert(top.internal_entries == root_above(root, sep, fresh).internal_entries);
        assert(top.leftmost_child == Some(root));
        let entries = top.internal_entries;
        assert(entries.len() == 1);
        assert(entries[0].key == sep);
        assert(entries.skip(1).len() == 0);
        assert(descend_index(entries.skip(1), k) == 0);
        let c = child_for(root, entries, k);
        assert(c == (if key_before(k, sep) { root } else { fresh }));
        assert(slots.contains_key(c));
        assert forall|x: u64| #[trigger] slots.contains_key(x) && under(slots, x, c) implies shape(
            node_at(after.files(), x),
        ) == shape(node_at(split.files(), x)) by {
            assert(in_order_at(split.files(), slots, next, x));
            assert(!set![next].contains(x));
        }
        lemma_search_kept(split.files(), after.files(), slots, next, None, c, k, height);
        assert(now[next].height == height + 1);
        assert(find_in(after.files(), now, next, k) == lookup_from(
            after.files(),
            c,
            k,
            height,
        ));
        assert(find_in(before.files(), before.slots@, root, k) == find_in(
            before.files(),
            before.slots@,
            root,
            k,
        ));
    }
}

/// Whether the tree is in order, what is known of the nodes tells the way
/// up from every node, no leaf holds a key twice, and the tree is no higher
/// than a search goes deep.
pub open spec fn whole(index: BTreeIndex) -> bool {
    &&& index.ordered()
    &&& traced(index)
    &&& index.height() <= MAX_TREE_DEPTH
}

/// In a whole tree a search from the root gives what the search through
/// the known levels gives, and it never fails.
pub proof fn lemma_lookup_is_find(index: BTreeIndex, key: Seq<char>)
    requires
        whole(index),
        index.metadata.root_position is Some,
    ensures
        index.lookup(key) == find_in(
            index.files(),
            index.slots@,
            index.metadata.root_position.unwrap().offset,
            key,
        ),
        index.lookup(key) != Lookup::Broken,
{
    let root = index.metadata.root_position.unwrap();
    lemma_enough_fuel(
        index.files(),
        index.slots@,
        index.metadata.next_offset,
        None,
        root.offset,
        key,
        MAX_TREE_DEPTH as nat,
    );
}

/// A search that does not fail gives the same with more fuel.
pub proof fn lemma_more_fuel(files: Seq<Seq<u8>>, at: u64, key: Seq<char>, fuel: nat, more: nat)
    requires
        lookup_from(files, at, key, fuel) != Lookup::Broken,
        fuel <= more,
    ensures
        lookup_from(files, at, key, more) == lookup_from(files, at, key, fuel),
    decreases fuel,
{
    if fuel > 0 {
        match node_at(files, at) {
            Some(node) => {
                if node.node_type == BTreeNodeType::Internal && node.leftmost_child is Some {
                    lemma_more_fuel(
                        files,
                        child_for(node.leftmost_child.unwrap(), node.internal_entries, key),
                        key,
                        (fuel - 1) as nat,
                        (more - 1) as nat,
                    );
                }
            },
            None => {},
        }
    }
}

/// Where the searches from the root through the known levels of a whole
/// tree give, after a key was put in, what they gave before but for that key,
/// so do the searches from the root.
pub proof fn lemma_whole_grown(
    before: BTreeIndex,
    after: BTreeIndex,
    key: Seq<char>,
    position: TableRecordPosition,
)
    requires
        whole(before),
        whole(after),
        before.metadata.root_position is Some,
        after.metadata.root_position is Some,
        forall|k: Seq<char>|
            find_in(
                after.files(),
                after.slots@,
                after.metadata.root_position.unwrap().offset,
                k,
            ) == found_after(
                #[trigger] find_in(
                    before.files(),
                    before.slots@,
                    before.metadata.root_position.unwrap().offset,
                    k,
                ),
                k,
                key,
                position,
            ),
    ensures
        after.lookup(key) == Lookup::Found(position),
        forall|other: Seq<char>|
            other != key ==> #[trigger] after.lookup(other) == before.lookup(other),
{
    lemma_lookup_is_find(after, key);
    lemma_lookup_is_find(before, key);
    assert forall|other: Seq<char>| other != key implies #[trigger] after.lookup(other)
        == before.lookup(other) by {
        lemma_lookup_is_find(after, other);
        lemma_lookup_is_find(before, other);
    }
}

/// In a tree that is in order the descent from a known node, with at least
/// as much fuel as the node is high, reaches a known leaf.
pub proof fn lemma_leaf_for_known(
    files: Seq<Seq<u8>>,
    slots: Map<u64, Slot>,
    next_offset: u64,
    at: u64,
    key: Seq<char>,
    fuel: nat,
)
    requires
        ordered_but(files, slots, next_offset, None),
        slots.contains_key(at),
        fuel >= slots[at].height,
    ensures
        leaf_for(files, at, key, fuel) is Some,
        slots.contains_key(leaf_for(files, at, key, fuel).unwrap()),
    decreases fuel,
{
    assert(in_order_at(files, slots, next_offset, at));
    let node = node_at(files, at).unwrap();
    if node.node_type == BTreeNodeType::Internal {
        lemma_descend_index(node.internal_entries, key);
        let i = descend_index(node.internal_entries, key);
        let child = child_for(node.leftmost_child.unwrap(), node.internal_entries, key);
        assert(child == child_at(node, i));
        assert(slots.contains_key(child_at(node, i)));
        assert(slots[child_at(node, i)] == expected_slot(node, slots[at], at, i));
        lemma_leaf_for_known(files, slots, next_offset, child, key, (fuel - 1) as nat);
    }
}

/// A leaf that holds no key twice holds none twice without one of its entries.
pub proof fn lemma_without_first_distinct(entries: Seq<LeafEntryView>, key: Seq<char>)
    requires
        leaf_distinct(entries),
    ensures
        leaf_distinct(without_first(entries, key)),
{
    lemma_first_index(entries, key);
    let at = first_index(entries, key);
    if at < entries.len() {
        let after = entries.remove(at);
        assert forall|i: int, j: int| 0 <= i < j < after.len() implies (#[trigger] after[i]).key != (
        #[trigger] after[j]).key by {
            let x = if i < at { i } else { i + 1 };
            let y = if j < at { j } else { j + 1 };
            assert(after[i] == entries[x]);
            assert(after[j] == entries[y]);
        }
    }
}

/// After the first entry with `key` was taken out of the leaf under which
/// the key belongs in a whole tree, the tree is whole and the key is gone.
pub proof fn lemma_taken_out(before: BTreeIndex, after: BTreeIndex, key: Seq<char>)
    requires
        whole(before),
        before.metadata.root_position is Some,
        after.metadata == before.metadata,
        after.slots == before.slots,
        after.ordered(),
        after.lookup(key) == lookup_without_first(
            before.files(),
            before.metadata.root_position,
            key,
        ),
        ({
            let leaf = leaf_for(
                before.files(),
                before.metadata.root_position.unwrap().offset,
                key,
                MAX_TREE_DEPTH as nat,
            );
            leaf is Some ==> {
                ||| after.files() == before.files()
                ||| {
                    &&& node_at(after.files(), leaf.unwrap()) == Some(
                        BTreeNodeView {
                            leaf_entries: without_first(
                                node_at(before.files(), leaf.unwrap()).unwrap().leaf_entries,
                                key,
                            ),
                            ..node_at(before.files(), leaf.unwrap()).unwrap()
                        },
                    )
                    &&& same_except(before.files(), after.files(), set![leaf.unwrap()])
                }
            }
        }),
    ensures
        whole(after),
        after.lookup(key) == Lookup::Missing,
{
    let root = before.metadata.root_position.unwrap().offset;
    let slots = before.slots@;
    let fuel = MAX_TREE_DEPTH as nat;
    lemma_leaf_for_known(before.files(), slots, before.metadata.next_offset, root, key, fuel);
    lemma_lookup_in_leaf(before.files(), root, key, fuel);
    let leaf = leaf_for(before.files(), root, key, fuel).unwrap();
    let entries = node_at(before.files(), leaf).unwrap().leaf_entries;
    assert(leaf_distinct(entries));
    lemma_without_first_distinct(entries, key);
    lemma_without_first_once(entries, key);
    lemma_first_index(entries, key);
    if after.files() != before.files() {
        assert forall|p: u64|
            !set![leaf].contains(p) && (#[trigger] slots.contains_key(p)) implies slots.contains_key(
            p,
        ) && shape(node_at(after.files(), p)) == shape(node_at(before.files(), p)) by {
            assert(node_at(after.files(), p) == node_at(before.files(), p));
        }
        lemma_distinct_kept(before.files(), after.files(), slots, slots, set![leaf]);
    }
}

} // verus!
