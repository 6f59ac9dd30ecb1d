//! Searches below a node of the index, and what leaves them as they were.

use vstd::prelude::*;
use crate::bytes::{key_before, lemma_bytes_less_irreflexive};
use crate::disktable::index::btree::{
    child_for, descend_index, leaf_lookup, leaf_sorted, lookup_from, lower_internal, lower_leaf,
    node_at, separators_sorted, upper_internal, upper_leaf, BTreeNodeType, BTreeNodeView,
    InternalEntryView, LeafEntryView, Lookup,
};
use crate::disktable::index::order::{
    adopted, child_at, expected_slot, in_order_at, internal_in_order, lemma_descend_index,
    lemma_key_order_chain, lemma_key_order_one_way, moved, ordered_but, shape, with_child, Slot,
};
use crate::disktable::segment::position::TableRecordPosition;

verus! {

/// Whether the node above each known node is known and lies one level higher.
pub open spec fn ups_ok(slots: Map<u64, Slot>) -> bool {
    forall|p: u64|
        #[trigger] slots.contains_key(p) && slots[p].up is Some ==> slots.contains_key(
            slots[p].up.unwrap(),
        ) && slots[slots[p].up.unwrap()].height == slots[p].height + 1
}

/// The node that lies `levels` levels above `x`, where the way up is known.
pub open spec fn lift(slots: Map<u64, Slot>, x: u64, levels: nat) -> Option<u64>
    decreases levels,
{
    if levels == 0 {
        Some(x)
    } else if slots.contains_key(x) && slots[x].up is Some {
        lift(slots, slots[x].up.unwrap(), (levels - 1) as nat)
    } else {
        None
    }
}

/// Whether `x` lies in the part of the tree below `q`, `q` included.
pub open spec fn under(slots: Map<u64, Slot>, x: u64, q: u64) -> bool {
    &&& slots.contains_key(x)
    &&& slots.contains_key(q)
    &&& slots[x].height <= slots[q].height
    &&& lift(slots, x, (slots[q].height - slots[x].height) as nat) == Some(q)
}

/// Going up first some levels and then some more is going up all of them.
pub proof fn lemma_lift_twice(slots: Map<u64, Slot>, x: u64, a: nat, b: nat)
    requires
        lift(slots, x, a) is Some,
    ensures
        lift(slots, x, a + b) == lift(slots, lift(slots, x, a).unwrap(), b),
    decreases a,
{
    if a > 0 {
        lemma_lift_twice(slots, slots[x].up.unwrap(), (a - 1) as nat, b);
    }
}

/// What lies below a node lies below the node above it.
pub proof fn lemma_under_up(slots: Map<u64, Slot>, x: u64, q: u64)
    requires
        ups_ok(slots),
        under(slots, x, q),
        slots[q].up is Some,
    ensures
        under(slots, x, slots[q].up.unwrap()),
{
    let levels = (slots[q].height - slots[x].height) as nat;
    lemma_lift_twice(slots, x, levels, 1);
    assert(lift(slots, q, 1) == lift(slots, slots[q].up.unwrap(), 0));
}

/// A node lies below at most one node of a level.
pub proof fn lemma_under_one(slots: Map<u64, Slot>, x: u64, a: u64, b: u64)
    requires
        under(slots, x, a),
        under(slots, x, b),
        slots[a].height == slots[b].height,
    ensures
        a == b,
{
}

/// The search for a key from a known node down, with as much fuel as the
/// node is high.
pub open spec fn find_in(files: Seq<Seq<u8>>, slots: Map<u64, Slot>, p: u64, key: Seq<char>) -> Lookup {
    lookup_from(files, p, key, slots[p].height)
}

/// Whether no two entries of a leaf have the same key.
pub open spec fn leaf_distinct(entries: Seq<LeafEntryView>) -> bool {
    forall|i: int, j: int|
        0 <= i < j < entries.len() ==> (#[trigger] entries[i]).key != (#[trigger] entries[j]).key
}

/// Whether no known leaf holds a key twice.
pub open spec fn leaves_distinct(files: Seq<Seq<u8>>, slots: Map<u64, Slot>) -> bool {
    forall|p: u64|
        #[trigger] slots.contains_key(p) && node_at(files, p) is Some && node_at(
            files,
            p,
        ).unwrap().node_type == BTreeNodeType::Leaf ==> leaf_distinct(
            node_at(files, p).unwrap().leaf_entries,
        )
}

/// Whether every known node outside the part of the tree below `at` kept its shape.
pub open spec fn outside_kept(
    before: Seq<Seq<u8>>,
    slots: Map<u64, Slot>,
    after: Seq<Seq<u8>>,
    at: u64,
) -> bool {
    forall|x: u64|
        #[trigger] slots.contains_key(x) && !under(slots, x, at) ==> shape(node_at(after, x))
            == shape(node_at(before, x))
}

/// What a search gives after `key` was put in with `position`, given what it gave before.
pub open spec fn found_after(
    before: Lookup,
    k: Seq<char>,
    key: Seq<char>,
    position: TableRecordPosition,
) -> Lookup {
    if k == key {
        Lookup::Found(position)
    } else {
        before
    }
}

/// A search in a leaf finds an entry with the key exactly when there is one.
pub proof fn lemma_leaf_lookup_some(entries: Seq<LeafEntryView>, key: Seq<char>)
    ensures
        leaf_lookup(entries, key) is Some <==> exists|i: int|
            0 <= i < entries.len() && (#[trigger] entries[i]).key == key,
    decreases entries.len(),
{
    if entries.len() > 0 {
        lemma_leaf_lookup_some(entries.skip(1), key);
        if entries[0].key == key {
            assert(entries[0].key == key);
        } else {
            if leaf_lookup(entries.skip(1), key) is Some {
                let i = choose|i: int|
                    0 <= i < entries.skip(1).len() && (#[trigger] entries.skip(1)[i]).key == key;
                assert(entries[i + 1].key == key);
            }
            if exists|i: int| 0 <= i < entries.len() && (#[trigger] entries[i]).key == key {
                let i = choose|i: int| 0 <= i < entries.len() && (#[trigger] entries[i]).key == key;
                assert(entries.skip(1)[i - 1].key == key);
            }
        }
    }
}

/// A search in the front part of a leaf gives what a search in the leaf
/// gives, as long as no entry behind that part has the key.
pub proof fn lemma_lookup_front(entries: Seq<LeafEntryView>, mid: int, key: Seq<char>)
    requires
        0 <= mid <= entries.len(),
        forall|i: int| mid <= i < entries.len() ==> (#[trigger] entries[i]).key != key,
    ensures
        leaf_lookup(entries.subrange(0, mid), key) == leaf_lookup(entries, key),
    decreases mid,
{
    let front = entries.subrange(0, mid);
    if mid == 0 {
        assert(front.len() == 0);
        lemma_leaf_lookup_some(entries, key);
    } else {
        assert(front[0] == entries[0]);
        if entries[0].key != key {
            assert(front.skip(1) =~= entries.skip(1).subrange(0, mid - 1));
            assert forall|i: int| mid - 1 <= i < entries.skip(1).len() implies (
            #[trigger] entries.skip(1)[i]).key != key by {
                assert(entries.skip(1)[i] == entries[i + 1]);
            }
            lemma_lookup_front(entries.skip(1), mid - 1, key);
        }
    }
}

/// A search in the back part of a leaf gives what a search in the leaf
/// gives, as long as no entry in front of that part has the key.
pub proof fn lemma_lookup_back(entries: Seq<LeafEntryView>, mid: int, key: Seq<char>)
    requires
        0 <= mid <= entries.len(),
        forall|i: int| 0 <= i < mid ==> (#[trigger] entries[i]).key != key,
    ensures
        leaf_lookup(entries.subrange(mid, entries.len() as int), key) == leaf_lookup(entries, key),
    decreases mid,
{
    if mid == 0 {
        assert(entries.subrange(0, entries.len() as int) =~= entries);
    } else {
        assert(entries[0].key != key);
        assert(entries.skip(1).subrange(mid - 1, entries.skip(1).len() as int)
            =~= entries.subrange(mid, entries.len() as int));
        assert forall|i: int| 0 <= i < mid - 1 implies (#[trigger] entries.skip(1)[i]).key
            != key by {
            assert(entries.skip(1)[i] == entries[i + 1]);
        }
        lemma_lookup_back(entries.skip(1), mid - 1, key);
    }
}

/// After a leaf whose keys never go down and occur once each was split, a
/// search in the half on the key's side of the first key of the upper half
/// gives what a search in the whole leaf gave.
pub proof fn lemma_leaf_split_search(node: BTreeNodeView, mid: int, key: Seq<char>)
    requires
        leaf_sorted(node.leaf_entries),
        leaf_distinct(node.leaf_entries),
        0 <= mid < node.leaf_entries.len(),
    ensures
        (if key_before(key, node.leaf_entries[mid].key) {
            leaf_lookup(lower_leaf(node, mid).leaf_entries, key)
        } else {
            leaf_lookup(upper_leaf(node, mid).leaf_entries, key)
        }) == leaf_lookup(node.leaf_entries, key),
{
    let entries = node.leaf_entries;
    let split_key = entries[mid].key;
    if key_before(key, split_key) {
        assert forall|i: int| mid <= i < entries.len() implies (#[trigger] entries[i]).key
            != key by {
            if entries[i].key == key {
                if i > mid {
                    assert(!key_before(entries[i].key, entries[mid].key));
                } else {
                    lemma_bytes_less_irreflexive(vstd::utf8::encode_utf8(key));
                }
            }
        }
        lemma_lookup_front(entries, mid, key);
    } else {
        assert forall|i: int| 0 <= i < mid implies (#[trigger] entries[i]).key != key by {
            if entries[i].key == key {
                assert(!key_before(entries[mid].key, entries[i].key));
                assert(entries[i].key != entries[mid].key);
                // the key neither comes before nor after the first key of the upper half
                crate::bytes::lemma_bytes_less_total(
                    vstd::utf8::encode_utf8(key),
                    vstd::utf8::encode_utf8(split_key),
                );
                vstd::utf8::encode_utf8_decode_utf8(key);
                vstd::utf8::encode_utf8_decode_utf8(split_key);
            }
        }
        lemma_lookup_back(entries, mid, key);
    }
}

/// A leaf whose keys occur once each and that does not hold a key holds
/// every key once after an entry with that key was put in.
pub proof fn lemma_insert_keeps_distinct(entries: Seq<LeafEntryView>, at: int, e: LeafEntryView)
    requires
        leaf_distinct(entries),
        0 <= at <= entries.len(),
        leaf_lookup(entries, e.key) is None,
    ensures
        leaf_distinct(entries.insert(at, e)),
{
    let after = entries.insert(at, e);
    lemma_leaf_lookup_some(entries, e.key);
    assert forall|i: int, j: int| 0 <= i < j < after.len() implies (#[trigger] after[i]).key != (
    #[trigger] after[j]).key by {
        let x = if i < at { i } else { i - 1 };
        let y = if j < at { j } else { j - 1 };
        if i == at {
            assert(after[j] == entries[y]);
            assert(entries[y].key != e.key);
        } else if j == at {
            assert(after[i] == entries[x]);
            assert(entries[x].key != e.key);
        } else {
            assert(after[i] == entries[x]);
            assert(after[j] == entries[y]);
        }
    }
}

/// The place where the descent goes on in an internal node that took a
/// separator at place `i`: the same child as before for a key that went to
/// another child, and for a key that went to the child at place `i` that child
/// where the key comes before the separator, and the new child where it does
/// not.
pub proof fn lemma_took_child_search(
    node: BTreeNodeView,
    i: int,
    sep: Seq<char>,
    fresh: u64,
    key: Seq<char>,
)
    requires
        node.leftmost_child is Some,
        separators_sorted(with_child(node, i, sep, fresh).internal_entries),
        0 <= i <= node.internal_entries.len(),
    ensures
        child_at(
            with_child(node, i, sep, fresh),
            descend_index(with_child(node, i, sep, fresh).internal_entries, key),
        ) == (if descend_index(node.internal_entries, key) != i {
            child_at(node, descend_index(node.internal_entries, key))
        } else if key_before(key, sep) {
            child_at(node, i)
        } else {
            fresh
        }),
        0 <= descend_index(with_child(node, i, sep, fresh).internal_entries, key)
            <= node.internal_entries.len() + 1,
{
    let taken = with_child(node, i, sep, fresh);
    let old_entries = node.internal_entries;
    let entries = taken.internal_entries;
    lemma_descend_index(old_entries, key);
    lemma_descend_index(entries, key);
    let d = descend_index(old_entries, key);
    let n = descend_index(entries, key);
    assert(entries[i] == InternalEntryView { key: sep, child: fresh });
    if d < i {
        // the descent stops in front of the new separator
        assert(entries[d] == old_entries[d]);
        if n < d {
            assert(entries[n] == old_entries[n]);
            assert(!key_before(key, old_entries[n].key));
        }
        if n > d {
            assert(!key_before(key, entries[d].key));
        }
        assert(n == d);
        if d > 0 {
            assert(entries[d - 1] == old_entries[d - 1]);
        }
    } else if d > i {
        // the descent passes the new separator
        assert(!key_before(key, old_entries[i].key));
        if n <= i {
            if n < i {
                assert(entries[n] == old_entries[n]);
                assert(!key_before(key, old_entries[n].key));
            } else {
                // the key comes before the new separator, which does not come after the
                // separator behind it, which does not come after the key
                assert(entries[i + 1] == old_entries[i]);
                assert(!key_before(entries[i + 1].key, entries[i].key));
                lemma_key_order_chain(sep, old_entries[i].key, key);
                lemma_key_order_one_way(key, sep);
            }
        }
        if i < n && n <= d {
            assert(entries[n] == old_entries[n - 1]);
            assert(!key_before(key, old_entries[n - 1].key));
        }
        if n > d + 1 {
            assert(entries[d + 1] == old_entries[d]);
            assert(!key_before(key, entries[d + 1].key));
        }
        assert(n == d + 1);
        assert(entries[d] == old_entries[d - 1]);
    } else {
        // the key went to the child at place i
        if n < i {
            assert(entries[n] == old_entries[n]);
            assert(!key_before(key, old_entries[n].key));
        }
        if key_before(key, sep) {
            if n > i {
                assert(!key_before(key, entries[i].key));
            }
            assert(n == i);
            if i > 0 {
                assert(entries[i - 1] == old_entries[i - 1]);
            }
        } else {
            if n == i {
                assert(key_before(key, entries[i].key));
            }
            if n > i + 1 {
                assert(entries[i + 1] == old_entries[i]);
                assert(!key_before(key, entries[i + 1].key));
            }
            assert(n == i + 1);
        }
    }
}

/// The place where the descent goes on after an internal node whose
/// separators never go down was split behind place `mid`: in the lower half
/// for a key that comes before the separator that went up, else in the upper
/// half, and there at the child at which it went on before the split.
pub proof fn lemma_internal_split_search(node: BTreeNodeView, mid: int, key: Seq<char>)
    requires
        node.leftmost_child is Some,
        separators_sorted(node.internal_entries),
        0 <= mid < node.internal_entries.len(),
    ensures
        child_at(node, descend_index(node.internal_entries, key)) == (if key_before(
            key,
            node.internal_entries[mid].key,
        ) {
            child_at(
                lower_internal(node, mid),
                descend_index(lower_internal(node, mid).internal_entries, key),
            )
        } else {
            child_at(
                upper_internal(node, mid),
                descend_index(upper_internal(node, mid).internal_entries, key),
            )
        }),
{
    let entries = node.internal_entries;
    let lower = lower_internal(node, mid);
    let upper = upper_internal(node, mid);
    lemma_descend_index(entries, key);
    lemma_descend_index(lower.internal_entries, key);
    lemma_descend_index(upper.internal_entries, key);
    let d = descend_index(entries, key);
    if key_before(key, entries[mid].key) {
        let n = descend_index(lower.internal_entries, key);
        if d > mid {
            assert(!key_before(key, entries[mid].key));
        }
        if n < d {
            assert(lower.internal_entries[n] == entries[n]);
            assert(!key_before(key, entries[n].key));
        }
        if n > d {
            assert(lower.internal_entries[d] == entries[d]);
            assert(!key_before(key, lower.internal_entries[d].key));
        }
        assert(n == d);
        if d > 0 {
            assert(lower.internal_entries[d - 1] == entries[d - 1]);
        }
    } else {
        let n = descend_index(upper.internal_entries, key);
        if d <= mid {
            // the key comes before a separator that does not come after the one that went up
            if d < mid {
                assert(!key_before(entries[mid].key, entries[d].key));
            }
            lemma_bytes_less_irreflexive(vstd::utf8::encode_utf8(entries[mid].key));
            lemma_key_order_one_way(key, entries[d].key);
            crate::bytes::lemma_bytes_less_total(
                vstd::utf8::encode_utf8(key),
                vstd::utf8::encode_utf8(entries[mid].key),
            );
            if vstd::utf8::encode_utf8(key) == vstd::utf8::encode_utf8(entries[mid].key) {
                vstd::utf8::encode_utf8_decode_utf8(key);
                vstd::utf8::encode_utf8_decode_utf8(entries[mid].key);
            } else {
                crate::bytes::lemma_bytes_less_transitive(
                    vstd::utf8::encode_utf8(entries[mid].key),
                    vstd::utf8::encode_utf8(key),
                    vstd::utf8::encode_utf8(entries[d].key),
                );
            }
        }
        assert(d >= mid + 1);
        if n < d - mid - 1 {
            assert(upper.internal_entries[n] == entries[mid + 1 + n]);
            assert(!key_before(key, entries[mid + 1 + n].key));
        }
        if n > d - mid - 1 {
            assert(upper.internal_entries[d - mid - 1] == entries[d]);
            assert(!key_before(key, upper.internal_entries[d - mid - 1].key));
        }
        assert(n == d - mid - 1);
        if n > 0 {
            assert(upper.internal_entries[n - 1] == entries[d - 1]);
        }
    }
}

/// Where every known node below `at` kept its shape, a search from `at`
/// gives what it gave before. A node that is not in order does not matter as
/// long as it does not lie below `at`.
pub proof fn lemma_search_kept(
    before: Seq<Seq<u8>>,
    after: Seq<Seq<u8>>,
    slots: Map<u64, Slot>,
    next_offset: u64,
    hole: Option<u64>,
    at: u64,
    key: Seq<char>,
    fuel: nat,
)
    requires
        ordered_but(before, slots, next_offset, hole),
        ups_ok(slots),
        slots.contains_key(at),
        hole is Some ==> !under(slots, hole.unwrap(), at),
        forall|x: u64|
            #[trigger] slots.contains_key(x) && under(slots, x, at) ==> shape(node_at(after, x))
                == shape(node_at(before, x)),
    ensures
        lookup_from(after, at, key, fuel) == lookup_from(before, at, key, fuel),
    decreases fuel,
{
    if fuel > 0 {
        assert(under(slots, at, at));
        assert(in_order_at(before, slots, next_offset, at));
        let node = node_at(before, at).unwrap();
        let now = node_at(after, at).unwrap();
        assert(shape(Some(now)) == shape(Some(node)));
        assert(now.node_type == node.node_type);
        assert(now.leaf_entries == node.leaf_entries);
        assert(now.internal_entries == node.internal_entries);
        assert(now.leftmost_child == node.leftmost_child);
        if node.node_type == BTreeNodeType::Internal {
            lemma_descend_index(node.internal_entries, key);
            let i = descend_index(node.internal_entries, key);
            let child = child_for(node.leftmost_child.unwrap(), node.internal_entries, key);
            assert(child == child_at(node, i));
            assert(slots.contains_key(child_at(node, i)));
            assert(slots[child_at(node, i)] == expected_slot(node, slots[at], at, i));
            assert forall|x: u64|
                #[trigger] slots.contains_key(x) && under(slots, x, child) implies shape(
                node_at(after, x),
            ) == shape(node_at(before, x)) by {
                lemma_under_up(slots, x, child);
            }
            if hole is Some && under(slots, hole.unwrap(), child) {
                lemma_under_up(slots, hole.unwrap(), child);
            }
            lemma_search_kept(
                before,
                after,
                slots,
                next_offset,
                hole,
                child,
                key,
                (fuel - 1) as nat,
            );
        }
    }
}

/// In a tree that is in order a search with more fuel than the node is high
/// gives what a search with as much fuel gives, and it never fails.
pub proof fn lemma_enough_fuel(
    files: Seq<Seq<u8>>,
    slots: Map<u64, Slot>,
    next_offset: u64,
    hole: Option<u64>,
    at: u64,
    key: Seq<char>,
    fuel: nat,
)
    requires
        ordered_but(files, slots, next_offset, hole),
        ups_ok(slots),
        slots.contains_key(at),
        hole is Some ==> !under(slots, hole.unwrap(), at),
        fuel >= slots[at].height,
    ensures
        lookup_from(files, at, key, fuel) == find_in(files, slots, at, key),
        find_in(files, slots, at, key) != Lookup::Broken,
    decreases fuel,
{
    assert(under(slots, at, at));
    assert(in_order_at(files, slots, next_offset, at));
    let node = node_at(files, at).unwrap();
    if node.node_type == BTreeNodeType::Internal {
        lemma_descend_index(node.internal_entries, key);
        let i = descend_index(node.internal_entries, key);
        let child = child_for(node.leftmost_child.unwrap(), node.internal_entries, key);
        assert(child == child_at(node, i));
        assert(slots.contains_key(child_at(node, i)));
        assert(slots[child_at(node, i)] == expected_slot(node, slots[at], at, i));
        if hole is Some && under(slots, hole.unwrap(), child) {
            lemma_under_up(slots, hole.unwrap(), child);
        }
        lemma_enough_fuel(files, slots, next_offset, hole, child, key, (fuel - 1) as nat);
    }
}

/// What is known stays consistent about the nodes above when a node is
/// split into itself and a new node of the same level under the same node.
pub proof fn lemma_ups_after_split(slots: Map<u64, Slot>, at: u64, key: Seq<char>, fresh: u64)
    requires
        ups_ok(slots),
        slots.contains_key(at),
        !slots.contains_key(fresh),
    ensures
        ups_ok(
            slots.insert(at, Slot { hi: Some(key), ..slots[at] }).insert(
                fresh,
                Slot { lo: Some(key), ..slots[at] },
            ),
        ),
{
    let now = slots.insert(at, Slot { hi: Some(key), ..slots[at] }).insert(
        fresh,
        Slot { lo: Some(key), ..slots[at] },
    );
    assert forall|p: u64| #[trigger] now.contains_key(p) && now[p].up is Some implies now.contains_key(
        now[p].up.unwrap(),
    ) && now[now[p].up.unwrap()].height == now[p].height + 1 by {
        let q = if p == fresh { at } else { p };
        assert(slots.contains_key(q));
        assert(now[p].up == slots[q].up);
        let u = slots[q].up.unwrap();
        assert(slots.contains_key(u));
        assert(u != fresh);
    }
}

/// What is known stays consistent about the nodes above when an internal
/// node that is in order is split and the children that moved are put under
/// the new node.
pub proof fn lemma_ups_after_adopt(
    slots: Map<u64, Slot>,
    node: BTreeNodeView,
    mid: int,
    at: u64,
    fresh: u64,
)
    requires
        ups_ok(slots),
        slots.contains_key(at),
        !slots.contains_key(fresh),
        internal_in_order(node, slots[at], slots, at),
        0 <= mid < node.internal_entries.len(),
    ensures
        ups_ok(adopted(slots, node, mid, at, fresh)),
{
    let now = adopted(slots, node, mid, at, fresh);
    assert forall|p: u64| #[trigger] now.contains_key(p) && now[p].up is Some implies now.contains_key(
        now[p].up.unwrap(),
    ) && now[now[p].up.unwrap()].height == now[p].height + 1 by {
        if p == fresh || p == at {
            let u = slots[at].up.unwrap();
            assert(slots.contains_key(at));
            assert(slots.contains_key(u));
            assert(u != fresh);
            assert(slots[u].height == slots[at].height + 1);
            assert(u != at);
            if moved(node, mid, u) {
                let j = choose|j: int|
                    mid < j <= node.internal_entries.len() && #[trigger] child_at(node, j) == u;
                assert(slots[child_at(node, j)] == expected_slot(node, slots[at], at, j));
            }
        } else if moved(node, mid, p) {
            let j = choose|j: int|
                mid < j <= node.internal_entries.len() && #[trigger] child_at(node, j) == p;
            assert(slots[child_at(node, j)] == expected_slot(node, slots[at], at, j));
        } else {
            assert(slots.contains_key(p));
            let u = slots[p].up.unwrap();
            assert(slots.contains_key(u));
            assert(u != fresh);
            if moved(node, mid, u) {
                let j = choose|j: int|
                    mid < j <= node.internal_entries.len() && #[trigger] child_at(node, j) == u;
                assert(slots[child_at(node, j)] == expected_slot(node, slots[at], at, j));
            }
        }
    }
}

/// Where the nodes outside `touched` kept their shapes, every node in
/// `touched` that is a leaf holds no key twice, and every known node outside
/// `touched` was known before, no known leaf holds a key twice.
pub proof fn lemma_distinct_kept(
    before: Seq<Seq<u8>>,
    after: Seq<Seq<u8>>,
    slots_before: Map<u64, Slot>,
    slots_after: Map<u64, Slot>,
    touched: Set<u64>,
)
    requires
        leaves_distinct(before, slots_before),
        forall|p: u64|
            !touched.contains(p) && (#[trigger] slots_after.contains_key(p))
                ==> slots_before.contains_key(p) && shape(node_at(after, p)) == shape(
                node_at(before, p),
            ),
        forall|p: u64|
            touched.contains(p) && (#[trigger] slots_after.contains_key(p)) && node_at(after, p)
                is Some && node_at(after, p).unwrap().node_type == BTreeNodeType::Leaf
                ==> leaf_distinct(node_at(after, p).unwrap().leaf_entries),
    ensures
        leaves_distinct(after, slots_after),
{
    assert forall|p: u64|
        #[trigger] slots_after.contains_key(p) && node_at(after, p) is Some && node_at(
            after,
            p,
        ).unwrap().node_type == BTreeNodeType::Leaf implies leaf_distinct(
        node_at(after, p).unwrap().leaf_entries,
    ) by {
        if !touched.contains(p) {
            assert(slots_before.contains_key(p));
            assert(shape(node_at(after, p)) == shape(node_at(before, p)));
            assert(node_at(before, p).unwrap().leaf_entries == node_at(
                after,
                p,
            ).unwrap().leaf_entries);
        }
    }
}

} // verus!
