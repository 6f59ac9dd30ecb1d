use vstd::prelude::*;
use vstd::string::StringSliceAdditionalSpecFns;
use vstd::utf8::{encode_utf8, encode_utf8_decode_utf8};

verus! {

/// Decides whether two texts are the same.
pub fn same_text(a: &str, b: &str) -> (r: bool)
    ensures
        r == (a@ == b@),
{
    let x = a.as_bytes();
    let y = b.as_bytes();
    proof {
        encode_utf8_decode_utf8(a@);
        encode_utf8_decode_utf8(b@);
    }
    if x.len() != y.len() {
        return false;
    }
    let mut i: usize = 0;
    while i < x.len()
        invariant
            i <= x.len(),
            x@.len() == y@.len(),
            x@ == encode_utf8(a@),
            y@ == encode_utf8(b@),
            forall|j: int| 0 <= j < i ==> x@[j] == y@[j],
        decreases x.len() - i,
    {
        if x[i] != y[i] {
            return false;
        }
        i += 1;
    }
    proof {
        assert(x@ =~= y@);
        encode_utf8_decode_utf8(a@);
        encode_utf8_decode_utf8(b@);
    }
    true
}

/// Whether no text occurs twice.
pub open spec fn distinct(names: Seq<String>) -> bool {
    forall|i: int, j: int| 0 <= i < j < names.len() ==> names[i]@ != names[j]@
}

/// Whether a text occurs among the names.
pub open spec fn listed(names: Seq<String>, name: Seq<char>) -> bool {
    exists|i: int| 0 <= i < names.len() && #[trigger] names[i]@ == name
}

/// The index of the first occurrence of a text among the names; their number where there is none.
pub open spec fn name_index(names: Seq<String>, name: Seq<char>) -> int
    decreases names.len(),
{
    if names.len() == 0 {
        0
    } else if name_index(names.drop_last(), name) < names.len() - 1 {
        name_index(names.drop_last(), name)
    } else if names.last()@ == name {
        names.len() - 1
    } else {
        names.len() as int
    }
}

/// The index names the first occurrence, or the end where there is none.
pub proof fn lemma_name_index(names: Seq<String>, name: Seq<char>)
    ensures
        0 <= name_index(names, name) <= names.len(),
        name_index(names, name) < names.len() ==> names[name_index(names, name)]@ == name,
        forall|j: int| 0 <= j < name_index(names, name) ==> (#[trigger] names[j])@ != name,
        listed(names, name) <==> name_index(names, name) < names.len(),
    decreases names.len(),
{
    if names.len() > 0 {
        lemma_name_index(names.drop_last(), name);
        let k = name_index(names.drop_last(), name);
        assert forall|j: int| 0 <= j < name_index(names, name) implies (#[trigger] names[j])@
            != name by {
            if j < names.len() - 1 {
                assert(names.drop_last()[j] == names[j]);
            }
        }
        if k < names.len() - 1 {
            assert(names.drop_last()[k] == names[k]);
        }
        if name_index(names, name) == names.len() {
            assert forall|i: int| 0 <= i < names.len() implies #[trigger] names[i]@ != name by {}
        }
    }
}

/// Finds a name among the names.
pub fn find_name(names: &Vec<String>, name: &str) -> (r: Option<usize>)
    ensures
        match r {
            Some(i) => i == name_index(names@, name@) && i < names@.len() && names@[i as int]@
                == name@,
            None => name_index(names@, name@) == names@.len() && !listed(names@, name@),
        },
{
    let mut i: usize = 0;
    assert(names@.subrange(0, 0) =~= Seq::empty());
    while i < names.len()
        invariant
            i <= names.len(),
            name_index(names@.subrange(0, i as int), name@) == i,
        decreases names.len() - i,
    {
        proof {
            assert(names@.subrange(0, i + 1).drop_last() =~= names@.subrange(0, i as int));
            assert(names@.subrange(0, i + 1).last() == names@[i as int]);
        }
        if same_text(names[i].as_str(), name) {
            proof {
                lemma_name_index_prefix(names@, i + 1, name@);
            }
            return Some(i);
        }
        i += 1;
    }
    proof {
        assert(names@.subrange(0, i as int) =~= names@);
        lemma_name_index(names@, name@);
    }
    None
}

/// An occurrence inside a front part of the names is the first occurrence among all of them.
pub proof fn lemma_name_index_prefix(names: Seq<String>, n: int, name: Seq<char>)
    requires
        0 <= n <= names.len(),
        name_index(names.subrange(0, n), name) < n,
    ensures
        name_index(names, name) == name_index(names.subrange(0, n), name),
    decreases names.len() - n,
{
    if n < names.len() {
        assert(names.subrange(0, n + 1).drop_last() =~= names.subrange(0, n));
        lemma_name_index_prefix(names, n + 1, name);
    } else {
        assert(names.subrange(0, n) =~= names);
    }
}

/// A name put behind names that did not hold it is found at the end.
pub proof fn lemma_pushed(before: Seq<String>, after: Seq<String>, name: Seq<char>)
    requires
        distinct(before),
        !listed(before, name),
        after.len() == before.len() + 1,
        after.drop_last() == before,
        after.last()@ == name,
    ensures
        distinct(after),
        name_index(after, name) == before.len(),
{
    lemma_name_index(before, name);
    assert forall|i: int, j: int| 0 <= i < j < after.len() implies after[i]@ != after[j]@ by {
        assert(after.drop_last()[i] == after[i]);
        if j < before.len() {
            assert(after.drop_last()[j] == after[j]);
        } else {
            if before[i]@ == name {
                assert(listed(before, name));
            }
        }
    }
}

/// A name put behind the names changes where no other name is found.
pub proof fn lemma_pushed_other(
    before: Seq<String>,
    after: Seq<String>,
    name: Seq<char>,
    other: Seq<char>,
)
    requires
        after.len() == before.len() + 1,
        after.drop_last() == before,
        after.last()@ == name,
        other != name,
    ensures
        name_index(before, other) < before.len() ==> name_index(after, other) == name_index(
            before,
            other,
        ),
        name_index(before, other) == before.len() ==> name_index(after, other) == after.len(),
{
    lemma_name_index(before, other);
}

/// The names without the one at `at` are distinct, and the name that was there is gone.
pub proof fn lemma_removed(names: Seq<String>, at: int)
    requires
        distinct(names),
        0 <= at < names.len(),
    ensures
        distinct(names.remove(at)),
        !listed(names.remove(at), names[at]@),
        name_index(names.remove(at), names[at]@) == names.len() - 1,
{
    let after = names.remove(at);
    assert forall|i: int, j: int| 0 <= i < j < after.len() implies after[i]@ != after[j]@ by {
        let a = if i < at { i } else { i + 1 };
        let b = if j < at { j } else { j + 1 };
        assert(after[i] == names[a]);
        assert(after[j] == names[b]);
    }
    assert forall|i: int| 0 <= i < after.len() implies #[trigger] after[i]@ != names[at]@ by {
        let a = if i < at { i } else { i + 1 };
        assert(after[i] == names[a]);
        if a < at {
            assert(names[a]@ != names[at]@);
        } else {
            assert(names[at]@ != names[a]@);
        }
    }
    lemma_name_index(after, names[at]@);
}

/// Taking a name out moves the names behind it one place to the front.
pub proof fn lemma_removed_other(names: Seq<String>, at: int, other: Seq<char>)
    requires
        distinct(names),
        0 <= at < names.len(),
        other != names[at]@,
    ensures
        name_index(names, other) < at ==> name_index(names.remove(at), other) == name_index(
            names,
            other,
        ),
        at < name_index(names, other) < names.len() ==> name_index(names.remove(at), other)
            == name_index(names, other) - 1,
        name_index(names, other) == names.len() ==> name_index(names.remove(at), other)
            == names.len() - 1,
        name_index(names, other) != at,
{
    let after = names.remove(at);
    lemma_name_index(names, other);
    lemma_name_index(after, other);
    let k = name_index(names, other);
    let m = name_index(after, other);
    if k < names.len() {
        let target = if k < at { k } else { k - 1 };
        assert(after[target] == names[k]);
        assert(listed(after, other));
        if m < target {
            let a = if m < at { m } else { m + 1 };
            assert(after[m] == names[a]);
            assert(names[a]@ == other);
        }
        if m > target {
            assert(after[target]@ != other);
        }
    } else {
        if m < after.len() {
            let a = if m < at { m } else { m + 1 };
            assert(after[m] == names[a]);
            assert(names[a]@ != other);
        }
    }
}

} // verus!
