//! Insertion-ordered sets of indices, kept in `indexmap`'s `IndexSet`.
use indexmap::IndexSet;
use rustc_hash::FxBuildHasher;
use vstd::prelude::*;

verus! {

#[verifier::external_type_specification]
#[verifier::external_body]
#[verifier::reject_recursive_types(T)]
#[verifier::reject_recursive_types(S)]
pub struct ExIndexSet<T, S>(IndexSet<T, S>);

#[verifier::external_type_specification]
#[verifier::external_body]
pub struct ExFxBuildHasher(FxBuildHasher);

/// The items of a set of indices, in insertion order as `swap_remove` leaves it.
pub uninterp spec fn set_items(s: IndexSet<usize, FxBuildHasher>) -> Seq<usize>;

/// The sequence left by removing the item at position `i` the way `swap_remove`
/// does: the last item takes its place.
pub open spec fn swap_removed(s: Seq<usize>, i: int) -> Seq<usize> {
    s.update(i, s.last()).drop_last()
}

/// `IndexSet::default`: an empty set.
#[verifier::external_body]
pub(crate) fn set_new() -> (s: IndexSet<usize, FxBuildHasher>)
    ensures
        set_items(s) == Seq::<usize>::empty(),
{
    IndexSet::default()
}

/// `IndexSet::insert`: appends `x` unless it is already there, and tells
/// whether it was added.
#[verifier::external_body]
pub(crate) fn set_insert(s: &mut IndexSet<usize, FxBuildHasher>, x: usize) -> (r: bool)
    ensures
        r == !set_items(*old(s)).contains(x),
        set_items(*final(s)) == if r {
            set_items(*old(s)).push(x)
        } else {
            set_items(*old(s))
        },
{
    s.insert(x)
}

/// `IndexSet::swap_remove`: removes `x`, moving the last item to its
/// position, and tells whether it was there.
#[verifier::external_body]
pub(crate) fn set_swap_remove(s: &mut IndexSet<usize, FxBuildHasher>, x: usize) -> (r: bool)
    ensures
        r == set_items(*old(s)).contains(x),
        !r ==> set_items(*final(s)) == set_items(*old(s)),
        r ==> exists|i: int|
            0 <= i < set_items(*old(s)).len() && set_items(*old(s))[i] == x && set_items(*final(s))
                == swap_removed(set_items(*old(s)), i),
{
    s.swap_remove(&x)
}

/// `IndexSet::len`.
#[verifier::external_body]
pub(crate) fn set_len(s: &IndexSet<usize, FxBuildHasher>) -> (r: usize)
    ensures
        r == set_items(*s).len(),
{
    s.len()
}

/// Indexing an `IndexSet` by position.
#[verifier::external_body]
pub(crate) fn set_index(s: &IndexSet<usize, FxBuildHasher>, i: usize) -> (r: usize)
    requires
        i < set_items(*s).len(),
    ensures
        r == set_items(*s)[i as int],
{
    s[i]
}

/// The items of the set, in order, as a vector.
#[verifier::external_body]
pub(crate) fn set_to_vec(s: &IndexSet<usize, FxBuildHasher>) -> (r: Vec<usize>)
    ensures
        r@ == set_items(*s),
{
    s.iter().copied().collect()
}

/// Removing an item the way `swap_remove` does keeps the others, once each.
pub proof fn lemma_swap_removed(s: Seq<usize>, i: int)
    requires
        s.no_duplicates(),
        0 <= i < s.len(),
    ensures
        swap_removed(s, i).no_duplicates(),
        forall|y: usize| #[trigger] swap_removed(s, i).contains(y) <==> (s.contains(y) && y != s[i]),
{
    let r = swap_removed(s, i);
    let n = s.len();
    assert forall|a: int, b: int| 0 <= a < b < r.len() implies r[a] != r[b] by {
        if b == i {
            assert(r[b] == s[n - 1]);
        } else if a == i {
            assert(r[a] == s[n - 1]);
        }
    }
    assert forall|y: usize| #[trigger] r.contains(y) <==> (s.contains(y) && y != s[i]) by {
        if r.contains(y) {
            let j = choose|j: int| 0 <= j < r.len() && r[j] == y;
            if j == i {
                assert(s[n - 1] == y);
            } else {
                assert(s[j] == y);
            }
        }
        if s.contains(y) && y != s[i] {
            let j = choose|j: int| 0 <= j < s.len() && s[j] == y;
            if j == n - 1 {
                assert(r[i] == y);
            } else {
                assert(r[j] == y);
            }
        }
    }
}

/// Appending an item that is not there keeps every item once.
pub proof fn lemma_push_fresh(s: Seq<usize>, x: usize)
    requires
        s.no_duplicates(),
        !s.contains(x),
    ensures
        s.push(x).no_duplicates(),
        forall|y: usize| #[trigger] s.push(x).contains(y) <==> (s.contains(y) || y == x),
{
    let r = s.push(x);
    assert forall|a: int, b: int| 0 <= a < b < r.len() implies r[a] != r[b] by {
        if b == s.len() {
            assert(r[a] == s[a]);
        }
    }
    assert forall|y: usize| #[trigger] r.contains(y) <==> (s.contains(y) || y == x) by {
        if r.contains(y) {
            let j = choose|j: int| 0 <= j < r.len() && r[j] == y;
            if j < s.len() {
                assert(s[j] == y);
            }
        }
        if s.contains(y) {
            let j = choose|j: int| 0 <= j < s.len() && s[j] == y;
            assert(r[j] == y);
        }
        if y == x {
            assert(r[s.len() as int] == x);
        }
    }
}

/// Removes `x` from a set that holds its items once.
pub fn remove_from(s: &mut IndexSet<usize, FxBuildHasher>, x: usize)
    requires
        set_items(*old(s)).no_duplicates(),
    ensures
        set_items(*final(s)).no_duplicates(),
        forall|y: usize|
            #[trigger] set_items(*final(s)).contains(y) <==> (set_items(*old(s)).contains(y) && y != x),
        set_items(*final(s)).len() == if set_items(*old(s)).contains(x) {
            set_items(*old(s)).len() - 1
        } else {
            set_items(*old(s)).len() as int
        },
{
    let ghost s0 = set_items(*s);
    let removed = set_swap_remove(s, x);
    proof {
        if removed {
            let i = choose|i: int|
                0 <= i < s0.len() && s0[i] == x && set_items(*s) == swap_removed(s0, i);
            lemma_swap_removed(s0, i);
        }
    }
}

/// Adds `x`, which is not there, to a set that holds its items once.
pub fn add_to(s: &mut IndexSet<usize, FxBuildHasher>, x: usize)
    requires
        set_items(*old(s)).no_duplicates(),
        !set_items(*old(s)).contains(x),
    ensures
        set_items(*final(s)).no_duplicates(),
        forall|y: usize|
            #[trigger] set_items(*final(s)).contains(y) <==> (set_items(*old(s)).contains(y) || y == x),
{
    let ghost s0 = set_items(*s);
    set_insert(s, x);
    proof {
        lemma_push_fresh(s0, x);
    }
}

/// Adds `x` to a set that holds its items once, unless it is there.
pub fn insert_into(s: &mut IndexSet<usize, FxBuildHasher>, x: usize)
    requires
        set_items(*old(s)).no_duplicates(),
    ensures
        set_items(*final(s)).no_duplicates(),
        forall|y: usize|
            #[trigger] set_items(*final(s)).contains(y) <==> (set_items(*old(s)).contains(y) || y == x),
{
    let ghost s0 = set_items(*s);
    let added = set_insert(s, x);
    proof {
        if added {
            lemma_push_fresh(s0, x);
        }
    }
}

} // verus!
