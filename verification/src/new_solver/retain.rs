//! Filtering a vector in place with a decision per item.
use vstd::prelude::*;

verus! {

/// What to do with an item: keep it, remove it, or remove it and every item
/// after it.
#[derive(Clone, Copy, Debug, PartialEq, Eq, Structural)]
pub enum Simplify {
    Keep,
    Remove,
    Clear,
}

/// The number of items kept by the decisions.
pub open spec fn keep_count(ds: Seq<Simplify>) -> nat
    decreases ds.len(),
{
    if ds.len() == 0 {
        0
    } else {
        keep_count(ds.drop_last()) + if ds.last() == Simplify::Keep {
            1nat
        } else {
            0nat
        }
    }
}

/// The items kept by the decisions, in order.
pub open spec fn kept<T>(items: Seq<T>, ds: Seq<Simplify>) -> Seq<T>
    decreases ds.len(),
{
    if ds.len() == 0 {
        Seq::empty()
    } else {
        let init = kept(items, ds.drop_last());
        if ds.last() == Simplify::Keep {
            init.push(items[ds.len() - 1])
        } else {
            init
        }
    }
}

/// `ds` are the decisions that `f` may take on the items, in order: each
/// is asked with the item's position and the number of items kept before
/// it, and none is asked after the first `Clear`.
pub open spec fn decided<T, F: Fn(usize, usize, &T) -> Simplify>(f: F, items: Seq<T>, ds: Seq<Simplify>) -> bool {
    &&& ds.len() <= items.len()
    &&& ds.len() < items.len() ==> ds.len() > 0 && ds.last() == Simplify::Clear
    &&& forall|k: int| 0 <= k < ds.len() - 1 ==> ds[k] != Simplify::Clear
    &&& forall|k: int|
        0 <= k < ds.len() ==> call_ensures(
            f,
            (k as usize, keep_count(ds.take(k)) as usize, &items[k]),
            #[trigger] ds[k],
        )
}

proof fn lemma_decided_push<T, F: Fn(usize, usize, &T) -> Simplify>(
    f: F,
    items: Seq<T>,
    ds: Seq<Simplify>,
    d: Simplify,
)
    requires
        ds.len() < items.len(),
        forall|k: int|
            0 <= k < ds.len() ==> call_ensures(
                f,
                (k as usize, keep_count(ds.take(k)) as usize, &items[k]),
                #[trigger] ds[k],
            ),
        call_ensures(f, (ds.len() as usize, keep_count(ds) as usize, &items[ds.len() as int]), d),
    ensures
        forall|k: int|
            0 <= k < ds.push(d).len() ==> call_ensures(
                f,
                (k as usize, keep_count(ds.push(d).take(k)) as usize, &items[k]),
                #[trigger] ds.push(d)[k],
            ),
        keep_count(ds.push(d)) == keep_count(ds) + if d == Simplify::Keep {
            1nat
        } else {
            0nat
        },
        kept(items, ds.push(d)) == if d == Simplify::Keep {
            kept(items, ds).push(items[ds.len() as int])
        } else {
            kept(items, ds)
        },
{
    let e = ds.push(d);
    assert(e.drop_last() =~= ds);
    assert(e.take(ds.len() as int) =~= ds);
    assert forall|k: int|
        0 <= k < e.len() implies call_ensures(
        f,
        (k as usize, keep_count(e.take(k)) as usize, &items[k]),
        #[trigger] e[k],
    ) by {
        if k < ds.len() {
            assert(e.take(k) =~= ds.take(k));
            assert(e[k] == ds[k]);
        }
    }
}

/// Keeps the items for which `f` decides so, in order, until it decides to
/// clear the rest. `f` is given the position of the item and the number of
/// items kept so far. Tells whether the rest was cleared.
#[verifier::rlimit(40)]
pub fn simplify<T, F: Fn(usize, usize, &T) -> Simplify>(v: &mut Vec<T>, f: F) -> (cleared: bool)
    requires
        forall|i: usize, j: usize, x: T| call_requires(f, (i, j, &x)),
    ensures
        exists|ds: Seq<Simplify>|
            decided(f, old(v)@, ds) && final(v)@ == kept(old(v)@, ds) && cleared == (ds.len() > 0
                && ds.last() == Simplify::Clear),
{
    let ghost items = v@;
    let n = v.len();
    let mut rest: Vec<T> = Vec::new();
    while v.len() > 0
        invariant
            v@ + rest@.reverse() == items,
        decreases v@.len(),
    {
        let ghost before = v@;
        let x = v.pop().unwrap();
        proof {
            assert(v@ + rest@.push(x).reverse() =~= before + rest@.reverse());
        }
        rest.push(x);
    }
    proof {
        assert(rest@.reverse() =~= items);
    }
    let ghost mut ds: Seq<Simplify> = Seq::empty();
    let mut old_i: usize = 0;
    let mut new_i: usize = 0;
    let mut clear = false;
    proof {
        assert(v@ =~= kept(items, ds));
    }
    while rest.len() > 0
        invariant
            n == items.len(),
            rest@.len() + old_i == items.len(),
            rest@.reverse() == items.skip(old_i as int),
            !clear ==> ds.len() == old_i,
            clear ==> ds.len() <= old_i && ds.len() > 0 && ds.last() == Simplify::Clear,
            forall|k: int| 0 <= k < ds.len() - 1 ==> ds[k] != Simplify::Clear,
            !clear ==> forall|k: int| 0 <= k < ds.len() ==> ds[k] != Simplify::Clear,
            forall|k: int|
                0 <= k < ds.len() ==> call_ensures(
                    f,
                    (k as usize, keep_count(ds.take(k)) as usize, &items[k]),
                    #[trigger] ds[k],
                ),
            new_i == keep_count(ds),
            new_i <= old_i,
            v@ == kept(items, ds),
            forall|i: usize, j: usize, x: T| call_requires(f, (i, j, &x)),
        decreases rest@.len(),
    {
        let ghost before = rest@;
        let x = rest.pop().unwrap();
        proof {
            assert(before.reverse()[0] == x);
            assert(items[old_i as int] == x) by {
                assert(items.skip(old_i as int)[0] == items[old_i as int]);
            }
            assert(rest@.reverse() =~= items.skip(old_i + 1)) by {
                assert forall|k: int| 0 <= k < rest@.len() implies rest@.reverse()[k] == items.skip(
                    old_i + 1,
                )[k] by {
                    assert(rest@.reverse()[k] == before.reverse()[k + 1]);
                    assert(items.skip(old_i as int)[k + 1] == items.skip(old_i + 1)[k]);
                }
            }
        }
        if !clear {
            let d = f(old_i, new_i, &x);
            proof {
                let ds0 = ds;
                ds = ds.push(d);
                lemma_decided_push(f, items, ds0, d);
            }
            match d {
                Simplify::Keep => {
                    v.push(x);
                    new_i = new_i + 1;
                },
                Simplify::Remove => {},
                Simplify::Clear => {
                    clear = true;
                },
            }
        }
        old_i = old_i + 1;
    }
    proof {
        if !clear {
            assert(ds.len() == items.len());
        }
    }
    clear
}

} // verus!
