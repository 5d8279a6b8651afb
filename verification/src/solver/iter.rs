//! Mapping items to decisions that keep, drop or cut them.
use vstd::prelude::*;

verus! {

/// What becomes of an item: kept as the value, removed, or turned into a
/// break mark.
pub enum Simplify<T> {
    Keep(T),
    Remove,
    Break,
}

/// What the decisions leave: the kept values, and `None` for each break.
pub open spec fn outcomes<U>(ds: Seq<Simplify<U>>) -> Seq<Option<U>>
    decreases ds.len(),
{
    if ds.len() == 0 {
        Seq::empty()
    } else {
        let init = outcomes(ds.drop_last());
        match ds.last() {
            Simplify::Keep(x) => init.push(Some(x)),
            Simplify::Remove => init,
            Simplify::Break => init.push(None),
        }
    }
}

/// Decisions on the items of a sequence.
pub trait IteratorExt<T>: Sized {
    /// The items, in order.
    spec fn items(&self) -> Seq<T>;

    /// Applies `f` to every item and keeps what it decides; `g` is told the
    /// position of every removed item (what a call of `g` ensures holds of
    /// each of those positions).
    fn simplify_with<U, G: Fn(usize), F: Fn(T) -> Simplify<U>>(self, g: G, f: F) -> (r: Vec<Option<U>>)
        requires
            forall|x: T| call_requires(f, (x,)),
            forall|i: usize| call_requires(g, (i,)),
        ensures
            exists|ds: Seq<Simplify<U>>|
                ds.len() == self.items().len() && (forall|k: int|
                    0 <= k < ds.len() ==> call_ensures(f, (self.items()[k],), #[trigger] ds[k]))
                    && r@ == outcomes(ds) && (forall|k: int|
                    0 <= k < ds.len() && #[trigger] ds[k] is Remove ==> call_ensures(g, (k as usize,), ())),
    ;

    /// Applies `f` to every item and keeps what it decides.
    fn simplify<U, F: Fn(T) -> Simplify<U>>(self, f: F) -> (r: Vec<Option<U>>)
        requires
            forall|x: T| call_requires(f, (x,)),
        ensures
            exists|ds: Seq<Simplify<U>>|
                ds.len() == self.items().len() && (forall|k: int|
                    0 <= k < ds.len() ==> call_ensures(f, (self.items()[k],), #[trigger] ds[k]))
                    && r@ == outcomes(ds),
    ;
}

fn ignore_position(_i: usize) {
}

impl<T> IteratorExt<T> for Vec<T> {
    open spec fn items(&self) -> Seq<T> {
        self@
    }

    fn simplify_with<U, G: Fn(usize), F: Fn(T) -> Simplify<U>>(self, g: G, f: F) -> (r: Vec<Option<U>>) {
        let ghost items = self@;
        let n = self.len();
        let mut v = self;
        let mut rest: Vec<T> = Vec::new();
        while v.len() > 0
            invariant
                v@ + rest@.reverse() == items,
            decreases v@.len(),
        {
            let ghost before = v@;
            let x = v.pop().unwrap();
            proof {
                assert(v@ + rest@.push(x).reverse() =~= before + rest@.reverse());
            }
            rest.push(x);
        }
        proof {
            assert(rest@.reverse() =~= items);
        }
        let ghost mut ds: Seq<Simplify<U>> = Seq::empty();
        let mut out: Vec<Option<U>> = Vec::new();
        let mut i: usize = 0;
        proof {
            assert(out@ =~= outcomes(ds));
        }
        while rest.len() > 0
            invariant
                n == items.len(),
                rest@.len() + i == items.len(),
                rest@.reverse() == items.skip(i as int),
                ds.len() == i,
                forall|k: int| 0 <= k < ds.len() ==> call_ensures(f, (items[k],), #[trigger] ds[k]),
                forall|k: int| 0 <= k < ds.len() && #[trigger] ds[k] is Remove ==> call_ensures(g, (k as usize,), ()),
                out@ == outcomes(ds),
                forall|x: T| call_requires(f, (x,)),
                forall|i: usize| call_requires(g, (i,)),
            decreases rest@.len(),
        {
            let ghost before = rest@;
            let x = rest.pop().unwrap();
            proof {
                assert(before.reverse()[0] == x);
                assert(items[i as int] == x) by {
                    assert(items.skip(i as int)[0] == items[i as int]);
                }
                assert(rest@.reverse() =~= items.skip(i + 1)) by {
                    assert forall|k: int| 0 <= k < rest@.len() implies rest@.reverse()[k] == items.skip(
                        i + 1,
                    )[k] by {
                        assert(rest@.reverse()[k] == before.reverse()[k + 1]);
                        assert(items.skip(i as int)[k + 1] == items.skip(i + 1)[k]);
                    }
                }
            }
            let d = f(x);
            let ghost ds0 = ds;
            let ghost dv = d;
            proof {
                ds = ds.push(dv);
                assert(ds.drop_last() =~= ds0);
                assert forall|k: int| 0 <= k < ds.len() implies call_ensures(f, (items[k],), #[trigger] ds[k]) by {
                    if k < ds0.len() {
                        assert(ds[k] == ds0[k]);
                    }
                }
                assert forall|k: int| 0 <= k < ds0.len() implies ds[k] == ds0[k] by {}
            }
            match d {
                Simplify::Keep(y) => {
                    out.push(Some(y));
                },
                Simplify::Remove => {
                    g(i);
                    proof {
                        assert(call_ensures(g, ((i as int) as usize,), ()));
                    }
                },
                Simplify::Break => {
                    out.push(None);
                },
            }
            i = i + 1;
        }
        proof {
            assert(ds.len() == items.len());
        }
        out
    }

    fn simplify<U, F: Fn(T) -> Simplify<U>>(self, f: F) -> (r: Vec<Option<U>>) {
        self.simplify_with(ignore_position, f)
    }
}

} // verus!
