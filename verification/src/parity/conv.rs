//! Conversion of parity games into systems of fixpoint equations.
use std::collections::HashMap;

use vstd::prelude::*;

use crate::parity::{node_view, nodes_view, Node, NodeV, ParityGame};
use crate::solver::strategy::Player;
use crate::solver::symbolic::compose::{composable, expr_below, FunsFormulas};
use crate::solver::symbolic::eq::{
    eqs_view, expr_view, expr_views, lemma_expr_views_push, Expr, ExprV, FixEq, FixType, VarId,
};
use crate::solver::symbolic::formula::{formula_table_view, Formula, FormulaV};

verus! {

/// The position at which a node of relevance `r` enters the order `o`:
/// after every node of relevance at most `r` at its start.
pub open spec fn insert_pos(o: Seq<int>, rels: Seq<usize>, r: usize) -> int
    decreases o.len(),
{
    if o.len() == 0 || rels[o[0]] > r {
        0
    } else {
        1 + insert_pos(o.drop_first(), rels, r)
    }
}

/// The positions of the nodes ordered by relevance, those of equal
/// relevance in the order in which they are given.
pub open spec fn sort_order(rels: Seq<usize>) -> Seq<int>
    decreases rels.len(),
{
    if rels.len() == 0 {
        Seq::empty()
    } else {
        let o = sort_order(rels.drop_last());
        o.insert(insert_pos(o, rels, rels.last()), rels.len() - 1)
    }
}

/// Each identifier mapped to the last position at which it stands.
pub open spec fn id_map(ids: Seq<usize>) -> Map<usize, VarId>
    decreases ids.len(),
{
    if ids.len() == 0 {
        Map::empty()
    } else {
        id_map(ids.drop_last()).insert(ids.last(), VarId((ids.len() - 1) as usize))
    }
}

/// The equation of a node: a greatest fixpoint for an even relevance, a
/// least one for an odd relevance; some successor (player 0) or every
/// successor (player 1) wins.
pub open spec fn parity_eq(n: NodeV, m: Map<usize, VarId>) -> (FixType, ExprV) {
    let children = n.successors.map_values(|s: usize| ExprV::Var(m[s].0));
    (
        if n.relevance % 2 == 0 {
            FixType::Max
        } else {
            FixType::Min
        },
        match n.player {
            Player::P0 => ExprV::Or(children),
            Player::P1 => ExprV::And(children),
        },
    )
}

/// The nodes in the order of their equations.
pub open spec fn sorted_nodes(nodes: Seq<NodeV>) -> Seq<NodeV> {
    sort_order(nodes.map_values(|n: NodeV| n.relevance)).map_values(|k: int| nodes[k])
}

/// The equations of a parity game, one per node ordered by relevance, and
/// the equation of each node identifier.
pub open spec fn spec_parity_game_to_fix(nodes: Seq<NodeV>) -> (Seq<(FixType, ExprV)>, Map<usize, VarId>) {
    let sorted = sorted_nodes(nodes);
    let m = id_map(sorted.map_values(|n: NodeV| n.id));
    (sorted.map_values(|n: NodeV| parity_eq(n, m)), m)
}

/// Every successor of a node is the identifier of a node.
pub open spec fn successors_known(nodes: Seq<NodeV>) -> bool {
    forall|i: int, j: int|
        0 <= i < nodes.len() && 0 <= j < nodes[i].successors.len() ==> exists|k: int|
            0 <= k < nodes.len() && nodes[k].id == #[trigger] nodes[i].successors[j]
}

proof fn lemma_insert_pos(o: Seq<int>, rels: Seq<usize>, r: usize, p: int)
    requires
        0 <= p <= o.len(),
        forall|q: int| 0 <= q < p ==> rels[#[trigger] o[q]] <= r,
        p < o.len() ==> rels[o[p]] > r,
    ensures
        insert_pos(o, rels, r) == p,
    decreases p,
{
    if p > 0 {
        assert forall|q: int| 0 <= q < p - 1 implies rels[#[trigger] o.drop_first()[q]] <= r by {
            assert(o.drop_first()[q] == o[q + 1]);
        }
        assert(rels[o[0]] <= r);
        lemma_insert_pos(o.drop_first(), rels, r, p - 1);
    }
}

proof fn lemma_sort_order_range(rels: Seq<usize>)
    ensures
        sort_order(rels).len() == rels.len(),
        forall|q: int| 0 <= q < rels.len() ==> 0 <= #[trigger] sort_order(rels)[q] < rels.len(),
    decreases rels.len(),
{
    if rels.len() > 0 {
        let o = sort_order(rels.drop_last());
        lemma_sort_order_range(rels.drop_last());
        lemma_insert_pos_range(o, rels, rels.last());
        let p = insert_pos(o, rels, rels.last());
        assert forall|q: int| 0 <= q < rels.len() implies 0 <= #[trigger] sort_order(rels)[q] < rels.len() by {
            if q < p {
                assert(sort_order(rels)[q] == o[q]);
            } else if q > p {
                assert(sort_order(rels)[q] == o[q - 1]);
            }
        }
    }
}

proof fn lemma_insert_pos_range(o: Seq<int>, rels: Seq<usize>, r: usize)
    ensures
        0 <= insert_pos(o, rels, r) <= o.len(),
    decreases o.len(),
{
    if o.len() > 0 && rels[o[0]] <= r {
        lemma_insert_pos_range(o.drop_first(), rels, r);
    }
}


/// The positions of the nodes ordered by relevance, stably.
fn sort_by_relevance(nodes: &Vec<Node>) -> (order: Vec<usize>)
    ensures
        order@.map_values(|k: usize| k as int) == sort_order(
            nodes_view(nodes@).map_values(|n: NodeV| n.relevance),
        ),
{
    let ghost rels = nodes_view(nodes@).map_values(|n: NodeV| n.relevance);
    let mut order: Vec<usize> = Vec::new();
    let mut i: usize = 0;
    proof {
        assert(rels.take(0) =~= Seq::<usize>::empty());
        assert(order@.map_values(|k: usize| k as int) =~= Seq::<int>::empty());
    }
    while i < nodes.len()
        invariant
            i <= nodes@.len(),
            rels == nodes_view(nodes@).map_values(|n: NodeV| n.relevance),
            rels.len() == nodes@.len(),
            order@.map_values(|k: usize| k as int) == sort_order(rels.take(i as int)),
        decreases nodes@.len() - i,
    {
        let ghost o = sort_order(rels.take(i as int));
        proof {
            lemma_sort_order_range(rels.take(i as int));
        }
        let r = nodes[i].relevance;
        proof {
            assert(rels[i as int] == r);
            assert forall|q: int| 0 <= q < i implies #[trigger] order@[q] < i by {
                assert(o[q] == order@[q] as int);
            }
        }
        let mut p: usize = 0;
        while p < order.len() && nodes[order[p]].relevance <= r
            invariant
                p <= order@.len(),
                order@.len() == i,
                o == order@.map_values(|k: usize| k as int),
                forall|q: int| 0 <= q < i ==> 0 <= #[trigger] o[q] < i,
                forall|q: int| 0 <= q < i ==> #[trigger] order@[q] < i,
                i < nodes@.len(),
                rels == nodes_view(nodes@).map_values(|n: NodeV| n.relevance),
                rels.len() == nodes@.len(),
                forall|q: int| 0 <= q < p ==> rels[#[trigger] o[q]] <= r,
            decreases order@.len() - p,
        {
            proof {
                assert(o[p as int] == order@[p as int] as int);
                assert(rels[o[p as int]] == nodes@[order@[p as int] as int].relevance);
            }
            p = p + 1;
        }
        proof {
            let rt = rels.take(i + 1);
            assert forall|q: int| 0 <= q < p implies rt[#[trigger] o[q]] <= r by {
                assert(rt[o[q]] == rels[o[q]]);
            }
            if p < order@.len() {
                assert(o[p as int] == order@[p as int] as int);
                assert(rt[o[p as int]] == rels[o[p as int]]);
                assert(rels[o[p as int]] == nodes@[order@[p as int] as int].relevance);
            }
            lemma_insert_pos(o, rt, r, p as int);
            assert(rt.drop_last() =~= rels.take(i as int));
            assert(rt.last() == r);
        }
        order.insert(p, i);
        proof {
            assert(order@.map_values(|k: usize| k as int) =~= o.insert(p as int, i as int));
        }
        i = i + 1;
    }
    proof {
        assert(rels.take(i as int) =~= rels);
    }
    order
}


proof fn lemma_sort_order_complete(rels: Seq<usize>, x: int)
    requires
        0 <= x < rels.len(),
    ensures
        sort_order(rels).contains(x),
    decreases rels.len(),
{
    let o = sort_order(rels.drop_last());
    lemma_insert_pos_range(o, rels, rels.last());
    let p = insert_pos(o, rels, rels.last());
    let r = o.insert(p, rels.len() - 1);
    if x == rels.len() - 1 {
        assert(r[p] == x);
    } else {
        lemma_sort_order_complete(rels.drop_last(), x);
        let q = choose|q: int| 0 <= q < o.len() && o[q] == x;
        if q < p {
            assert(r[q] == x);
        } else {
            assert(r[q + 1] == x);
        }
    }
}

proof fn lemma_id_map_dom(ids: Seq<usize>, k: int)
    requires
        0 <= k < ids.len(),
    ensures
        id_map(ids).contains_key(ids[k]),
    decreases ids.len(),
{
    if k < ids.len() - 1 {
        lemma_id_map_dom(ids.drop_last(), k);
    }
}

/// The equation of a node, given the equation of each node identifier.
fn node_eq(n: &Node, map: &HashMap<usize, VarId>) -> (r: FixEq)
    requires
        forall|j: int| 0 <= j < n.successors@.len() ==> map@.contains_key(#[trigger] n.successors@[j]),
    ensures
        (r.fix_type, expr_view(r.expr)) == parity_eq(node_view(*n), map@),
{
    broadcast use vstd::std_specs::hash::group_hash_axioms;

    let fix_type = if n.relevance % 2 == 0 {
        FixType::Max
    } else {
        FixType::Min
    };
    let ghost want = n.successors@.map_values(|s: usize| ExprV::Var(map@[s].0));
    let mut children: Vec<Expr> = Vec::new();
    let mut j: usize = 0;
    proof {
        assert(expr_views(children@) =~= want.take(0));
    }
    while j < n.successors.len()
        invariant
            j <= n.successors@.len(),
            want == n.successors@.map_values(|s: usize| ExprV::Var(map@[s].0)),
            forall|j: int| 0 <= j < n.successors@.len() ==> map@.contains_key(#[trigger] n.successors@[j]),
            expr_views(children@) == want.take(j as int),
        decreases n.successors@.len() - j,
    {
        let succ = n.successors[j];
        proof {
            assert(map@.contains_key(n.successors@[j as int]));
        }
        let v = match map.get(&succ) {
            Some(v) => *v,
            None => VarId(0),
        };
        let e = Expr::Var(v);
        proof {
            lemma_expr_views_push(children@, e);
            assert(want.take(j + 1) =~= want.take(j as int).push(want[j as int]));
        }
        children.push(e);
        j = j + 1;
    }
    proof {
        assert(want.take(j as int) =~= want);
    }
    let expr = match n.player {
        Player::P0 => Expr::Or(children),
        Player::P1 => Expr::And(children),
    };
    FixEq { fix_type, expr }
}

/// Turns a parity game into fixpoint equations: one per node, ordered by
/// relevance (stably), so that more relevant nodes come later; it also gives
/// the equation of each node identifier. No function symbol is used.
pub fn parity_game_to_fix(pg: &ParityGame) -> (r: (Vec<FixEq>, FunsFormulas, HashMap<usize, VarId>))
    requires
        successors_known(nodes_view(pg.nodes@)),
    ensures
        eqs_view(r.0@) == spec_parity_game_to_fix(nodes_view(pg.nodes@)).0,
        r.1.well_formed(),
        r.1.table() == Seq::<Seq<FormulaV>>::empty(),
        r.2@ == spec_parity_game_to_fix(nodes_view(pg.nodes@)).1,
{
    broadcast use vstd::std_specs::hash::group_hash_axioms;

    let ghost nv = nodes_view(pg.nodes@);
    let ghost rels = nv.map_values(|n: NodeV| n.relevance);
    let order = sort_by_relevance(&pg.nodes);
    let ghost ord = order@.map_values(|k: usize| k as int);
    let ghost sorted = sorted_nodes(nv);
    let ghost ids = sorted.map_values(|n: NodeV| n.id);
    proof {
        lemma_sort_order_range(rels);
        assert forall|k: int| 0 <= k < order@.len() implies #[trigger] order@[k] < pg.nodes@.len() by {
            assert(ord[k] == order@[k] as int);
        }
    }
    let mut map: HashMap<usize, VarId> = HashMap::new();
    let mut k: usize = 0;
    proof {
        assert(ids.take(0) =~= Seq::<usize>::empty());
        assert(map@ =~= id_map(ids.take(0)));
    }
    while k < order.len()
        invariant
            k <= order@.len(),
            order@.len() == pg.nodes@.len(),
            forall|k: int| 0 <= k < order@.len() ==> #[trigger] order@[k] < pg.nodes@.len(),
            ord == order@.map_values(|k: usize| k as int),
            ord == sort_order(rels),
            nv == nodes_view(pg.nodes@),
            rels == nv.map_values(|n: NodeV| n.relevance),
            sorted == sorted_nodes(nv),
            ids == sorted.map_values(|n: NodeV| n.id),
            map@ == id_map(ids.take(k as int)),
        decreases order@.len() - k,
    {
        let id = pg.nodes[order[k]].id;
        proof {
            assert(ids[k as int] == id);
            assert(ids.take(k + 1).drop_last() =~= ids.take(k as int));
        }
        map.insert(id, VarId(k));
        k = k + 1;
    }
    proof {
        assert(ids.take(k as int) =~= ids);
    }
    let ghost m = map@;
    let ghost want = sorted.map_values(|n: NodeV| parity_eq(n, m));
    let mut eqs: Vec<FixEq> = Vec::new();
    let mut k: usize = 0;
    proof {
        assert(eqs_view(eqs@) =~= want.take(0));
    }
    while k < order.len()
        invariant
            k <= order@.len(),
            order@.len() == pg.nodes@.len(),
            forall|k: int| 0 <= k < order@.len() ==> #[trigger] order@[k] < pg.nodes@.len(),
            ord == order@.map_values(|k: usize| k as int),
            ord == sort_order(rels),
            nv == nodes_view(pg.nodes@),
            rels == nv.map_values(|n: NodeV| n.relevance),
            sorted == sorted_nodes(nv),
            ids == sorted.map_values(|n: NodeV| n.id),
            m == id_map(ids),
            map@ == m,
            successors_known(nv),
            want == sorted.map_values(|n: NodeV| parity_eq(n, m)),
            eqs_view(eqs@) == want.take(k as int),
        decreases order@.len() - k,
    {
        let n = &pg.nodes[order[k]];
        proof {
            let i = order@[k as int] as int;
            assert(nv[i] == node_view(*n));
            assert(sorted[k as int] == nv[i]);
            assert forall|j: int| 0 <= j < n.successors@.len() implies map@.contains_key(
                #[trigger] n.successors@[j],
            ) by {
                assert(nv[i].successors[j] == n.successors@[j]);
                let x = choose|x: int| 0 <= x < nv.len() && nv[x].id == nv[i].successors[j];
                lemma_sort_order_complete(rels, x);
                let q = choose|q: int| 0 <= q < ord.len() && ord[q] == x;
                assert(ids[q] == nv[x].id);
                lemma_id_map_dom(ids, q);
            }
        }
        let q = node_eq(n, &map);
        let ghost before = eqs@;
        eqs.push(q);
        proof {
            assert(eqs_view(eqs@) =~= eqs_view(before).push((q.fix_type, expr_view(q.expr))));
            assert(want.take(k + 1) =~= want.take(k as int).push(want[k as int]));
        }
        k = k + 1;
    }
    proof {
        assert(want.take(k as int) =~= want);
    }
    let table: Vec<Vec<Formula>> = Vec::new();
    proof {
        assert(formula_table_view(table@) =~= Seq::<Seq<FormulaV>>::empty());
    }
    (eqs, FunsFormulas::new(table), map)
}


proof fn lemma_insert_pos_props(o: Seq<int>, rels: Seq<usize>, r: usize)
    ensures
        0 <= insert_pos(o, rels, r) <= o.len(),
        forall|q: int| 0 <= q < insert_pos(o, rels, r) ==> rels[#[trigger] o[q]] <= r,
        insert_pos(o, rels, r) < o.len() ==> rels[o[insert_pos(o, rels, r)]] > r,
    decreases o.len(),
{
    if o.len() > 0 && rels[o[0]] <= r {
        let t = o.drop_first();
        lemma_insert_pos_props(t, rels, r);
        assert forall|q: int| 0 <= q < insert_pos(o, rels, r) implies rels[#[trigger] o[q]] <= r by {
            if q > 0 {
                assert(o[q] == t[q - 1]);
            }
        }
        if insert_pos(o, rels, r) < o.len() {
            assert(o[insert_pos(o, rels, r)] == t[insert_pos(t, rels, r)]);
        }
    }
}

proof fn lemma_sort_order_sorted(rels: Seq<usize>)
    ensures
        forall|a: int, b: int|
            0 <= a < b < sort_order(rels).len() ==> rels[#[trigger] sort_order(rels)[a]]
                <= rels[#[trigger] sort_order(rels)[b]],
    decreases rels.len(),
{
    if rels.len() > 0 {
        let d = rels.drop_last();
        let o = sort_order(d);
        let r = rels.last();
        lemma_sort_order_sorted(d);
        lemma_sort_order_range(d);
        lemma_insert_pos_props(o, rels, r);
        let p = insert_pos(o, rels, r);
        let n = o.insert(p, rels.len() - 1);
        assert forall|q: int| 0 <= q < o.len() implies rels[#[trigger] o[q]] == d[o[q]] by {}
        assert forall|a: int, b: int| 0 <= a < b < n.len() implies rels[#[trigger] n[a]] <= rels[#[trigger] n[b]] by {
            if b < p {
                assert(n[a] == o[a] && n[b] == o[b]);
                assert(d[o[a]] <= d[o[b]]);
            } else if b == p {
                assert(n[a] == o[a]);
            } else if a < p {
                assert(n[a] == o[a] && n[b] == o[b - 1]);
                assert(d[o[a]] <= d[o[b - 1]]);
            } else if a == p {
                assert(n[b] == o[b - 1]);
                if b - 1 > p {
                    assert(d[o[p]] <= d[o[b - 1]]);
                }
            } else {
                assert(n[a] == o[a - 1] && n[b] == o[b - 1]);
                assert(d[o[a - 1]] <= d[o[b - 1]]);
            }
        }
    }
}

/// The equations of a parity game come in the order of the relevances of
/// their nodes: a more relevant node never comes before a less relevant one.
pub proof fn parity_equations_by_relevance(nodes: Seq<NodeV>, a: int, b: int)
    requires
        0 <= a < b < nodes.len(),
    ensures
        sorted_nodes(nodes).len() == nodes.len(),
        sorted_nodes(nodes)[a].relevance <= sorted_nodes(nodes)[b].relevance,
{
    let rels = nodes.map_values(|n: NodeV| n.relevance);
    let o = sort_order(rels);
    lemma_sort_order_range(rels);
    lemma_sort_order_sorted(rels);
    assert(rels[o[a]] <= rels[o[b]]);
}

proof fn lemma_id_map_range(ids: Seq<usize>, x: usize)
    requires
        id_map(ids).contains_key(x),
    ensures
        id_map(ids)[x].0 < ids.len(),
    decreases ids.len(),
{
    if ids.len() > 0 && x != ids.last() {
        lemma_id_map_range(ids.drop_last(), x);
    }
}

/// The equations of a parity game in which every successor is a node use
/// no function symbol and only variables of the system: they can be
/// composed at every basis element.
pub proof fn parity_equations_composable(nodes: Seq<NodeV>)
    requires
        successors_known(nodes),
    ensures
        spec_parity_game_to_fix(nodes).0.len() == nodes.len(),
        forall|i: int|
            0 <= i < nodes.len() ==> composable(
                #[trigger] spec_parity_game_to_fix(nodes).0[i].1,
                Seq::<Seq<FormulaV>>::empty(),
            ) && expr_below(spec_parity_game_to_fix(nodes).0[i].1, nodes.len()),
{
    let rels = nodes.map_values(|n: NodeV| n.relevance);
    let o = sort_order(rels);
    lemma_sort_order_range(rels);
    let sorted = sorted_nodes(nodes);
    let ids = sorted.map_values(|n: NodeV| n.id);
    let m = id_map(ids);
    let eqs = spec_parity_game_to_fix(nodes).0;
    assert forall|i: int| 0 <= i < nodes.len() implies composable(
        #[trigger] eqs[i].1,
        Seq::<Seq<FormulaV>>::empty(),
    ) && expr_below(eqs[i].1, nodes.len()) by {
        let node = sorted[i];
        assert(node == nodes[o[i]]);
        let children = node.successors.map_values(|s: usize| ExprV::Var(m[s].0));
        assert(eqs[i] == parity_eq(node, m));
        assert forall|k: int| 0 <= k < children.len() implies expr_below(
            #[trigger] children[k],
            nodes.len(),
        ) && composable(children[k], Seq::<Seq<FormulaV>>::empty()) by {
            let s = node.successors[k];
            assert(nodes[o[i]].successors[k] == s);
            let w = choose|w: int| 0 <= w < nodes.len() && nodes[w].id == s;
            lemma_sort_order_complete(rels, w);
            let q = choose|q: int| 0 <= q < o.len() && o[q] == w;
            assert(ids[q] == s);
            lemma_id_map_dom(ids, q);
            lemma_id_map_range(ids, s);
            assert(children[k] == ExprV::Var(m[s].0));
        }
    }
}

} // verus!
