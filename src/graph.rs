use std::collections::{HashMap, HashSet};
use vstd::prelude::*;

use crate::bad::BadSunk;
use crate::map::ReadSunk;
use crate::table::{lemma_perm_contains, lex4_le, sort_keys, sorted4, Key4};

verus! {

broadcast use {vstd::std_specs::hash::group_hash_axioms, vstd::seq_lib::group_to_multiset_ensures};

/// An undirected edge between node indices, with its weight.
pub type IxEdge = (usize, usize, i128);

/// An undirected edge between two SUNK ids, with its weight.
pub type Edge = (u64, u64, i128);

pub open spec fn ix_adj(edges: Seq<IxEdge>, u: usize, v: usize) -> bool {
    exists|e: int|
        0 <= e < edges.len() && ((#[trigger] edges[e].0 == u && edges[e].1 == v) || (edges[e].0 == v
            && edges[e].1 == u))
}

pub open spec fn ix_path(edges: Seq<IxEdge>, p: Seq<usize>) -> bool {
    p.len() >= 1 && forall|i: int| 0 <= i < p.len() - 1 ==> #[trigger] ix_adj(edges, p[i], p[i + 1])
}

/// A path of edges joins node indices `u` and `v`.
pub open spec fn ix_connected(edges: Seq<IxEdge>, u: usize, v: usize) -> bool {
    exists|p: Seq<usize>| #[trigger] ix_path(edges, p) && p[0] == u && p.last() == v
}

pub open spec fn ix_listed(comps: Seq<Vec<usize>>, v: usize) -> bool {
    exists|k: int, q: int| 0 <= k < comps.len() && 0 <= q < comps[k].len() && #[trigger] comps[k][q] == v
}

/// Both ends of edge `e` lie in one component.
pub open spec fn ix_same_comp(comps: Seq<Vec<usize>>, e: IxEdge) -> bool {
    exists|k: int| 0 <= k < comps.len() && (#[trigger] comps[k])@.contains(e.0) && comps[k]@.contains(e.1)
}

/// Relies on `petgraph::algo::kosaraju_scc`: on an undirected graph each
/// strongly connected component is a connected component; every node lies
/// in exactly one, each holds at least one node, both ends of every edge lie
/// in one component, and the nodes of a component are joined by paths.
#[verifier::external_body]
fn connected_components(n: usize, edges: &Vec<IxEdge>) -> (comps: Vec<Vec<usize>>)
    requires
        forall|e: int| 0 <= e < edges.len() ==> #[trigger] edges[e].0 < n && edges[e].1 < n,
    ensures
        forall|k: int| 0 <= k < comps.len() ==> (#[trigger] comps[k]).len() > 0,
        forall|k: int, q: int|
            0 <= k < comps.len() && 0 <= q < comps[k].len() ==> #[trigger] comps[k][q] < n,
        forall|v: usize| v < n ==> #[trigger] ix_listed(comps@, v),
        forall|k1: int, q1: int, k2: int, q2: int|
            0 <= k1 < comps.len() && 0 <= q1 < comps[k1].len() && 0 <= k2 < comps.len() && 0 <= q2
                < comps[k2].len() && #[trigger] comps[k1][q1] == #[trigger] comps[k2][q2] ==> k1 == k2
                && q1 == q2,
        forall|e: int| 0 <= e < edges.len() ==> ix_same_comp(comps@, #[trigger] edges[e]),
        forall|k: int, q1: int, q2: int|
            0 <= k < comps.len() && 0 <= q1 < comps[k].len() && 0 <= q2 < comps[k].len()
                ==> ix_connected(edges@, #[trigger] comps[k][q1], #[trigger] comps[k][q2]),
{
    let mut g = petgraph::Graph::<(), i128, petgraph::Undirected, usize>::with_capacity(n, edges.len());
    let nodes: Vec<petgraph::graph::NodeIndex<usize>> = (0..n).map(|_| g.add_node(())).collect();
    for &(a, b, w) in edges.iter() {
        g.add_edge(nodes[a], nodes[b], w);
    }
    let comps = petgraph::algo::kosaraju_scc(&g);
    comps.into_iter().map(|c| c.into_iter().map(|x| x.index()).collect()).collect()
}


pub open spec fn id_adj(edges: Seq<Edge>, a: u64, b: u64) -> bool {
    exists|e: int|
        0 <= e < edges.len() && ((#[trigger] edges[e].0 == a && edges[e].1 == b) || (edges[e].0 == b
            && edges[e].1 == a))
}

pub open spec fn id_path(edges: Seq<Edge>, p: Seq<u64>) -> bool {
    p.len() >= 1 && forall|i: int| 0 <= i < p.len() - 1 ==> #[trigger] id_adj(edges, p[i], p[i + 1])
}

/// A path of edges joins SUNK ids `a` and `b`.
pub open spec fn id_connected(edges: Seq<Edge>, a: u64, b: u64) -> bool {
    exists|p: Seq<u64>| #[trigger] id_path(edges, p) && p[0] == a && p.last() == b
}

pub open spec fn views(c: Seq<Vec<u64>>) -> Seq<Seq<u64>> {
    c.map_values(|v: Vec<u64>| v@)
}

pub open spec fn id_listed(comps: Seq<Seq<u64>>, v: u64) -> bool {
    exists|k: int, q: int| 0 <= k < comps.len() && 0 <= q < comps[k].len() && #[trigger] comps[k][q] == v
}

pub open spec fn id_same_comp(comps: Seq<Seq<u64>>, e: Edge) -> bool {
    exists|k: int| 0 <= k < comps.len() && (#[trigger] comps[k]).contains(e.0) && comps[k].contains(e.1)
}

/// `comps` are the connected components of the graph with nodes `nodes` and
/// edges `edges`: each node lies in exactly one, both ends of every edge lie
/// in one, and the ids of a component are joined by paths.
pub open spec fn components_of(comps: Seq<Seq<u64>>, nodes: Seq<u64>, edges: Seq<Edge>) -> bool {
    &&& forall|k: int| 0 <= k < comps.len() ==> (#[trigger] comps[k]).len() > 0
    &&& forall|k: int, q: int|
        0 <= k < comps.len() && 0 <= q < comps[k].len() ==> nodes.contains(#[trigger] comps[k][q])
    &&& forall|v: u64| nodes.contains(v) ==> #[trigger] id_listed(comps, v)
    &&& forall|k1: int, q1: int, k2: int, q2: int|
        0 <= k1 < comps.len() && 0 <= q1 < comps[k1].len() && 0 <= k2 < comps.len() && 0 <= q2
            < comps[k2].len() && #[trigger] comps[k1][q1] == #[trigger] comps[k2][q2] ==> k1 == k2 && q1
            == q2
    &&& forall|e: int| 0 <= e < edges.len() ==> id_same_comp(comps, #[trigger] edges[e])
    &&& forall|k: int, q1: int, q2: int|
        0 <= k < comps.len() && 0 <= q1 < comps[k].len() && 0 <= q2 < comps[k].len() ==> id_connected(
            edges,
            #[trigger] comps[k][q1],
            #[trigger] comps[k][q2],
        )
}

proof fn lemma_map_path(ixe: Seq<IxEdge>, edges: Seq<Edge>, nodes: Seq<u64>, p: Seq<usize>)
    requires
        ixe.len() == edges.len(),
        forall|e: int|
            0 <= e < ixe.len() ==> (#[trigger] ixe[e]).0 < nodes.len() && ixe[e].1 < nodes.len()
                && nodes[ixe[e].0 as int] == edges[e].0 && nodes[ixe[e].1 as int] == edges[e].1,
        ix_path(ixe, p),
        forall|i: int| 0 <= i < p.len() ==> #[trigger] p[i] < nodes.len(),
    ensures
        id_path(edges, p.map_values(|u: usize| nodes[u as int])),
{
    let m = p.map_values(|u: usize| nodes[u as int]);
    assert forall|i: int| 0 <= i < m.len() - 1 implies #[trigger] id_adj(edges, m[i], m[i + 1]) by {
        assert(ix_adj(ixe, p[i], p[i + 1]));
        let e = choose|e: int|
            0 <= e < ixe.len() && ((#[trigger] ixe[e].0 == p[i] && ixe[e].1 == p[i + 1]) || (ixe[e].0
                == p[i + 1] && ixe[e].1 == p[i]));
        assert(ixe[e].0 < nodes.len());
    }
}

/// The connected components of the graph on the distinct ids `nodes` with
/// edges `edges`, as lists of ids.
fn id_components(nodes: &Vec<u64>, edges: &Vec<Edge>) -> (comps: Vec<Vec<u64>>)
    requires
        nodes@.no_duplicates(),
        forall|e: int|
            0 <= e < edges.len() ==> nodes@.contains((#[trigger] edges[e]).0) && nodes@.contains(
                edges[e].1,
            ),
    ensures
        components_of(views(comps@), nodes@, edges@),
{
    let n = nodes.len();
    let mut pos: HashMap<u64, usize> = HashMap::new();
    let mut v: usize = 0;
    while v < n
        invariant
            n == nodes.len(),
            0 <= v <= n,
            nodes@.no_duplicates(),
            forall|key: u64|
                #[trigger] pos@.contains_key(key) ==> pos@[key] < v && nodes[pos@[key] as int] == key,
            forall|i: int| 0 <= i < v ==> pos@.contains_key(#[trigger] nodes[i]) && pos@[nodes[i]] == i,
        decreases n - v,
    {
        pos.insert(nodes[v], v);
        proof {
            assert forall|i: int| 0 <= i < v implies nodes[i] != nodes[v as int] by {}
        }
        v += 1;
    }
    let mut ixe: Vec<IxEdge> = Vec::new();
    let mut e: usize = 0;
    while e < edges.len()
        invariant
            n == nodes.len(),
            0 <= e <= edges.len(),
            ixe.len() == e,
            forall|key: u64|
                #[trigger] pos@.contains_key(key) ==> pos@[key] < n && nodes[pos@[key] as int] == key,
            forall|i: int| 0 <= i < n ==> pos@.contains_key(#[trigger] nodes[i]) && pos@[nodes[i]] == i,
            forall|e2: int|
                0 <= e2 < edges.len() ==> nodes@.contains((#[trigger] edges[e2]).0) && nodes@.contains(
                    edges[e2].1,
                ),
            forall|e2: int|
                0 <= e2 < e ==> (#[trigger] ixe[e2]).0 < n && ixe[e2].1 < n && nodes[ixe[e2].0 as int]
                    == edges[e2].0 && nodes[ixe[e2].1 as int] == edges[e2].1 && ixe[e2].2 == edges[e2].2,
        decreases edges.len() - e,
    {
        let (a, b, w) = edges[e];
        proof {
            let ia = choose|i: int| 0 <= i < n && nodes[i] == a;
            let ib = choose|i: int| 0 <= i < n && nodes[i] == b;
            assert(pos@.contains_key(nodes[ia]));
            assert(pos@.contains_key(nodes[ib]));
        }
        let ia: usize = match pos.get(&a) {
            Some(i) => *i,
            None => 0,
        };
        let ib: usize = match pos.get(&b) {
            Some(i) => *i,
            None => 0,
        };
        ixe.push((ia, ib, w));
        e += 1;
    }
    let cix = connected_components(n, &ixe);
    let mut comps: Vec<Vec<u64>> = Vec::new();
    let mut k: usize = 0;
    while k < cix.len()
        invariant
            0 <= k <= cix.len(),
            comps.len() == k,
            n == nodes.len(),
            forall|k2: int, q: int|
                0 <= k2 < cix.len() && 0 <= q < cix[k2].len() ==> #[trigger] cix[k2][q] < n,
            forall|k2: int| 0 <= k2 < k ==> (#[trigger] comps[k2])@.len() == cix[k2].len(),
            forall|k2: int, q: int|
                0 <= k2 < k && 0 <= q < cix[k2].len() ==> #[trigger] comps[k2]@[q] == nodes[cix[k2][q] as int],
        decreases cix.len() - k,
    {
        let mut c: Vec<u64> = Vec::new();
        let mut q: usize = 0;
        while q < cix[k].len()
            invariant
                0 <= k < cix.len(),
                0 <= q <= cix[k as int].len(),
                c.len() == q,
                n == nodes.len(),
                forall|q2: int| 0 <= q2 < cix[k as int].len() ==> #[trigger] cix[k as int][q2] < n,
                forall|q2: int| 0 <= q2 < q ==> #[trigger] c@[q2] == nodes[cix[k as int][q2] as int],
            decreases cix[k as int].len() - q,
        {
            c.push(nodes[cix[k][q]]);
            q += 1;
        }
        comps.push(c);
        k += 1;
    }
    proof {
        let cs = views(comps@);
        assert forall|k: int, q: int|
            0 <= k < cs.len() && 0 <= q < cs[k].len() implies #[trigger] cs[k][q] == nodes[cix[k][q] as int] by {
            assert(cs[k] == comps[k]@);
        }
        assert forall|k: int| 0 <= k < cs.len() implies (#[trigger] cs[k]).len() > 0 by {
            assert(cs[k] == comps[k]@);
        }
        assert forall|k: int, q: int|
            0 <= k < cs.len() && 0 <= q < cs[k].len() implies nodes@.contains(#[trigger] cs[k][q]) by {
            assert(cs[k] == comps[k]@);
            assert(nodes@[cix[k][q] as int] == cs[k][q]);
        }
        assert forall|x: u64| nodes@.contains(x) implies #[trigger] id_listed(cs, x) by {
            let i = choose|i: int| 0 <= i < n && nodes[i] == x;
            assert(ix_listed(cix@, i as usize));
            let (k, q) = choose|k: int, q: int| 0 <= k < cix.len() && 0 <= q < cix[k].len() && #[trigger] cix[k][q] == i as usize;
            assert(cs[k] == comps[k]@);
            assert(cs[k][q] == x);
        }
        assert forall|k1: int, q1: int, k2: int, q2: int|
            0 <= k1 < cs.len() && 0 <= q1 < cs[k1].len() && 0 <= k2 < cs.len() && 0 <= q2 < cs[k2].len()
                && #[trigger] cs[k1][q1] == #[trigger] cs[k2][q2] implies k1 == k2 && q1 == q2 by {
            assert(cs[k1] == comps[k1]@);
            assert(cs[k2] == comps[k2]@);
            assert(nodes[cix[k1][q1] as int] == nodes[cix[k2][q2] as int]);
            assert(cix[k1][q1] == cix[k2][q2]);
        }
        assert forall|e: int| 0 <= e < edges.len() implies id_same_comp(cs, #[trigger] edges[e]) by {
            assert(ix_same_comp(cix@, ixe[e]));
            let k = choose|k: int| 0 <= k < cix.len() && (#[trigger] cix[k])@.contains(ixe[e].0) && cix[k]@.contains(ixe[e].1);
            let q1 = choose|q1: int| 0 <= q1 < cix[k].len() && cix[k]@[q1] == ixe[e].0;
            let q2 = choose|q2: int| 0 <= q2 < cix[k].len() && cix[k]@[q2] == ixe[e].1;
            assert(cs[k] == comps[k]@);
            assert(cs[k][q1] == edges[e].0);
            assert(cs[k][q2] == edges[e].1);
        }
        assert forall|k: int, q1: int, q2: int|
            0 <= k < cs.len() && 0 <= q1 < cs[k].len() && 0 <= q2 < cs[k].len() implies id_connected(
            edges@,
            #[trigger] cs[k][q1],
            #[trigger] cs[k][q2],
        ) by {
            assert(cs[k] == comps[k]@);
            assert(ix_connected(ixe@, cix[k][q1], cix[k][q2]));
            let p = choose|p: Seq<usize>| #[trigger] ix_path(ixe@, p) && p[0] == cix[k][q1] && p.last() == cix[k][q2];
            assert forall|i: int| 0 <= i < p.len() implies #[trigger] p[i] < nodes.len() by {
                if i < p.len() - 1 {
                    assert(ix_adj(ixe@, p[i], p[i + 1]));
                    let e = choose|e: int|
                        0 <= e < ixe.len() && ((#[trigger] ixe@[e].0 == p[i] && ixe@[e].1 == p[i + 1])
                            || (ixe@[e].0 == p[i + 1] && ixe@[e].1 == p[i]));
                    assert(ixe[e].0 < n && ixe[e].1 < n);
                } else if i > 0 {
                    assert(ix_adj(ixe@, p[i - 1], p[(i - 1) + 1]));
                    assert(p[(i - 1) + 1] == p[i]);
                    let e = choose|e: int|
                        0 <= e < ixe.len() && ((#[trigger] ixe@[e].0 == p[i - 1] && ixe@[e].1 == p[i])
                            || (ixe@[e].0 == p[i] && ixe@[e].1 == p[i - 1]));
                    assert(ixe[e].0 < n && ixe[e].1 < n);
                } else {
                    assert(p[i] == cix[k][q1]);
                }
            }
            lemma_map_path(ixe@, edges@, nodes@, p);
            let m = p.map_values(|u: usize| nodes[u as int]);
            assert(id_path(edges@, m) && m[0] == cs[k][q1] && m.last() == cs[k][q2]);
        }
    }
    comps
}


pub open spec fn dist(a: u64, b: u64) -> int {
    if a >= b {
        a - b
    } else {
        b - a
    }
}

/// The read distance of rows `i` and `j` is within 10% of their contig
/// distance: `0.9 < dr / dc < 1.1`.
pub open spec fn in_band(rows: Seq<ReadSunk>, i: int, j: int) -> bool {
    let dc = dist(rows[i].cpos, rows[j].cpos);
    let dr = dist(rows[i].rpos, rows[j].rpos);
    9 * dc < 10 * dr && 10 * dr < 11 * dc
}

/// Row `j` lies further along the read than row `i`.
pub open spec fn ascending(rows: Seq<ReadSunk>, i: int, j: int) -> bool {
    rows[j].rpos > rows[i].rpos
}

/// In-band pairs `(i, j)`, `i < j < m`, whose direction is `val`.
pub open spec fn row_cnt(rows: Seq<ReadSunk>, i: int, m: int, val: bool) -> nat
    decreases m - i,
{
    if m <= i + 1 {
        0
    } else {
        row_cnt(rows, i, m - 1, val) + if in_band(rows, i, m - 1) && ascending(rows, i, m - 1) == val {
            1nat
        } else {
            0nat
        }
    }
}

/// In-band pairs with first row below `m` whose direction is `val`.
pub open spec fn all_cnt(rows: Seq<ReadSunk>, m: int, val: bool) -> nat
    decreases m,
{
    if m <= 0 {
        0
    } else {
        all_cnt(rows, m - 1, val) + row_cnt(rows, m - 1, rows.len() as int, val)
    }
}

/// The majority direction over the in-band pairs; ascending on a tie.
#[verifier::opaque]
pub open spec fn true_orient(rows: Seq<ReadSunk>) -> bool {
    all_cnt(rows, rows.len() as int, true) >= all_cnt(rows, rows.len() as int, false)
}

pub open spec fn any_band(rows: Seq<ReadSunk>) -> bool {
    exists|i: int, j: int| 0 <= i < j < rows.len() && #[trigger] in_band(rows, i, j)
}

/// Pair `(i, j)` is in band and runs in the majority direction.
pub open spec fn admitted(rows: Seq<ReadSunk>, i: int, j: int) -> bool {
    0 <= i < j < rows.len() && in_band(rows, i, j) && ascending(rows, i, j) == true_orient(rows)
}

/// SUNK ids `a` and `b` are the ids of an admitted pair.
pub open spec fn adm_adj(rows: Seq<ReadSunk>, a: u64, b: u64) -> bool {
    exists|i: int, j: int|
        #[trigger] admitted(rows, i, j) && ((rows[i].group == a && rows[j].group == b) || (rows[i].group
            == b && rows[j].group == a))
}

pub open spec fn is_node(rows: Seq<ReadSunk>, a: u64) -> bool {
    exists|i: int, j: int|
        #[trigger] admitted(rows, i, j) && (rows[i].group == a || rows[j].group == a)
}

pub open spec fn adm_path(rows: Seq<ReadSunk>, p: Seq<u64>) -> bool {
    p.len() >= 1 && forall|i: int| 0 <= i < p.len() - 1 ==> #[trigger] adm_adj(rows, p[i], p[i + 1])
}

/// A path of admitted pairs joins ids `a` and `b`.
pub open spec fn adm_connected(rows: Seq<ReadSunk>, a: u64, b: u64) -> bool {
    exists|p: Seq<u64>| #[trigger] adm_path(rows, p) && p[0] == a && p.last() == b
}

proof fn lemma_row_cnt_witness(rows: Seq<ReadSunk>, i: int, m: int, val: bool)
    requires
        row_cnt(rows, i, m, val) > 0,
        m <= rows.len(),
        0 <= i,
    ensures
        exists|j: int| i < j < m && #[trigger] in_band(rows, i, j) && ascending(rows, i, j) == val,
    decreases m - i,
{
    if !(in_band(rows, i, m - 1) && ascending(rows, i, m - 1) == val) {
        lemma_row_cnt_witness(rows, i, m - 1, val);
    }
}

proof fn lemma_all_cnt_witness(rows: Seq<ReadSunk>, m: int, val: bool)
    requires
        all_cnt(rows, m, val) > 0,
        m <= rows.len(),
    ensures
        exists|i: int, j: int|
            0 <= i < j < rows.len() && #[trigger] in_band(rows, i, j) && ascending(rows, i, j) == val,
    decreases m,
{
    if row_cnt(rows, m - 1, rows.len() as int, val) > 0 {
        lemma_row_cnt_witness(rows, m - 1, rows.len() as int, val);
    } else {
        lemma_all_cnt_witness(rows, m - 1, val);
    }
}

proof fn lemma_pair_key(a1: u64, b1: u64, a2: u64, b2: u64)
    requires
        a1 <= u32::MAX,
        b1 <= u32::MAX,
        a2 <= u32::MAX,
        b2 <= u32::MAX,
        a1 * 0x1_0000_0000 + b1 == a2 * 0x1_0000_0000 + b2,
    ensures
        a1 == a2 && b1 == b2,
{
    assert(a1 == a2 && b1 == b2) by (nonlinear_arith)
        requires
            a1 <= u32::MAX,
            b1 <= u32::MAX,
            a2 <= u32::MAX,
            b2 <= u32::MAX,
            a1 * 0x1_0000_0000 + b1 == a2 * 0x1_0000_0000 + b2,
    ;
}


proof fn lemma_row_cnt_pos(rows: Seq<ReadSunk>, i: int, j: int, m: int)
    requires
        0 <= i < j < m,
        in_band(rows, i, j),
    ensures
        row_cnt(rows, i, m, ascending(rows, i, j)) >= 1,
    decreases m - i,
{
    if m - 1 > j {
        lemma_row_cnt_pos(rows, i, j, m - 1);
    }
}

proof fn lemma_all_cnt_pos(rows: Seq<ReadSunk>, i: int, j: int, m: int)
    requires
        0 <= i < j < rows.len(),
        i < m,
        in_band(rows, i, j),
    ensures
        all_cnt(rows, m, ascending(rows, i, j)) >= 1,
    decreases m,
{
    if m - 1 > i {
        lemma_all_cnt_pos(rows, i, j, m - 1);
    } else {
        lemma_row_cnt_pos(rows, i, j, rows.len() as int);
    }
}

/// Edge `ed` joins the ids of an admitted pair.
#[verifier::opaque]
pub open spec fn edge_sound(rows: Seq<ReadSunk>, ed: Edge) -> bool {
    exists|i: int, j: int|
        #[trigger] admitted(rows, i, j) && ed.0 == rows[i].group && ed.1 == rows[j].group
}

#[verifier::opaque]
pub open spec fn edge_present(edges: Seq<Edge>, a: u64, b: u64) -> bool {
    exists|e: int| 0 <= e < edges.len() && (#[trigger] edges[e]).0 == a && edges[e].1 == b
}

proof fn lemma_adj_equiv(rows: Seq<ReadSunk>, edges: Seq<Edge>, a: u64, b: u64)
    requires
        forall|e: int| 0 <= e < edges.len() ==> edge_sound(rows, #[trigger] edges[e]),
        forall|i: int, j: int|
            #[trigger] admitted(rows, i, j) ==> edge_present(edges, rows[i].group, rows[j].group),
    ensures
        id_adj(edges, a, b) <==> adm_adj(rows, a, b),
{
    reveal(edge_sound);
    reveal(edge_present);
    if id_adj(edges, a, b) {
        let e = choose|e: int|
            0 <= e < edges.len() && ((#[trigger] edges[e].0 == a && edges[e].1 == b) || (edges[e].0
                == b && edges[e].1 == a));
        assert(edge_sound(rows, edges[e]));
    }
    if adm_adj(rows, a, b) {
        let (i, j) = choose|i: int, j: int|
            #[trigger] admitted(rows, i, j) && ((rows[i].group == a && rows[j].group == b) || (
            rows[i].group == b && rows[j].group == a));
        assert(edge_present(edges, rows[i].group, rows[j].group));
        let e = choose|e: int|
            0 <= e < edges.len() && (#[trigger] edges[e]).0 == rows[i].group && edges[e].1
                == rows[j].group;
        assert(edges[e].0 == rows[i].group);
    }
}

/// A path stays inside the component of its first node.
proof fn lemma_path_in_comp(comps: Seq<Seq<u64>>, nodes: Seq<u64>, edges: Seq<Edge>, p: Seq<u64>, k: int, t: int)
    requires
        components_of(comps, nodes, edges),
        id_path(edges, p),
        0 <= k < comps.len(),
        comps[k].contains(p[0]),
        0 <= t < p.len(),
    ensures
        comps[k].contains(p[t]),
    decreases t,
{
    if t > 0 {
        lemma_path_in_comp(comps, nodes, edges, p, k, t - 1);
        assert(id_adj(edges, p[t - 1], p[(t - 1) + 1]));
        let e = choose|e: int|
            0 <= e < edges.len() && ((#[trigger] edges[e].0 == p[t - 1] && edges[e].1 == p[t]) || (
            edges[e].0 == p[t] && edges[e].1 == p[t - 1]));
        assert(id_same_comp(comps, edges[e]));
        let k2 = choose|k2: int|
            0 <= k2 < comps.len() && (#[trigger] comps[k2]).contains(edges[e].0) && comps[k2].contains(
                edges[e].1,
            );
        let q1 = choose|q1: int| 0 <= q1 < comps[k].len() && comps[k][q1] == p[t - 1];
        let q2 = choose|q2: int| 0 <= q2 < comps[k2].len() && comps[k2][q2] == p[t - 1];
        assert(comps[k][q1] == comps[k2][q2]);
    }
}

proof fn lemma_distinct_subset_len(d: Seq<u64>, c: Seq<u64>)
    requires
        d.no_duplicates(),
        c.no_duplicates(),
        forall|x: int| 0 <= x < d.len() ==> c.contains(#[trigger] d[x]),
    ensures
        d.len() <= c.len(),
{
    d.unique_seq_to_set();
    c.unique_seq_to_set();
    assert(d.to_set().subset_of(c.to_set())) by {
        assert forall|v: u64| d.to_set().contains(v) implies c.to_set().contains(v) by {
            assert(d.contains(v));
            let x = choose|x: int| 0 <= x < d.len() && d[x] == v;
            assert(c.contains(d[x]));
        }
    }
    vstd::set_lib::lemma_len_subset(d.to_set(), c.to_set());
}

/// `c` is a largest connected component of the graph of admitted pairs.
pub open spec fn largest_of(rows: Seq<ReadSunk>, c: Seq<u64>) -> bool {
    &&& c.len() > 0
    &&& c.no_duplicates()
    &&& forall|q: int| 0 <= q < c.len() ==> is_node(rows, #[trigger] c[q])
    &&& forall|q1: int, q2: int|
        0 <= q1 < c.len() && 0 <= q2 < c.len() ==> adm_connected(rows, #[trigger] c[q1], #[trigger] c[q2])
    &&& forall|q: int, b: u64| 0 <= q < c.len() && #[trigger] adm_adj(rows, c[q], b) ==> c.contains(b)
    &&& forall|d: Seq<u64>|
        d.no_duplicates() && (forall|x: int| 0 <= x < d.len() ==> is_node(rows, #[trigger] d[x])) && (
        forall|x: int, y: int|
            0 <= x < d.len() && 0 <= y < d.len() ==> adm_connected(rows, #[trigger] d[x], #[trigger] d[y]))
            ==> #[trigger] d.len() <= c.len()
}


pub open spec fn small_rows(rows: Seq<ReadSunk>) -> bool {
    &&& rows.len() < 0x8000_0000
    &&& forall|i: int|
        0 <= i < rows.len() ==> (#[trigger] rows[i]).cpos <= u32::MAX && rows[i].rpos <= u32::MAX
            && rows[i].group <= u32::MAX
}

fn abs_diff(a: u64, b: u64) -> (r: u64)
    ensures
        r == dist(a, b),
{
    if a >= b {
        a - b
    } else {
        b - a
    }
}

fn band_exec(rows: &Vec<ReadSunk>, i: usize, j: usize) -> (r: bool)
    requires
        small_rows(rows@),
        i < rows.len(),
        j < rows.len(),
    ensures
        r == in_band(rows@, i as int, j as int),
{
    let dc = abs_diff(rows[i].cpos, rows[j].cpos);
    let dr = abs_diff(rows[i].rpos, rows[j].rpos);
    9 * dc < 10 * dr && 10 * dr < 11 * dc
}

/// Numbers of ascending and of descending in-band pairs.
fn band_counts(rows: &Vec<ReadSunk>) -> (res: (u64, u64))
    requires
        small_rows(rows@),
    ensures
        res.0 == all_cnt(rows@, rows.len() as int, true),
        res.1 == all_cnt(rows@, rows.len() as int, false),
{
    let n = rows.len();
    let mut nt: u64 = 0;
    let mut nf: u64 = 0;
    let mut steps: u64 = 0;
    let mut i: usize = 0;
    while i < n
        invariant
            n == rows.len(),
            small_rows(rows@),
            0 <= i <= n,
            nt == all_cnt(rows@, i as int, true),
            nf == all_cnt(rows@, i as int, false),
            nt + nf <= steps,
            steps <= i * 0x1_0000_0000,
        decreases n - i,
    {
        let mut j: usize = i + 1;
        let ghost base = steps;
        while j < n
            invariant
                n == rows.len(),
                small_rows(rows@),
                0 <= i < n,
                i + 1 <= j <= n,
                nt == all_cnt(rows@, i as int, true) + row_cnt(rows@, i as int, j as int, true),
                nf == all_cnt(rows@, i as int, false) + row_cnt(rows@, i as int, j as int, false),
                nt + nf <= steps,
                steps <= base + j,
                base <= i * 0x1_0000_0000,
            decreases n - j,
        {
            if band_exec(rows, i, j) {
                if rows[j].rpos > rows[i].rpos {
                    nt += 1;
                } else {
                    nf += 1;
                }
            }
            steps += 1;
            j += 1;
        }
        i += 1;
    }
    (nt, nf)
}

#[verifier::opaque]
/// Facts about the edges and nodes gathered so far from the pairs before
/// `(i, j)`.
pub open spec fn gathered(
    rows: Seq<ReadSunk>,
    orient: bool,
    i: int,
    j: int,
    nodes: Seq<u64>,
    edges: Seq<Edge>,
) -> bool {
    &&& nodes.no_duplicates()
    &&& forall|e: int| 0 <= e < edges.len() ==> edge_sound(rows, #[trigger] edges[e])
    &&& forall|e: int|
        0 <= e < edges.len() ==> nodes.contains((#[trigger] edges[e]).0) && nodes.contains(edges[e].1)
    &&& forall|q: int| 0 <= q < nodes.len() ==> is_node(rows, #[trigger] nodes[q])
    &&& forall|i2: int, j2: int|
        #[trigger] admitted(rows, i2, j2) && (i2 < i || (i2 == i && j2 < j)) ==> edge_present(
            edges,
            rows[i2].group,
            rows[j2].group,
        )
}

/// The admitted pairs as edges between SUNK ids, each with the weight
/// `(id_j - id_i) - (rpos_j - rpos_i)`, and the ids they touch. One edge is
/// kept per ordered id pair, the first in pair order: whether a pair spans
/// more than two read positions depends on the id pair alone, so keeping one
/// row per id pair and multi-SUNK flag keeps one per id pair.
fn admitted_edges(rows: &Vec<ReadSunk>, orient: bool) -> (res: (Vec<u64>, Vec<Edge>))
    requires
        small_rows(rows@),
        orient == true_orient(rows@),
    ensures
        gathered(rows@, orient, rows.len() as int, 0, res.0@, res.1@),
{
    let n = rows.len();
    let mut nodes: Vec<u64> = Vec::new();
    let mut node_set: HashSet<u64> = HashSet::new();
    let mut edges: Vec<Edge> = Vec::new();
    let mut seen: HashSet<u64> = HashSet::new();
    proof {
        reveal(gathered);
    }
    let mut i: usize = 0;
    while i < n
        invariant
            n == rows.len(),
            small_rows(rows@),
            orient == true_orient(rows@),
            0 <= i <= n,
            gathered(rows@, orient, i as int, 0, nodes@, edges@),
            forall|x: u64| #[trigger] node_set@.contains(x) <==> nodes@.contains(x),
            forall|key: u64|
                #[trigger] seen@.contains(key) ==> exists|e: int|
                    0 <= e < edges.len() && key == (#[trigger] edges[e]).0 * 0x1_0000_0000 + edges[e].1,
            forall|e: int| 0 <= e < edges.len() ==> (#[trigger] edges[e]).0 <= u32::MAX && edges[e].1 <= u32::MAX,
        decreases n - i,
    {
        let mut j: usize = i + 1;
        proof {
            reveal(gathered);
        }
        while j < n
            invariant
                n == rows.len(),
                small_rows(rows@),
                orient == true_orient(rows@),
                0 <= i < n,
                i + 1 <= j <= n,
                gathered(rows@, orient, i as int, j as int, nodes@, edges@),
                forall|x: u64| #[trigger] node_set@.contains(x) <==> nodes@.contains(x),
                forall|key: u64|
                    #[trigger] seen@.contains(key) ==> exists|e: int|
                        0 <= e < edges.len() && key == (#[trigger] edges[e]).0 * 0x1_0000_0000 + edges[e].1,
                forall|e: int| 0 <= e < edges.len() ==> (#[trigger] edges[e]).0 <= u32::MAX && edges[e].1 <= u32::MAX,
            decreases n - j,
        {
            proof {
                reveal(edge_sound);
                reveal(edge_present);
                reveal(gathered);
            }
            let ri = rows[i];
            let rj = rows[j];
            if band_exec(rows, i, j) && (rj.rpos > ri.rpos) == orient {
                let a = ri.group;
                let b = rj.group;
                let key: u64 = a * 0x1_0000_0000 + b;
                let ghost old_edges = edges@;
                let ghost old_nodes = nodes@;
                assert(admitted(rows@, i as int, j as int));
                if seen.insert(key) {
                    let w: i128 = (b as i128 - a as i128) - (rj.rpos as i128 - ri.rpos as i128);
                    edges.push((a, b, w));
                    assert(edges@[old_edges.len() as int] == (a, b, w));
                    assert(edge_sound(rows@, (a, b, w)));
                    if node_set.insert(a) {
                        nodes.push(a);
                    }
                    let ghost mid_nodes = nodes@;
                    if node_set.insert(b) {
                        nodes.push(b);
                    }
                    assert(forall|q: int| 0 <= q < mid_nodes.len() ==> nodes@[q] == mid_nodes[q]);
                    assert(forall|q: int| 0 <= q < old_nodes.len() ==> mid_nodes[q] == old_nodes[q]);
                    assert(mid_nodes.len() <= old_nodes.len() + 1);
                    assert(nodes@.len() <= mid_nodes.len() + 1);
                    proof {
                        assert(is_node(rows@, a));
                        assert(is_node(rows@, b));
                        assert(nodes@.contains(a)) by {
                            if !old_nodes.contains(a) {
                                assert(mid_nodes[old_nodes.len() as int] == a);
                                assert(nodes@[old_nodes.len() as int] == a);
                            } else {
                                let q = choose|q: int| 0 <= q < old_nodes.len() && old_nodes[q] == a;
                                assert(nodes@[q] == a);
                            }
                        }
                        assert(nodes@.contains(b)) by {
                            if !mid_nodes.contains(b) {
                                assert(nodes@[mid_nodes.len() as int] == b);
                            } else {
                                let q = choose|q: int| 0 <= q < mid_nodes.len() && mid_nodes[q] == b;
                                assert(nodes@[q] == b);
                            }
                        }
                        assert forall|x: u64| old_nodes.contains(x) implies nodes@.contains(x) by {
                            let q = choose|q: int| 0 <= q < old_nodes.len() && old_nodes[q] == x;
                            assert(nodes@[q] == x);
                        }
                        assert forall|x: u64| nodes@.contains(x) implies old_nodes.contains(x) || x == a
                            || x == b by {
                            let q = choose|q: int| 0 <= q < nodes@.len() && nodes@[q] == x;
                            if q < old_nodes.len() {
                                assert(old_nodes[q] == x);
                            } else if q < mid_nodes.len() {
                                assert(mid_nodes[q] == x);
                            }
                        }
                        assert forall|k2: u64| #[trigger] seen@.contains(k2) implies exists|e: int|
                            0 <= e < edges.len() && k2 == (#[trigger] edges[e]).0 * 0x1_0000_0000
                                + edges[e].1 by {
                            if k2 == key {
                                assert(edges@[old_edges.len() as int] == (a, b, w));
                            } else {
                                let e = choose|e: int|
                                    0 <= e < old_edges.len() && k2 == (#[trigger] old_edges[e]).0
                                        * 0x1_0000_0000 + old_edges[e].1;
                                assert(edges@[e] == old_edges[e]);
                            }
                        }
                        assert forall|x: u64| #[trigger] node_set@.contains(x) <==> nodes@.contains(x) by {
                            if x != a && x != b {
                                assert(node_set@.contains(x) <==> old_nodes.contains(x));
                            }
                        }
                        assert(edge_present(edges@, a, b)) by {
                            assert(edges@[old_edges.len() as int].0 == a);
                        }
                        assert forall|i2: int, j2: int|
                            #[trigger] admitted(rows@, i2, j2) && (i2 < i || (i2 == i && j2 < j + 1))
                                implies edge_present(edges@, rows@[i2].group, rows@[j2].group) by {
                            if !(i2 == i && j2 == j) {
                                assert(edge_present(old_edges, rows@[i2].group, rows@[j2].group));
                                let e = choose|e: int|
                                    0 <= e < old_edges.len() && (#[trigger] old_edges[e]).0
                                        == rows@[i2].group && old_edges[e].1 == rows@[j2].group;
                                assert(edges@[e] == old_edges[e]);
                            }
                        }
                    }
                } else {
                    proof {
                        let e = choose|e: int|
                            0 <= e < edges.len() && key == (#[trigger] edges[e]).0 * 0x1_0000_0000 + edges[e].1;
                        lemma_pair_key(edges[e].0, edges[e].1, a, b);
                        assert(edge_present(edges@, a, b));
                    }
                }
            }
            j += 1;
        }
        proof {
            reveal(gathered);
        }
        i += 1;
    }
    proof {
        reveal(gathered);
    }
    (nodes, edges)
}


proof fn lemma_path_equiv(rows: Seq<ReadSunk>, edges: Seq<Edge>, p: Seq<u64>)
    requires
        forall|e: int| 0 <= e < edges.len() ==> edge_sound(rows, #[trigger] edges[e]),
        forall|i: int, j: int|
            #[trigger] admitted(rows, i, j) ==> edge_present(edges, rows[i].group, rows[j].group),
    ensures
        adm_path(rows, p) <==> id_path(edges, p),
{
    assert forall|i: int| 0 <= i < p.len() - 1 implies (#[trigger] adm_adj(rows, p[i], p[i + 1])
        <==> id_adj(edges, p[i], p[i + 1])) by {
        lemma_adj_equiv(rows, edges, p[i], p[i + 1]);
    }
    if adm_path(rows, p) {
        assert forall|i: int| 0 <= i < p.len() - 1 implies #[trigger] id_adj(edges, p[i], p[i + 1]) by {
            assert(adm_adj(rows, p[i], p[i + 1]));
        }
    }
    if id_path(edges, p) {
        assert forall|i: int| 0 <= i < p.len() - 1 implies #[trigger] adm_adj(rows, p[i], p[i + 1]) by {
            assert(id_adj(edges, p[i], p[i + 1]));
        }
    }
}

/// Components that partition a read's SUNK graph: the largest is a largest
/// connected component of the admitted pairs.
proof fn lemma_largest(rs: Seq<ReadSunk>, orient: bool, nodes: Seq<u64>, edges: Seq<Edge>, cs: Seq<Seq<u64>>, b: int)
    requires
        gathered(rs, orient, rs.len() as int, 0, nodes, edges),
        components_of(cs, nodes, edges),
        0 <= b < cs.len(),
        forall|k2: int| 0 <= k2 < cs.len() ==> (#[trigger] cs[k2]).len() <= cs[b].len(),
    ensures
        largest_of(rs, cs[b]),
{
    reveal(gathered);
    let c = cs[b];
    assert forall|i: int, j: int| #[trigger] admitted(rs, i, j) implies edge_present(edges, rs[i].group, rs[j].group) by {
        assert(i < rs.len());
    }
    assert(c.no_duplicates()) by {
        assert forall|q1: int, q2: int| 0 <= q1 < c.len() && 0 <= q2 < c.len() && q1 != q2 implies c[q1] != c[q2] by {
            if cs[b][q1] == cs[b][q2] {}
        }
    }
    assert forall|q: int| 0 <= q < c.len() implies is_node(rs, #[trigger] c[q]) by {
        assert(nodes.contains(cs[b][q]));
        let q2 = choose|q2: int| 0 <= q2 < nodes.len() && nodes[q2] == cs[b][q];
        assert(is_node(rs, nodes[q2]));
    }
    lemma_largest_connected(rs, orient, nodes, edges, cs, b);
    lemma_largest_closed(rs, orient, nodes, edges, cs, b);
    lemma_largest_max(rs, orient, nodes, edges, cs, b);
}

proof fn lemma_largest_connected(rs: Seq<ReadSunk>, orient: bool, nodes: Seq<u64>, edges: Seq<Edge>, cs: Seq<Seq<u64>>, b: int)
    requires
        gathered(rs, orient, rs.len() as int, 0, nodes, edges),
        components_of(cs, nodes, edges),
        0 <= b < cs.len(),
    ensures
        forall|q1: int, q2: int|
            0 <= q1 < cs[b].len() && 0 <= q2 < cs[b].len() ==> adm_connected(rs, #[trigger] cs[b][q1], #[trigger] cs[b][q2]),
{
    reveal(gathered);
    let c = cs[b];
    assert forall|i: int, j: int| #[trigger] admitted(rs, i, j) implies edge_present(edges, rs[i].group, rs[j].group) by {
        assert(i < rs.len());
    }
    assert forall|q1: int, q2: int|
        0 <= q1 < c.len() && 0 <= q2 < c.len() implies adm_connected(rs, #[trigger] c[q1], #[trigger] c[q2]) by {
        assert(id_connected(edges, cs[b][q1], cs[b][q2]));
        let p = choose|p: Seq<u64>| #[trigger] id_path(edges, p) && p[0] == cs[b][q1] && p.last() == cs[b][q2];
        lemma_path_equiv(rs, edges, p);
    }
}

proof fn lemma_largest_closed(rs: Seq<ReadSunk>, orient: bool, nodes: Seq<u64>, edges: Seq<Edge>, cs: Seq<Seq<u64>>, b: int)
    requires
        gathered(rs, orient, rs.len() as int, 0, nodes, edges),
        components_of(cs, nodes, edges),
        0 <= b < cs.len(),
    ensures
        forall|q: int, y: u64| 0 <= q < cs[b].len() && #[trigger] adm_adj(rs, cs[b][q], y) ==> cs[b].contains(y),
{
    reveal(gathered);
    let c = cs[b];
    assert forall|i: int, j: int| #[trigger] admitted(rs, i, j) implies edge_present(edges, rs[i].group, rs[j].group) by {
        assert(i < rs.len());
    }
    assert forall|q: int, y: u64| 0 <= q < c.len() && #[trigger] adm_adj(rs, c[q], y) implies c.contains(y) by {
        lemma_adj_equiv(rs, edges, c[q], y);
        let e = choose|e: int|
            0 <= e < edges.len() && ((#[trigger] edges[e].0 == c[q] && edges[e].1 == y) || (edges[e].0
                == y && edges[e].1 == c[q]));
        assert(id_same_comp(cs, edges[e]));
        let k2 = choose|k2: int|
            0 <= k2 < cs.len() && (#[trigger] cs[k2]).contains(edges[e].0) && cs[k2].contains(edges[e].1);
        let q2 = choose|q2: int| 0 <= q2 < cs[k2].len() && cs[k2][q2] == c[q];
        assert(cs[b][q] == cs[k2][q2]);
        let q3 = choose|q3: int| 0 <= q3 < cs[k2].len() && cs[k2][q3] == y;
        assert(c[q3] == y);
    }
}

proof fn lemma_gathered_parts(rs: Seq<ReadSunk>, orient: bool, nodes: Seq<u64>, edges: Seq<Edge>)
    requires
        gathered(rs, orient, rs.len() as int, 0, nodes, edges),
    ensures
        forall|i2: int, j2: int|
            #[trigger] admitted(rs, i2, j2) ==> edge_present(edges, rs[i2].group, rs[j2].group),
        forall|e: int|
            0 <= e < edges.len() ==> nodes.contains((#[trigger] edges[e]).0) && nodes.contains(edges[e].1),
        forall|e: int| 0 <= e < edges.len() ==> edge_sound(rs, #[trigger] edges[e]),
{
    reveal(gathered);
    assert forall|i2: int, j2: int| #[trigger] admitted(rs, i2, j2) implies edge_present(edges, rs[i2].group, rs[j2].group) by {
        assert(i2 < rs.len());
    }
}

proof fn lemma_largest_max_one(
    rs: Seq<ReadSunk>,
    orient: bool,
    nodes: Seq<u64>,
    edges: Seq<Edge>,
    cs: Seq<Seq<u64>>,
    b: int,
    d: Seq<u64>,
)
    requires
        gathered(rs, orient, rs.len() as int, 0, nodes, edges),
        components_of(cs, nodes, edges),
        0 <= b < cs.len(),
        forall|k2: int| 0 <= k2 < cs.len() ==> (#[trigger] cs[k2]).len() <= cs[b].len(),
        d.no_duplicates(),
        d.len() > 0,
        is_node(rs, d[0]),
        forall|x: int| 0 <= x < d.len() ==> adm_connected(rs, d[0], #[trigger] d[x]),
    ensures
        d.len() <= cs[b].len(),
{
    lemma_gathered_parts(rs, orient, nodes, edges);
    let (i, j) = choose|i: int, j: int| #[trigger] admitted(rs, i, j) && (rs[i].group == d[0] || rs[j].group == d[0]);
    assert(i < rs.len());
    assert(edge_present(edges, rs[i].group, rs[j].group));
    reveal(edge_present);
    let e = choose|e: int| 0 <= e < edges.len() && (#[trigger] edges[e]).0 == rs[i].group && edges[e].1 == rs[j].group;
    assert(nodes.contains(edges[e].0) && nodes.contains(edges[e].1));
    assert(nodes.contains(d[0]));
    assert(id_listed(cs, d[0]));
    let (k0, q0) = choose|k0: int, q0: int| 0 <= k0 < cs.len() && 0 <= q0 < cs[k0].len() && #[trigger] cs[k0][q0] == d[0];
    assert forall|x: int| 0 <= x < d.len() implies cs[k0].contains(#[trigger] d[x]) by {
        let p = choose|p: Seq<u64>| #[trigger] adm_path(rs, p) && p[0] == d[0] && p.last() == d[x];
        lemma_path_equiv(rs, edges, p);
        lemma_path_in_comp(cs, nodes, edges, p, k0, p.len() - 1);
    }
    assert(cs[k0].no_duplicates()) by {
        assert forall|q1: int, q2: int| 0 <= q1 < cs[k0].len() && 0 <= q2 < cs[k0].len() && q1 != q2 implies cs[k0][q1] != cs[k0][q2] by {
            if cs[k0][q1] == cs[k0][q2] {}
        }
    }
    lemma_distinct_subset_len(d, cs[k0]);
}

proof fn lemma_largest_max(rs: Seq<ReadSunk>, orient: bool, nodes: Seq<u64>, edges: Seq<Edge>, cs: Seq<Seq<u64>>, b: int)
    requires
        gathered(rs, orient, rs.len() as int, 0, nodes, edges),
        components_of(cs, nodes, edges),
        0 <= b < cs.len(),
        forall|k2: int| 0 <= k2 < cs.len() ==> (#[trigger] cs[k2]).len() <= cs[b].len(),
    ensures
        forall|d: Seq<u64>|
            d.no_duplicates() && (forall|x: int| 0 <= x < d.len() ==> is_node(rs, #[trigger] d[x])) && (
            forall|x: int, y: int|
                0 <= x < d.len() && 0 <= y < d.len() ==> adm_connected(rs, #[trigger] d[x], #[trigger] d[y]))
                ==> #[trigger] d.len() <= cs[b].len(),
{
    assert forall|d: Seq<u64>|
        d.no_duplicates() && (forall|x: int| 0 <= x < d.len() ==> is_node(rs, #[trigger] d[x])) && (
        forall|x: int, y: int|
            0 <= x < d.len() && 0 <= y < d.len() ==> adm_connected(rs, #[trigger] d[x], #[trigger] d[y]))
            implies #[trigger] d.len() <= cs[b].len() by {
        if d.len() > 0 {
            assert(is_node(rs, d[0]));
            assert forall|x: int| 0 <= x < d.len() implies adm_connected(rs, d[0], #[trigger] d[x]) by {
                assert(adm_connected(rs, d[0], d[x]));
            }
            lemma_largest_max_one(rs, orient, nodes, edges, cs, b, d);
        }
    }
}

/// A graph with an admitted pair has a component.
proof fn lemma_some_component(rs: Seq<ReadSunk>, orient: bool, nodes: Seq<u64>, edges: Seq<Edge>, cs: Seq<Seq<u64>>, i: int, j: int)
    requires
        gathered(rs, orient, rs.len() as int, 0, nodes, edges),
        components_of(cs, nodes, edges),
        admitted(rs, i, j),
    ensures
        cs.len() > 0,
{
    reveal(gathered);
    reveal(edge_present);
    assert(edge_present(edges, rs[i].group, rs[j].group));
    let e = choose|e: int| 0 <= e < edges.len() && (#[trigger] edges[e]).0 == rs[i].group && edges[e].1 == rs[j].group;
    assert(nodes.contains(edges[e].0));
    assert(id_listed(cs, edges[e].0));
}

/// The largest connected component of a read's SUNK graph. Over all pairs of
/// the read's rows, a pair is in band when its read distance is within 10%
/// of its contig distance; the majority direction of the in-band pairs
/// (ascending on a tie) is the read's orientation, and the in-band pairs
/// that run in it become edges between the pair's SUNK ids. `None` when no
/// pair is in band.
pub fn get_read_largest_sunk_graph_component(rows: &Vec<ReadSunk>) -> (res: Option<Vec<u64>>)
    requires
        small_rows(rows@),
    ensures
        res is None <==> !any_band(rows@),
        res matches Some(c) ==> largest_of(rows@, c@),
{
    let n = rows.len();
    let (nt, nf) = band_counts(rows);
    if nt == 0 && nf == 0 {
        proof {
            if any_band(rows@) {
                let (i, j) = choose|i: int, j: int| 0 <= i < j < rows.len() && #[trigger] in_band(rows@, i, j);
                lemma_all_cnt_pos(rows@, i, j, n as int);
            }
        }
        return None;
    }
    let orient = nt >= nf;
    proof {
        reveal(true_orient);
    }
    let (nodes, edges) = admitted_edges(rows, orient);
    proof {
        reveal(gathered);
    }
    let comps = id_components(&nodes, &edges);
    let ghost cs = views(comps@);
    let ghost rs = rows@;
    proof {
        lemma_all_cnt_witness(rs, n as int, orient);
        let (i, j) = choose|i: int, j: int|
            0 <= i < j < rs.len() && #[trigger] in_band(rs, i, j) && ascending(rs, i, j) == orient;
        assert(admitted(rs, i, j));
        lemma_some_component(rs, orient, nodes@, edges@, cs, i, j);
        assert(any_band(rs));
    }
    let mut best: usize = 0;
    let mut k: usize = 1;
    while k < comps.len()
        invariant
            1 <= k <= comps.len(),
            best < k,
            forall|k2: int| 0 <= k2 < k ==> (#[trigger] comps[k2]).len() <= comps[best as int].len(),
        decreases comps.len() - k,
    {
        if comps[k].len() >= comps[best].len() {
            best = k;
        }
        k += 1;
    }
    let mut c: Vec<u64> = Vec::new();
    let mut q: usize = 0;
    while q < comps[best].len()
        invariant
            best < comps.len(),
            0 <= q <= comps[best as int].len(),
            c@ == comps[best as int]@.take(q as int),
        decreases comps[best as int].len() - q,
    {
        c.push(comps[best][q]);
        assert(c@ =~= comps[best as int]@.take(q + 1));
        q += 1;
    }
    proof {
        assert(comps[best as int]@.take(comps[best as int].len() as int) =~= comps[best as int]@);
        let b = best as int;
        assert(cs[b] == c@);
        assert forall|k2: int| 0 <= k2 < cs.len() implies (#[trigger] cs[k2]).len() <= cs[b].len() by {
            assert(cs[k2] == comps[k2]@);
        }
        lemma_largest(rs, orient, nodes@, edges@, cs, b);
    }
    Some(c)
}


/// One BED interval: a component of a contig's SUNK graph, from its lowest
/// to its highest SUNK id, with its number of ids.
#[derive(Clone, Copy, Debug, PartialEq, Eq)]
pub struct BedRow {
    pub ctg: usize,
    pub st: u64,
    pub end: u64,
    pub sunks: u64,
}

/// Rows `i < j` lie in one run of rows of the same read.
pub open spec fn same_chunk(rnames: Seq<usize>, i: int, j: int) -> bool {
    0 <= i < j < rnames.len() && forall|t: int| i <= t <= j ==> #[trigger] rnames[t] == rnames[i]
}

/// Ids `a` and `b` are listed together for one read.
pub open spec fn chunk_adj(rnames: Seq<usize>, ids: Seq<u64>, a: u64, b: u64) -> bool {
    exists|i: int, j: int|
        #[trigger] same_chunk(rnames, i, j) && ((ids[i] == a && ids[j] == b) || (ids[i] == b && ids[j]
            == a))
}

#[verifier::opaque]
pub open spec fn chunk_edge_sound(rnames: Seq<usize>, ids: Seq<u64>, ed: Edge) -> bool {
    exists|i: int, j: int| #[trigger] same_chunk(rnames, i, j) && ed.0 == ids[i] && ed.1 == ids[j]
}

/// `nodes` are the distinct ids and the edges join exactly the ids listed
/// together for one read.
pub open spec fn contig_graph(rnames: Seq<usize>, ids: Seq<u64>, nodes: Seq<u64>, edges: Seq<Edge>) -> bool {
    &&& nodes.no_duplicates()
    &&& forall|x: u64| #[trigger] nodes.contains(x) <==> ids.contains(x)
    &&& forall|a: u64, b: u64| #[trigger] id_adj(edges, a, b) <==> chunk_adj(rnames, ids, a, b)
}

pub open spec fn seq_min(s: Seq<u64>) -> u64
    decreases s.len(),
{
    if s.len() <= 1 {
        s[0]
    } else {
        let m = seq_min(s.drop_last());
        if s.last() < m {
            s.last()
        } else {
            m
        }
    }
}

pub open spec fn seq_max(s: Seq<u64>) -> u64
    decreases s.len(),
{
    if s.len() <= 1 {
        s[0]
    } else {
        let m = seq_max(s.drop_last());
        if s.last() > m {
            s.last()
        } else {
            m
        }
    }
}

/// BED rows of the components with more than two ids, in order.
pub open spec fn beds(ctg: usize, cs: Seq<Seq<u64>>) -> Seq<BedRow>
    decreases cs.len(),
{
    if cs.len() == 0 {
        Seq::empty()
    } else {
        let c = cs.last();
        beds(ctg, cs.drop_last()) + if c.len() > 2 {
            seq![BedRow { ctg, st: seq_min(c), end: seq_max(c), sunks: c.len() as u64 }]
        } else {
            Seq::empty()
        }
    }
}

fn min_max(c: &Vec<u64>) -> (r: (u64, u64))
    requires
        c.len() > 0,
    ensures
        r.0 == seq_min(c@),
        r.1 == seq_max(c@),
{
    let mut lo = c[0];
    let mut hi = c[0];
    let mut q: usize = 1;
    while q < c.len()
        invariant
            1 <= q <= c.len(),
            lo == seq_min(c@.take(q as int)),
            hi == seq_max(c@.take(q as int)),
        decreases c.len() - q,
    {
        assert(c@.take(q + 1).drop_last() =~= c@.take(q as int));
        if c[q] < lo {
            lo = c[q];
        }
        if c[q] > hi {
            hi = c[q];
        }
        q += 1;
    }
    assert(c@.take(c.len() as int) =~= c@);
    (lo, hi)
}

/// The distinct ids, in order of first appearance.
fn distinct_ids(ids: &Vec<u64>) -> (nodes: Vec<u64>)
    ensures
        nodes@.no_duplicates(),
        forall|x: u64| #[trigger] nodes@.contains(x) <==> ids@.contains(x),
{
    let mut nodes: Vec<u64> = Vec::new();
    let mut set: HashSet<u64> = HashSet::new();
    let mut j: usize = 0;
    while j < ids.len()
        invariant
            0 <= j <= ids.len(),
            nodes@.no_duplicates(),
            forall|x: u64| #[trigger] set@.contains(x) <==> nodes@.contains(x),
            forall|t: int| 0 <= t < j ==> nodes@.contains(#[trigger] ids[t]),
            forall|q: int| 0 <= q < nodes.len() ==> ids@.contains(#[trigger] nodes[q]),
        decreases ids.len() - j,
    {
        let x = ids[j];
        let ghost old_nodes = nodes@;
        if set.insert(x) {
            nodes.push(x);
            proof {
                assert(nodes@[old_nodes.len() as int] == x);
                assert(ids@[j as int] == x);
            }
        }
        proof {
            assert forall|y: u64| old_nodes.contains(y) implies nodes@.contains(y) by {
                let q = choose|q: int| 0 <= q < old_nodes.len() && old_nodes[q] == y;
                assert(nodes@[q] == y);
            }
            assert forall|y: u64| nodes@.contains(y) implies old_nodes.contains(y) || y == x by {
                let q = choose|q: int| 0 <= q < nodes@.len() && nodes@[q] == y;
                if q < old_nodes.len() {
                    assert(old_nodes[q] == y);
                }
            }
            assert(nodes@.contains(x));
            assert forall|y: u64| #[trigger] set@.contains(y) <==> nodes@.contains(y) by {}
        }
        j += 1;
    }
    proof {
        assert forall|x: u64| #[trigger] nodes@.contains(x) <==> ids@.contains(x) by {
            if ids@.contains(x) {
                let t = choose|t: int| 0 <= t < ids.len() && ids@[t] == x;
                assert(nodes@.contains(ids[t]));
            }
            if nodes@.contains(x) {
                let q = choose|q: int| 0 <= q < nodes.len() && nodes@[q] == x;
                assert(ids@.contains(nodes[q]));
            }
        }
    }
    nodes
}


/// An edge, weight 1, for every pair of ids listed together for one read.
fn chunk_edges(rnames: &Vec<usize>, ids: &Vec<u64>) -> (edges: Vec<Edge>)
    requires
        rnames.len() == ids.len(),
    ensures
        forall|e: int| 0 <= e < edges.len() ==> chunk_edge_sound(rnames@, ids@, #[trigger] edges[e]),
        forall|i: int, j: int|
            #[trigger] same_chunk(rnames@, i, j) ==> edge_present(edges@, ids[i], ids[j]),
{
    let n = rnames.len();
    let mut edges: Vec<Edge> = Vec::new();
    let mut s: usize = 0;
    while s < n
        invariant
            n == rnames.len(),
            n == ids.len(),
            0 <= s <= n,
            0 < s < n ==> rnames[s as int] != rnames[s - 1],
            forall|e: int| 0 <= e < edges.len() ==> chunk_edge_sound(rnames@, ids@, #[trigger] edges[e]),
            forall|i: int, j: int|
                #[trigger] same_chunk(rnames@, i, j) && j < s ==> edge_present(edges@, ids[i], ids[j]),
        decreases n - s,
    {
        let mut e: usize = s + 1;
        while e < n && rnames[e] == rnames[s]
            invariant
                s < e <= n,
                n == rnames.len(),
                forall|t: int| s <= t < e ==> #[trigger] rnames[t] == rnames[s as int],
            decreases n - e,
        {
            e += 1;
        }
        let mut i: usize = s;
        while i < e
            invariant
                n == rnames.len(),
                n == ids.len(),
                s <= i <= e <= n,
                0 < s < n ==> rnames[s as int] != rnames[s - 1],
                forall|t: int| s <= t < e ==> #[trigger] rnames[t] == rnames[s as int],
                forall|e2: int| 0 <= e2 < edges.len() ==> chunk_edge_sound(rnames@, ids@, #[trigger] edges[e2]),
                forall|i2: int, j2: int|
                    #[trigger] same_chunk(rnames@, i2, j2) && (j2 < s || (s <= i2 < i && j2 < e))
                        ==> edge_present(edges@, ids[i2], ids[j2]),
            decreases e - i,
        {
            let mut j: usize = i + 1;
            while j < e
                invariant
                    n == rnames.len(),
                    n == ids.len(),
                    s <= i < e <= n,
                    i + 1 <= j <= e,
                    0 < s < n ==> rnames[s as int] != rnames[s - 1],
                    forall|t: int| s <= t < e ==> #[trigger] rnames[t] == rnames[s as int],
                    forall|e2: int|
                        0 <= e2 < edges.len() ==> chunk_edge_sound(rnames@, ids@, #[trigger] edges[e2]),
                    forall|i2: int, j2: int|
                        #[trigger] same_chunk(rnames@, i2, j2) && (j2 < s || (s <= i2 < i && j2 < e) || (
                        i2 == i && j2 < j)) ==> edge_present(edges@, ids[i2], ids[j2]),
                decreases e - j,
            {
                let ghost old_edges = edges@;
                edges.push((ids[i], ids[j], 1));
                proof {
                    reveal(chunk_edge_sound);
                    reveal(edge_present);
                    assert(same_chunk(rnames@, i as int, j as int));
                    assert(edges@[old_edges.len() as int] == (ids[i as int], ids[j as int], 1i128));
                    assert forall|e2: int| 0 <= e2 < edges.len() implies chunk_edge_sound(
                        rnames@,
                        ids@,
                        #[trigger] edges[e2],
                    ) by {
                        if e2 < old_edges.len() {
                            assert(edges[e2] == old_edges[e2]);
                        }
                    }
                    assert forall|i2: int, j2: int|
                        #[trigger] same_chunk(rnames@, i2, j2) && (j2 < s || (s <= i2 < i && j2 < e) || (
                        i2 == i && j2 < j + 1)) implies edge_present(edges@, ids[i2], ids[j2]) by {
                        if i2 == i && j2 == j {
                        } else {
                            assert(edge_present(old_edges, ids[i2], ids[j2]));
                            let e3 = choose|e3: int|
                                0 <= e3 < old_edges.len() && (#[trigger] old_edges[e3]).0 == ids[i2]
                                    && old_edges[e3].1 == ids[j2];
                            assert(edges@[e3] == old_edges[e3]);
                        }
                    }
                }
                j += 1;
            }
            i += 1;
        }
        proof {
            assert forall|i2: int, j2: int| #[trigger] same_chunk(rnames@, i2, j2) && j2 < e implies edge_present(
                edges@,
                ids[i2],
                ids[j2],
            ) by {
                if j2 >= s && i2 < s {
                    assert(rnames[s as int] == rnames[i2]);
                    assert(rnames[s - 1] == rnames[i2]);
                }
            }
            if e < n {
                assert(rnames[e as int] != rnames[e - 1]);
            }
        }
        s = e;
    }
    edges
}

proof fn lemma_chunk_adj_equiv(rnames: Seq<usize>, ids: Seq<u64>, edges: Seq<Edge>, a: u64, b: u64)
    requires
        forall|e: int| 0 <= e < edges.len() ==> chunk_edge_sound(rnames, ids, #[trigger] edges[e]),
        forall|i: int, j: int| #[trigger] same_chunk(rnames, i, j) ==> edge_present(edges, ids[i], ids[j]),
    ensures
        id_adj(edges, a, b) <==> chunk_adj(rnames, ids, a, b),
{
    reveal(chunk_edge_sound);
    reveal(edge_present);
    if id_adj(edges, a, b) {
        let e = choose|e: int|
            0 <= e < edges.len() && ((#[trigger] edges[e].0 == a && edges[e].1 == b) || (edges[e].0
                == b && edges[e].1 == a));
        assert(chunk_edge_sound(rnames, ids, edges[e]));
    }
    if chunk_adj(rnames, ids, a, b) {
        let (i, j) = choose|i: int, j: int|
            #[trigger] same_chunk(rnames, i, j) && ((ids[i] == a && ids[j] == b) || (ids[i] == b
                && ids[j] == a));
        assert(edge_present(edges, ids[i], ids[j]));
        let e = choose|e: int| 0 <= e < edges.len() && (#[trigger] edges[e]).0 == ids[i] && edges[e].1 == ids[j];
        assert(edges[e].0 == ids[i]);
    }
}

/// The BED rows of a contig: the reads' id lists (`rnames[i]` and `ids[i]`
/// row by row, a read's ids on consecutive rows) make an undirected graph
/// with an edge for every pair of ids listed together for one read; each
/// connected component with more than two ids gives a row from its lowest
/// to its highest id.
pub fn get_contig_sunk_graph_components(ctg: usize, rnames: &Vec<usize>, ids: &Vec<u64>) -> (out: Vec<BedRow>)
    requires
        rnames.len() == ids.len(),
    ensures
        exists|nodes: Seq<u64>, edges: Seq<Edge>, cs: Seq<Seq<u64>>|
            contig_graph(rnames@, ids@, nodes, edges) && components_of(cs, nodes, edges) && out@
                == beds(ctg, cs),
{
    let nodes = distinct_ids(ids);
    let edges = chunk_edges(rnames, ids);
    proof {
        reveal(chunk_edge_sound);
        assert forall|e: int| 0 <= e < edges.len() implies nodes@.contains((#[trigger] edges[e]).0)
            && nodes@.contains(edges[e].1) by {
            assert(chunk_edge_sound(rnames@, ids@, edges[e]));
            let (i, j) = choose|i: int, j: int|
                #[trigger] same_chunk(rnames@, i, j) && edges[e].0 == ids[i] && edges[e].1 == ids[j];
            assert(ids@.contains(ids[i]));
            assert(ids@.contains(ids[j]));
        }
    }
    let comps = id_components(&nodes, &edges);
    let ghost cs = views(comps@);
    let mut out: Vec<BedRow> = Vec::new();
    let mut k: usize = 0;
    while k < comps.len()
        invariant
            0 <= k <= comps.len(),
            cs == views(comps@),
            out@ == beds(ctg, cs.take(k as int)),
        decreases comps.len() - k,
    {
        assert(cs.take(k + 1).drop_last() =~= cs.take(k as int));
        assert(cs[k as int] == comps[k as int]@);
        if comps[k].len() > 2 {
            let (lo, hi) = min_max(&comps[k]);
            out.push(BedRow { ctg, st: lo, end: hi, sunks: comps[k].len() as u64 });
        }
        k += 1;
    }
    proof {
        assert(cs.take(cs.len() as int) =~= cs);
        assert forall|a: u64, b: u64| #[trigger] id_adj(edges@, a, b) <==> chunk_adj(rnames@, ids@, a, b) by {
            lemma_chunk_adj_equiv(rnames@, ids@, edges@, a, b);
        }
        assert(contig_graph(rnames@, ids@, nodes@, edges@));
    }
    out
}


pub const MIN_READ_LEN: u64 = 10000;

pub open spec fn is_bad_id(bad: Seq<BadSunk>, ctg: usize, g: u64) -> bool {
    exists|q: int| 0 <= q < bad.len() && (#[trigger] bad[q]).ctg == ctg && bad[q].group == g
}

/// Row `x` lies on contig `ctg` and its group is not a bad SUNK.
pub open spec fn kept(x: ReadSunk, ctg: usize, bad: Seq<BadSunk>) -> bool {
    x.ctg == ctg && !is_bad_id(bad, ctg, x.group)
}

/// Order of a read's rows: by contig position, read position, then id.
pub open spec fn blk_lt(a: ReadSunk, b: ReadSunk) -> bool {
    a.cpos < b.cpos || (a.cpos == b.cpos && (a.rpos < b.rpos || (a.rpos == b.rpos && a.group
        < b.group)))
}

/// `blk` is the block of read `r`: its distinct kept rows, in `blk_lt` order.
pub open spec fn is_block(rows: Seq<ReadSunk>, ctg: usize, bad: Seq<BadSunk>, r: usize, blk: Seq<ReadSunk>) -> bool {
    &&& forall|t1: int, t2: int| 0 <= t1 < t2 < blk.len() ==> blk_lt(#[trigger] blk[t1], #[trigger] blk[t2])
    &&& forall|t: int|
        0 <= t < blk.len() ==> (#[trigger] blk[t]).read == r && kept(blk[t], ctg, bad) && rows.contains(blk[t])
    &&& forall|i: int|
        0 <= i < rows.len() && (#[trigger] rows[i]).read == r && kept(rows[i], ctg, bad) ==> blk.contains(rows[i])
}

/// The read is long enough and its block holds two distinct ids.
pub open spec fn qualifies(r: usize, blk: Seq<ReadSunk>, lens: Seq<u64>) -> bool {
    &&& r < lens.len()
    &&& lens[r as int] > MIN_READ_LEN
    &&& exists|t: int| 0 <= t < blk.len() && (#[trigger] blk[t]).group != blk[0].group
}

/// A read of the contig, its block, and the ids it contributes.
pub type Segment = (usize, Seq<ReadSunk>, Option<Seq<u64>>);

pub open spec fn seg_ok(rows: Seq<ReadSunk>, ctg: usize, bad: Seq<BadSunk>, lens: Seq<u64>, sg: Segment) -> bool {
    &&& is_block(rows, ctg, bad, sg.0, sg.1)
    &&& sg.1.len() > 0
    &&& (sg.2 is None <==> !(qualifies(sg.0, sg.1, lens) && any_band(sg.1)))
    &&& (sg.2 matches Some(c) ==> largest_of(sg.1, c))
}

pub open spec fn seg_reads(segs: Seq<Segment>) -> Seq<usize>
    decreases segs.len(),
{
    if segs.len() == 0 {
        Seq::empty()
    } else {
        let sg = segs.last();
        seg_reads(segs.drop_last()) + match sg.2 {
            Some(c) => Seq::new(c.len(), |q: int| sg.0),
            None => Seq::empty(),
        }
    }
}

pub open spec fn seg_ids(segs: Seq<Segment>) -> Seq<u64>
    decreases segs.len(),
{
    if segs.len() == 0 {
        Seq::empty()
    } else {
        seg_ids(segs.drop_last()) + match segs.last().2 {
            Some(c) => c,
            None => Seq::empty(),
        }
    }
}

/// The graph output of one contig: `(reads[q], ids[q])` lists the ids of the
/// largest component of each read, read by read; `bed` the contig's
/// components with more than two ids.
pub struct ContigGraph {
    pub reads: Vec<usize>,
    pub ids: Vec<u64>,
    pub bed: Vec<BedRow>,
}

fn bad_groups(ctg: usize, bad: &Vec<BadSunk>) -> (g: HashSet<u64>)
    ensures
        forall|x: u64| #[trigger] g@.contains(x) <==> is_bad_id(bad@, ctg, x),
{
    let mut g: HashSet<u64> = HashSet::new();
    let mut q: usize = 0;
    while q < bad.len()
        invariant
            0 <= q <= bad.len(),
            forall|x: u64| #[trigger] g@.contains(x) <==> is_bad_id(bad@.take(q as int), ctg, x),
        decreases bad.len() - q,
    {
        let ghost old_g = g@;
        if bad[q].ctg == ctg {
            g.insert(bad[q].group);
        }
        proof {
            assert forall|x: u64| #[trigger] g@.contains(x) <==> is_bad_id(bad@.take(q + 1), ctg, x) by {
                if is_bad_id(bad@.take(q + 1), ctg, x) {
                    let q2 = choose|q2: int| 0 <= q2 < q + 1 && (#[trigger] bad@.take(q + 1)[q2]).ctg == ctg && bad@.take(q + 1)[q2].group == x;
                    if q2 < q {
                        assert(bad@.take(q as int)[q2] == bad@.take(q + 1)[q2]);
                    }
                }
                if is_bad_id(bad@.take(q as int), ctg, x) {
                    let q2 = choose|q2: int| 0 <= q2 < q && (#[trigger] bad@.take(q as int)[q2]).ctg == ctg && bad@.take(q as int)[q2].group == x;
                    assert(bad@.take(q + 1)[q2] == bad@.take(q as int)[q2]);
                }
                if bad[q as int].ctg == ctg && x == bad[q as int].group {
                    assert(bad@.take(q + 1)[q as int] == bad[q as int]);
                }
            }
        }
        q += 1;
    }
    assert(bad@.take(bad.len() as int) =~= bad@);
    g
}

pub open spec fn key_of_row(x: ReadSunk) -> Key4 {
    (x.read as u64, x.cpos, x.rpos, x.group)
}

pub open spec fn row_of_key(k: Key4, ctg: usize) -> ReadSunk {
    ReadSunk { read: k.0 as usize, rpos: k.2, ctg, cpos: k.1, group: k.3 }
}

pub open spec fn key_from_rows(rows: Seq<ReadSunk>, ctg: usize, bad: Seq<BadSunk>, k: Key4) -> bool {
    exists|i: int| 0 <= i < rows.len() && kept(rows[i], ctg, bad) && k == key_of_row(#[trigger] rows[i])
}

/// The keys of the kept rows.
fn kept_keys(rows: &Vec<ReadSunk>, ctg: usize, bad: &Vec<BadSunk>) -> (keys: Vec<Key4>)
    ensures
        forall|t: int| 0 <= t < keys.len() ==> key_from_rows(rows@, ctg, bad@, #[trigger] keys[t]),
        forall|i: int|
            0 <= i < rows.len() && kept(#[trigger] rows[i], ctg, bad@) ==> keys@.contains(key_of_row(rows[i])),
        keys.len() <= rows.len(),
{
    let badg = bad_groups(ctg, bad);
    let mut keys: Vec<Key4> = Vec::new();
    let mut j: usize = 0;
    while j < rows.len()
        invariant
            0 <= j <= rows.len(),
            forall|x: u64| #[trigger] badg@.contains(x) <==> is_bad_id(bad@, ctg, x),
            forall|t: int| 0 <= t < keys.len() ==> key_from_rows(rows@, ctg, bad@, #[trigger] keys[t]),
            forall|i: int|
                0 <= i < j && kept(#[trigger] rows[i], ctg, bad@) ==> keys@.contains(key_of_row(rows[i])),
            keys.len() <= j,
        decreases rows.len() - j,
    {
        let x = rows[j];
        if x.ctg == ctg && !badg.contains(&x.group) {
            let ghost old_keys = keys@;
            keys.push((x.read as u64, x.cpos, x.rpos, x.group));
            proof {
                assert(keys@[old_keys.len() as int] == key_of_row(rows[j as int]));
                assert forall|i: int|
                    0 <= i < j + 1 && kept(#[trigger] rows[i], ctg, bad@) implies keys@.contains(key_of_row(rows[i])) by {
                    if i < j {
                        let t = choose|t: int| 0 <= t < old_keys.len() && old_keys[t] == key_of_row(rows[i]);
                        assert(keys@[t] == old_keys[t]);
                    }
                }
                assert forall|t: int| 0 <= t < keys.len() implies key_from_rows(rows@, ctg, bad@, #[trigger] keys[t]) by {
                    if t < old_keys.len() {
                        assert(keys[t] == old_keys[t]);
                    } else {
                        assert(kept(rows[j as int], ctg, bad@));
                        assert(keys[t] == key_of_row(rows@[j as int]));
                    }
                }
            }
        }
        j += 1;
    }
    keys
}

/// The rows of one read's run `b .. e` of sorted keys, without repeats.
fn block_rows(keys: &Vec<Key4>, b: usize, e: usize, ctg: usize) -> (blk: Vec<ReadSunk>)
    requires
        sorted4(keys@),
        b < e <= keys.len(),
        forall|t: int| b <= t < e ==> (#[trigger] keys[t]).0 == keys[b as int].0,
        keys[b as int].0 <= usize::MAX,
    ensures
        blk.len() > 0,
        forall|t1: int, t2: int| 0 <= t1 < t2 < blk.len() ==> blk_lt(#[trigger] blk[t1], #[trigger] blk[t2]),
        forall|t: int| 0 <= t < blk.len() ==> exists|u: int| b <= u < e && #[trigger] blk[t] == row_of_key(keys[u], ctg),
        forall|u: int| b <= u < e ==> blk@.contains(row_of_key(#[trigger] keys[u], ctg)),
{
    let mut blk: Vec<ReadSunk> = Vec::new();
    let mut t: usize = b;
    while t < e
        invariant
            sorted4(keys@),
            b <= t <= e <= keys.len(),
            forall|u: int| b <= u < e ==> (#[trigger] keys[u]).0 == keys[b as int].0,
            keys[b as int].0 <= usize::MAX,
            t > b ==> blk.len() > 0 && blk[blk.len() - 1] == row_of_key(keys[t - 1], ctg),
            t == b ==> blk.len() == 0,
            forall|t1: int, t2: int| 0 <= t1 < t2 < blk.len() ==> blk_lt(#[trigger] blk[t1], #[trigger] blk[t2]),
            forall|q: int| 0 <= q < blk.len() ==> exists|u: int| b <= u < t && #[trigger] blk[q] == row_of_key(keys[u], ctg),
            forall|u: int| b <= u < t ==> blk@.contains(row_of_key(#[trigger] keys[u], ctg)),
        decreases e - t,
    {
        let k = keys[t];
        let ghost old_blk = blk@;
        let prev = if t > b {
            keys[t - 1]
        } else {
            k
        };
        if t == b || k.0 != prev.0 || k.1 != prev.1 || k.2 != prev.2 || k.3 != prev.3 {
            let row = ReadSunk { read: k.0 as usize, rpos: k.2, ctg, cpos: k.1, group: k.3 };
            proof {
                if t > b {
                    assert(prev == keys[t - 1]);
                    assert(lex4_le(keys[t - 1], keys[t as int]));
                    assert(keys[t - 1].0 == k.0);
                    assert(blk_lt(old_blk[old_blk.len() - 1], row));
                    assert forall|q: int| 0 <= q < old_blk.len() implies blk_lt(old_blk[q], row) by {
                        if q < old_blk.len() - 1 {
                            assert(blk_lt(old_blk[q], old_blk[old_blk.len() - 1]));
                        }
                    }
                }
            }
            blk.push(row);
            proof {
                assert(blk@[old_blk.len() as int] == row);
                assert forall|u: int| b <= u < t + 1 implies blk@.contains(row_of_key(#[trigger] keys[u], ctg)) by {
                    if u < t {
                        let q = choose|q: int| 0 <= q < old_blk.len() && old_blk[q] == row_of_key(keys[u], ctg);
                        assert(blk@[q] == old_blk[q]);
                    }
                }
                assert forall|q: int| 0 <= q < blk.len() implies exists|u: int| b <= u < t + 1 && #[trigger] blk[q] == row_of_key(keys[u], ctg) by {
                    if q < old_blk.len() {
                        assert(blk[q] == old_blk[q]);
                    } else {
                        assert(blk[q] == row_of_key(keys[t as int], ctg));
                    }
                }
            }
        } else {
            proof {
                assert forall|u: int| b <= u < t + 1 implies blk@.contains(row_of_key(#[trigger] keys[u], ctg)) by {
                    if u == t {
                        assert(prev == keys[t - 1]);
                        assert(blk@[blk.len() - 1] == row_of_key(keys[t - 1], ctg));
                    }
                }
            }
        }
        t += 1;
    }
    blk
}


pub open spec fn seg_has(segs: Seq<Segment>, r: usize) -> bool {
    exists|k: int| 0 <= k < segs.len() && (#[trigger] segs[k]).0 == r
}

/// Builds the SUNK graph of contig `ctg`. Rows of other contigs and rows
/// whose `(ctg, group)` is a bad SUNK are dropped; the group is the SUNK id.
/// Each read with a kept row forms a block of its distinct kept rows,
/// ordered by contig then read position; a read longer than
/// `MIN_READ_LEN` whose block holds two distinct ids contributes the ids of
/// the largest component of its block. The contig's BED rows are the
/// components, with more than two ids, of the graph joining the ids listed
/// together for one read.
pub fn create_sunk_graph(
    ctg: usize,
    df_read_sunks: &Vec<ReadSunk>,
    read_lens: &Vec<u64>,
    df_bad_sunks: &Vec<BadSunk>,
) -> (res: ContigGraph)
    requires
        df_read_sunks.len() < 0x8000_0000,
        forall|i: int|
            0 <= i < df_read_sunks.len() ==> (#[trigger] df_read_sunks[i]).cpos <= u32::MAX
                && df_read_sunks[i].rpos <= u32::MAX && df_read_sunks[i].group <= u32::MAX,
    ensures
        exists|segs: Seq<Segment>|
            {
                &&& forall|k: int|
                    0 <= k < segs.len() ==> seg_ok(
                        df_read_sunks@,
                        ctg,
                        df_bad_sunks@,
                        read_lens@,
                        #[trigger] segs[k],
                    )
                &&& forall|k1: int, k2: int|
                    0 <= k1 < k2 < segs.len() ==> (#[trigger] segs[k1]).0 < (#[trigger] segs[k2]).0
                &&& forall|i: int|
                    0 <= i < df_read_sunks.len() && kept(#[trigger] df_read_sunks[i], ctg, df_bad_sunks@)
                        ==> seg_has(segs, df_read_sunks[i].read)
                &&& res.reads@ == seg_reads(segs)
                &&& res.ids@ == seg_ids(segs)
            },
        exists|nodes: Seq<u64>, edges: Seq<Edge>, cs: Seq<Seq<u64>>|
            contig_graph(res.reads@, res.ids@, nodes, edges) && components_of(cs, nodes, edges)
                && res.bed@ == beds(ctg, cs),
{
    let rows = df_read_sunks;
    let ghost rs = rows@;
    let ghost bs = df_bad_sunks@;
    let ghost ls = read_lens@;
    let mut keys = kept_keys(rows, ctg, df_bad_sunks);
    let ghost k0 = keys@;
    sort_keys(&mut keys);
    proof {
        assert forall|t: int| 0 <= t < keys.len() implies key_from_rows(rs, ctg, bs, #[trigger] keys[t]) by {
            lemma_perm_contains(k0, keys@, t);
            let t0 = choose|t0: int| 0 <= t0 < k0.len() && k0[t0] == keys[t];
        }
        assert(keys.len() == k0.len()) by {
            assert(keys@.to_multiset().len() == k0.to_multiset().len());
        }
    }
    let mut reads: Vec<usize> = Vec::new();
    let mut ids: Vec<u64> = Vec::new();
    let ghost mut segs: Seq<Segment> = Seq::empty();
    let n = keys.len();
    let mut b: usize = 0;
    while b < n
        invariant
            n == keys.len(),
            n < 0x8000_0000,
            0 <= b <= n,
            rs == rows@,
            bs == df_bad_sunks@,
            ls == read_lens@,
            sorted4(keys@),
            forall|i: int|
                0 <= i < rs.len() ==> (#[trigger] rs[i]).cpos <= u32::MAX && rs[i].rpos <= u32::MAX
                    && rs[i].group <= u32::MAX,
            forall|t: int| 0 <= t < keys.len() ==> key_from_rows(rs, ctg, bs, #[trigger] keys[t]),
            0 < b < n ==> keys[b - 1].0 < keys[b as int].0,
            forall|k: int| 0 <= k < segs.len() ==> seg_ok(rs, ctg, bs, ls, #[trigger] segs[k]),
            forall|k1: int, k2: int| 0 <= k1 < k2 < segs.len() ==> (#[trigger] segs[k1]).0 < (#[trigger] segs[k2]).0,
            b < n ==> forall|k: int| 0 <= k < segs.len() ==> (#[trigger] segs[k]).0 < keys[b as int].0,
            forall|t: int| 0 <= t < b ==> seg_has(segs, (#[trigger] keys[t]).0 as usize),
            reads@ == seg_reads(segs),
            ids@ == seg_ids(segs),
            reads.len() == ids.len(),
            forall|i: int| 0 <= i < rs.len() && kept(#[trigger] rs[i], ctg, bs) ==> k0.contains(key_of_row(rs[i])),
            k0.to_multiset() == keys@.to_multiset(),
        decreases n - b,
    {
        let r64 = keys[b].0;
        let mut e: usize = b + 1;
        while e < n && keys[e].0 == r64
            invariant
                b < e <= n,
                n == keys.len(),
                r64 == keys[b as int].0,
                forall|t: int| b <= t < e ==> (#[trigger] keys[t]).0 == r64,
            decreases n - e,
        {
            e += 1;
        }
        proof {
            assert(key_from_rows(rs, ctg, bs, keys[b as int]));
        }
        let blk = block_rows(&keys, b, e, ctg);
        let r = r64 as usize;
        proof {
            assert forall|t: int| 0 <= t < blk.len() implies (#[trigger] blk[t]).read == r && kept(blk[t], ctg, bs)
                && rs.contains(blk[t]) && blk[t].cpos <= u32::MAX && blk[t].rpos <= u32::MAX && blk[t].group <= u32::MAX by {
                let u = choose|u: int| b <= u < e && #[trigger] blk[t] == row_of_key(keys[u], ctg);
                assert(key_from_rows(rs, ctg, bs, keys[u]));
                let i = choose|i: int| 0 <= i < rs.len() && kept(rs[i], ctg, bs) && keys[u] == key_of_row(#[trigger] rs[i]);
                assert(blk[t] == rs[i]);
            }
            assert forall|i: int|
                0 <= i < rs.len() && (#[trigger] rs[i]).read == r && kept(rs[i], ctg, bs) implies blk@.contains(rs[i]) by {
                assert(k0.contains(key_of_row(rs[i])));
                let t0 = choose|t0: int| 0 <= t0 < k0.len() && k0[t0] == key_of_row(rs[i]);
                lemma_perm_contains(keys@, k0, t0);
                let u = choose|u: int| 0 <= u < keys.len() && keys@[u] == key_of_row(rs[i]);
                if u < b {
                    assert(lex4_le(keys[u], keys[b - 1]));
                }
                if u >= e {
                    assert(keys[e as int].0 != r64);
                    assert(lex4_le(keys[b as int], keys[e as int]));
                    if u > e {
                        assert(lex4_le(keys[e as int], keys[u]));
                    }
                }
                assert(row_of_key(keys[u], ctg) == rs[i]);
            }
            assert(is_block(rs, ctg, bs, r, blk@));
            assert(small_rows(blk@)) by {
                assert(blk.len() <= e - b) by {
                    let m = blk.len();
                    assert(blk@.no_duplicates()) by {
                        assert forall|t1: int, t2: int| 0 <= t1 < blk.len() && 0 <= t2 < blk.len() && t1 != t2 implies blk@[t1] != blk@[t2] by {
                            if t1 < t2 {
                                assert(blk_lt(blk[t1], blk[t2]));
                            } else {
                                assert(blk_lt(blk[t2], blk[t1]));
                            }
                        }
                    }
                    let rowsrc = Seq::new((e - b) as nat, |u: int| row_of_key(keys[b + u], ctg));
                    assert forall|x: int| 0 <= x < blk@.len() implies rowsrc.contains(#[trigger] blk@[x]) by {
                        let u = choose|u: int| b <= u < e && #[trigger] blk[x] == row_of_key(keys[u], ctg);
                        assert(rowsrc[u - b] == blk[x]);
                    }
                    blk@.unique_seq_to_set();
                    assert(blk@.to_set().subset_of(rowsrc.to_set()));
                    rowsrc.lemma_cardinality_of_set();
                    vstd::set_lib::lemma_len_subset(blk@.to_set(), rowsrc.to_set());
                }
            }
        }
        let mut two = false;
        let mut t: usize = 0;
        while t < blk.len()
            invariant
                0 <= t <= blk.len(),
                blk.len() > 0,
                two <==> exists|t2: int| 0 <= t2 < t && (#[trigger] blk[t2]).group != blk[0].group,
            decreases blk.len() - t,
        {
            if blk[t].group != blk[0].group {
                two = true;
            }
            t += 1;
        }
        let qual = r < read_lens.len() && read_lens[r] > MIN_READ_LEN && two;
        let res_opt = if qual {
            get_read_largest_sunk_graph_component(&blk)
        } else {
            None
        };
        let ghost old_segs = segs;
        let ghost old_reads = reads@;
        let ghost old_ids = ids@;
        match res_opt {
            Some(c) => {
                let mut q: usize = 0;
                while q < c.len()
                    invariant
                        0 <= q <= c.len(),
                        reads@ == old_reads + Seq::new(q as nat, |x: int| r),
                        ids@ == old_ids + c@.take(q as int),
                        old_reads.len() == old_ids.len(),
                    decreases c.len() - q,
                {
                    reads.push(r);
                    ids.push(c[q]);
                    assert(reads@ =~= old_reads + Seq::new((q + 1) as nat, |x: int| r));
                    assert(ids@ =~= old_ids + c@.take(q + 1));
                    q += 1;
                }
                proof {
                    assert(c@.take(c.len() as int) =~= c@);
                    segs = segs.push((r, blk@, Some(c@)));
                    assert(segs.drop_last() =~= old_segs);
                    assert(reads@ =~= seg_reads(segs));
                    assert(ids@ =~= seg_ids(segs));
                }
            },
            None => {
                proof {
                    segs = segs.push((r, blk@, None));
                    assert(segs.drop_last() =~= old_segs);
                    assert(reads@ =~= seg_reads(segs));
                    assert(ids@ =~= seg_ids(segs));
                }
            },
        }
        proof {
            assert(seg_ok(rs, ctg, bs, ls, segs[segs.len() - 1]));
            assert forall|k: int| 0 <= k < segs.len() implies seg_ok(rs, ctg, bs, ls, #[trigger] segs[k]) by {
                if k < old_segs.len() {
                    assert(segs[k] == old_segs[k]);
                }
            }
            assert forall|k1: int, k2: int| 0 <= k1 < k2 < segs.len() implies (#[trigger] segs[k1]).0 < (#[trigger] segs[k2]).0 by {
                if k2 < old_segs.len() {
                    assert(segs[k1] == old_segs[k1]);
                    assert(segs[k2] == old_segs[k2]);
                } else {
                    assert(segs[k1] == old_segs[k1]);
                }
            }
            assert forall|t2: int| 0 <= t2 < e implies seg_has(segs, (#[trigger] keys[t2]).0 as usize) by {
                if t2 < b {
                    assert(seg_has(old_segs, keys[t2].0 as usize));
                    let k = choose|k: int| 0 <= k < old_segs.len() && (#[trigger] old_segs[k]).0 == keys[t2].0 as usize;
                    assert(segs[k] == old_segs[k]);
                } else {
                    assert(segs[segs.len() - 1].0 == r);
                }
            }
            if e < n {
                assert(keys[e as int].0 != r64);
                assert(lex4_le(keys[b as int], keys[e as int]));
                assert forall|k: int| 0 <= k < segs.len() implies (#[trigger] segs[k]).0 < keys[e as int].0 by {
                    if k < old_segs.len() {
                        assert(segs[k] == old_segs[k]);
                    }
                }
                assert(keys[e - 1].0 == r64);
            }
        }
        b = e;
    }
    proof {
        assert forall|i: int| 0 <= i < rs.len() && kept(#[trigger] rs[i], ctg, bs) implies seg_has(segs, rs[i].read) by {
            assert(k0.contains(key_of_row(rs[i])));
            let t0 = choose|t0: int| 0 <= t0 < k0.len() && k0[t0] == key_of_row(rs[i]);
            lemma_perm_contains(keys@, k0, t0);
            let u = choose|u: int| 0 <= u < keys.len() && keys@[u] == key_of_row(rs[i]);
            assert(seg_has(segs, keys[u].0 as usize));
        }
    }
    let bed = get_contig_sunk_graph_components(ctg, &reads, &ids);
    ContigGraph { reads, ids, bed }
}


proof fn lemma_min_max_bounds(s: Seq<u64>)
    requires
        s.len() > 0,
    ensures
        s.contains(seq_min(s)),
        s.contains(seq_max(s)),
        forall|x: int| 0 <= x < s.len() ==> seq_min(s) <= #[trigger] s[x] <= seq_max(s),
    decreases s.len(),
{
    if s.len() > 1 {
        let p = s.drop_last();
        lemma_min_max_bounds(p);
        assert forall|x: int| 0 <= x < s.len() implies seq_min(s) <= #[trigger] s[x] <= seq_max(s) by {
            if x < s.len() - 1 {
                assert(s[x] == p[x]);
            }
        }
        let i = choose|i: int| 0 <= i < p.len() && p[i] == seq_min(p);
        let j = choose|j: int| 0 <= j < p.len() && p[j] == seq_max(p);
        assert(s[i] == p[i]);
        assert(s[j] == p[j]);
        assert(s[s.len() - 1] == s.last());
    } else {
        assert(s[0] == seq_min(s));
    }
}

/// Every BED row comes from a component with at least three ids, spans
/// from the component's lowest id to its highest, so `st <= end`, and
/// counts the component's ids.
pub proof fn lemma_bed_rows(ctg: usize, cs: Seq<Seq<u64>>)
    requires
        forall|k: int| 0 <= k < cs.len() ==> (#[trigger] cs[k]).len() <= u64::MAX,
    ensures
        forall|q: int|
            0 <= q < beds(ctg, cs).len() ==> {
                let row = #[trigger] beds(ctg, cs)[q];
                &&& row.ctg == ctg
                &&& row.sunks >= 3
                &&& row.st <= row.end
                &&& exists|k: int|
                    0 <= k < cs.len() && (#[trigger] cs[k]).len() == row.sunks && cs[k].contains(row.st)
                        && cs[k].contains(row.end) && row.st == seq_min(cs[k]) && row.end == seq_max(cs[k])
                        && forall|x: int| 0 <= x < cs[k].len() ==> row.st <= #[trigger] cs[k][x] <= row.end
            },
    decreases cs.len(),
{
    if cs.len() > 0 {
        let p = cs.drop_last();
        assert forall|k: int| 0 <= k < p.len() implies (#[trigger] p[k]).len() <= u64::MAX by {
            assert(p[k] == cs[k]);
        }
        lemma_bed_rows(ctg, p);
        let c = cs.last();
        let prev = beds(ctg, p);
        let all = beds(ctg, cs);
        if c.len() > 2 {
            lemma_min_max_bounds(c);
        }
        assert forall|q: int| 0 <= q < all.len() implies {
            let row = #[trigger] all[q];
            &&& row.ctg == ctg
            &&& row.sunks >= 3
            &&& row.st <= row.end
            &&& exists|k: int|
                0 <= k < cs.len() && (#[trigger] cs[k]).len() == row.sunks && cs[k].contains(row.st)
                    && cs[k].contains(row.end) && row.st == seq_min(cs[k]) && row.end == seq_max(cs[k])
                    && forall|x: int| 0 <= x < cs[k].len() ==> row.st <= #[trigger] cs[k][x] <= row.end
        } by {
            if q < prev.len() {
                assert(all[q] == prev[q]);
                let row = prev[q];
                let k = choose|k: int|
                    0 <= k < p.len() && (#[trigger] p[k]).len() == row.sunks && p[k].contains(row.st)
                        && p[k].contains(row.end) && row.st == seq_min(p[k]) && row.end == seq_max(p[k])
                        && forall|x: int| 0 <= x < p[k].len() ==> row.st <= #[trigger] p[k][x] <= row.end;
                assert(cs[k] == p[k]);
            } else {
                let k = cs.len() - 1;
                assert(cs[k] == c);
                let i = choose|i: int| 0 <= i < c.len() && c[i] == seq_min(c);
                assert(seq_min(c) <= c[i] <= seq_max(c));
            }
        }
    }
}


/// The lists of a contig without the rows of SUNK id `x`.
pub open spec fn drop_id(rn: Seq<usize>, ids: Seq<u64>, x: u64) -> (Seq<usize>, Seq<u64>)
    decreases ids.len(),
{
    if ids.len() == 0 || rn.len() == 0 {
        (Seq::empty(), Seq::empty())
    } else {
        let p = drop_id(rn.drop_last(), ids.drop_last(), x);
        if ids.last() == x {
            p
        } else {
            (p.0.push(rn.last()), p.1.push(ids.last()))
        }
    }
}

/// Each read's rows are consecutive.
pub open spec fn reads_contiguous(rn: Seq<usize>) -> bool {
    forall|i: int, j: int, t: int|
        0 <= i <= t <= j < rn.len() && #[trigger] rn[i] == #[trigger] rn[j] ==> #[trigger] rn[t] == rn[i]
}

pub open spec fn chunk_path(rn: Seq<usize>, ids: Seq<u64>, p: Seq<u64>) -> bool {
    p.len() >= 1 && forall|i: int| 0 <= i < p.len() - 1 ==> #[trigger] chunk_adj(rn, ids, p[i], p[i + 1])
}

/// A path of ids listed together for one read joins `a` and `b`.
pub open spec fn chunk_connected(rn: Seq<usize>, ids: Seq<u64>, a: u64, b: u64) -> bool {
    exists|p: Seq<u64>| #[trigger] chunk_path(rn, ids, p) && p[0] == a && p.last() == b
}

proof fn lemma_drop_len(rn: Seq<usize>, ids: Seq<u64>, x: u64)
    requires
        rn.len() == ids.len(),
    ensures
        drop_id(rn, ids, x).0.len() == drop_id(rn, ids, x).1.len(),
        drop_id(rn, ids, x).0.len() <= rn.len(),
    decreases ids.len(),
{
    if ids.len() > 0 {
        lemma_drop_len(rn.drop_last(), ids.drop_last(), x);
    }
}

proof fn lemma_drop_one(rn: Seq<usize>, ids: Seq<u64>, x: u64, i2: int)
    requires
        rn.len() == ids.len(),
        0 <= i2 < drop_id(rn, ids, x).0.len(),
    ensures
        exists|i: int|
            0 <= i < rn.len() && rn[i] == drop_id(rn, ids, x).0[i2] && #[trigger] ids[i] == drop_id(rn, ids, x).1[i2],
    decreases ids.len(),
{
    let (pr, pi) = (rn.drop_last(), ids.drop_last());
    let p = drop_id(pr, pi, x);
    lemma_drop_len(pr, pi, x);
    if ids.last() == x || i2 < p.0.len() {
        lemma_drop_one(pr, pi, x, i2);
        let i = choose|i: int| 0 <= i < pr.len() && pr[i] == p.0[i2] && #[trigger] pi[i] == p.1[i2];
        assert(rn[i] == pr[i] && ids[i] == pi[i]);
    } else {
        assert(ids[ids.len() - 1] == ids.last());
    }
}

proof fn lemma_drop_pair(rn: Seq<usize>, ids: Seq<u64>, x: u64, i2: int, j2: int)
    requires
        rn.len() == ids.len(),
        0 <= i2 < j2 < drop_id(rn, ids, x).0.len(),
    ensures
        exists|i: int, j: int|
            #![trigger rn[i], rn[j]]
            0 <= i < j < rn.len() && rn[i] == drop_id(rn, ids, x).0[i2] && ids[i] == drop_id(rn, ids, x).1[i2]
                && rn[j] == drop_id(rn, ids, x).0[j2] && ids[j] == drop_id(rn, ids, x).1[j2],
    decreases ids.len(),
{
    let (pr, pi) = (rn.drop_last(), ids.drop_last());
    let p = drop_id(pr, pi, x);
    lemma_drop_len(pr, pi, x);
    if ids.last() == x || j2 < p.0.len() {
        lemma_drop_pair(pr, pi, x, i2, j2);
        let (i, j) = choose|i: int, j: int|
            #![trigger pr[i], pr[j]]
            0 <= i < j < pr.len() && pr[i] == p.0[i2] && pi[i] == p.1[i2] && pr[j] == p.0[j2]
                && pi[j] == p.1[j2];
        assert(rn[i] == pr[i] && ids[i] == pi[i] && rn[j] == pr[j] && ids[j] == pi[j]);
    } else {
        lemma_drop_one(pr, pi, x, i2);
        let i = choose|i: int| 0 <= i < pr.len() && pr[i] == p.0[i2] && #[trigger] pi[i] == p.1[i2];
        let j = ids.len() - 1;
        assert(rn[i] == pr[i] && ids[i] == pi[i]);
        assert(rn[j] == rn.last() && ids[j] == ids.last());
    }
}

/// Dropping the rows of one SUNK id from a contig's lists, where each read's
/// ids stand on consecutive rows, introduces no new edge.
pub proof fn lemma_drop_id_no_new_edge(rn: Seq<usize>, ids: Seq<u64>, x: u64, a: u64, b: u64)
    requires
        rn.len() == ids.len(),
        reads_contiguous(rn),
        chunk_adj(drop_id(rn, ids, x).0, drop_id(rn, ids, x).1, a, b),
    ensures
        chunk_adj(rn, ids, a, b),
{
    let d = drop_id(rn, ids, x);
    let (i2, j2) = choose|i2: int, j2: int|
        #[trigger] same_chunk(d.0, i2, j2) && ((d.1[i2] == a && d.1[j2] == b) || (d.1[i2] == b
            && d.1[j2] == a));
    lemma_drop_pair(rn, ids, x, i2, j2);
    let (i, j) = choose|i: int, j: int|
        #![trigger rn[i], rn[j]]
        0 <= i < j < rn.len() && rn[i] == d.0[i2] && ids[i] == d.1[i2] && rn[j] == d.0[j2]
            && ids[j] == d.1[j2];
    assert(d.0[j2] == d.0[i2]);
    assert forall|t: int| i <= t <= j implies #[trigger] rn[t] == rn[i] by {
        assert(rn[i] == rn[j]);
    }
    assert(same_chunk(rn, i, j));
}

/// Components only shrink or vanish: ids that a path joins once the rows of
/// one id are dropped were joined before, so each component after the drop
/// lies within a component before it.
pub proof fn lemma_drop_id_no_new_connection(rn: Seq<usize>, ids: Seq<u64>, x: u64, a: u64, b: u64)
    requires
        rn.len() == ids.len(),
        reads_contiguous(rn),
        chunk_connected(drop_id(rn, ids, x).0, drop_id(rn, ids, x).1, a, b),
    ensures
        chunk_connected(rn, ids, a, b),
{
    let d = drop_id(rn, ids, x);
    let p = choose|p: Seq<u64>| #[trigger] chunk_path(d.0, d.1, p) && p[0] == a && p.last() == b;
    assert forall|i: int| 0 <= i < p.len() - 1 implies #[trigger] chunk_adj(rn, ids, p[i], p[i + 1]) by {
        assert(chunk_adj(d.0, d.1, p[i], p[i + 1]));
        lemma_drop_id_no_new_edge(rn, ids, x, p[i], p[i + 1]);
    }
    assert(chunk_path(rn, ids, p));
}

} // verus!
