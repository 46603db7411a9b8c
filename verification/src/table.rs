//! The sparse distance table handed to callers: topic ids paired with the
//! dense matrix of `crate::dist`, looked up by id, with the sentinel mapped
//! to absence.

use vstd::prelude::*;

use crate::dist;
use crate::dist::INF;
use crate::seqs::distinct;
use crate::seqs::find_first;
use crate::seqs::lemma_find_first;
use crate::seqs::lemma_find_first_is;

verus! {

/// Index pairs of the edges whose both endpoints occur in `nodes`.
pub open spec fn idx_edges(nodes: Seq<Seq<char>>, edges: Seq<(Seq<char>, Seq<char>)>) -> Seq<
    (usize, usize),
>
    decreases edges.len(),
{
    if edges.len() == 0 {
        Seq::empty()
    } else {
        let rest = idx_edges(nodes, edges.drop_last());
        let e = edges.last();
        if nodes.contains(e.0) && nodes.contains(e.1) {
            rest.push((find_first(nodes, e.0) as usize, find_first(nodes, e.1) as usize))
        } else {
            rest
        }
    }
}

/// The distance between topics `x` and `y` over the given node enumeration
/// and edge list: absent when either topic is unknown or no path connects
/// them.
pub open spec fn table_distance(
    nodes: Seq<Seq<char>>,
    edges: Seq<(Seq<char>, Seq<char>)>,
    x: Seq<char>,
    y: Seq<char>,
) -> Option<u32> {
    if nodes.contains(x) && nodes.contains(y) {
        let d = dist::fw_matrix(nodes.len(), idx_edges(nodes, edges))[find_first(
            nodes,
            x,
        )][find_first(nodes, y)];
        if d < INF {
            Some(d)
        } else {
            None
        }
    } else {
        None
    }
}

proof fn lemma_idx_edges_ok(nodes: Seq<Seq<char>>, edges: Seq<(Seq<char>, Seq<char>)>)
    ensures
        dist::edges_ok(idx_edges(nodes, edges), nodes.len()),
    decreases edges.len(),
{
    if edges.len() > 0 {
        lemma_idx_edges_ok(nodes, edges.drop_last());
        let e = edges.last();
        if nodes.contains(e.0) && nodes.contains(e.1) {
            lemma_find_first(nodes, e.0);
            lemma_find_first(nodes, e.1);
        }
    }
}

/// All-pairs shortest-path distances over the topic ids that `nodes`
/// enumerates, with unit cost per edge.
#[derive(Debug)]
pub struct DistTable {
    nodes: Vec<String>,
    dist: Vec<Vec<u32>>,
}

impl DistTable {
    /// The enumeration of topic ids backing the table.
    pub closed spec fn nodes_view(self) -> Seq<Seq<char>> {
        self.nodes.deep_view()
    }

    /// The dense matrix backing the table.
    pub closed spec fn matrix(self) -> Seq<Seq<u32>> {
        dist::mat_view(self.dist)
    }

    /// The table's invariant: distinct ids, and a square matrix with zero
    /// diagonal, symmetry, bounded entries and the triangle inequality.
    pub open spec fn wf(self) -> bool {
        &&& distinct(self.nodes_view())
        &&& dist::wf_matrix(self.matrix(), self.nodes_view().len())
        &&& dist::triangle_upto(
            self.matrix(),
            self.nodes_view().len(),
            self.nodes_view().len() as int,
        )
    }

    /// Whether topic `x` is a key of the table.
    pub open spec fn contains_node(self, x: Seq<char>) -> bool {
        self.nodes_view().contains(x)
    }

    /// The table entry for `(x, y)`: a distance, or `None` when either topic
    /// is unknown or `y` is unreachable from `x`.
    pub open spec fn spec_distance(self, x: Seq<char>, y: Seq<char>) -> Option<u32> {
        if self.contains_node(x) && self.contains_node(y) {
            let d = self.matrix()[find_first(self.nodes_view(), x)][find_first(
                self.nodes_view(),
                y,
            )];
            if d < INF {
                Some(d)
            } else {
                None
            }
        } else {
            None
        }
    }

    /// The topic ids known to the table, in the enumeration order.
    pub fn node_list(&self) -> (r: &Vec<String>)
        ensures
            r.deep_view() == self.nodes_view(),
    {
        &self.nodes
    }

    /// Look the distance between `x` and `y` up.
    pub fn distance(&self, x: &String, y: &String) -> (r: Option<u32>)
        ensures
            self.wf() ==> r == self.spec_distance(x@, y@),
    {
        let i = match find_index(&self.nodes, x) {
            Some(i) => i,
            None => {
                return None;
            },
        };
        let j = match find_index(&self.nodes, y) {
            Some(j) => j,
            None => {
                return None;
            },
        };
        if i < self.dist.len() {
            let row = copy_row_len_checked(&self.dist, i, j);
            if let Some(d) = row {
                if d < INF {
                    return Some(d);
                }
            }
        }
        None
    }

    /// Every topic known to the table is at distance zero from itself.
    pub proof fn lemma_self_distance_zero(self, x: Seq<char>)
        requires
            self.wf(),
            self.contains_node(x),
        ensures
            self.spec_distance(x, x) == Some(0u32),
    {
        lemma_find_first(self.nodes_view(), x);
    }

    /// The table is symmetric: the entry for `(x, y)` equals the entry for
    /// `(y, x)`, absence included.
    pub proof fn lemma_distance_symmetric(self, x: Seq<char>, y: Seq<char>)
        requires
            self.wf(),
        ensures
            self.spec_distance(x, y) == self.spec_distance(y, x),
    {
        if self.contains_node(x) && self.contains_node(y) {
            lemma_find_first(self.nodes_view(), x);
            lemma_find_first(self.nodes_view(), y);
        }
    }

    /// Triangle inequality: when all three entries are present, the direct
    /// distance is at most the distance through the intermediate topic.
    pub proof fn lemma_distance_triangle(self, x: Seq<char>, y: Seq<char>, k: Seq<char>)
        requires
            self.wf(),
            self.spec_distance(x, y) is Some,
            self.spec_distance(x, k) is Some,
            self.spec_distance(k, y) is Some,
        ensures
            self.spec_distance(x, y)->Some_0 as int <= self.spec_distance(x, k)->Some_0 as int
                + self.spec_distance(k, y)->Some_0 as int,
    {
        let ns = self.nodes_view();
        let m = self.matrix();
        lemma_find_first(ns, x);
        lemma_find_first(ns, y);
        lemma_find_first(ns, k);
        let i = find_first(ns, x);
        let j = find_first(ns, y);
        let a = find_first(ns, k);
        assert(m[i][j] <= dist::sat(m[i][a], m[a][j]));
    }
}

/// Position of id `x` in `nodes`, scanning from the front.
pub(crate) fn find_index(nodes: &Vec<String>, x: &String) -> (r: Option<usize>)
    ensures
        (match r {
            Some(i) => i as int == find_first(nodes.deep_view(), x@) && i < nodes@.len()
                && nodes.deep_view().contains(x@),
            None => !nodes.deep_view().contains(x@),
        }),
{
    let ghost ns = nodes.deep_view();
    let mut i: usize = 0;
    while i < nodes.len()
        invariant
            i <= nodes@.len(),
            ns == nodes.deep_view(),
            ns.len() == nodes@.len(),
            forall|t: int| 0 <= t < i ==> ns[t] != x@,
        decreases nodes@.len() - i,
    {
        assert(ns[i as int] == nodes@[i as int]@);
        if nodes[i].eq(x) {
            proof {
                lemma_find_first_is(ns, x@, i as int);
                assert(ns.contains(x@));
            }
            return Some(i);
        }
        i += 1;
    }
    proof {
        lemma_find_first_is(ns, x@, ns.len() as int);
        lemma_find_first(ns, x@);
    }
    None
}

/// Entry `(i, j)` of the matrix, when row `i` is long enough.
fn copy_row_len_checked(m: &Vec<Vec<u32>>, i: usize, j: usize) -> (r: Option<u32>)
    requires
        i < m@.len(),
    ensures
        (match r {
            Some(d) => j < m@[i as int]@.len() && d == m@[i as int]@[j as int],
            None => j >= m@[i as int]@.len(),
        }),
{
    if j < m[i].len() {
        Some(m[i][j])
    } else {
        None
    }
}

/// Build the distance table for the given topic ids and undirected edges.
///
/// The resulting table is exactly `table_distance` over the views of the
/// inputs: every topic at distance zero from itself, distances symmetric,
/// edges at distance one unless equal, unreachable pairs absent.
pub fn floyd_warshall(nodes: &Vec<String>, edges: &Vec<(String, String)>) -> (t: DistTable)
    requires
        distinct(nodes.deep_view()),
    ensures
        t.wf(),
        t.nodes_view() == nodes.deep_view(),
        forall|x: Seq<char>, y: Seq<char>| #[trigger] t.spec_distance(x, y) == table_distance(
            nodes.deep_view(),
            edges.deep_view(),
            x,
            y,
        ),
{
    let ghost ns = nodes.deep_view();
    let ghost es = edges.deep_view();
    let n = nodes.len();
    assert(ns.len() == n);
    let mut idx: Vec<(usize, usize)> = Vec::new();
    let mut t: usize = 0;
    while t < edges.len()
        invariant
            t <= edges@.len(),
            ns == nodes.deep_view(),
            es == edges.deep_view(),
            es.len() == edges@.len(),
            n == ns.len(),
            idx@ == idx_edges(ns, es.subrange(0, t as int)),
        decreases edges@.len() - t,
    {
        let ghost prefix = es.subrange(0, t as int);
        assert(es[t as int] == (edges@[t as int].0@, edges@[t as int].1@));
        let ia = find_index(nodes, &edges[t].0);
        let ib = find_index(nodes, &edges[t].1);
        match (ia, ib) {
            (Some(a), Some(b)) => {
                idx.push((a, b));
            },
            _ => {},
        }
        proof {
            assert(es.subrange(0, t + 1).drop_last() =~= prefix);
            assert(es.subrange(0, t + 1).last() == es[t as int]);
        }
        t += 1;
    }
    assert(es.subrange(0, es.len() as int) =~= es);
    proof {
        lemma_idx_edges_ok(ns, es);
    }
    let dist = dist::apsp(n, &idx);
    let out = DistTable { nodes: clone_ids(nodes), dist };
    proof {
        assert(out.nodes_view() =~~= ns);
        assert(out.matrix() == dist::fw_matrix(n as nat, idx_edges(ns, es)));
        assert forall|x: Seq<char>, y: Seq<char>| #[trigger] out.spec_distance(x, y)
            == table_distance(ns, es, x, y) by {}
    }
    out
}

/// Copy a list of topic ids.
fn clone_ids(nodes: &Vec<String>) -> (r: Vec<String>)
    ensures
        r.deep_view() =~= nodes.deep_view(),
{
    let mut r: Vec<String> = Vec::new();
    let mut i: usize = 0;
    while i < nodes.len()
        invariant
            i <= nodes@.len(),
            r@.len() == i,
            forall|t: int| 0 <= t < i ==> r.deep_view()[t] == nodes.deep_view()[t],
        decreases nodes@.len() - i,
    {
        r.push(nodes[i].clone());
        i += 1;
    }
    r
}


proof fn lemma_idx_edges_has(nodes: Seq<Seq<char>>, edges: Seq<(Seq<char>, Seq<char>)>, t: int)
    requires
        0 <= t < edges.len(),
        nodes.contains(edges[t].0),
        nodes.contains(edges[t].1),
    ensures
        idx_edges(nodes, edges).contains(
            (find_first(nodes, edges[t].0) as usize, find_first(nodes, edges[t].1) as usize),
        ),
    decreases edges.len(),
{
    let rest = edges.drop_last();
    let pair = (find_first(nodes, edges[t].0) as usize, find_first(nodes, edges[t].1) as usize);
    if t == edges.len() - 1 {
        let r = idx_edges(nodes, rest);
        assert(idx_edges(nodes, edges)[r.len() as int] == pair);
        assert(idx_edges(nodes, edges).contains(pair));
    } else {
        assert(rest[t] == edges[t]);
        lemma_idx_edges_has(nodes, rest, t);
        let w = choose|w: int|
            0 <= w < idx_edges(nodes, rest).len() && idx_edges(nodes, rest)[w] == pair;
        assert(idx_edges(nodes, edges)[w] == pair);
        assert(idx_edges(nodes, edges).contains(pair));
    }
}

/// Two distinct topics joined by an edge are at distance exactly one.
pub proof fn lemma_edge_distance_one(
    nodes: Seq<Seq<char>>,
    edges: Seq<(Seq<char>, Seq<char>)>,
    t: int,
)
    requires
        nodes.len() <= usize::MAX,
        0 <= t < edges.len(),
        nodes.contains(edges[t].0),
        nodes.contains(edges[t].1),
        edges[t].0 != edges[t].1,
    ensures
        table_distance(nodes, edges, edges[t].0, edges[t].1) == Some(1u32),
{
    let x = edges[t].0;
    let y = edges[t].1;
    lemma_find_first(nodes, x);
    lemma_find_first(nodes, y);
    let ia = find_first(nodes, x);
    let ib = find_first(nodes, y);
    assert(nodes[ia] == x && nodes[ib] == y);
    assert(ia != ib);
    lemma_idx_edges_has(nodes, edges, t);
    lemma_idx_edges_ok(nodes, edges);
    let idx = idx_edges(nodes, edges);
    let u = choose|u: int| 0 <= u < idx.len() && idx[u] == (ia as usize, ib as usize);
    dist::lemma_fw_matrix_edge(nodes.len(), idx, u);
    assert(dist::fw_matrix(nodes.len(), idx)[ia][ib] == 1);
}


/// Some edge of the list joins topics `x` and `y`, in either orientation.
pub open spec fn joins(edges: Seq<(Seq<char>, Seq<char>)>, x: Seq<char>, y: Seq<char>) -> bool {
    exists|t: int|
        0 <= t < edges.len() && (((#[trigger] edges[t]).0 == x && edges[t].1 == y) || (edges[t].0
            == y && edges[t].1 == x))
}

/// A walk of at most `d` edges leads from topic `x` to topic `y`, passing
/// only through topics of `nodes`.
pub open spec fn linked(
    nodes: Seq<Seq<char>>,
    edges: Seq<(Seq<char>, Seq<char>)>,
    x: Seq<char>,
    y: Seq<char>,
    d: nat,
) -> bool
    decreases d,
{
    if x == y {
        true
    } else if d == 0 {
        false
    } else {
        exists|w: Seq<char>|
            nodes.contains(w) && #[trigger] joins(edges, w, y) && linked(
                nodes,
                edges,
                x,
                w,
                (d - 1) as nat,
            )
    }
}

/// Every index pair comes from an edge whose endpoints are both known.
proof fn lemma_idx_edges_elem(nodes: Seq<Seq<char>>, edges: Seq<(Seq<char>, Seq<char>)>, u: int)
    requires
        0 <= u < idx_edges(nodes, edges).len(),
    ensures
        exists|t: int|
            0 <= t < edges.len() && nodes.contains((#[trigger] edges[t]).0) && nodes.contains(
                edges[t].1,
            ) && idx_edges(nodes, edges)[u] == (
                find_first(nodes, edges[t].0) as usize,
                find_first(nodes, edges[t].1) as usize,
            ),
    decreases edges.len(),
{
    let rest = edges.drop_last();
    let e = edges.last();
    if nodes.contains(e.0) && nodes.contains(e.1) && u == idx_edges(nodes, rest).len() {
        assert(edges[edges.len() - 1] == e);
        assert(idx_edges(nodes, edges)[u] == (
            find_first(nodes, e.0) as usize,
            find_first(nodes, e.1) as usize,
        ));
    } else {
        lemma_idx_edges_elem(nodes, rest, u);
        let t = choose|t: int|
            0 <= t < rest.len() && nodes.contains((#[trigger] rest[t]).0) && nodes.contains(
                rest[t].1,
            ) && idx_edges(nodes, rest)[u] == (
                find_first(nodes, rest[t].0) as usize,
                find_first(nodes, rest[t].1) as usize,
            );
        assert(edges[t] == rest[t]);
        assert(idx_edges(nodes, edges)[u] == idx_edges(nodes, rest)[u]);
    }
}

/// A walk in index space is a walk between the corresponding topic ids.
proof fn lemma_connected_linked(
    nodes: Seq<Seq<char>>,
    edges: Seq<(Seq<char>, Seq<char>)>,
    ia: int,
    ib: int,
    d: nat,
)
    requires
        nodes.len() <= usize::MAX,
        0 <= ia < nodes.len(),
        0 <= ib < nodes.len(),
        dist::connected(idx_edges(nodes, edges), nodes.len(), ia, ib, d),
    ensures
        linked(nodes, edges, nodes[ia], nodes[ib], d),
    decreases d,
{
    let idx = idx_edges(nodes, edges);
    if nodes[ia] != nodes[ib] {
        assert(ia != ib);
        let w = choose|w: int|
            0 <= w < nodes.len() && #[trigger] dist::has_edge(idx, w, ib) && dist::connected(
                idx,
                nodes.len(),
                ia,
                w,
                (d - 1) as nat,
            );
        lemma_connected_linked(nodes, edges, ia, w, (d - 1) as nat);
        let u = choose|u: int|
            0 <= u < idx.len() && (((#[trigger] idx[u]).0 == w && idx[u].1 == ib) || (idx[u].0 == ib
                && idx[u].1 == w));
        lemma_idx_edges_elem(nodes, edges, u);
        let t = choose|t: int|
            0 <= t < edges.len() && nodes.contains((#[trigger] edges[t]).0) && nodes.contains(
                edges[t].1,
            ) && idx[u] == (
                find_first(nodes, edges[t].0) as usize,
                find_first(nodes, edges[t].1) as usize,
            );
        lemma_find_first(nodes, edges[t].0);
        lemma_find_first(nodes, edges[t].1);
        assert(nodes[find_first(nodes, edges[t].0)] == edges[t].0);
        assert(nodes[find_first(nodes, edges[t].1)] == edges[t].1);
        if idx[u].0 == w && idx[u].1 == ib {
            assert(nodes[w] == edges[t].0 && nodes[ib] == edges[t].1);
        } else {
            assert(nodes[ib] == edges[t].0 && nodes[w] == edges[t].1);
        }
        assert(joins(edges, nodes[w], nodes[ib]));
        assert(nodes.contains(nodes[w]));
        assert(linked(nodes, edges, nodes[ia], nodes[ib], d));
    }
}

/// A present distance is witnessed by a walk of that many edges between the
/// two topics; in particular a pair with no connecting walk is absent from
/// the table.
pub proof fn lemma_distance_sound(
    nodes: Seq<Seq<char>>,
    edges: Seq<(Seq<char>, Seq<char>)>,
    x: Seq<char>,
    y: Seq<char>,
)
    requires
        nodes.len() <= usize::MAX,
        table_distance(nodes, edges, x, y) is Some,
    ensures
        linked(nodes, edges, x, y, table_distance(nodes, edges, x, y)->Some_0 as nat),
{
    lemma_find_first(nodes, x);
    lemma_find_first(nodes, y);
    lemma_idx_edges_ok(nodes, edges);
    dist::lemma_fw_matrix_sound(nodes.len(), idx_edges(nodes, edges));
    let ia = find_first(nodes, x);
    let ib = find_first(nodes, y);
    let d = dist::fw_matrix(nodes.len(), idx_edges(nodes, edges))[ia][ib];
    assert(dist::connected(idx_edges(nodes, edges), nodes.len(), ia, ib, d as nat));
    lemma_connected_linked(nodes, edges, ia, ib, d as nat);
}

} // verus!
