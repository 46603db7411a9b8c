//! Dense all-pairs shortest-path computation over node indices.
//!
//! The distance matrix is specified as a fold: a grid with zero diagonal and
//! an "infinite" sentinel everywhere else, unit edges folded in, then one
//! relaxation pass per intermediate node. The executable `apsp` returns
//! exactly that matrix, which the relaxation lemmas below show has zero
//! diagonal, is symmetric, and satisfies the triangle inequality.

use vstd::prelude::*;

verus! {

/// Sentinel distance standing for "no path". It is far enough below
/// `u32::MAX` that two sentinels added with saturation still compare as
/// "no path" instead of wrapping into a spurious short distance.
pub const INF: u32 = u32::MAX / 2;

/// Saturating addition on `u32`, the arithmetic of every relaxation step.
pub open spec fn sat(a: u32, b: u32) -> u32 {
    if a + b > u32::MAX {
        u32::MAX
    } else {
        (a + b) as u32
    }
}

/// `m` is a square matrix of side `n`.
pub open spec fn is_matrix(m: Seq<Seq<u32>>, n: nat) -> bool {
    m.len() == n && forall|i: int| 0 <= i < n ==> (#[trigger] m[i]).len() == n
}

/// Every entry is at most the sentinel.
pub open spec fn bounded(m: Seq<Seq<u32>>, n: nat) -> bool {
    forall|i: int, j: int| 0 <= i < n && 0 <= j < n ==> #[trigger] m[i][j] <= INF
}

/// Every node is at distance zero from itself.
pub open spec fn zero_diagonal(m: Seq<Seq<u32>>, n: nat) -> bool {
    forall|i: int| 0 <= i < n ==> #[trigger] m[i][i] == 0
}

/// The matrix is symmetric.
pub open spec fn symmetric(m: Seq<Seq<u32>>, n: nat) -> bool {
    forall|i: int, j: int| 0 <= i < n && 0 <= j < n ==> #[trigger] m[i][j] == m[j][i]
}

/// Triangle inequality through every intermediate node below `k`.
pub open spec fn triangle_upto(m: Seq<Seq<u32>>, n: nat, k: int) -> bool {
    forall|a: int, i: int, j: int|
        0 <= a < k && 0 <= i < n && 0 <= j < n ==> m[i][j] <= #[trigger] sat(m[i][a], m[a][j])
}

/// The shape and algebraic properties that every matrix in the pipeline keeps.
pub open spec fn wf_matrix(m: Seq<Seq<u32>>, n: nat) -> bool {
    &&& is_matrix(m, n)
    &&& bounded(m, n)
    &&& zero_diagonal(m, n)
    &&& symmetric(m, n)
}

/// The starting grid: zero on the diagonal, the sentinel everywhere else.
pub open spec fn init_matrix(n: nat) -> Seq<Seq<u32>> {
    Seq::new(n, |i: int| Seq::new(n, |j: int| if i == j { 0u32 } else { INF }))
}

/// Record one undirected unit edge: both oriented entries drop to 1 when they
/// are above 1 (so a self-loop never disturbs the zero diagonal).
pub open spec fn apply_edge(m: Seq<Seq<u32>>, e: (usize, usize)) -> Seq<Seq<u32>> {
    let a = e.0 as int;
    let b = e.1 as int;
    let m1 = if m[a][b] > 1 {
        m.update(a, m[a].update(b, 1u32))
    } else {
        m
    };
    if m1[b][a] > 1 {
        m1.update(b, m1[b].update(a, 1u32))
    } else {
        m1
    }
}

/// Fold every edge of the list into the matrix, in order.
pub open spec fn apply_edges(m: Seq<Seq<u32>>, edges: Seq<(usize, usize)>) -> Seq<Seq<u32>>
    decreases edges.len(),
{
    if edges.len() == 0 {
        m
    } else {
        apply_edge(apply_edges(m, edges.drop_last()), edges.last())
    }
}

/// One relaxation of entry `(i, j)` through intermediate node `k`.
pub open spec fn relaxed(m: Seq<Seq<u32>>, k: int, i: int, j: int) -> u32 {
    let cand = sat(m[i][k], m[k][j]);
    if cand < m[i][j] {
        cand
    } else {
        m[i][j]
    }
}

/// One full pass: every entry relaxed through intermediate node `k`.
pub open spec fn pass(m: Seq<Seq<u32>>, k: int, n: nat) -> Seq<Seq<u32>> {
    Seq::new(n, |i: int| Seq::new(n, |j: int| relaxed(m, k, i, j)))
}

/// Passes for every intermediate node below `k`, in order.
pub open spec fn passes(m: Seq<Seq<u32>>, n: nat, k: nat) -> Seq<Seq<u32>>
    decreases k,
{
    if k == 0 {
        m
    } else {
        pass(passes(m, n, (k - 1) as nat), k - 1, n)
    }
}

/// The finished distance matrix for `n` nodes and the given index edges.
pub open spec fn fw_matrix(n: nat, edges: Seq<(usize, usize)>) -> Seq<Seq<u32>> {
    passes(apply_edges(init_matrix(n), edges), n, n)
}

/// Both endpoints of every edge are node indices below `n`.
pub open spec fn edges_ok(edges: Seq<(usize, usize)>, n: nat) -> bool {
    forall|t: int| 0 <= t < edges.len() ==> (#[trigger] edges[t]).0 < n && edges[t].1 < n
}

/// Saturating addition is monotone in both arguments.
proof fn lemma_sat_mono(a: u32, b: u32, a2: u32, b2: u32)
    requires
        a <= a2,
        b <= b2,
    ensures
        sat(a, b) <= sat(a2, b2),
{
}

/// Saturating addition is associative.
proof fn lemma_sat_assoc(a: u32, b: u32, c: u32)
    ensures
        sat(sat(a, b), c) == sat(a, sat(b, c)),
{
}

proof fn lemma_init_wf(n: nat)
    ensures
        wf_matrix(init_matrix(n), n),
{
    let m = init_matrix(n);
    assert forall|i: int, j: int| 0 <= i < n && 0 <= j < n implies #[trigger] m[i][j] <= INF by {
        assert(m[i] == Seq::new(n, |j: int| if i == j { 0u32 } else { INF }));
    }
    assert forall|i: int, j: int| 0 <= i < n && 0 <= j < n implies #[trigger] m[i][j] == m[j][i] by {
        assert(m[i] == Seq::new(n, |t: int| if i == t { 0u32 } else { INF }));
        assert(m[j] == Seq::new(n, |t: int| if j == t { 0u32 } else { INF }));
    }
}

proof fn lemma_apply_edge_wf(m: Seq<Seq<u32>>, e: (usize, usize), n: nat)
    requires
        wf_matrix(m, n),
        e.0 < n,
        e.1 < n,
    ensures
        wf_matrix(apply_edge(m, e), n),
{
    let a = e.0 as int;
    let b = e.1 as int;
    let r = apply_edge(m, e);
    assert forall|i: int, j: int| 0 <= i < n && 0 <= j < n implies #[trigger] r[i][j] <= INF by {
        assert(m[i][j] <= INF);
    }
    assert forall|i: int| 0 <= i < n implies #[trigger] r[i][i] == 0 by {
        assert(m[i][i] == 0);
        assert(m[a][a] == 0);
        assert(m[b][b] == 0);
    }
    assert forall|i: int, j: int| 0 <= i < n && 0 <= j < n implies #[trigger] r[i][j] == r[j][i] by {
        assert(m[i][j] == m[j][i]);
        assert(m[a][b] == m[b][a]);
    }
}

proof fn lemma_apply_edges_wf(m: Seq<Seq<u32>>, edges: Seq<(usize, usize)>, n: nat)
    requires
        wf_matrix(m, n),
        edges_ok(edges, n),
    ensures
        wf_matrix(apply_edges(m, edges), n),
    decreases edges.len(),
{
    if edges.len() > 0 {
        assert(edges_ok(edges.drop_last(), n)) by {
            assert forall|t: int|
                0 <= t < edges.drop_last().len() implies (#[trigger] edges.drop_last()[t]).0 < n
                && edges.drop_last()[t].1 < n by {
                assert(edges.drop_last()[t] == edges[t]);
            }
        }
        lemma_apply_edges_wf(m, edges.drop_last(), n);
        lemma_apply_edge_wf(apply_edges(m, edges.drop_last()), edges.last(), n);
    }
}

/// A pass leaves row `k` and column `k` unchanged, and keeps the
/// well-formedness properties.
proof fn lemma_pass_wf(m: Seq<Seq<u32>>, k: int, n: nat)
    requires
        wf_matrix(m, n),
        0 <= k < n,
    ensures
        wf_matrix(pass(m, k, n), n),
        forall|i: int| 0 <= i < n ==> (#[trigger] pass(m, k, n)[i][k]) == m[i][k],
        forall|j: int| 0 <= j < n ==> (#[trigger] pass(m, k, n)[k][j]) == m[k][j],
{
    let r = pass(m, k, n);
    assert forall|i: int, j: int| 0 <= i < n && 0 <= j < n implies #[trigger] r[i][j] == relaxed(
        m,
        k,
        i,
        j,
    ) by {
        assert(r[i] == Seq::new(n, |j: int| relaxed(m, k, i, j)));
    }
    assert forall|i: int| 0 <= i < n implies (#[trigger] r[i][k]) == m[i][k] by {
        assert(m[k][k] == 0);
        assert(relaxed(m, k, i, k) == m[i][k]);
    }
    assert forall|j: int| 0 <= j < n implies (#[trigger] r[k][j]) == m[k][j] by {
        assert(m[k][k] == 0);
        assert(relaxed(m, k, k, j) == m[k][j]);
    }
    assert forall|i: int, j: int| 0 <= i < n && 0 <= j < n implies #[trigger] r[i][j] == r[j][i] by {
        assert(m[i][j] == m[j][i]);
        assert(m[i][k] == m[k][i]);
        assert(m[k][j] == m[j][k]);
    }
}

/// The pass for intermediate node `k` extends the triangle inequality from
/// the nodes below `k` to the nodes below `k + 1`.
proof fn lemma_pass_triangle(m: Seq<Seq<u32>>, k: int, n: nat)
    requires
        wf_matrix(m, n),
        0 <= k < n,
        triangle_upto(m, n, k),
    ensures
        triangle_upto(pass(m, k, n), n, k + 1),
{
    let r = pass(m, k, n);
    lemma_pass_wf(m, k, n);
    assert forall|a: int, i: int, j: int|
        0 <= a < k + 1 && 0 <= i < n && 0 <= j < n implies r[i][j] <= #[trigger] sat(
        r[i][a],
        r[a][j],
    ) by {
        assert(r[i] == Seq::new(n, |t: int| relaxed(m, k, i, t)));
        assert(r[a] == Seq::new(n, |t: int| relaxed(m, k, a, t)));
        assert(r[i][j] == relaxed(m, k, i, j));
        assert(r[i][a] == relaxed(m, k, i, a));
        assert(r[a][j] == relaxed(m, k, a, j));
        if a == k {
            assert(r[i][k] == m[i][k]);
            assert(r[k][j] == m[k][j]);
            assert(r[i][j] <= sat(m[i][k], m[k][j]));
        } else {
            // Instances of the inequality for intermediate node a on m.
            assert(m[i][j] <= sat(m[i][a], m[a][j]));
            assert(m[k][j] <= sat(m[k][a], m[a][j]));
            assert(m[i][k] <= sat(m[i][a], m[a][k]));
            let s1 = sat(m[i][k], m[k][a]);
            let s2 = sat(m[a][k], m[k][j]);
            if r[i][a] == m[i][a] && r[a][j] == m[a][j] {
                assert(r[i][j] <= m[i][j]);
            } else if r[i][a] == s1 && r[a][j] == m[a][j] {
                // r[i][j] <= sat(m[i][k], m[k][j])
                //         <= sat(m[i][k], sat(m[k][a], m[a][j]))
                //         == sat(sat(m[i][k], m[k][a]), m[a][j]).
                lemma_sat_mono(m[i][k], m[k][j], m[i][k], sat(m[k][a], m[a][j]));
                lemma_sat_assoc(m[i][k], m[k][a], m[a][j]);
            } else if r[i][a] == m[i][a] && r[a][j] == s2 {
                // r[i][j] <= sat(m[i][k], m[k][j])
                //         <= sat(sat(m[i][a], m[a][k]), m[k][j])
                //         == sat(m[i][a], sat(m[a][k], m[k][j])).
                lemma_sat_mono(m[i][k], m[k][j], sat(m[i][a], m[a][k]), m[k][j]);
                lemma_sat_assoc(m[i][a], m[a][k], m[k][j]);
            } else {
                // Both replaced: each replacement dominates one side of
                // sat(m[i][k], m[k][j]).
                assert(r[i][a] == s1 && r[a][j] == s2);
                lemma_sat_mono(m[i][k], m[k][j], s1, s2);
            }
        }
    }
}

/// All passes together: the result is well-formed and satisfies the triangle
/// inequality through every intermediate node below `k`.
proof fn lemma_passes_props(m: Seq<Seq<u32>>, n: nat, k: nat)
    requires
        wf_matrix(m, n),
        k <= n,
    ensures
        wf_matrix(passes(m, n, k), n),
        triangle_upto(passes(m, n, k), n, k as int),
    decreases k,
{
    if k > 0 {
        lemma_passes_props(m, n, (k - 1) as nat);
        lemma_pass_wf(passes(m, n, (k - 1) as nat), k - 1, n);
        lemma_pass_triangle(passes(m, n, (k - 1) as nat), k - 1, n);
    }
}

/// The finished matrix has zero diagonal, is symmetric, keeps every entry at
/// or below the sentinel, and satisfies the triangle inequality through every
/// node.
pub proof fn lemma_fw_matrix_props(n: nat, edges: Seq<(usize, usize)>)
    requires
        edges_ok(edges, n),
    ensures
        wf_matrix(fw_matrix(n, edges), n),
        triangle_upto(fw_matrix(n, edges), n, n as int),
{
    lemma_init_wf(n);
    lemma_apply_edges_wf(init_matrix(n), edges, n);
    lemma_passes_props(apply_edges(init_matrix(n), edges), n, n);
}

/// The sequence of rows of an `n` by `n` vector matrix.
pub open spec fn mat_view(m: Vec<Vec<u32>>) -> Seq<Seq<u32>> {
    Seq::new(m@.len() as nat, |i: int| m@[i]@)
}


/// Replace entry `(i, j)` of the matrix.
fn set_entry(m: &mut Vec<Vec<u32>>, i: usize, j: usize, v: u32)
    requires
        i < old(m)@.len(),
        j < old(m)@[i as int]@.len(),
    ensures
        final(m)@.len() == old(m)@.len(),
        forall|r: int| 0 <= r < old(m)@.len() ==> (#[trigger] final(m)@[r])@.len() == old(m)@[r]@.len(),
        mat_view(*final(m)) =~= mat_view(*old(m)).update(
            i as int,
            mat_view(*old(m))[i as int].update(j as int, v),
        ),
{
    let mut row: Vec<u32> = Vec::new();
    m.set_and_swap(i, &mut row);
    row.set(j, v);
    m.set_and_swap(i, &mut row);
    assert forall|r: int| 0 <= r < m@.len() implies mat_view(*m)[r] =~= mat_view(*old(m)).update(
        i as int,
        mat_view(*old(m))[i as int].update(j as int, v),
    )[r] by {}
}

/// Copy row `k` of the matrix into a fresh vector.
fn copy_row(m: &Vec<Vec<u32>>, k: usize) -> (r: Vec<u32>)
    requires
        k < m@.len(),
    ensures
        r@ =~= m@[k as int]@,
{
    let mut r: Vec<u32> = Vec::new();
    let mut j: usize = 0;
    let len = m[k].len();
    while j < len
        invariant
            j <= len,
            k < m@.len(),
            len == m@[k as int]@.len(),
            r@.len() == j,
            forall|t: int| 0 <= t < j ==> r@[t] == m@[k as int]@[t],
        decreases len - j,
    {
        r.push(m[k][j]);
        j += 1;
    }
    r
}

/// Compute the distance matrix for `n` nodes and the given edges, by the
/// classic relaxation over every intermediate node.
pub fn apsp(n: usize, edges: &Vec<(usize, usize)>) -> (m: Vec<Vec<u32>>)
    requires
        edges_ok(edges@, n as nat),
    ensures
        mat_view(m) == fw_matrix(n as nat, edges@),
        wf_matrix(mat_view(m), n as nat),
        triangle_upto(mat_view(m), n as nat, n as int),
{
    let mut m: Vec<Vec<u32>> = Vec::new();
    // The starting grid.
    let mut i: usize = 0;
    while i < n
        invariant
            i <= n,
            m@.len() == i,
            forall|r: int| 0 <= r < i ==> mat_view(m)[r] =~= init_matrix(n as nat)[r],
        decreases n - i,
    {
        let mut row: Vec<u32> = Vec::new();
        let mut j: usize = 0;
        while j < n
            invariant
                i < n,
                j <= n,
                row@.len() == j,
                forall|t: int| 0 <= t < j ==> row@[t] == (if i as int == t {
                    0u32
                } else {
                    INF
                }),
            decreases n - j,
        {
            row.push(if i == j {
                0u32
            } else {
                INF
            });
            j += 1;
        }
        proof {
            assert forall|t: int| 0 <= t < n implies row@[t] == init_matrix(n as nat)[i as int][t] by {}
            assert(row@ =~= init_matrix(n as nat)[i as int]);
        }
        m.push(row);
        i += 1;
    }
    assert(mat_view(m) =~~= init_matrix(n as nat));
    // Fold in the unit edges.
    proof {
        lemma_init_wf(n as nat);
    }
    let mut t: usize = 0;
    while t < edges.len()
        invariant
            t <= edges@.len(),
            edges_ok(edges@, n as nat),
            mat_view(m) == apply_edges(init_matrix(n as nat), edges@.subrange(0, t as int)),
            wf_matrix(mat_view(m), n as nat),
        decreases edges@.len() - t,
    {
        let ghost pre = mat_view(m);
        let ghost prefix = edges@.subrange(0, t as int);
        let (a, b) = edges[t];
        proof {
            assert(edges@[t as int].0 == a && edges@[t as int].1 == b);
            assert(a < n && b < n);
            assert(m@.len() == n);
            assert(mat_view(m)[a as int].len() == n);
            assert(mat_view(m)[b as int].len() == n);
        }
        if m[a][b] > 1 {
            set_entry(&mut m, a, b, 1);
        }
        proof {
            assert(m@.len() == n && m@[b as int]@.len() == n);
        }
        if m[b][a] > 1 {
            set_entry(&mut m, b, a, 1);
        }
        proof {
            assert(mat_view(m) =~~= apply_edge(pre, (a, b)));
            assert(edges@.subrange(0, t + 1).drop_last() =~= prefix);
            assert(edges@.subrange(0, t + 1).last() == (a, b));
            assert(mat_view(m) == apply_edges(init_matrix(n as nat), edges@.subrange(0, t + 1)));
            lemma_apply_edge_wf(pre, (a, b), n as nat);
        }
        t += 1;
    }
    assert(edges@.subrange(0, edges@.len() as int) =~= edges@);
    let ghost m0 = apply_edges(init_matrix(n as nat), edges@);
    assert(mat_view(m) == m0);
    // One relaxation pass per intermediate node.
    let mut k: usize = 0;
    while k < n
        invariant
            k <= n,
            m@.len() == n,
            wf_matrix(m0, n as nat),
            mat_view(m) == passes(m0, n as nat, k as nat),
            wf_matrix(mat_view(m), n as nat),
        decreases n - k,
    {
        let ghost mk = mat_view(m);
        let rowk: Vec<u32> = copy_row(&m, k);
        assert(rowk@ =~= mk[k as int]);
        let mut i: usize = 0;
        while i < n
            invariant
                i <= n,
                k < n,
                m@.len() == n,
                wf_matrix(mk, n as nat),
                rowk@ =~= mk[k as int],
                forall|r: int| 0 <= r < i ==> mat_view(m)[r] =~= pass(mk, k as int, n as nat)[r],
                forall|r: int| i <= r < n ==> mat_view(m)[r] == mk[r],
            decreases n - i,
        {
            proof {
                assert(mat_view(m)[i as int] == mk[i as int]);
                assert(mk[i as int].len() == n);
                assert(m@[i as int]@.len() == n);
            }
            let dik = m[i][k];
            assert(dik == mk[i as int][k as int]);
            let mut newrow: Vec<u32> = Vec::new();
            let mut j: usize = 0;
            while j < n
                invariant
                    j <= n,
                    i < n,
                    k < n,
                    m@.len() == n,
                    wf_matrix(mk, n as nat),
                    rowk@ =~= mk[k as int],
                    dik == mk[i as int][k as int],
                    mat_view(m)[i as int] == mk[i as int],
                    newrow@.len() == j,
                    forall|u: int| 0 <= u < j ==> newrow@[u] == relaxed(mk, k as int, i as int, u),
                decreases n - j,
            {
                proof {
                    assert(mk[i as int].len() == n);
                    assert(mk[k as int].len() == n);
                    assert(m@[i as int]@.len() == n);
                }
                let cand = dik.saturating_add(rowk[j]);
                let cur = m[i][j];
                proof {
                    assert(cur == mk[i as int][j as int]);
                    assert(rowk@[j as int] == mk[k as int][j as int]);
                    assert(cand == sat(dik, rowk@[j as int]));
                }
                newrow.push(
                    if cand < cur {
                        cand
                    } else {
                        cur
                    },
                );
                j += 1;
            }
            let ghost nr = newrow@;
            let ghost before = mat_view(m);
            m.set(i, newrow);
            proof {
                assert forall|r: int| 0 <= r < n && r != i as int implies mat_view(m)[r]
                    == before[r] by {}
                assert forall|u: int| 0 <= u < n implies nr[u] == pass(mk, k as int, n as nat)[i as int][u] by {}
                assert(mat_view(m)[i as int] == nr);
                assert(mat_view(m)[i as int] =~= pass(mk, k as int, n as nat)[i as int]);
                assert forall|r: int| 0 <= r < i + 1 implies mat_view(m)[r] =~= pass(
                    mk,
                    k as int,
                    n as nat,
                )[r] by {
                    if r < i as int {
                        assert(before[r] =~= pass(mk, k as int, n as nat)[r]);
                        assert(mat_view(m)[r] == before[r]);
                    }
                }
            }
            i += 1;
        }
        proof {
            assert(mat_view(m) =~~= pass(mk, k as int, n as nat));
            assert(passes(m0, n as nat, (k + 1) as nat) == pass(
                passes(m0, n as nat, k as nat),
                k as int,
                n as nat,
            ));
            lemma_pass_wf(mk, k as int, n as nat);
        }
        k += 1;
    }
    proof {
        lemma_passes_props(m0, n as nat, n as nat);
    }
    m
}


/// Every entry off the diagonal is at least one.
pub open spec fn positive_off_diagonal(m: Seq<Seq<u32>>, n: nat) -> bool {
    forall|i: int, j: int| 0 <= i < n && 0 <= j < n && i != j ==> #[trigger] m[i][j] >= 1
}

/// `m1` is pointwise at most `m2`.
pub open spec fn le_matrix(m1: Seq<Seq<u32>>, m2: Seq<Seq<u32>>, n: nat) -> bool {
    forall|i: int, j: int| 0 <= i < n && 0 <= j < n ==> #[trigger] m1[i][j] <= #[trigger] m2[i][j]
}

/// Folding an edge in never increases an entry, keeps entries off the
/// diagonal at least one, and leaves the edge's two entries at most one when
/// its endpoints differ.
proof fn lemma_apply_edge_le(m: Seq<Seq<u32>>, e: (usize, usize), n: nat)
    requires
        is_matrix(m, n),
        zero_diagonal(m, n),
        positive_off_diagonal(m, n),
        e.0 < n,
        e.1 < n,
    ensures
        le_matrix(apply_edge(m, e), m, n),
        positive_off_diagonal(apply_edge(m, e), n),
        e.0 != e.1 ==> apply_edge(m, e)[e.0 as int][e.1 as int] <= 1,
        e.0 != e.1 ==> apply_edge(m, e)[e.1 as int][e.0 as int] <= 1,
{
    let a = e.0 as int;
    let b = e.1 as int;
    let r = apply_edge(m, e);
    assert(m[a][a] == 0);
    assert forall|i: int, j: int| 0 <= i < n && 0 <= j < n implies #[trigger] r[i][j]
        <= #[trigger] m[i][j] by {
        if i != j {
            assert(m[i][j] >= 1);
        }
    }
    assert forall|i: int, j: int| 0 <= i < n && 0 <= j < n && i != j implies #[trigger] r[i][j]
        >= 1 by {
        assert(m[i][j] >= 1);
    }
}

/// Folding a list of edges in never increases an entry and keeps entries off
/// the diagonal at least one.
proof fn lemma_apply_edges_le(m: Seq<Seq<u32>>, edges: Seq<(usize, usize)>, n: nat)
    requires
        wf_matrix(m, n),
        positive_off_diagonal(m, n),
        edges_ok(edges, n),
    ensures
        le_matrix(apply_edges(m, edges), m, n),
        positive_off_diagonal(apply_edges(m, edges), n),
    decreases edges.len(),
{
    if edges.len() > 0 {
        assert(edges_ok(edges.drop_last(), n)) by {
            assert forall|t: int|
                0 <= t < edges.drop_last().len() implies (#[trigger] edges.drop_last()[t]).0 < n
                && edges.drop_last()[t].1 < n by {
                assert(edges.drop_last()[t] == edges[t]);
            }
        }
        lemma_apply_edges_le(m, edges.drop_last(), n);
        lemma_apply_edges_wf(m, edges.drop_last(), n);
        lemma_apply_edge_le(apply_edges(m, edges.drop_last()), edges.last(), n);
    }
}

/// After folding the whole list in, the two entries of an edge with distinct
/// endpoints are at most one.
proof fn lemma_apply_edges_at(m: Seq<Seq<u32>>, edges: Seq<(usize, usize)>, n: nat, t: int)
    requires
        wf_matrix(m, n),
        positive_off_diagonal(m, n),
        edges_ok(edges, n),
        0 <= t < edges.len(),
        edges[t].0 != edges[t].1,
    ensures
        apply_edges(m, edges)[edges[t].0 as int][edges[t].1 as int] <= 1,
        apply_edges(m, edges)[edges[t].1 as int][edges[t].0 as int] <= 1,
    decreases edges.len(),
{
    let rest = edges.drop_last();
    assert(edges_ok(rest, n)) by {
        assert forall|u: int|
            0 <= u < rest.len() implies (#[trigger] rest[u]).0 < n && rest[u].1 < n by {
            assert(rest[u] == edges[u]);
        }
    }
    lemma_apply_edges_wf(m, rest, n);
    lemma_apply_edges_le(m, rest, n);
    if t == edges.len() - 1 {
        lemma_apply_edge_le(apply_edges(m, rest), edges.last(), n);
    } else {
        assert(rest[t] == edges[t]);
        lemma_apply_edges_at(m, rest, n, t);
        lemma_apply_edge_le(apply_edges(m, rest), edges.last(), n);
    }
}

/// One pass never increases an entry and keeps entries off the diagonal at
/// least one.
proof fn lemma_pass_le(m: Seq<Seq<u32>>, k: int, n: nat)
    requires
        wf_matrix(m, n),
        positive_off_diagonal(m, n),
        0 <= k < n,
    ensures
        le_matrix(pass(m, k, n), m, n),
        positive_off_diagonal(pass(m, k, n), n),
{
    let r = pass(m, k, n);
    assert forall|i: int, j: int| 0 <= i < n && 0 <= j < n implies #[trigger] r[i][j]
        <= #[trigger] m[i][j] by {
        assert(r[i] == Seq::new(n, |t: int| relaxed(m, k, i, t)));
    }
    assert forall|i: int, j: int| 0 <= i < n && 0 <= j < n && i != j implies #[trigger] r[i][j]
        >= 1 by {
        assert(r[i] == Seq::new(n, |t: int| relaxed(m, k, i, t)));
        assert(r[i][j] == relaxed(m, k, i, j));
        assert(m[i][j] >= 1);
        if k == i {
            assert(m[i][k] == 0);
        } else if k == j {
            assert(m[k][j] == 0);
        } else {
            assert(m[i][k] >= 1 && m[k][j] >= 1);
        }
    }
}

/// All passes together never increase an entry and keep entries off the
/// diagonal at least one.
proof fn lemma_passes_le(m: Seq<Seq<u32>>, n: nat, k: nat)
    requires
        wf_matrix(m, n),
        positive_off_diagonal(m, n),
        k <= n,
    ensures
        le_matrix(passes(m, n, k), m, n),
        positive_off_diagonal(passes(m, n, k), n),
    decreases k,
{
    if k > 0 {
        lemma_passes_le(m, n, (k - 1) as nat);
        lemma_passes_props(m, n, (k - 1) as nat);
        lemma_pass_le(passes(m, n, (k - 1) as nat), k - 1, n);
    }
}

proof fn lemma_init_positive(n: nat)
    ensures
        positive_off_diagonal(init_matrix(n), n),
{
    let m = init_matrix(n);
    assert forall|i: int, j: int| 0 <= i < n && 0 <= j < n && i != j implies #[trigger] m[i][j]
        >= 1 by {
        assert(m[i] == Seq::new(n, |t: int| if i == t { 0u32 } else { INF }));
    }
}

/// In the finished matrix, the two entries of an edge with distinct
/// endpoints are exactly one, and every entry off the diagonal is at least
/// one.
pub proof fn lemma_fw_matrix_edge(n: nat, edges: Seq<(usize, usize)>, t: int)
    requires
        edges_ok(edges, n),
        0 <= t < edges.len(),
        edges[t].0 != edges[t].1,
    ensures
        fw_matrix(n, edges)[edges[t].0 as int][edges[t].1 as int] == 1,
        fw_matrix(n, edges)[edges[t].1 as int][edges[t].0 as int] == 1,
{
    lemma_init_wf(n);
    lemma_init_positive(n);
    let m0 = apply_edges(init_matrix(n), edges);
    lemma_apply_edges_wf(init_matrix(n), edges, n);
    lemma_apply_edges_le(init_matrix(n), edges, n);
    lemma_apply_edges_at(init_matrix(n), edges, n, t);
    lemma_passes_le(m0, n, n);
    lemma_passes_props(m0, n, n);
}

/// In the finished matrix, every entry off the diagonal is at least one.
pub proof fn lemma_fw_matrix_positive(n: nat, edges: Seq<(usize, usize)>)
    requires
        edges_ok(edges, n),
    ensures
        positive_off_diagonal(fw_matrix(n, edges), n),
{
    lemma_init_wf(n);
    lemma_init_positive(n);
    lemma_apply_edges_wf(init_matrix(n), edges, n);
    lemma_apply_edges_le(init_matrix(n), edges, n);
    lemma_passes_le(apply_edges(init_matrix(n), edges), n, n);
}


/// Some edge of the list joins indices `a` and `b`, in either orientation.
pub open spec fn has_edge(edges: Seq<(usize, usize)>, a: int, b: int) -> bool {
    exists|t: int|
        0 <= t < edges.len() && (((#[trigger] edges[t]).0 == a && edges[t].1 == b) || (edges[t].0
            == b && edges[t].1 == a))
}

/// A walk of at most `d` edges leads from `i` to `j`.
pub open spec fn connected(edges: Seq<(usize, usize)>, n: nat, i: int, j: int, d: nat) -> bool
    decreases d,
{
    if i == j {
        true
    } else if d == 0 {
        false
    } else {
        exists|w: int|
            0 <= w < n && #[trigger] has_edge(edges, w, j) && connected(
                edges,
                n,
                i,
                w,
                (d - 1) as nat,
            )
    }
}

/// Every finite entry is witnessed by a walk of that many edges.
pub open spec fn sound_matrix(m: Seq<Seq<u32>>, edges: Seq<(usize, usize)>, n: nat) -> bool {
    forall|i: int, j: int|
        0 <= i < n && 0 <= j < n && #[trigger] m[i][j] < INF ==> connected(
            edges,
            n,
            i,
            j,
            m[i][j] as nat,
        )
}

/// A walk of at most `d` edges is also a walk of at most `d2 >= d` edges.
proof fn lemma_connected_mono(edges: Seq<(usize, usize)>, n: nat, i: int, j: int, d: nat, d2: nat)
    requires
        connected(edges, n, i, j, d),
        d <= d2,
    ensures
        connected(edges, n, i, j, d2),
    decreases d,
{
    if i != j {
        let w = choose|w: int|
            0 <= w < n && #[trigger] has_edge(edges, w, j) && connected(
                edges,
                n,
                i,
                w,
                (d - 1) as nat,
            );
        lemma_connected_mono(edges, n, i, w, (d - 1) as nat, (d2 - 1) as nat);
    }
}

/// Walks concatenate: `i` to `k` in `d1` edges and `k` to `j` in `d2` edges
/// give `i` to `j` in `d1 + d2` edges.
proof fn lemma_connected_concat(
    edges: Seq<(usize, usize)>,
    n: nat,
    i: int,
    k: int,
    j: int,
    d1: nat,
    d2: nat,
)
    requires
        connected(edges, n, i, k, d1),
        connected(edges, n, k, j, d2),
    ensures
        connected(edges, n, i, j, (d1 + d2) as nat),
    decreases d2,
{
    if k == j {
        lemma_connected_mono(edges, n, i, j, d1, (d1 + d2) as nat);
    } else {
        let w = choose|w: int|
            0 <= w < n && #[trigger] has_edge(edges, w, j) && connected(
                edges,
                n,
                k,
                w,
                (d2 - 1) as nat,
            );
        lemma_connected_concat(edges, n, i, k, w, d1, (d2 - 1) as nat);
        assert(connected(edges, n, i, w, (d1 + d2 - 1) as nat));
    }
}

/// Folding edges of the list into a sound matrix keeps it sound.
proof fn lemma_apply_edges_sound(
    m: Seq<Seq<u32>>,
    es: Seq<(usize, usize)>,
    edges: Seq<(usize, usize)>,
    n: nat,
)
    requires
        wf_matrix(m, n),
        sound_matrix(m, edges, n),
        edges_ok(es, n),
        forall|t: int|
            0 <= t < es.len() ==> has_edge(edges, (#[trigger] es[t]).0 as int, es[t].1 as int),
    ensures
        sound_matrix(apply_edges(m, es), edges, n),
    decreases es.len(),
{
    if es.len() > 0 {
        let rest = es.drop_last();
        assert forall|t: int| 0 <= t < rest.len() implies (#[trigger] rest[t]).0 < n && rest[t].1
            < n && has_edge(edges, rest[t].0 as int, rest[t].1 as int) by {
            assert(rest[t] == es[t]);
        }
        lemma_apply_edges_sound(m, rest, edges, n);
        lemma_apply_edges_wf(m, rest, n);
        let p = apply_edges(m, rest);
        let e = es.last();
        let a = e.0 as int;
        let b = e.1 as int;
        let r = apply_edge(p, e);
        assert(has_edge(edges, a, b));
        assert(has_edge(edges, b, a));
        assert forall|i: int, j: int|
            0 <= i < n && 0 <= j < n && #[trigger] r[i][j] < INF implies connected(
            edges,
            n,
            i,
            j,
            r[i][j] as nat,
        ) by {
            if r[i][j] == p[i][j] {
                assert(connected(edges, n, i, j, p[i][j] as nat));
            } else {
                // The entry was just set to one by this edge.
                assert((i == a && j == b) || (i == b && j == a));
                assert(r[i][j] == 1);
                assert(connected(edges, n, i, i, 0));
                assert(has_edge(edges, i, j));
                assert(connected(edges, n, i, j, 1));
            }
        }
    }
}

/// One relaxation pass keeps the matrix sound: a shortened entry is the sum
/// of two finite entries, and their walks concatenate.
proof fn lemma_pass_sound(m: Seq<Seq<u32>>, edges: Seq<(usize, usize)>, k: int, n: nat)
    requires
        wf_matrix(m, n),
        sound_matrix(m, edges, n),
        0 <= k < n,
    ensures
        sound_matrix(pass(m, k, n), edges, n),
{
    let r = pass(m, k, n);
    assert forall|i: int, j: int|
        0 <= i < n && 0 <= j < n && #[trigger] r[i][j] < INF implies connected(
        edges,
        n,
        i,
        j,
        r[i][j] as nat,
    ) by {
        assert(r[i] == Seq::new(n, |t: int| relaxed(m, k, i, t)));
        assert(r[i][j] == relaxed(m, k, i, j));
        if r[i][j] == m[i][j] {
            assert(connected(edges, n, i, j, m[i][j] as nat));
        } else {
            let a = m[i][k];
            let b = m[k][j];
            assert(r[i][j] == sat(a, b));
            assert(a < INF && b < INF);
            assert(connected(edges, n, i, k, a as nat));
            assert(connected(edges, n, k, j, b as nat));
            lemma_connected_concat(edges, n, i, k, j, a as nat, b as nat);
            assert(sat(a, b) == a + b);
        }
    }
}

proof fn lemma_passes_sound(m: Seq<Seq<u32>>, edges: Seq<(usize, usize)>, n: nat, k: nat)
    requires
        wf_matrix(m, n),
        sound_matrix(m, edges, n),
        k <= n,
    ensures
        sound_matrix(passes(m, n, k), edges, n),
    decreases k,
{
    if k > 0 {
        lemma_passes_sound(m, edges, n, (k - 1) as nat);
        lemma_passes_props(m, n, (k - 1) as nat);
        lemma_pass_sound(passes(m, n, (k - 1) as nat), edges, k - 1, n);
    }
}

/// The finished matrix is sound: every finite entry is witnessed by a walk
/// of that many edges, so absence encodes exactly "no recorded walk".
pub proof fn lemma_fw_matrix_sound(n: nat, edges: Seq<(usize, usize)>)
    requires
        edges_ok(edges, n),
    ensures
        sound_matrix(fw_matrix(n, edges), edges, n),
{
    lemma_init_wf(n);
    let m = init_matrix(n);
    assert forall|i: int, j: int|
        0 <= i < n && 0 <= j < n && #[trigger] m[i][j] < INF implies connected(
        edges,
        n,
        i,
        j,
        m[i][j] as nat,
    ) by {
        assert(m[i] == Seq::new(n, |t: int| if i == t { 0u32 } else { INF }));
        assert(i == j);
    }
    lemma_apply_edges_sound(m, edges, edges, n);
    lemma_apply_edges_wf(m, edges, n);
    lemma_passes_sound(apply_edges(m, edges), edges, n, n);
}

} // verus!
