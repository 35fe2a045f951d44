use vstd::prelude::*;
use vstd::arithmetic::div_mod::{
    lemma_div_pos_is_pos,
    lemma_div_is_ordered,
    lemma_div_multiples_vanish,
    lemma_fundamental_div_mod,
    lemma_fundamental_div_mod_converse,
    lemma_mod_division_less_than_divisor,
};
use crate::SCALE;
use crate::graph::{Graph, Edge, Neuron};

verus! {

pub open spec fn imin(a: int, b: int) -> int {
    if a < b {
        a
    } else {
        b
    }
}

pub open spec fn imax(a: int, b: int) -> int {
    if a < b {
        b
    } else {
        a
    }
}

pub open spec fn iabs(a: int) -> int {
    if a < 0 {
        -a
    } else {
        a
    }
}

/// The out-edges of node `v` among the first `n` edges, in declaration
/// order.
pub open spec fn out_edges(edges: Seq<Edge>, v: int, n: int) -> Seq<Edge>
    decreases n,
{
    if n <= 0 {
        Seq::empty()
    } else {
        let pre = out_edges(edges, v, n - 1);
        if edges[n - 1].source == v {
            pre.push(edges[n - 1])
        } else {
            pre
        }
    }
}

/// Every out-edge list of a well-formed graph holds only in-range targets
/// and unit-interval weights, and is no longer than the edge list.
pub proof fn lemma_out_edges_wf(g: Graph, v: int, n: int)
    requires
        g.wf(),
        0 <= n <= g.edges@.len(),
    ensures
        out_edges(g.edges@, v, n).len() <= n,
        forall|k: int|
            0 <= k < out_edges(g.edges@, v, n).len() ==> (#[trigger] out_edges(
                g.edges@,
                v,
                n,
            )[k]).source == v && out_edges(g.edges@, v, n)[k].target < g.nodes@.len() && 0
                <= out_edges(g.edges@, v, n)[k].weight <= SCALE,
    decreases n,
{
    if n > 0 {
        lemma_out_edges_wf(g, v, n - 1);
    }
}

/// Out-adjacency lists of a graph, node by node, in edge order.
fn out_adjacency(g: &Graph) -> (adj: Vec<Vec<Edge>>)
    requires
        g.wf(),
    ensures
        adj@.len() == g.nodes@.len(),
        forall|v: int|
            0 <= v < adj@.len() ==> (#[trigger] adj@[v])@ == out_edges(
                g.edges@,
                v,
                g.edges@.len() as int,
            ),
{
    let n: usize = g.nodes.len();
    let n_edges: usize = g.edges.len();
    let mut adj: Vec<Vec<Edge>> = Vec::new();
    let mut v: usize = 0;
    while v < n
        invariant
            0 <= v <= n,
            n == g.nodes@.len(),
            n_edges == g.edges@.len(),
            adj@.len() == v,
            forall|w: int|
                0 <= w < v ==> (#[trigger] adj@[w])@ == out_edges(g.edges@, w, n_edges as int),
        decreases n - v,
    {
        let mut lst: Vec<Edge> = Vec::new();
        let mut j: usize = 0;
        while j < n_edges
            invariant
                0 <= j <= n_edges,
                n_edges == g.edges@.len(),
                lst@ == out_edges(g.edges@, v as int, j as int),
            decreases n_edges - j,
        {
            if g.edges[j].source == v {
                lst.push(g.edges[j]);
            }
            j = j + 1;
        }
        adj.push(lst);
        v = v + 1;
    }
    adj
}

/// View of a row-major matrix as a sequence of rows.
pub open spec fn matrix_view(m: Vec<Vec<i64>>) -> Seq<Seq<i64>> {
    m@.map_values(|row: Vec<i64>| row@)
}

/// An `n` by `m` matrix of fixed-point unit-interval entries.
pub open spec fn matrix_wf(s: Seq<Seq<i64>>, n: int, m: int) -> bool {
    &&& s.len() == n
    &&& forall|i: int| 0 <= i < n ==> (#[trigger] s[i]).len() == m
    &&& forall|i: int, j: int|
        0 <= i < n && 0 <= j < m ==> 0 <= #[trigger] s[i][j] <= SCALE
}

/// Seed similarity of candidate node `i` and target node `j`: full marks for
/// equal roles, nothing otherwise.
pub open spec fn seed_entry(a: Seq<Neuron>, b: Seq<Neuron>, i: int, j: int) -> i64 {
    if a[i] == b[j] {
        SCALE
    } else {
        0
    }
}

pub open spec fn seed_matrix_spec(a: Seq<Neuron>, b: Seq<Neuron>) -> Seq<Seq<i64>> {
    Seq::new(a.len(), |i: int| Seq::new(b.len(), |j: int| seed_entry(a, b, i, j)))
}

/// The similarity matrix between candidate and target nodes seeded by
/// node-role compatibility.
fn seed_matrix(a: &Graph, b: &Graph) -> (s: Vec<Vec<i64>>)
    ensures
        matrix_view(s) == seed_matrix_spec(a.nodes@, b.nodes@),
        matrix_wf(matrix_view(s), a.nodes@.len() as int, b.nodes@.len() as int),
{
    let n: usize = a.nodes.len();
    let m: usize = b.nodes.len();
    let mut s: Vec<Vec<i64>> = Vec::new();
    let mut i: usize = 0;
    while i < n
        invariant
            0 <= i <= n,
            n == a.nodes@.len(),
            m == b.nodes@.len(),
            s@.len() == i,
            forall|w: int|
                0 <= w < i ==> (#[trigger] s@[w])@ == seed_matrix_spec(a.nodes@, b.nodes@)[w],
        decreases n - i,
    {
        let mut row: Vec<i64> = Vec::new();
        let mut j: usize = 0;
        while j < m
            invariant
                0 <= j <= m,
                0 <= i < n,
                n == a.nodes@.len(),
                m == b.nodes@.len(),
                row@.len() == j,
                forall|w: int|
                    0 <= w < j ==> #[trigger] row@[w] == seed_entry(a.nodes@, b.nodes@, i as int, w),
            decreases m - j,
        {
            if a.nodes[i] == b.nodes[j] {
                row.push(SCALE);
            } else {
                row.push(0);
            }
            j = j + 1;
        }
        proof {
            assert(row@ =~= seed_matrix_spec(a.nodes@, b.nodes@)[i as int]);
        }
        s.push(row);
        i = i + 1;
    }
    proof {
        assert forall|w: int| 0 <= w < n implies #[trigger] matrix_view(s)[w] == seed_matrix_spec(
            a.nodes@,
            b.nodes@,
        )[w] by {
            assert(matrix_view(s)[w] == s@[w]@);
        }
        assert(matrix_view(s) =~= seed_matrix_spec(a.nodes@, b.nodes@));
    }
    s
}

/// Sum of the similarities of the first `k` paired out-neighbors.
pub open spec fn pair_sum(s: Seq<Seq<i64>>, ea: Seq<Edge>, eb: Seq<Edge>, k: int) -> int
    decreases k,
{
    if k <= 0 {
        0
    } else {
        pair_sum(s, ea, eb, k - 1) + s[ea[k - 1].target as int][eb[k - 1].target as int]
    }
}

proof fn lemma_pair_sum_bounds(s: Seq<Seq<i64>>, ea: Seq<Edge>, eb: Seq<Edge>, k: int, n: int, m: int)
    requires
        matrix_wf(s, n, m),
        0 <= k <= ea.len(),
        k <= eb.len(),
        forall|q: int| 0 <= q < ea.len() ==> 0 <= (#[trigger] ea[q]).target < n,
        forall|q: int| 0 <= q < eb.len() ==> 0 <= (#[trigger] eb[q]).target < m,
    ensures
        0 <= pair_sum(s, ea, eb, k) <= k * (SCALE as int),
    decreases k,
{
    if k > 0 {
        lemma_pair_sum_bounds(s, ea, eb, k - 1, n, m);
    }
}

/// Neighbor contribution to one matrix entry: the out-neighbors of the two
/// nodes are paired by declaration position, their similarities summed and
/// normalized by the larger out-degree, so edge declaration order is part of
/// a graph's identity here.  Two isolated nodes fall back to their role
/// compatibility.
pub open spec fn neighbor_term(s: Seq<Seq<i64>>, ea: Seq<Edge>, eb: Seq<Edge>, compat: i64) -> int {
    if ea.len() == 0 && eb.len() == 0 {
        compat as int
    } else {
        pair_sum(s, ea, eb, imin(ea.len() as int, eb.len() as int)) / imax(
            ea.len() as int,
            eb.len() as int,
        )
    }
}

/// One refinement of entry `(i, j)`: the mean of the role compatibility and
/// the neighbor contribution.
pub open spec fn step_entry(a: Graph, b: Graph, s: Seq<Seq<i64>>, i: int, j: int) -> int {
    let compat = seed_entry(a.nodes@, b.nodes@, i, j);
    let ea = out_edges(a.edges@, i, a.edges@.len() as int);
    let eb = out_edges(b.edges@, j, b.edges@.len() as int);
    (compat + neighbor_term(s, ea, eb, compat)) / 2
}

pub open spec fn step_matrix_spec(a: Graph, b: Graph, s: Seq<Seq<i64>>) -> Seq<Seq<i64>> {
    Seq::new(
        a.nodes@.len(),
        |i: int| Seq::new(b.nodes@.len(), |j: int| step_entry(a, b, s, i, j) as i64),
    )
}

/// Division of a sum of at most `cap` unit-interval terms by the term count
/// stays in the unit interval.
proof fn lemma_div_unit_bounds(num: int, den: int)
    requires
        0 <= num,
        1 <= den,
        num <= den * (SCALE as int),
    ensures
        0 <= num / den <= SCALE,
{
    lemma_div_pos_is_pos(num, den);
    lemma_div_is_ordered(num, den * (SCALE as int), den);
    lemma_div_multiples_vanish(SCALE as int, den);
}

pub proof fn lemma_step_entry_bounds(a: Graph, b: Graph, s: Seq<Seq<i64>>, i: int, j: int)
    requires
        a.wf(),
        b.wf(),
        matrix_wf(s, a.nodes@.len() as int, b.nodes@.len() as int),
        0 <= i < a.nodes@.len(),
        0 <= j < b.nodes@.len(),
    ensures
        0 <= step_entry(a, b, s, i, j) <= SCALE,
{
    let compat = seed_entry(a.nodes@, b.nodes@, i, j);
    let ea = out_edges(a.edges@, i, a.edges@.len() as int);
    let eb = out_edges(b.edges@, j, b.edges@.len() as int);
    lemma_out_edges_wf(a, i, a.edges@.len() as int);
    lemma_out_edges_wf(b, j, b.edges@.len() as int);
    let nt = neighbor_term(s, ea, eb, compat);
    if ea.len() == 0 && eb.len() == 0 {
        assert(0 <= nt <= SCALE);
    } else {
        let mn = imin(ea.len() as int, eb.len() as int);
        let mx = imax(ea.len() as int, eb.len() as int);
        lemma_pair_sum_bounds(
            s,
            ea,
            eb,
            mn,
            a.nodes@.len() as int,
            b.nodes@.len() as int,
        );
        assert(mn * (SCALE as int) <= mx * (SCALE as int)) by (nonlinear_arith)
            requires 0 <= mn <= mx,
        {}
        lemma_div_unit_bounds(pair_sum(s, ea, eb, mn), mx);
    }
    lemma_div_unit_bounds(compat + nt, 2);
}

/// One refinement sweep over the whole matrix.
fn step_matrix(
    a: &Graph,
    b: &Graph,
    a_adj: &Vec<Vec<Edge>>,
    b_adj: &Vec<Vec<Edge>>,
    s: &Vec<Vec<i64>>,
) -> (r: Vec<Vec<i64>>)
    requires
        a.wf(),
        b.wf(),
        a_adj@.len() == a.nodes@.len(),
        forall|v: int|
            0 <= v < a_adj@.len() ==> (#[trigger] a_adj@[v])@ == out_edges(
                a.edges@,
                v,
                a.edges@.len() as int,
            ),
        b_adj@.len() == b.nodes@.len(),
        forall|v: int|
            0 <= v < b_adj@.len() ==> (#[trigger] b_adj@[v])@ == out_edges(
                b.edges@,
                v,
                b.edges@.len() as int,
            ),
        matrix_wf(matrix_view(*s), a.nodes@.len() as int, b.nodes@.len() as int),
    ensures
        matrix_view(r) == step_matrix_spec(*a, *b, matrix_view(*s)),
        matrix_wf(matrix_view(r), a.nodes@.len() as int, b.nodes@.len() as int),
{
    let n: usize = a.nodes.len();
    let m: usize = b.nodes.len();
    let mut out: Vec<Vec<i64>> = Vec::new();
    let mut i: usize = 0;
    while i < n
        invariant
            0 <= i <= n,
            n == a.nodes@.len(),
            m == b.nodes@.len(),
            a.wf(),
            b.wf(),
            a_adj@.len() == n,
            forall|v: int|
                0 <= v < a_adj@.len() ==> (#[trigger] a_adj@[v])@ == out_edges(
                    a.edges@,
                    v,
                    a.edges@.len() as int,
                ),
            b_adj@.len() == m,
            forall|v: int|
                0 <= v < b_adj@.len() ==> (#[trigger] b_adj@[v])@ == out_edges(
                    b.edges@,
                    v,
                    b.edges@.len() as int,
                ),
            matrix_wf(matrix_view(*s), n as int, m as int),
            out@.len() == i,
            forall|w: int|
                0 <= w < i ==> (#[trigger] out@[w])@ == step_matrix_spec(
                    *a,
                    *b,
                    matrix_view(*s),
                )[w],
        decreases n - i,
    {
        let ea: &Vec<Edge> = &a_adj[i];
        let da: usize = ea.len();
        let mut row: Vec<i64> = Vec::new();
        let mut j: usize = 0;
        while j < m
            invariant
                0 <= j <= m,
                0 <= i < n,
                n == a.nodes@.len(),
                m == b.nodes@.len(),
                a.wf(),
                b.wf(),
                ea@ == out_edges(a.edges@, i as int, a.edges@.len() as int),
                da == ea@.len(),
                b_adj@.len() == m,
                forall|v: int|
                    0 <= v < b_adj@.len() ==> (#[trigger] b_adj@[v])@ == out_edges(
                        b.edges@,
                        v,
                        b.edges@.len() as int,
                    ),
                matrix_wf(matrix_view(*s), n as int, m as int),
                row@.len() == j,
                forall|w: int|
                    0 <= w < j ==> #[trigger] row@[w] as int == step_entry(
                        *a,
                        *b,
                        matrix_view(*s),
                        i as int,
                        w,
                    ),
            decreases m - j,
        {
            let eb: &Vec<Edge> = &b_adj[j];
            let db: usize = eb.len();
            let compat: i64 = if a.nodes[i] == b.nodes[j] {
                SCALE
            } else {
                0
            };
            proof {
                lemma_out_edges_wf(*a, i as int, a.edges@.len() as int);
                lemma_out_edges_wf(*b, j as int, b.edges@.len() as int);
            }
            let nt: i64 = if da == 0 && db == 0 {
                compat
            } else {
                let mn: usize = if da < db {
                    da
                } else {
                    db
                };
                let mx: usize = if da < db {
                    db
                } else {
                    da
                };
                proof {
                    assert(ea@.len() <= a.edges@.len());
                    assert(eb@.len() <= b.edges@.len());
                }
                let mut sum: i64 = 0;
                let mut k: usize = 0;
                while k < mn
                    invariant
                        0 <= k <= mn,
                        mn == imin(ea@.len() as int, eb@.len() as int),
                        mn <= ea@.len(),
                        mn <= eb@.len(),
                        n == a.nodes@.len(),
                        m == b.nodes@.len(),
                        forall|q: int|
                            0 <= q < ea@.len() ==> 0 <= (#[trigger] ea@[q]).target < n,
                        forall|q: int|
                            0 <= q < eb@.len() ==> 0 <= (#[trigger] eb@[q]).target < m,
                        matrix_wf(matrix_view(*s), n as int, m as int),
                        mn <= 1_000_000,
                        sum as int == pair_sum(matrix_view(*s), ea@, eb@, k as int),
                        0 <= sum <= (k as int) * (SCALE as int),
                    decreases mn - k,
                {
                    let ta: usize = ea[k].target;
                    let tb: usize = eb[k].target;
                    proof {
                        lemma_pair_sum_bounds(
                            matrix_view(*s),
                            ea@,
                            eb@,
                            k as int + 1,
                            n as int,
                            m as int,
                        );
                        assert(s@.len() == matrix_view(*s).len());
                        assert(matrix_view(*s)[ta as int] == s@[ta as int]@);
                    }
                    sum = sum + s[ta][tb];
                    k = k + 1;
                }
                proof {
                    assert((mn as int) * (SCALE as int) <= (mx as int) * (SCALE as int))
                        by (nonlinear_arith)
                        requires 0 <= mn as int <= mx as int,
                    {}
                    lemma_div_unit_bounds(sum as int, mx as int);
                }
                sum / (mx as i64)
            };
            proof {
                lemma_step_entry_bounds(*a, *b, matrix_view(*s), i as int, j as int);
                assert(nt as int == neighbor_term(matrix_view(*s), ea@, eb@, compat));
            }
            row.push((compat + nt) / 2);
            j = j + 1;
        }
        proof {
            assert(row@ =~= step_matrix_spec(*a, *b, matrix_view(*s))[i as int]);
        }
        out.push(row);
        i = i + 1;
    }
    proof {
        assert forall|w: int| 0 <= w < n implies #[trigger] matrix_view(out)[w]
            == step_matrix_spec(*a, *b, matrix_view(*s))[w] by {
            assert(matrix_view(out)[w] == out@[w]@);
        }
        assert(matrix_view(out) =~= step_matrix_spec(*a, *b, matrix_view(*s)));
        assert forall|ii: int, jj: int|
            0 <= ii < n && 0 <= jj < m implies 0 <= #[trigger] matrix_view(out)[ii][jj]
            <= SCALE by {
            lemma_step_entry_bounds(*a, *b, matrix_view(*s), ii, jj);
        }
    }
    out
}

/// Largest absolute entry difference over the first `m` columns of a row.
pub open spec fn row_delta(r1: Seq<i64>, r2: Seq<i64>, m: int) -> int
    decreases m,
{
    if m <= 0 {
        0
    } else {
        imax(row_delta(r1, r2, m - 1), iabs(r1[m - 1] - r2[m - 1]))
    }
}

/// Largest absolute entry difference between two matrices.
pub open spec fn mat_delta(s1: Seq<Seq<i64>>, s2: Seq<Seq<i64>>, n: int, m: int) -> int
    decreases n,
{
    if n <= 0 {
        0
    } else {
        imax(mat_delta(s1, s2, n - 1, m), row_delta(s1[n - 1], s2[n - 1], m))
    }
}

fn max_delta(s1: &Vec<Vec<i64>>, s2: &Vec<Vec<i64>>, n: usize, m: usize) -> (r: i64)
    requires
        matrix_wf(matrix_view(*s1), n as int, m as int),
        matrix_wf(matrix_view(*s2), n as int, m as int),
    ensures
        r as int == mat_delta(matrix_view(*s1), matrix_view(*s2), n as int, m as int),
        0 <= r,
{
    let mut d: i64 = 0;
    let mut i: usize = 0;
    while i < n
        invariant
            0 <= i <= n,
            matrix_wf(matrix_view(*s1), n as int, m as int),
            matrix_wf(matrix_view(*s2), n as int, m as int),
            d as int == mat_delta(matrix_view(*s1), matrix_view(*s2), i as int, m as int),
            0 <= d <= SCALE,
        decreases n - i,
    {
        let mut rd: i64 = 0;
        let mut j: usize = 0;
        while j < m
            invariant
                0 <= j <= m,
                0 <= i < n,
                matrix_wf(matrix_view(*s1), n as int, m as int),
                matrix_wf(matrix_view(*s2), n as int, m as int),
                rd as int == row_delta(
                    matrix_view(*s1)[i as int],
                    matrix_view(*s2)[i as int],
                    j as int,
                ),
                0 <= rd <= SCALE,
            decreases m - j,
        {
            proof {
                assert(s1@.len() == matrix_view(*s1).len());
                assert(s2@.len() == matrix_view(*s2).len());
                assert(matrix_view(*s1)[i as int] == s1@[i as int]@);
                assert(matrix_view(*s2)[i as int] == s2@[i as int]@);
            }
            let x: i64 = s1[i][j];
            let y: i64 = s2[i][j];
            let diff: i64 = if x >= y {
                x - y
            } else {
                y - x
            };
            if diff > rd {
                rd = diff;
            }
            j = j + 1;
        }
        if rd > d {
            d = rd;
        }
        i = i + 1;
    }
    d
}

/// Iterative refinement: up to `k` sweeps, stopping early once the largest
/// entry change falls below the convergence tolerance `eps`.
pub open spec fn iterate_spec(a: Graph, b: Graph, s: Seq<Seq<i64>>, k: nat, eps: i64) -> Seq<
    Seq<i64>,
>
    decreases k,
{
    if k == 0 {
        s
    } else {
        let s2 = step_matrix_spec(a, b, s);
        if mat_delta(s, s2, a.nodes@.len() as int, b.nodes@.len() as int) < eps {
            s2
        } else {
            iterate_spec(a, b, s2, (k - 1) as nat, eps)
        }
    }
}

fn iterate_matrix(
    a: &Graph,
    b: &Graph,
    a_adj: &Vec<Vec<Edge>>,
    b_adj: &Vec<Vec<Edge>>,
    s0: Vec<Vec<i64>>,
    iters: usize,
    eps: i64,
) -> (r: Vec<Vec<i64>>)
    requires
        a.wf(),
        b.wf(),
        a_adj@.len() == a.nodes@.len(),
        forall|v: int|
            0 <= v < a_adj@.len() ==> (#[trigger] a_adj@[v])@ == out_edges(
                a.edges@,
                v,
                a.edges@.len() as int,
            ),
        b_adj@.len() == b.nodes@.len(),
        forall|v: int|
            0 <= v < b_adj@.len() ==> (#[trigger] b_adj@[v])@ == out_edges(
                b.edges@,
                v,
                b.edges@.len() as int,
            ),
        matrix_wf(matrix_view(s0), a.nodes@.len() as int, b.nodes@.len() as int),
    ensures
        matrix_view(r) == iterate_spec(*a, *b, matrix_view(s0), iters as nat, eps),
        matrix_wf(matrix_view(r), a.nodes@.len() as int, b.nodes@.len() as int),
{
    let ghost target: Seq<Seq<i64>> = iterate_spec(*a, *b, matrix_view(s0), iters as nat, eps);
    let mut cur = s0;
    let mut t: usize = 0;
    let mut done: bool = false;
    while t < iters && !done
        invariant
            0 <= t <= iters,
            a.wf(),
            b.wf(),
            a_adj@.len() == a.nodes@.len(),
            forall|v: int|
                0 <= v < a_adj@.len() ==> (#[trigger] a_adj@[v])@ == out_edges(
                    a.edges@,
                    v,
                    a.edges@.len() as int,
                ),
            b_adj@.len() == b.nodes@.len(),
            forall|v: int|
                0 <= v < b_adj@.len() ==> (#[trigger] b_adj@[v])@ == out_edges(
                    b.edges@,
                    v,
                    b.edges@.len() as int,
                ),
            matrix_wf(matrix_view(cur), a.nodes@.len() as int, b.nodes@.len() as int),
            target == iterate_spec(*a, *b, matrix_view(s0), iters as nat, eps),
            done ==> matrix_view(cur) == target,
            !done ==> iterate_spec(*a, *b, matrix_view(cur), (iters - t) as nat, eps) == target,
        decreases iters - t,
    {
        let s2 = step_matrix(a, b, a_adj, b_adj, &cur);
        let d = max_delta(&cur, &s2, a.nodes.len(), b.nodes.len());
        if d < eps {
            done = true;
        }
        cur = s2;
        t = t + 1;
    }
    cur
}

/// Total similarity of an assignment: its cell entry plus the best total the
/// remaining picks can reach once its row and column are retired.
pub open spec fn pick_value(
    s: Seq<Seq<i64>>,
    ur: Seq<bool>,
    uc: Seq<bool>,
    m: int,
    steps: nat,
    i: int,
    j: int,
) -> int
    decreases steps, 0int, 0int,
{
    if steps == 0 {
        s[i][j] as int
    } else {
        let rest = best_assignment(
            s,
            ur.update(i, true),
            uc.update(j, true),
            m,
            (steps - 1) as nat,
        );
        s[i][j] + assignment_sum(s, rest, rest.len() as int)
    }
}

/// Best first pick among the first `t` cells in row-major order: the cell
/// with unused row and column whose `pick_value` — its own entry plus the
/// best achievable remainder — is largest; the earliest such cell wins ties.
pub open spec fn best_choice(
    s: Seq<Seq<i64>>,
    ur: Seq<bool>,
    uc: Seq<bool>,
    m: int,
    steps: nat,
    t: int,
) -> Option<(int, int)>
    decreases steps, 1int, t,
{
    if t <= 0 {
        None
    } else {
        let prev = best_choice(s, ur, uc, m, steps, t - 1);
        let i = (t - 1) / m;
        let j = (t - 1) % m;
        if !ur[i] && !uc[j] {
            match prev {
                None => Some((i, j)),
                Some(p) => if pick_value(s, ur, uc, m, steps, i, j) > pick_value(
                    s,
                    ur,
                    uc,
                    m,
                    steps,
                    p.0,
                    p.1,
                ) {
                    Some((i, j))
                } else {
                    prev
                },
            }
        } else {
            prev
        }
    }
}

/// A maximum-weight one-to-one assignment of up to `steps` picks over the
/// unused rows and columns: each pick is a cell whose entry plus the best
/// achievable remainder is maximal, so the selected-entry total is maximal
/// over all one-to-one assignments.
pub open spec fn best_assignment(
    s: Seq<Seq<i64>>,
    ur: Seq<bool>,
    uc: Seq<bool>,
    m: int,
    steps: nat,
) -> Seq<(int, int)>
    decreases steps, 2int, 0int,
{
    if steps == 0 {
        Seq::empty()
    } else {
        match best_choice(s, ur, uc, m, steps, ur.len() * m) {
            None => Seq::empty(),
            Some(p) => seq![p] + best_assignment(
                s,
                ur.update(p.0, true),
                uc.update(p.1, true),
                m,
                (steps - 1) as nat,
            ),
        }
    }
}

proof fn lemma_best_choice_valid(
    s: Seq<Seq<i64>>,
    ur: Seq<bool>,
    uc: Seq<bool>,
    m: int,
    steps: nat,
    t: int,
)
    requires
        m >= 1,
        t >= 0,
    ensures
        best_choice(s, ur, uc, m, steps, t) matches Some(p) ==> 0 <= p.0 && 0 <= p.1 < m && p.0 * m
            + p.1 < t && !ur[p.0] && !uc[p.1],
    decreases t,
{
    if t > 0 {
        lemma_best_choice_valid(s, ur, uc, m, steps, t - 1);
        let i = (t - 1) / m;
        let j = (t - 1) % m;
        lemma_div_pos_is_pos(t - 1, m);
        lemma_mod_division_less_than_divisor(t - 1, m);
        lemma_fundamental_div_mod(t - 1, m);
        assert(i * m + j == t - 1) by (nonlinear_arith)
            requires t - 1 == m * i + j,
        {}
    }
}

/// Every pick of a best assignment names an unused in-range cell, and there
/// are at most `steps` of them.
proof fn lemma_best_assignment_valid(
    s: Seq<Seq<i64>>,
    ur: Seq<bool>,
    uc: Seq<bool>,
    n: int,
    m: int,
    steps: nat,
)
    requires
        ur.len() == n,
        uc.len() == m,
        m >= 1,
    ensures
        best_assignment(s, ur, uc, m, steps).len() <= steps,
        forall|k: int|
            0 <= k < best_assignment(s, ur, uc, m, steps).len() ==> 0 <= (#[trigger]
            best_assignment(s, ur, uc, m, steps)[k]).0 < n && 0 <= best_assignment(
                s,
                ur,
                uc,
                m,
                steps,
            )[k].1 < m,
    decreases steps,
{
    if steps > 0 {
        lemma_best_choice_valid(s, ur, uc, m, steps, n * m);
        match best_choice(s, ur, uc, m, steps, n * m) {
            None => {},
            Some(p) => {
                assert(p.0 < n) by (nonlinear_arith)
                    requires
                        p.0 * m + p.1 < n * m,
                        0 <= p.1 && p.1 < m,
                        0 <= p.0,
                        m >= 1,
                {}
                lemma_best_assignment_valid(
                    s,
                    ur.update(p.0, true),
                    uc.update(p.1, true),
                    n,
                    m,
                    (steps - 1) as nat,
                );
            },
        }
    }
}

/// A one-to-one assignment over the rows and columns still unused: each pick
/// names an unused in-range cell and retires its row and column.
pub open spec fn valid_assignment(asn: Seq<(int, int)>, ur: Seq<bool>, uc: Seq<bool>) -> bool
    decreases asn.len(),
{
    asn.len() == 0 || {
        let p = asn[0];
        &&& 0 <= p.0 < ur.len()
        &&& 0 <= p.1 < uc.len()
        &&& !ur[p.0]
        &&& !uc[p.1]
        &&& valid_assignment(asn.drop_first(), ur.update(p.0, true), uc.update(p.1, true))
    }
}

/// An assignment's total decomposes at its first pick.
proof fn lemma_assignment_sum_first(s: Seq<Seq<i64>>, a: Seq<(int, int)>, k: int)
    requires
        1 <= k <= a.len(),
    ensures
        assignment_sum(s, a, k) == s[a[0].0][a[0].1] + assignment_sum(s, a.drop_first(), k - 1),
    decreases k,
{
    if k == 1 {
        assert(assignment_sum(s, a, 1) == assignment_sum(s, a, 0) + s[a[0].0][a[0].1]);
        assert(assignment_sum(s, a, 0) == 0);
        assert(assignment_sum(s, a.drop_first(), 0) == 0);
    } else {
        lemma_assignment_sum_first(s, a, k - 1);
        assert(assignment_sum(s, a, k) == assignment_sum(s, a, k - 1) + s[a[k - 1].0][a[k
            - 1].1]);
        assert(a.drop_first()[k - 2] == a[k - 1]);
        assert(assignment_sum(s, a.drop_first(), k - 1) == assignment_sum(
            s,
            a.drop_first(),
            k - 2,
        ) + s[a.drop_first()[k - 2].0][a.drop_first()[k - 2].1]);
    }
}

/// The scanned choice is at least as valuable as every unused cell scanned.
proof fn lemma_best_choice_ge(
    s: Seq<Seq<i64>>,
    ur: Seq<bool>,
    uc: Seq<bool>,
    m: int,
    steps: nat,
    t: int,
    i: int,
    j: int,
)
    requires
        m >= 1,
        0 <= i,
        0 <= j < m,
        !ur[i],
        !uc[j],
        i * m + j < t,
    ensures
        best_choice(s, ur, uc, m, steps, t) matches Some(c) && pick_value(
            s,
            ur,
            uc,
            m,
            steps,
            i,
            j,
        ) <= pick_value(s, ur, uc, m, steps, c.0, c.1),
    decreases t,
{
    if t - 1 == i * m + j {
        assert(i * m + j == m * i + j) by (nonlinear_arith);
        lemma_fundamental_div_mod_converse(t - 1, m, i, j);
        assert((t - 1) / m == i && (t - 1) % m == j);
    } else {
        lemma_best_choice_ge(s, ur, uc, m, steps, t - 1, i, j);
    }
}

/// The resolved assignment is maximum-weight: over any flags, no valid
/// one-to-one assignment of at most `steps` picks reaches a larger total.
proof fn lemma_best_assignment_maximal(
    s: Seq<Seq<i64>>,
    ur: Seq<bool>,
    uc: Seq<bool>,
    m: int,
    steps: nat,
    other: Seq<(int, int)>,
)
    requires
        matrix_wf(s, ur.len() as int, m),
        uc.len() == m,
        m >= 1,
        valid_assignment(other, ur, uc),
        other.len() <= steps,
    ensures
        assignment_sum(s, other, other.len() as int) <= assignment_sum(
            s,
            best_assignment(s, ur, uc, m, steps),
            best_assignment(s, ur, uc, m, steps).len() as int,
        ),
    decreases steps,
{
    let n = ur.len() as int;
    let best = best_assignment(s, ur, uc, m, steps);
    lemma_best_assignment_valid(s, ur, uc, n, m, steps);
    lemma_assignment_sum_bounds(s, best, best.len() as int, n, m);
    if other.len() > 0 {
        let p = other[0];
        assert(p.0 * m + p.1 < n * m) by (nonlinear_arith)
            requires
                0 <= p.0 && p.0 < n,
                0 <= p.1 && p.1 < m,
        {}
        lemma_best_choice_ge(s, ur, uc, m, steps, n * m, p.0, p.1);
        let c = best_choice(s, ur, uc, m, steps, n * m)->Some_0;
        lemma_best_choice_valid(s, ur, uc, m, steps, n * m);
        // the tail of `other` is a valid assignment once p's row and column
        // are retired, so induction bounds it by the best remainder after p
        lemma_best_assignment_maximal(
            s,
            ur.update(p.0, true),
            uc.update(p.1, true),
            m,
            (steps - 1) as nat,
            other.drop_first(),
        );
        lemma_assignment_sum_first(s, other, other.len() as int);
        assert(assignment_sum(s, other, other.len() as int) <= pick_value(
            s,
            ur,
            uc,
            m,
            steps,
            p.0,
            p.1,
        ));
        // the chosen cell's value is the best assignment's total
        let rest = best_assignment(
            s,
            ur.update(c.0, true),
            uc.update(c.1, true),
            m,
            (steps - 1) as nat,
        );
        assert(best == seq![c] + rest);
        lemma_assignment_sum_first(s, best, best.len() as int);
        assert(best.drop_first() =~= rest);
        assert(assignment_sum(s, best, best.len() as int) == pick_value(
            s,
            ur,
            uc,
            m,
            steps,
            c.0,
            c.1,
        ));
    }
}

/// No one-to-one node assignment reaches a larger similarity total than the
/// one the evaluator resolves: the resolved assignment is a maximum-weight
/// matching of the similarity matrix.
pub proof fn lemma_assignment_spec_maximal(s: Seq<Seq<i64>>, n: int, m: int, other: Seq<(int, int)>)
    requires
        matrix_wf(s, n, m),
        m >= 1,
        valid_assignment(
            other,
            Seq::new(n as nat, |x: int| false),
            Seq::new(m as nat, |x: int| false),
        ),
        other.len() <= imin(n, m),
    ensures
        assignment_sum(s, other, other.len() as int) <= assignment_sum(
            s,
            assignment_spec(s, n, m),
            assignment_spec(s, n, m).len() as int,
        ),
{
    lemma_best_assignment_maximal(
        s,
        Seq::new(n as nat, |x: int| false),
        Seq::new(m as nat, |x: int| false),
        m,
        imin(n, m) as nat,
        other,
    );
}

pub open spec fn asn_view(asn: Seq<(usize, usize)>) -> Seq<(int, int)> {
    asn.map_values(|p: (usize, usize)| (p.0 as int, p.1 as int))
}

/// The assignment the similarity evaluator resolves for an `n` by `m`
/// matrix: a maximum-weight one-to-one assignment covering the smaller side.
pub open spec fn assignment_spec(s: Seq<Seq<i64>>, n: int, m: int) -> Seq<(int, int)> {
    best_assignment(
        s,
        Seq::new(n as nat, |x: int| false),
        Seq::new(m as nat, |x: int| false),
        m,
        imin(n, m) as nat,
    )
}

fn copy_flags(v: &Vec<bool>) -> (r: Vec<bool>)
    ensures
        r@ == v@,
{
    let mut r: Vec<bool> = Vec::new();
    let mut k: usize = 0;
    while k < v.len()
        invariant
            k <= v@.len(),
            r@ == v@.take(k as int),
        decreases v@.len() - k,
    {
        r.push(v[k]);
        proof {
            assert(r@ =~= v@.take(k as int + 1));
        }
        k = k + 1;
    }
    proof {
        assert(v@.take(v@.len() as int) =~= v@);
    }
    r
}

/// The pick of one assignment round: mirrors `best_choice` over all cells.
fn best_pick(
    s: &Vec<Vec<i64>>,
    ur: &Vec<bool>,
    uc: &Vec<bool>,
    n: usize,
    m: usize,
    steps: usize,
) -> (r: Option<(usize, usize)>)
    requires
        matrix_wf(matrix_view(*s), n as int, m as int),
        ur@.len() == n,
        uc@.len() == m,
        n >= 1,
        m >= 1,
        n <= 1_000_000,
        m <= 1_000_000,
        n * m <= usize::MAX,
        steps >= 1,
        steps <= 1_000_000,
    ensures
        (match r {
            None => best_choice(matrix_view(*s), ur@, uc@, m as int, steps as nat, (n * m) as int)
                is None,
            Some(p) => p.0 < n && p.1 < m && best_choice(
                matrix_view(*s),
                ur@,
                uc@,
                m as int,
                steps as nat,
                (n * m) as int,
            ) == Some((p.0 as int, p.1 as int)),
        }),
    decreases steps, 0int,
{
    let ghost sv: Seq<Seq<i64>> = matrix_view(*s);
    let total: usize = n * m;
    let mut best: Option<(usize, usize)> = None;
    let mut best_val: i64 = 0;
    let mut t: usize = 0;
    while t < total
        invariant
            t <= total,
            total == n * m,
            n >= 1,
            m >= 1,
            n <= 1_000_000,
            m <= 1_000_000,
            steps >= 1,
            steps <= 1_000_000,
            matrix_wf(sv, n as int, m as int),
            sv == matrix_view(*s),
            ur@.len() == n,
            uc@.len() == m,
            (match best {
                None => best_choice(sv, ur@, uc@, m as int, steps as nat, t as int) is None,
                Some(p) => p.0 < n && p.1 < m && best_choice(
                    sv,
                    ur@,
                    uc@,
                    m as int,
                    steps as nat,
                    t as int,
                ) == Some((p.0 as int, p.1 as int)) && best_val as int == pick_value(
                    sv,
                    ur@,
                    uc@,
                    m as int,
                    steps as nat,
                    p.0 as int,
                    p.1 as int,
                ),
            }),
        decreases total - t,
    {
        let i: usize = t / m;
        let j: usize = t % m;
        proof {
            lemma_div_pos_is_pos(t as int, m as int);
            lemma_mod_division_less_than_divisor(t as int, m as int);
            lemma_fundamental_div_mod(t as int, m as int);
            assert((i as int) < n as int) by (nonlinear_arith)
                requires
                    t as int == (m as int) * (i as int) + (j as int),
                    0 <= (j as int) && (j as int) < m as int,
                    (t as int) < (n as int) * (m as int),
                    m as int >= 1,
                    i as int >= 0,
            {}
        }
        if !ur[i] && !uc[j] {
            let mut ur2 = copy_flags(ur);
            let mut uc2 = copy_flags(uc);
            ur2.set(i, true);
            uc2.set(j, true);
            let rest = best_assign(s, ur2, uc2, n, m, steps - 1);
            let rest_sum = sum_assignment(s, &rest, n, m);
            proof {
                assert(s@.len() == sv.len());
                assert(matrix_view(*s)[i as int] == s@[i as int]@);
                assert((rest@.len() as int) * (SCALE as int) <= 1_000_000_000_000)
                    by (nonlinear_arith)
                    requires 0 <= rest@.len() as int <= 1_000_000,
                {}
            }
            let val: i64 = s[i][j] + rest_sum;
            proof {
                assert(val as int == pick_value(sv, ur@, uc@, m as int, steps as nat, i as int, j as int));
            }
            let take: bool = match best {
                None => true,
                Some(_) => val > best_val,
            };
            if take {
                best = Some((i, j));
                best_val = val;
            }
        }
        t = t + 1;
    }
    best
}

/// One assignment round after another: mirrors `best_assignment`.
fn best_assign(
    s: &Vec<Vec<i64>>,
    ur: Vec<bool>,
    uc: Vec<bool>,
    n: usize,
    m: usize,
    steps: usize,
) -> (asn: Vec<(usize, usize)>)
    requires
        matrix_wf(matrix_view(*s), n as int, m as int),
        ur@.len() == n,
        uc@.len() == m,
        n >= 1,
        m >= 1,
        n <= 1_000_000,
        m <= 1_000_000,
        n * m <= usize::MAX,
        steps <= 1_000_000,
    ensures
        asn_view(asn@) == best_assignment(matrix_view(*s), ur@, uc@, m as int, steps as nat),
        asn@.len() <= steps,
        forall|k: int|
            0 <= k < asn@.len() ==> (#[trigger] asn@[k]).0 < n && asn@[k].1 < m,
    decreases steps, 1int,
{
    let ghost sv: Seq<Seq<i64>> = matrix_view(*s);
    if steps == 0 {
        let r: Vec<(usize, usize)> = Vec::new();
        proof {
            assert(asn_view(r@) =~= best_assignment(sv, ur@, uc@, m as int, 0));
        }
        return r;
    }
    match best_pick(s, &ur, &uc, n, m, steps) {
        None => {
            let r: Vec<(usize, usize)> = Vec::new();
            proof {
                assert(asn_view(r@) =~= best_assignment(sv, ur@, uc@, m as int, steps as nat));
            }
            r
        },
        Some(p) => {
            let bi: usize = p.0;
            let bj: usize = p.1;
            let mut ur2 = copy_flags(&ur);
            let mut uc2 = copy_flags(&uc);
            ur2.set(bi, true);
            uc2.set(bj, true);
            let rest = best_assign(s, ur2, uc2, n, m, steps - 1);
            let mut out: Vec<(usize, usize)> = Vec::new();
            out.push((bi, bj));
            let mut k: usize = 0;
            while k < rest.len()
                invariant
                    k <= rest@.len(),
                    out@.len() == k + 1,
                    out@[0] == (bi, bj),
                    forall|q: int| 0 <= q < k ==> out@[q + 1] == rest@[q],
                decreases rest@.len() - k,
            {
                let item = rest[k];
                out.push(item);
                k = k + 1;
            }
            proof {
                assert forall|q: int| 0 <= q < out@.len() implies (#[trigger] out@[q]).0 < n
                    && out@[q].1 < m by {
                    if q >= 1 {
                        assert(rest@[q - 1] == out@[q - 1 + 1]);
                    }
                }
                assert(asn_view(out@) =~= seq![(bi as int, bj as int)] + asn_view(rest@));
                assert(best_assignment(sv, ur@, uc@, m as int, steps as nat) == seq![
                    (bi as int, bj as int),
                ] + best_assignment(
                    sv,
                    ur@.update(bi as int, true),
                    uc@.update(bj as int, true),
                    m as int,
                    (steps - 1) as nat,
                ));
            }
            out
        },
    }
}

fn node_assignment(s: &Vec<Vec<i64>>, n: usize, m: usize) -> (asn: Vec<(usize, usize)>)
    requires
        matrix_wf(matrix_view(*s), n as int, m as int),
        n <= 1_000_000,
        m <= 1_000_000,
        n * m <= usize::MAX,
    ensures
        asn_view(asn@) == assignment_spec(matrix_view(*s), n as int, m as int),
        asn@.len() <= imin(n as int, m as int),
        forall|k: int|
            0 <= k < asn@.len() ==> (#[trigger] asn@[k]).0 < n && asn@[k].1 < m,
{
    let ghost sv: Seq<Seq<i64>> = matrix_view(*s);
    let steps: usize = if n < m {
        n
    } else {
        m
    };
    if steps == 0 {
        let r: Vec<(usize, usize)> = Vec::new();
        proof {
            assert(asn_view(r@) =~= assignment_spec(sv, n as int, m as int));
        }
        return r;
    }
    let mut ur: Vec<bool> = Vec::new();
    let mut uc: Vec<bool> = Vec::new();
    let mut v: usize = 0;
    while v < n
        invariant
            v <= n,
            ur@ == Seq::new(v as nat, |x: int| false),
        decreases n - v,
    {
        ur.push(false);
        proof {
            assert(ur@ =~= Seq::new((v + 1) as nat, |x: int| false));
        }
        v = v + 1;
    }
    let mut w: usize = 0;
    while w < m
        invariant
            w <= m,
            uc@ == Seq::new(w as nat, |x: int| false),
        decreases m - w,
    {
        uc.push(false);
        proof {
            assert(uc@ =~= Seq::new((w + 1) as nat, |x: int| false));
        }
        w = w + 1;
    }
    best_assign(s, ur, uc, n, m, steps)
}

/// Sum of the matrix entries selected by the first `k` assignment pairs.
pub open spec fn assignment_sum(s: Seq<Seq<i64>>, asn: Seq<(int, int)>, k: int) -> int
    decreases k,
{
    if k <= 0 {
        0
    } else {
        assignment_sum(s, asn, k - 1) + s[asn[k - 1].0][asn[k - 1].1]
    }
}

proof fn lemma_assignment_sum_bounds(s: Seq<Seq<i64>>, asn: Seq<(int, int)>, k: int, n: int, m: int)
    requires
        matrix_wf(s, n, m),
        0 <= k <= asn.len(),
        forall|q: int| 0 <= q < asn.len() ==> 0 <= (#[trigger] asn[q]).0 < n && 0 <= asn[q].1 < m,
    ensures
        0 <= assignment_sum(s, asn, k) <= k * (SCALE as int),
    decreases k,
{
    if k > 0 {
        lemma_assignment_sum_bounds(s, asn, k - 1, n, m);
    }
}

fn sum_assignment(s: &Vec<Vec<i64>>, asn: &Vec<(usize, usize)>, n: usize, m: usize) -> (r: i64)
    requires
        matrix_wf(matrix_view(*s), n as int, m as int),
        asn@.len() <= 1_000_000,
        forall|k: int|
            0 <= k < asn@.len() ==> (#[trigger] asn@[k]).0 < n && asn@[k].1 < m,
    ensures
        r as int == assignment_sum(matrix_view(*s), asn_view(asn@), asn@.len() as int),
        0 <= r as int <= (asn@.len() as int) * (SCALE as int),
{
    let mut sum: i64 = 0;
    let mut k: usize = 0;
    while k < asn.len()
        invariant
            k <= asn@.len(),
            asn@.len() <= 1_000_000,
            matrix_wf(matrix_view(*s), n as int, m as int),
            forall|q: int|
                0 <= q < asn@.len() ==> (#[trigger] asn@[q]).0 < n && asn@[q].1 < m,
            sum as int == assignment_sum(matrix_view(*s), asn_view(asn@), k as int),
            0 <= sum as int <= (k as int) * (SCALE as int),
        decreases asn@.len() - k,
    {
        let (pi, pj) = asn[k];
        proof {
            assert(asn_view(asn@)[k as int] == (pi as int, pj as int));
            assert(s@.len() == matrix_view(*s).len());
            assert(matrix_view(*s)[pi as int] == s@[pi as int]@);
            lemma_assignment_sum_bounds(
                matrix_view(*s),
                asn_view(asn@),
                k as int + 1,
                n as int,
                m as int,
            );
        }
        sum = sum + s[pi][pj];
        k = k + 1;
    }
    sum
}

/// Sum of `SCALE - |wa - wb|` over the first `k` paired out-edge weights.
pub open spec fn weight_pair_sum(ea: Seq<Edge>, eb: Seq<Edge>, k: int) -> int
    decreases k,
{
    if k <= 0 {
        0
    } else {
        weight_pair_sum(ea, eb, k - 1) + ((SCALE as int) - iabs(
            ea[k - 1].weight - eb[k - 1].weight,
        ))
    }
}

proof fn lemma_weight_pair_sum_bounds(ea: Seq<Edge>, eb: Seq<Edge>, k: int)
    requires
        0 <= k <= ea.len(),
        k <= eb.len(),
        forall|q: int| 0 <= q < ea.len() ==> 0 <= (#[trigger] ea[q]).weight <= SCALE,
        forall|q: int| 0 <= q < eb.len() ==> 0 <= (#[trigger] eb[q]).weight <= SCALE,
    ensures
        0 <= weight_pair_sum(ea, eb, k) <= k * (SCALE as int),
    decreases k,
{
    if k > 0 {
        lemma_weight_pair_sum_bounds(ea, eb, k - 1);
    }
}

/// Similarity of two outgoing-edge-weight lists, paired by declaration
/// position and normalized by the larger out-degree; two isolated nodes
/// count as fully similar.  As with the neighbor term, edge declaration
/// order is significant.
pub open spec fn edge_pair_score(ea: Seq<Edge>, eb: Seq<Edge>) -> int {
    if ea.len() == 0 && eb.len() == 0 {
        SCALE as int
    } else {
        weight_pair_sum(ea, eb, imin(ea.len() as int, eb.len() as int)) / imax(
            ea.len() as int,
            eb.len() as int,
        )
    }
}

proof fn lemma_edge_pair_score_bounds(ea: Seq<Edge>, eb: Seq<Edge>)
    requires
        forall|q: int| 0 <= q < ea.len() ==> 0 <= (#[trigger] ea[q]).weight <= SCALE,
        forall|q: int| 0 <= q < eb.len() ==> 0 <= (#[trigger] eb[q]).weight <= SCALE,
    ensures
        0 <= edge_pair_score(ea, eb) <= SCALE,
{
    if ea.len() == 0 && eb.len() == 0 {
    } else {
        let mn = imin(ea.len() as int, eb.len() as int);
        let mx = imax(ea.len() as int, eb.len() as int);
        lemma_weight_pair_sum_bounds(ea, eb, mn);
        assert(mn * (SCALE as int) <= mx * (SCALE as int)) by (nonlinear_arith)
            requires 0 <= mn <= mx,
        {}
        lemma_div_unit_bounds(weight_pair_sum(ea, eb, mn), mx);
    }
}

/// Sum of edge-pair scores over the first `k` assignment pairs.
pub open spec fn edge_score_sum(a: Graph, b: Graph, asn: Seq<(int, int)>, k: int) -> int
    decreases k,
{
    if k <= 0 {
        0
    } else {
        edge_score_sum(a, b, asn, k - 1) + edge_pair_score(
            out_edges(a.edges@, asn[k - 1].0, a.edges@.len() as int),
            out_edges(b.edges@, asn[k - 1].1, b.edges@.len() as int),
        )
    }
}

proof fn lemma_edge_score_sum_bounds(a: Graph, b: Graph, asn: Seq<(int, int)>, k: int)
    requires
        a.wf(),
        b.wf(),
        0 <= k <= asn.len(),
    ensures
        0 <= edge_score_sum(a, b, asn, k) <= k * (SCALE as int),
    decreases k,
{
    if k > 0 {
        lemma_edge_score_sum_bounds(a, b, asn, k - 1);
        lemma_out_edges_wf(a, asn[k - 1].0, a.edges@.len() as int);
        lemma_out_edges_wf(b, asn[k - 1].1, b.edges@.len() as int);
        lemma_edge_pair_score_bounds(
            out_edges(a.edges@, asn[k - 1].0, a.edges@.len() as int),
            out_edges(b.edges@, asn[k - 1].1, b.edges@.len() as int),
        );
    }
}

fn edge_weight_scores(
    a: &Graph,
    b: &Graph,
    a_adj: &Vec<Vec<Edge>>,
    b_adj: &Vec<Vec<Edge>>,
    asn: &Vec<(usize, usize)>,
) -> (r: i64)
    requires
        a.wf(),
        b.wf(),
        a_adj@.len() == a.nodes@.len(),
        forall|v: int|
            0 <= v < a_adj@.len() ==> (#[trigger] a_adj@[v])@ == out_edges(
                a.edges@,
                v,
                a.edges@.len() as int,
            ),
        b_adj@.len() == b.nodes@.len(),
        forall|v: int|
            0 <= v < b_adj@.len() ==> (#[trigger] b_adj@[v])@ == out_edges(
                b.edges@,
                v,
                b.edges@.len() as int,
            ),
        asn@.len() <= 1_000_000,
        forall|k: int|
            0 <= k < asn@.len() ==> (#[trigger] asn@[k]).0 < a.nodes@.len() && asn@[k].1
                < b.nodes@.len(),
    ensures
        r as int == edge_score_sum(*a, *b, asn_view(asn@), asn@.len() as int),
        0 <= r as int <= (asn@.len() as int) * (SCALE as int),
{
    let mut sum: i64 = 0;
    let mut k: usize = 0;
    while k < asn.len()
        invariant
            k <= asn@.len(),
            asn@.len() <= 1_000_000,
            a.wf(),
            b.wf(),
            a_adj@.len() == a.nodes@.len(),
            forall|v: int|
                0 <= v < a_adj@.len() ==> (#[trigger] a_adj@[v])@ == out_edges(
                    a.edges@,
                    v,
                    a.edges@.len() as int,
                ),
            b_adj@.len() == b.nodes@.len(),
            forall|v: int|
                0 <= v < b_adj@.len() ==> (#[trigger] b_adj@[v])@ == out_edges(
                    b.edges@,
                    v,
                    b.edges@.len() as int,
                ),
            forall|q: int|
                0 <= q < asn@.len() ==> (#[trigger] asn@[q]).0 < a.nodes@.len() && asn@[q].1
                    < b.nodes@.len(),
            sum as int == edge_score_sum(*a, *b, asn_view(asn@), k as int),
            0 <= sum as int <= (k as int) * (SCALE as int),
        decreases asn@.len() - k,
    {
        let (pi, pj) = asn[k];
        let ea: &Vec<Edge> = &a_adj[pi];
        let eb: &Vec<Edge> = &b_adj[pj];
        proof {
            assert(asn_view(asn@)[k as int] == (pi as int, pj as int));
            lemma_out_edges_wf(*a, pi as int, a.edges@.len() as int);
            lemma_out_edges_wf(*b, pj as int, b.edges@.len() as int);
            lemma_edge_pair_score_bounds(ea@, eb@);
        }
        let la: usize = ea.len();
        let lb: usize = eb.len();
        let pscore: i64 = if la == 0 && lb == 0 {
            SCALE
        } else {
            let mn: usize = if la < lb {
                la
            } else {
                lb
            };
            let mx: usize = if la < lb {
                lb
            } else {
                la
            };
            proof {
                assert(ea@.len() <= a.edges@.len());
                assert(eb@.len() <= b.edges@.len());
            }
            let mut wsum: i64 = 0;
            let mut q: usize = 0;
            while q < mn
                invariant
                    q <= mn,
                    mn == imin(ea@.len() as int, eb@.len() as int),
                    mn <= ea@.len(),
                    mn <= eb@.len(),
                    mn <= 1_000_000,
                    forall|w: int| 0 <= w < ea@.len() ==> 0 <= (#[trigger] ea@[w]).weight <= SCALE,
                    forall|w: int| 0 <= w < eb@.len() ==> 0 <= (#[trigger] eb@[w]).weight <= SCALE,
                    wsum as int == weight_pair_sum(ea@, eb@, q as int),
                    0 <= wsum as int <= (q as int) * (SCALE as int),
                decreases mn - q,
            {
                proof {
                    lemma_weight_pair_sum_bounds(ea@, eb@, q as int + 1);
                }
                let wa: i64 = ea[q].weight;
                let wb: i64 = eb[q].weight;
                let diff: i64 = if wa >= wb {
                    wa - wb
                } else {
                    wb - wa
                };
                wsum = wsum + (SCALE - diff);
                q = q + 1;
            }
            proof {
                assert((mn as int) * (SCALE as int) <= (mx as int) * (SCALE as int))
                    by (nonlinear_arith)
                    requires 0 <= mn as int <= mx as int,
                {}
                lemma_div_unit_bounds(wsum as int, mx as int);
            }
            wsum / (mx as i64)
        };
        sum = sum + pscore;
        k = k + 1;
    }
    sum
}

/// Normalization of a score sum by the larger graph's node count.
pub open spec fn score_norm(sum: int, n: int, m: int) -> int {
    if imax(n, m) == 0 {
        0
    } else {
        sum / imax(n, m)
    }
}

/// The graph-similarity fitness evaluator: a reference target graph together
/// with the iteration budget, convergence tolerance, and the switch that
/// folds outgoing-edge-weight similarity into the final score.
#[derive(Debug)]
pub struct GraphSimilarity {
    pub target_graph: Graph,
    pub edge_score: bool,
    pub iters: usize,
    pub eps: i64,
}

/// The fitness value as a function of the configuration and candidate graph:
/// refine the role-seeded similarity matrix, resolve a maximum-weight
/// one-to-one node assignment, normalize the assignment's similarity sum by the larger node
/// count, and optionally multiply in the normalized outgoing-edge-weight
/// similarity.
pub open spec fn fitness_spec(cfg: GraphSimilarity, g: Graph) -> int {
    let b = cfg.target_graph;
    let n = g.nodes@.len() as int;
    let m = b.nodes@.len() as int;
    let sf = iterate_spec(g, b, seed_matrix_spec(g.nodes@, b.nodes@), cfg.iters as nat, cfg.eps);
    let asn = assignment_spec(sf, n, m);
    let score = score_norm(assignment_sum(sf, asn, asn.len() as int), n, m);
    if cfg.edge_score {
        score * score_norm(edge_score_sum(g, b, asn, asn.len() as int), n, m) / (SCALE as int)
    } else {
        score
    }
}

impl GraphSimilarity {
    /// A larger fitness means "better".  The result always lies in the
    /// fixed-point unit interval `0 ..= SCALE`.
    pub fn fitness(&self, graph: &Graph) -> (r: i64)
        requires
            self.target_graph.wf(),
            graph.wf(),
            graph.nodes@.len() * self.target_graph.nodes@.len() <= usize::MAX,
        ensures
            r as int == fitness_spec(*self, *graph),
            0 <= r <= SCALE,
    {
        let a: &Graph = graph;
        let b: &Graph = &self.target_graph;
        let n: usize = a.nodes.len();
        let m: usize = b.nodes.len();
        let a_adj = out_adjacency(a);
        let b_adj = out_adjacency(b);
        let s0 = seed_matrix(a, b);
        let sf = iterate_matrix(a, b, &a_adj, &b_adj, s0, self.iters, self.eps);
        let asn = node_assignment(&sf, n, m);
        let sum = sum_assignment(&sf, &asn, n, m);
        let mx: usize = if n < m {
            m
        } else {
            n
        };
        let score: i64 = if mx == 0 {
            0
        } else {
            proof {
                assert((asn@.len() as int) * (SCALE as int) <= (mx as int) * (SCALE as int))
                    by (nonlinear_arith)
                    requires 0 <= asn@.len() as int <= mx as int,
                {}
                lemma_div_unit_bounds(sum as int, mx as int);
            }
            sum / (mx as i64)
        };
        if self.edge_score {
            let esum = edge_weight_scores(a, b, &a_adj, &b_adj, &asn);
            let escore: i64 = if mx == 0 {
                0
            } else {
                proof {
                    assert((asn@.len() as int) * (SCALE as int) <= (mx as int) * (SCALE as int))
                        by (nonlinear_arith)
                        requires 0 <= asn@.len() as int <= mx as int,
                    {}
                    lemma_div_unit_bounds(esum as int, mx as int);
                }
                esum / (mx as i64)
            };
            proof {
                assert((score as int) * (escore as int) <= (SCALE as int) * (SCALE as int))
                    by (nonlinear_arith)
                    requires
                        0 <= score as int <= SCALE as int,
                        0 <= escore as int <= SCALE as int,
                {}
                assert(0 <= (score as int) * (escore as int)) by (nonlinear_arith)
                    requires
                        0 <= score as int,
                        0 <= escore as int,
                {}
                lemma_div_unit_bounds((score as int) * (escore as int), SCALE as int);
            }
            (score * escore) / SCALE
        } else {
            score
        }
    }
}


/// Used-flag pattern after the first `k` rounds of a self-comparison: rows
/// and columns `0 .. k` are retired.
pub open spec fn prefix_flags(n: int, k: int) -> Seq<bool> {
    Seq::new(n as nat, |i: int| i < k)
}

/// The identity assignment on `n` nodes.
pub open spec fn diag_assignment(n: int) -> Seq<(int, int)> {
    Seq::new(n as nat, |i: int| (i, i))
}

/// Every diagonal entry is at full scale.
pub open spec fn diag_full(s: Seq<Seq<i64>>, n: int) -> bool {
    forall|i: int| 0 <= i < n ==> (#[trigger] s[i])[i] == SCALE
}

proof fn lemma_pair_sum_diag(s: Seq<Seq<i64>>, ea: Seq<Edge>, n: int, k: int)
    requires
        diag_full(s, n),
        0 <= k <= ea.len(),
        forall|q: int| 0 <= q < ea.len() ==> 0 <= (#[trigger] ea[q]).target < n,
    ensures
        pair_sum(s, ea, ea, k) == k * (SCALE as int),
    decreases k,
{
    if k > 0 {
        lemma_pair_sum_diag(s, ea, n, k - 1);
    }
}

proof fn lemma_step_preserves_diag(g: Graph, s: Seq<Seq<i64>>, n: int)
    requires
        g.wf(),
        n == g.nodes@.len(),
        matrix_wf(s, n, n),
        diag_full(s, n),
    ensures
        matrix_wf(step_matrix_spec(g, g, s), n, n),
        diag_full(step_matrix_spec(g, g, s), n),
{
    assert forall|i: int, j: int| 0 <= i < n && 0 <= j < n implies 0 <= #[trigger] step_matrix_spec(
        g,
        g,
        s,
    )[i][j] <= SCALE by {
        lemma_step_entry_bounds(g, g, s, i, j);
    }
    assert forall|i: int| 0 <= i < n implies (#[trigger] step_matrix_spec(g, g, s)[i])[i]
        == SCALE by {
        let compat = seed_entry(g.nodes@, g.nodes@, i, i);
        assert(compat == SCALE);
        let ea = out_edges(g.edges@, i, g.edges@.len() as int);
        lemma_out_edges_wf(g, i, g.edges@.len() as int);
        if ea.len() == 0 {
            assert(neighbor_term(s, ea, ea, compat) == SCALE as int);
        } else {
            let d = ea.len() as int;
            lemma_pair_sum_diag(s, ea, n, d);
            lemma_div_multiples_vanish(SCALE as int, d);
            assert(imin(d, d) == d && imax(d, d) == d);
            assert(neighbor_term(s, ea, ea, compat) == (d * (SCALE as int)) / d);
        }
        assert(step_entry(g, g, s, i, i) == ((SCALE as int) + (SCALE as int)) / 2);
    }
}

proof fn lemma_iterate_preserves_diag(g: Graph, s: Seq<Seq<i64>>, k: nat, eps: i64, n: int)
    requires
        g.wf(),
        n == g.nodes@.len(),
        matrix_wf(s, n, n),
        diag_full(s, n),
    ensures
        matrix_wf(iterate_spec(g, g, s, k, eps), n, n),
        diag_full(iterate_spec(g, g, s, k, eps), n),
    decreases k,
{
    if k > 0 {
        lemma_step_preserves_diag(g, s, n);
        let s2 = step_matrix_spec(g, g, s);
        if !(mat_delta(s, s2, n, n) < eps) {
            lemma_iterate_preserves_diag(g, s2, (k - 1) as nat, eps, n);
        }
    }
}

proof fn lemma_scan_none_prefix(s: Seq<Seq<i64>>, n: int, k: int, steps: nat, t: int)
    requires
        0 <= k < n,
        0 <= t <= k * n + k,
    ensures
        best_choice(s, prefix_flags(n, k), prefix_flags(n, k), n, steps, t) is None,
    decreases t,
{
    if t > 0 {
        lemma_scan_none_prefix(s, n, k, steps, t - 1);
        let i = (t - 1) / n;
        let j = (t - 1) % n;
        lemma_div_pos_is_pos(t - 1, n);
        lemma_mod_division_less_than_divisor(t - 1, n);
        lemma_fundamental_div_mod(t - 1, n);
        if i >= k {
            assert(j < k) by (nonlinear_arith)
                requires
                    t - 1 == n * i + j,
                    t - 1 <= k * n + k - 1,
                    i >= k,
                    0 <= j && j < n,
                    0 < n,
                    0 <= k,
            {}
        }
        assert(i < n) by (nonlinear_arith)
            requires
                t - 1 == n * i + j,
                t - 1 <= k * n + k - 1,
                k < n,
                0 <= j && j < n,
                0 <= i,
        {}
    }
}

/// Sums of assignments agree on a common prefix.
proof fn lemma_assignment_sum_agree(s: Seq<Seq<i64>>, a1: Seq<(int, int)>, a2: Seq<(int, int)>, k: int)
    requires
        forall|q: int| 0 <= q < k ==> a1[q] == a2[q],
    ensures
        assignment_sum(s, a1, k) == assignment_sum(s, a2, k),
    decreases k,
{
    if k > 0 {
        lemma_assignment_sum_agree(s, a1, a2, k - 1);
    }
}

/// On a diagonal-full matrix, the diagonal picks from `off` onwards sum to
/// full scale each.
proof fn lemma_sum_diag_from(s: Seq<Seq<i64>>, n: int, off: int, cnt: int)
    requires
        diag_full(s, n),
        0 <= off,
        0 <= cnt,
        off + cnt <= n,
    ensures
        assignment_sum(s, Seq::new(cnt as nat, |x: int| (x + off, x + off)), cnt) == cnt * (
        SCALE as int),
    decreases cnt,
{
    if cnt > 0 {
        lemma_sum_diag_from(s, n, off, cnt - 1);
        lemma_assignment_sum_agree(
            s,
            Seq::new(cnt as nat, |x: int| (x + off, x + off)),
            Seq::new((cnt - 1) as nat, |x: int| (x + off, x + off)),
            cnt - 1,
        );
    }
}

proof fn lemma_choice_diag(s: Seq<Seq<i64>>, n: int, k: int, t: int)
    requires
        0 <= k < n,
        n <= 1_000_000,
        matrix_wf(s, n, n),
        diag_full(s, n),
        k * n + k < t <= n * n,
    ensures
        best_choice(s, prefix_flags(n, k), prefix_flags(n, k), n, (n - k) as nat, t) == Some(
            (k, k),
        ),
    decreases n - k, 0int, t,
{
    let ur = prefix_flags(n, k);
    let steps: nat = (n - k) as nat;
    if t - 1 == k * n + k {
        lemma_scan_none_prefix(s, n, k, steps, t - 1);
        assert(k * n + k == n * k + k) by (nonlinear_arith);
        lemma_fundamental_div_mod_converse(t - 1, n, k, k);
        assert((t - 1) / n == k && (t - 1) % n == k);
        assert(!ur[k]);
    } else {
        lemma_choice_diag(s, n, k, t - 1);
        let i = (t - 1) / n;
        let j = (t - 1) % n;
        lemma_div_pos_is_pos(t - 1, n);
        lemma_mod_division_less_than_divisor(t - 1, n);
        lemma_fundamental_div_mod(t - 1, n);
        assert(i < n) by (nonlinear_arith)
            requires
                t - 1 == n * i + j,
                t - 1 <= n * n - 1,
                0 <= j && j < n,
                0 <= i,
        {}
        if !ur[i] && !ur[j] {
            // the best pick so far reaches the full remaining total ...
            assert(ur.update(k, true) =~= prefix_flags(n, k + 1));
            lemma_assign_diag(s, n, k + 1);
            lemma_sum_diag_from(s, n, k + 1, n - k - 1);
            let rest_kk = best_assignment(
                s,
                ur.update(k, true),
                ur.update(k, true),
                n,
                (steps - 1) as nat,
            );
            assert(rest_kk == Seq::new((n - k - 1) as nat, |x: int| (x + k + 1, x + k + 1)));
            assert(rest_kk.len() == n - k - 1);
            assert(pick_value(s, ur, ur, n, steps, k, k) == (SCALE as int) + (n - k - 1) * (
            SCALE as int));
            // ... and no other cell can exceed it
            lemma_best_assignment_valid(
                s,
                ur.update(i, true),
                ur.update(j, true),
                n,
                n,
                (steps - 1) as nat,
            );
            let rest_ij = best_assignment(
                s,
                ur.update(i, true),
                ur.update(j, true),
                n,
                (steps - 1) as nat,
            );
            lemma_assignment_sum_bounds(s, rest_ij, rest_ij.len() as int, n, n);
            assert((rest_ij.len() as int) * (SCALE as int) <= (n - k - 1) * (SCALE as int))
                by (nonlinear_arith)
                requires 0 <= rest_ij.len() as int <= n - k - 1,
            {}
            assert(pick_value(s, ur, ur, n, steps, i, j) <= (SCALE as int) + (n - k - 1) * (
            SCALE as int));
        }
    }
}

/// On a diagonal-full matrix, the maximum-weight assignment of the remaining
/// `n - k` rounds is exactly the remaining diagonal.
proof fn lemma_assign_diag(s: Seq<Seq<i64>>, n: int, k: int)
    requires
        matrix_wf(s, n, n),
        diag_full(s, n),
        n <= 1_000_000,
        0 <= k <= n,
    ensures
        best_assignment(s, prefix_flags(n, k), prefix_flags(n, k), n, (n - k) as nat) == Seq::new(
            (n - k) as nat,
            |x: int| (x + k, x + k),
        ),
    decreases n - k, 1int, 0int,
{
    let ur = prefix_flags(n, k);
    if k == n {
        assert(best_assignment(s, ur, ur, n, 0) =~= Seq::new(0, |x: int| (x + k, x + k)));
    } else {
        assert(k * n + k < n * n) by (nonlinear_arith)
            requires 0 <= k && k < n,
        {}
        assert(ur.len() == n);
        lemma_choice_diag(s, n, k, n * n);
        assert(best_choice(s, ur, ur, n, (n - k) as nat, ur.len() * n) == Some((k, k)));
        assert(ur.update(k, true) =~= prefix_flags(n, k + 1));
        lemma_assign_diag(s, n, k + 1);
        assert(best_assignment(s, ur, ur, n, (n - k) as nat) == seq![(k, k)] + Seq::new(
            (n - k - 1) as nat,
            |x: int| (x + k + 1, x + k + 1),
        ));
        assert(seq![(k, k)] + Seq::new((n - k - 1) as nat, |x: int| (x + k + 1, x + k + 1))
            =~= Seq::new((n - k) as nat, |x: int| (x + k, x + k)));
    }
}

proof fn lemma_assignment_sum_diag(s: Seq<Seq<i64>>, n: int, k: int)
    requires
        matrix_wf(s, n, n),
        diag_full(s, n),
        0 <= k <= n,
    ensures
        assignment_sum(s, diag_assignment(n), k) == k * (SCALE as int),
    decreases k,
{
    if k > 0 {
        lemma_assignment_sum_diag(s, n, k - 1);
    }
}

proof fn lemma_weight_pair_sum_diag(ea: Seq<Edge>, k: int)
    requires
        0 <= k <= ea.len(),
    ensures
        weight_pair_sum(ea, ea, k) == k * (SCALE as int),
    decreases k,
{
    if k > 0 {
        lemma_weight_pair_sum_diag(ea, k - 1);
    }
}

proof fn lemma_edge_score_sum_diag(g: Graph, n: int, k: int)
    requires
        g.wf(),
        n == g.nodes@.len(),
        0 <= k <= n,
    ensures
        edge_score_sum(g, g, diag_assignment(n), k) == k * (SCALE as int),
    decreases k,
{
    if k > 0 {
        lemma_edge_score_sum_diag(g, n, k - 1);
        let ea = out_edges(g.edges@, k - 1, g.edges@.len() as int);
        if ea.len() == 0 {
            assert(edge_pair_score(ea, ea) == SCALE as int);
        } else {
            let d = ea.len() as int;
            lemma_weight_pair_sum_diag(ea, d);
            lemma_div_multiples_vanish(SCALE as int, d);
            assert(imin(d, d) == d && imax(d, d) == d);
            assert(edge_pair_score(ea, ea) == (d * (SCALE as int)) / d);
        }
    }
}

/// Self-similarity is maximal: comparing the target graph to itself yields
/// the highest value the normalization admits, with or without the
/// edge-score contribution.
pub proof fn lemma_self_similarity(cfg: GraphSimilarity)
    requires
        cfg.target_graph.wf(),
        cfg.target_graph.nodes@.len() >= 1,
    ensures
        fitness_spec(cfg, cfg.target_graph) == SCALE,
{
    let g = cfg.target_graph;
    let n = g.nodes@.len() as int;
    let s0 = seed_matrix_spec(g.nodes@, g.nodes@);
    assert(matrix_wf(s0, n, n));
    assert(diag_full(s0, n));
    let sf = iterate_spec(g, g, s0, cfg.iters as nat, cfg.eps);
    lemma_iterate_preserves_diag(g, s0, cfg.iters as nat, cfg.eps, n);
    assert(prefix_flags(n, 0) =~= Seq::new(n as nat, |x: int| false));
    lemma_assign_diag(sf, n, 0);
    let asn = assignment_spec(sf, n, n);
    assert(imin(n, n) == n);
    assert(asn =~= diag_assignment(n));
    lemma_assignment_sum_diag(sf, n, n);
    lemma_div_multiples_vanish(SCALE as int, n);
    assert(imax(n, n) == n);
    assert(score_norm(assignment_sum(sf, asn, asn.len() as int), n, n) == SCALE as int);
    if cfg.edge_score {
        lemma_edge_score_sum_diag(g, n, n);
        assert(score_norm(edge_score_sum(g, g, asn, asn.len() as int), n, n) == SCALE as int);
        lemma_div_multiples_vanish(SCALE as int, SCALE as int);
        assert(fitness_spec(cfg, g) == ((SCALE as int) * (SCALE as int)) / (SCALE as int));
    }
}


} // verus!
