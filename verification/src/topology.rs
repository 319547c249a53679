//! Small-world (Watts-Strogatz style) topology generation.
//!
//! Every node of the cluster derives the same neighbor map from the cluster
//! size alone, so the generator is a pure function: a ring lattice over
//! `n` nodes where each node is joined to its `n / l` clockwise successors,
//! followed by one rewiring pass driven by the crate's deterministic
//! generator seeded with 1. The rewiring probability is given in
//! thousandths (300 stands for 0.3). Self-loops that rewiring may produce
//! are kept in the adjacency and skipped when a node's neighbor list is
//! read off, and the whole result is symmetric.
//!
//! The adjacency is a square boolean matrix; `spec_topology` pins the
//! generated matrix down exactly, which makes reproducibility across nodes
//! a theorem.

use vstd::prelude::*;

use crate::rng::Lcg64;
use crate::rng::lcg_next_spec;
use crate::text::node_name;
use crate::text::node_name_seq;

verus! {

/// The view of a boolean matrix held as a vector of rows.
pub open spec fn grid_view(a: Vec<Vec<bool>>) -> Seq<Seq<bool>> {
    Seq::new(a@.len(), |i: int| a@[i]@)
}

pub open spec fn is_square(a: Seq<Seq<bool>>) -> bool {
    forall|i: int| 0 <= i < a.len() ==> (#[trigger] a[i]).len() == a.len()
}

pub open spec fn is_symmetric(a: Seq<Seq<bool>>) -> bool {
    forall|i: int, j: int|
        0 <= i < a.len() && 0 <= j < a.len() ==> #[trigger] a[i][j] == a[j][i]
}

/// The empty adjacency over `n` nodes.
pub open spec fn empty_adj(n: nat) -> Seq<Seq<bool>> {
    Seq::new(n, |i: int| Seq::new(n, |j: int| false))
}

/// The adjacency with the undirected edge `(i, j)` set to `v`.
pub open spec fn spec_set_edge(a: Seq<Seq<bool>>, i: int, j: int, v: bool) -> Seq<Seq<bool>> {
    let a1 = a.update(i, a[i].update(j, v));
    a1.update(j, a1[j].update(i, v))
}

pub proof fn lemma_set_edge_props(a: Seq<Seq<bool>>, i: int, j: int, v: bool)
    requires
        is_square(a),
        0 <= i < a.len(),
        0 <= j < a.len(),
    ensures
        spec_set_edge(a, i, j, v).len() == a.len(),
        is_square(spec_set_edge(a, i, j, v)),
        is_symmetric(a) ==> is_symmetric(spec_set_edge(a, i, j, v)),
{
    let r = spec_set_edge(a, i, j, v);
    assert forall|x: int| 0 <= x < r.len() implies (#[trigger] r[x]).len() == r.len() by {}
    if is_symmetric(a) {
        assert forall|x: int, y: int|
            0 <= x < r.len() && 0 <= y < r.len() implies #[trigger] r[x][y] == r[y][x] by {}
    }
}

/// The ring lattice inner pass: edges `(i, (i + m') mod n)` for `m'` in
/// `1 ..= m` laid over `a`.
pub open spec fn ring_inner(a: Seq<Seq<bool>>, n: nat, i: int, m: nat) -> Seq<Seq<bool>>
    decreases m,
{
    if m == 0 {
        a
    } else {
        spec_set_edge(ring_inner(a, n, i, (m - 1) as nat), i, (i + m) % (n as int), true)
    }
}

/// The ring lattice outer pass: the inner pass for rows `0 .. m`.
pub open spec fn ring_outer(a: Seq<Seq<bool>>, n: nat, k: nat, m: nat) -> Seq<Seq<bool>>
    decreases m,
{
    if m == 0 {
        a
    } else {
        ring_inner(ring_outer(a, n, k, (m - 1) as nat), n, (m - 1) as int, k)
    }
}

/// One candidate rewiring of the pair `(i, j)`: one draw decides, and on a
/// rewire the edge moves to a freshly drawn endpoint.
pub open spec fn rewire_pair(a: Seq<Seq<bool>>, s: u64, n: nat, t: u64, i: int, j: int) -> (
    Seq<Seq<bool>>,
    u64,
) {
    let r1 = lcg_next_spec(s);
    if (r1 / 2048) % 1000 < t {
        let r2 = lcg_next_spec(r1);
        let m = (r2 / 2048) as int % (n as int);
        (spec_set_edge(spec_set_edge(a, i, j, false), i, m, true), r2)
    } else {
        (a, r1)
    }
}

/// The rewiring inner pass for row `i`: the pairs `(i, i + 1) .. (i + m)`.
pub open spec fn rewire_inner(a: Seq<Seq<bool>>, s: u64, n: nat, t: u64, i: int, m: nat) -> (
    Seq<Seq<bool>>,
    u64,
)
    decreases m,
{
    if m == 0 {
        (a, s)
    } else {
        let prev = rewire_inner(a, s, n, t, i, (m - 1) as nat);
        rewire_pair(prev.0, prev.1, n, t, i, i + m)
    }
}

/// The rewiring outer pass: the inner pass for rows `0 .. m`.
pub open spec fn rewire_outer(a: Seq<Seq<bool>>, s: u64, n: nat, t: u64, m: nat) -> (
    Seq<Seq<bool>>,
    u64,
)
    decreases m,
{
    if m == 0 {
        (a, s)
    } else {
        let prev = rewire_outer(a, s, n, t, (m - 1) as nat);
        rewire_inner(prev.0, prev.1, n, t, (m - 1) as int, (n - m) as nat)
    }
}

/// The whole generated adjacency: ring lattice with `n / l` successors per
/// node, then the rewiring pass, from the fixed seed 1.
pub open spec fn spec_topology(n: nat, l: nat, t: u64) -> Seq<Seq<bool>>
    recommends
        l >= 1,
{
    let k = n / l;
    let ring = ring_outer(empty_adj(n), n, k, n);
    rewire_outer(ring, 1, n, t, n).0
}

pub proof fn lemma_ring_inner_props(a: Seq<Seq<bool>>, n: nat, i: int, m: nat)
    requires
        is_square(a),
        a.len() == n,
        0 <= i < n,
    ensures
        ring_inner(a, n, i, m).len() == n,
        is_square(ring_inner(a, n, i, m)),
        is_symmetric(a) ==> is_symmetric(ring_inner(a, n, i, m)),
    decreases m,
{
    if m > 0 {
        lemma_ring_inner_props(a, n, i, (m - 1) as nat);
        lemma_set_edge_props(ring_inner(a, n, i, (m - 1) as nat), i, (i + m) % (n as int), true);
    }
}

pub proof fn lemma_ring_outer_props(a: Seq<Seq<bool>>, n: nat, k: nat, m: nat)
    requires
        is_square(a),
        a.len() == n,
        m <= n,
    ensures
        ring_outer(a, n, k, m).len() == n,
        is_square(ring_outer(a, n, k, m)),
        is_symmetric(a) ==> is_symmetric(ring_outer(a, n, k, m)),
    decreases m,
{
    if m > 0 {
        lemma_ring_outer_props(a, n, k, (m - 1) as nat);
        lemma_ring_inner_props(ring_outer(a, n, k, (m - 1) as nat), n, (m - 1) as int, k);
    }
}

pub proof fn lemma_rewire_pair_props(a: Seq<Seq<bool>>, s: u64, n: nat, t: u64, i: int, j: int)
    requires
        is_square(a),
        a.len() == n,
        0 <= i < n,
        0 <= j < n,
        n > 0,
    ensures
        rewire_pair(a, s, n, t, i, j).0.len() == n,
        is_square(rewire_pair(a, s, n, t, i, j).0),
        is_symmetric(a) ==> is_symmetric(rewire_pair(a, s, n, t, i, j).0),
{
    let r1 = lcg_next_spec(s);
    if (r1 / 2048) % 1000 < t {
        let r2 = lcg_next_spec(r1);
        let m = (r2 / 2048) as int % (n as int);
        lemma_set_edge_props(a, i, j, false);
        lemma_set_edge_props(spec_set_edge(a, i, j, false), i, m, true);
    }
}

pub proof fn lemma_rewire_inner_props(a: Seq<Seq<bool>>, s: u64, n: nat, t: u64, i: int, m: nat)
    requires
        is_square(a),
        a.len() == n,
        0 <= i < n,
        i + m < n,
    ensures
        rewire_inner(a, s, n, t, i, m).0.len() == n,
        is_square(rewire_inner(a, s, n, t, i, m).0),
        is_symmetric(a) ==> is_symmetric(rewire_inner(a, s, n, t, i, m).0),
    decreases m,
{
    if m > 0 {
        lemma_rewire_inner_props(a, s, n, t, i, (m - 1) as nat);
        let prev = rewire_inner(a, s, n, t, i, (m - 1) as nat);
        lemma_rewire_pair_props(prev.0, prev.1, n, t, i, i + m);
    }
}

pub proof fn lemma_rewire_outer_props(a: Seq<Seq<bool>>, s: u64, n: nat, t: u64, m: nat)
    requires
        is_square(a),
        a.len() == n,
        m <= n,
    ensures
        rewire_outer(a, s, n, t, m).0.len() == n,
        is_square(rewire_outer(a, s, n, t, m).0),
        is_symmetric(a) ==> is_symmetric(rewire_outer(a, s, n, t, m).0),
    decreases m,
{
    if m > 0 {
        lemma_rewire_outer_props(a, s, n, t, (m - 1) as nat);
        let prev = rewire_outer(a, s, n, t, (m - 1) as nat);
        if (n - m) as nat > 0 {
            lemma_rewire_inner_props(prev.0, prev.1, n, t, (m - 1) as int, (n - m) as nat);
        }
    }
}

/// The generated adjacency is a symmetric square matrix over `n` nodes:
/// a node is a neighbor of another exactly when that other is its neighbor.
pub proof fn lemma_topology_symmetric(n: nat, l: nat, t: u64)
    ensures
        spec_topology(n, l, t).len() == n,
        is_square(spec_topology(n, l, t)),
        is_symmetric(spec_topology(n, l, t)),
{
    let k = n / l;
    assert(is_symmetric(empty_adj(n)));
    assert(is_square(empty_adj(n)));
    lemma_ring_outer_props(empty_adj(n), n, k, n);
    let ring = ring_outer(empty_adj(n), n, k, n);
    lemma_rewire_outer_props(ring, 1, n, t, n);
}

/// Sets the undirected edge `(i, j)` to `v` in the matrix.
fn set_edge(adj: &mut Vec<Vec<bool>>, i: usize, j: usize, v: bool)
    requires
        is_square(grid_view(*old(adj))),
        i < old(adj)@.len(),
        j < old(adj)@.len(),
    ensures
        grid_view(*final(adj)) == spec_set_edge(grid_view(*old(adj)), i as int, j as int, v),
        final(adj)@.len() == old(adj)@.len(),
        is_square(grid_view(*final(adj))),
{
    let ghost a0 = grid_view(*adj);
    proof {
        assert(grid_view(*adj)[i as int] == adj@[i as int]@);
        assert(grid_view(*adj)[j as int] == adj@[j as int]@);
    }
    let row_i = &mut adj[i];
    row_i.set(j, v);
    proof {
        assert(grid_view(*adj) =~= a0.update(i as int, a0[i as int].update(j as int, v)));
    }
    let ghost a1 = grid_view(*adj);
    proof {
        assert(grid_view(*adj)[j as int] == adj@[j as int]@);
    }
    let row_j = &mut adj[j];
    row_j.set(i, v);
    proof {
        assert(grid_view(*adj) =~= a1.update(j as int, a1[j as int].update(i as int, v)));
        lemma_set_edge_props(a0, i as int, j as int, v);
    }
}

/// Builds the generated adjacency for `n` nodes; the result is exactly
/// `spec_topology`, so every run and every node derive the same matrix.
#[verifier::rlimit(60)]
fn generate_adjacency(num_nodes: usize, local_cluster_count: usize, t: u64) -> (adj: Vec<
    Vec<bool>,
>)
    requires
        local_cluster_count >= 1,
        num_nodes <= usize::MAX / 2,
    ensures
        grid_view(adj) == spec_topology(num_nodes as nat, local_cluster_count as nat, t),
        adj@.len() == num_nodes,
        is_square(grid_view(adj)),
{
    let n = num_nodes;
    let k = n / local_cluster_count;
    let ghost gn = n as nat;

    let mut adj: Vec<Vec<bool>> = Vec::new();
    let mut i: usize = 0;
    while i < n
        invariant
            0 <= i <= n,
            adj@.len() == i,
            forall|x: int| 0 <= x < i ==> (#[trigger] adj@[x])@ == Seq::new(
                n as nat,
                |y: int| false,
            ),
        decreases n - i,
    {
        let mut row: Vec<bool> = Vec::new();
        let mut j: usize = 0;
        while j < n
            invariant
                0 <= j <= n,
                row@.len() == j,
                forall|y: int| 0 <= y < j ==> !(#[trigger] row@[y]),
            decreases n - j,
        {
            row.push(false);
            j += 1;
        }
        proof {
            assert(row@ =~= Seq::new(n as nat, |y: int| false));
        }
        adj.push(row);
        i += 1;
    }
    proof {
        assert(grid_view(adj) =~= empty_adj(gn));
        assert(is_square(grid_view(adj)));
    }

    let ghost ring_goal = ring_outer(empty_adj(gn), gn, k as nat, gn);
    let mut i: usize = 0;
    while i < n
        invariant
            0 <= i <= n,
            n == num_nodes,
            gn == n as nat,
            adj@.len() == n,
            is_square(grid_view(adj)),
            grid_view(adj) == ring_outer(empty_adj(gn), gn, k as nat, i as nat),
            n <= usize::MAX / 2,
            k <= n,
        decreases n - i,
    {
        let ghost row_base = grid_view(adj);
        let mut j: usize = 1;
        while j <= k
            invariant
                1 <= j <= k + 1,
                0 <= i < n,
                n == num_nodes,
                gn == n as nat,
                k <= n,
                n <= usize::MAX / 2,
                adj@.len() == n,
                is_square(grid_view(adj)),
                grid_view(adj) == ring_inner(row_base, gn, i as int, (j - 1) as nat),
            decreases k + 1 - j,
        {
            let target = (i + j) % n;
            let ghost prev = grid_view(adj);
            set_edge(&mut adj, i, target, true);
            proof {
                assert(target as int == (i as int + j as int) % (gn as int));
                assert((j as nat - 1) as nat == (j - 1) as nat);
                assert(ring_inner(row_base, gn, i as int, j as nat) == spec_set_edge(
                    ring_inner(row_base, gn, i as int, (j - 1) as nat),
                    i as int,
                    (i as int + j as int) % (gn as int),
                    true,
                ));
                assert(grid_view(adj) == ring_inner(row_base, gn, i as int, j as nat));
            }
            j += 1;
        }
        i += 1;
    }
    proof {
        assert(grid_view(adj) == ring_goal);
    }

    let mut rng = Lcg64::seed_from_u64(1);
    let mut i: usize = 0;
    while i < n
        invariant
            0 <= i <= n,
            n == num_nodes,
            gn == n as nat,
            adj@.len() == n,
            is_square(grid_view(adj)),
            grid_view(adj) == rewire_outer(ring_goal, 1, gn, t, i as nat).0,
            rng.state == rewire_outer(ring_goal, 1, gn, t, i as nat).1,
        decreases n - i,
    {
        let ghost pair_base = rewire_outer(ring_goal, 1, gn, t, i as nat);
        let mut j: usize = i + 1;
        while j < n
            invariant
                i + 1 <= j <= n,
                0 <= i < n,
                n == num_nodes,
                gn == n as nat,
                adj@.len() == n,
                is_square(grid_view(adj)),
                grid_view(adj) == rewire_inner(pair_base.0, pair_base.1, gn, t, i as int, (j - i
                    - 1) as nat).0,
                rng.state == rewire_inner(pair_base.0, pair_base.1, gn, t, i as int, (j - i
                    - 1) as nat).1,
            decreases n - j,
        {
            let ghost prev = rewire_inner(pair_base.0, pair_base.1, gn, t, i as int, (j - i
                - 1) as nat);
            let r1 = rng.next_u64();
            if (r1 / 2048) % 1000 < t {
                set_edge(&mut adj, i, j, false);
                let r2 = rng.next_u64();
                let m = ((r2 / 2048) % (n as u64)) as usize;
                set_edge(&mut adj, i, m, true);
                proof {
                    assert(m as int == (r2 / 2048) as int % (gn as int));
                }
            }
            proof {
                let m_it = (j - i) as nat;
                assert((m_it - 1) as nat == (j - i - 1) as nat);
                assert(rewire_inner(pair_base.0, pair_base.1, gn, t, i as int, m_it)
                    == rewire_pair(prev.0, prev.1, gn, t, i as int, i as int + m_it));
                assert(i as int + m_it == j as int);
                assert(grid_view(adj) == rewire_inner(pair_base.0, pair_base.1, gn, t, i as int, (j
                    - i) as nat).0);
                assert(rng.state == rewire_inner(pair_base.0, pair_base.1, gn, t, i as int, (j
                    - i) as nat).1);
            }
            j += 1;
        }
        proof {
            assert(rewire_outer(ring_goal, 1, gn, t, (i + 1) as nat) == rewire_inner(
                pair_base.0,
                pair_base.1,
                gn,
                t,
                i as int,
                (gn - (i + 1)) as nat,
            ));
        }
        i += 1;
    }
    return adj;
}

/// The views of a vector of names.
pub open spec fn name_views(v: Vec<String>) -> Seq<Seq<char>> {
    Seq::new(v@.len(), |i: int| v@[i]@)
}

/// The neighbor names of node `i`: the names of the columns `0 .. m` that
/// row `i` marks, self-loops skipped.
pub open spec fn names_of_row(a: Seq<Seq<bool>>, i: int, m: nat) -> Seq<Seq<char>>
    decreases m,
{
    if m == 0 {
        Seq::empty()
    } else {
        let prev = names_of_row(a, i, (m - 1) as nat);
        let j = m - 1;
        if a[i][j] && j != i {
            prev.push(node_name_seq((m - 1) as nat))
        } else {
            prev
        }
    }
}

/// Every neighbor name of node `i` is the name of a marked column other
/// than `i` itself, and each marked column appears.
pub proof fn lemma_names_of_row_elems(a: Seq<Seq<bool>>, i: int, m: nat)
    ensures
        forall|p: int| #![trigger names_of_row(a, i, m)[p]]
            0 <= p < names_of_row(a, i, m).len() ==> exists|j: int|
                0 <= j < m && j != i && a[i][j] && names_of_row(a, i, m)[p] == node_name_seq(
                    j as nat,
                ),
        forall|j: int| #![trigger node_name_seq(j as nat)]
            0 <= j < m && j != i && a[i][j] ==> names_of_row(a, i, m).contains(
                node_name_seq(j as nat),
            ),
    decreases m,
{
    broadcast use vstd::seq_lib::group_seq_properties;

    if m > 0 {
        lemma_names_of_row_elems(a, i, (m - 1) as nat);
        let prev = names_of_row(a, i, (m - 1) as nat);
        let s = names_of_row(a, i, m);
        if a[i][m - 1] && m - 1 != i {
            assert(s[s.len() - 1] == node_name_seq((m - 1) as nat));
        }
        assert forall|p: int| 0 <= p < s.len() implies exists|j: int|
            0 <= j < m && j != i && a[i][j] && #[trigger] s[p] == node_name_seq(j as nat) by {
            if p < prev.len() {
                assert(s[p] == prev[p]);
                let j = choose|j: int|
                    0 <= j < (m - 1) && j != i && a[i][j] && prev[p] == node_name_seq(j as nat);
                assert(0 <= j < m && j != i && a[i][j] && s[p] == node_name_seq(j as nat));
            } else {
                let j = m - 1;
                assert(0 <= j < m && j != i && a[i][j] && s[p] == node_name_seq(j as nat));
            }
        }
        assert forall|j: int|
            0 <= j < m && j != i && a[i][j] implies s.contains(#[trigger] node_name_seq(
            j as nat,
        )) by {
            if j < m - 1 {
                assert(prev.contains(node_name_seq(j as nat)));
            } else {
                assert(s[s.len() - 1] == node_name_seq(j as nat));
            }
        }
    }
}

/// The neighbor names of one node are distinct, and its own name is not
/// among them.
pub proof fn lemma_names_of_row_distinct(a: Seq<Seq<bool>>, i: int, m: nat)
    ensures
        forall|p: int, q: int|
            0 <= p < q < names_of_row(a, i, m).len() ==> names_of_row(a, i, m)[p]
                != names_of_row(a, i, m)[q],
        0 <= i ==> !names_of_row(a, i, m).contains(node_name_seq(i as nat)),
    decreases m,
{
    broadcast use vstd::seq_lib::group_seq_properties;

    let s = names_of_row(a, i, m);
    if m > 0 {
        lemma_names_of_row_distinct(a, i, (m - 1) as nat);
        lemma_names_of_row_elems(a, i, (m - 1) as nat);
        let prev = names_of_row(a, i, (m - 1) as nat);
        if a[i][m - 1] && m - 1 != i {
            assert forall|p: int, q: int| 0 <= p < q < s.len() implies s[p] != s[q] by {
                if q == s.len() - 1 {
                    let j = choose|j: int|
                        0 <= j < m - 1 && j != i && a[i][j] && prev[p] == node_name_seq(j as nat);
                    if node_name_seq(j as nat) == node_name_seq((m - 1) as nat) {
                        crate::text::lemma_node_name_injective(j as nat, (m - 1) as nat);
                    }
                }
            }
            if 0 <= i && s.contains(node_name_seq(i as nat)) {
                assert(!prev.contains(node_name_seq(i as nat)));
                assert(s[s.len() - 1] == node_name_seq((m - 1) as nat));
                crate::text::lemma_node_name_injective(i as nat, (m - 1) as nat);
            }
        }
    }
}

/// The generated neighbor relation is symmetric at the level of names:
/// `b` appears among the neighbors of `a` exactly when `a` appears among
/// the neighbors of `b` (self-loops are skipped on both sides).
pub proof fn lemma_topology_symmetry_names(n: nat, l: nat, t: u64, a: int, b: int)
    requires
        0 <= a < n,
        0 <= b < n,
    ensures
        names_of_row(spec_topology(n, l, t), a, n).contains(node_name_seq(b as nat))
            <==> names_of_row(spec_topology(n, l, t), b, n).contains(node_name_seq(a as nat)),
{
    let g = spec_topology(n, l, t);
    lemma_topology_symmetric(n, l, t);
    lemma_names_of_row_elems(g, a, n);
    lemma_names_of_row_elems(g, b, n);
    if names_of_row(g, a, n).contains(node_name_seq(b as nat)) {
        let sa = names_of_row(g, a, n);
        let p = choose|p: int| 0 <= p < sa.len() && sa[p] == node_name_seq(b as nat);
        let j = choose|j: int|
            0 <= j < n && j != a && g[a][j] && sa[p] == node_name_seq(j as nat);
        crate::text::lemma_node_name_injective(j as nat, b as nat);
        assert(g[b][a]);
        assert(names_of_row(g, b, n).contains(node_name_seq(a as nat)));
    }
    if names_of_row(g, b, n).contains(node_name_seq(a as nat)) {
        let sb = names_of_row(g, b, n);
        let p = choose|p: int| 0 <= p < sb.len() && sb[p] == node_name_seq(a as nat);
        let j = choose|j: int|
            0 <= j < n && j != b && g[b][j] && sb[p] == node_name_seq(j as nat);
        crate::text::lemma_node_name_injective(j as nat, a as nat);
        assert(g[a][b]);
        assert(names_of_row(g, a, n).contains(node_name_seq(b as nat)));
    }
}

/// The generated map is a function of the inputs alone: two results for the
/// same inputs are identical, so every node of a cluster derives the same
/// topology on every run.
pub proof fn lemma_topology_deterministic(
    r1: Seq<Seq<bool>>,
    r2: Seq<Seq<bool>>,
    n: nat,
    l: nat,
    t: u64,
)
    requires
        r1 == spec_topology(n, l, t),
        r2 == spec_topology(n, l, t),
    ensures
        r1 == r2,
{
}

/// Generates the small-world neighbor map over `num_nodes` nodes named
/// `n0 ..`: entry `i` holds the name of node `i` and its neighbor names in
/// ascending column order. The result is exactly the one `spec_topology`
/// describes, each neighbor list holds no duplicate and never the node's
/// own name.
pub fn generate_small_world_topology(
    num_nodes: usize,
    local_cluster_count: usize,
    rewire_prob_thousandths: u64,
) -> (r: Vec<(String, Vec<String>)>)
    requires
        local_cluster_count >= 1,
        num_nodes <= usize::MAX / 2,
    ensures
        r@.len() == num_nodes,
        forall|i: int| 0 <= i < num_nodes ==> (#[trigger] r@[i]).0@ == node_name_seq(i as nat),
        forall|i: int|
            0 <= i < num_nodes ==> name_views((#[trigger] r@[i]).1) == names_of_row(
                spec_topology(
                    num_nodes as nat,
                    local_cluster_count as nat,
                    rewire_prob_thousandths,
                ),
                i,
                num_nodes as nat,
            ),
{
    let ghost g = spec_topology(
        num_nodes as nat,
        local_cluster_count as nat,
        rewire_prob_thousandths,
    );
    let adj = generate_adjacency(num_nodes, local_cluster_count, rewire_prob_thousandths);
    let n = num_nodes;
    let mut r: Vec<(String, Vec<String>)> = Vec::new();
    let mut i: usize = 0;
    while i < n
        invariant
            0 <= i <= n,
            n == num_nodes,
            adj@.len() == n,
            is_square(grid_view(adj)),
            grid_view(adj) == g,
            r@.len() == i,
            forall|x: int| 0 <= x < i ==> (#[trigger] r@[x]).0@ == node_name_seq(x as nat),
            forall|x: int|
                0 <= x < i ==> name_views((#[trigger] r@[x]).1) == names_of_row(g, x, n as nat),
        decreases n - i,
    {
        let name = node_name(i as u64);
        let mut nbrs: Vec<String> = Vec::new();
        let mut j: usize = 0;
        while j < n
            invariant
                0 <= j <= n,
                0 <= i < n,
                n == num_nodes,
                adj@.len() == n,
                is_square(grid_view(adj)),
                grid_view(adj) == g,
                name_views(nbrs) == names_of_row(g, i as int, j as nat),
            decreases n - j,
        {
            proof {
                assert(grid_view(adj)[i as int] == adj@[i as int]@);
            }
            let marked = adj[i][j];
            if marked && j != i {
                let ghost before = name_views(nbrs);
                nbrs.push(node_name(j as u64));
                proof {
                    assert(name_views(nbrs) =~= before.push(node_name_seq(j as nat)));
                }
            }
            proof {
                assert(name_views(nbrs) == names_of_row(g, i as int, (j + 1) as nat));
            }
            j += 1;
        }
        r.push((name, nbrs));
        i += 1;
    }
    return r;
}

} // verus!
