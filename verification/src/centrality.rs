//! Centrality scores over a fully-built graph: closeness (via breadth-first
//! traversal from every node) and degree (raw adjacency-list length).

use crate::graph::Graph;
use crate::graph::adj_wf;
use crate::graph::has_name;
use crate::graph::name_index;
use vstd::prelude::*;

verus! {

/// Number of `true` entries in a visited vector.
pub open spec fn count_true(s: Seq<bool>) -> int
    decreases s.len(),
{
    if s.len() == 0 {
        0
    } else {
        count_true(s.drop_last()) + if s.last() {
            1int
        } else {
            0int
        }
    }
}

/// The visited vector at distance zero: only the source is marked.
pub open spec fn init_vis(n: nat, src: int) -> Seq<bool> {
    Seq::new(n, |i: int| i == src)
}

/// One breadth-first expansion: additionally marks every node adjacent to a
/// marked node.
pub open spec fn step(adj: Seq<Seq<usize>>, vis: Seq<bool>) -> Seq<bool> {
    Seq::new(
        vis.len(),
        |i: int|
            vis[i] || exists|j: int, k: int|
                0 <= j < vis.len() && vis[j] && 0 <= k < adj[j].len() && #[trigger] adj[j][k] == i,
    )
}

/// The visited vector after `k` expansions from `src`: entry `v` is true
/// exactly when `v` lies at breadth-first distance at most `k` from `src`.
pub open spec fn vis_at(adj: Seq<Seq<usize>>, src: int, k: nat) -> Seq<bool>
    decreases k,
{
    if k == 0 {
        init_vis(adj.len(), src)
    } else {
        step(adj, vis_at(adj, src, (k - 1) as nat))
    }
}

/// Number of nodes within distance `k` of `src`.
pub open spec fn reach_upto(adj: Seq<Seq<usize>>, src: int, k: nat) -> int {
    count_true(vis_at(adj, src, k))
}

/// Sum of breadth-first distances of all nodes within distance `k` of `src`:
/// the nodes at distance exactly `d` each contribute `d`.
pub open spec fn dist_sum_upto(adj: Seq<Seq<usize>>, src: int, k: nat) -> int
    decreases k,
{
    if k == 0 {
        0
    } else {
        dist_sum_upto(adj, src, (k - 1) as nat) + k * (reach_upto(adj, src, k) - reach_upto(
            adj,
            src,
            (k - 1) as nat,
        ))
    }
}

/// Number of nodes reachable from `src` (distances never exceed the node
/// count, so `adj.len()` expansions reach a fixpoint).
pub open spec fn reach_count(adj: Seq<Seq<usize>>, src: int) -> int {
    reach_upto(adj, src, adj.len())
}

/// Sum of breadth-first distances from `src` over all reachable nodes.
pub open spec fn dist_total(adj: Seq<Seq<usize>>, src: int) -> int {
    dist_sum_upto(adj, src, adj.len())
}

/// The number of marked entries is between zero and the vector length.
proof fn lemma_count_true_bounds(s: Seq<bool>)
    ensures
        0 <= count_true(s) <= s.len(),
    decreases s.len(),
{
    if s.len() > 0 {
        lemma_count_true_bounds(s.drop_last());
    }
}

/// A vector with no marked entry counts zero.
proof fn lemma_count_true_zero(s: Seq<bool>)
    requires
        forall|i: int| 0 <= i < s.len() ==> !s[i],
    ensures
        count_true(s) == 0,
    decreases s.len(),
{
    if s.len() > 0 {
        lemma_count_true_zero(s.drop_last());
    }
}

/// Marking one unmarked entry raises the count by one.
proof fn lemma_count_true_update_true(s: Seq<bool>, i: int)
    requires
        0 <= i < s.len(),
        !s[i],
    ensures
        count_true(s.update(i, true)) == count_true(s) + 1,
    decreases s.len(),
{
    let u = s.update(i, true);
    if i == s.len() - 1 {
        assert(u.drop_last() =~= s.drop_last());
    } else {
        lemma_count_true_update_true(s.drop_last(), i);
        assert(u.drop_last() =~= s.drop_last().update(i, true));
        assert(u.last() == s.last());
    }
}

/// A pointwise-smaller visited vector counts no more marks.
proof fn lemma_count_true_pointwise_le(a: Seq<bool>, b: Seq<bool>)
    requires
        a.len() == b.len(),
        forall|i: int| 0 <= i < a.len() && a[i] ==> b[i],
    ensures
        count_true(a) <= count_true(b),
    decreases a.len(),
{
    if a.len() > 0 {
        lemma_count_true_pointwise_le(a.drop_last(), b.drop_last());
    }
}

/// Every visited vector in the expansion sequence has one entry per node.
proof fn lemma_vis_len(adj: Seq<Seq<usize>>, src: int, k: nat)
    ensures
        vis_at(adj, src, k).len() == adj.len(),
    decreases k,
{
    if k > 0 {
        lemma_vis_len(adj, src, (k - 1) as nat);
    }
}

/// The source is marked at every stage, so at least one node is reached.
proof fn lemma_vis_src(adj: Seq<Seq<usize>>, src: int, k: nat)
    requires
        0 <= src < adj.len(),
    ensures
        vis_at(adj, src, k)[src],
        reach_upto(adj, src, k) >= 1,
    decreases k,
{
    lemma_vis_len(adj, src, k);
    if k > 0 {
        lemma_vis_src(adj, src, (k - 1) as nat);
        lemma_vis_len(adj, src, (k - 1) as nat);
    }
    let vis = vis_at(adj, src, k);
    let zeroed = vis.update(src, false);
    assert(count_true(zeroed.update(src, true)) == count_true(zeroed) + 1) by {
        lemma_count_true_update_true(zeroed, src);
    }
    assert(zeroed.update(src, true) =~= vis);
    lemma_count_true_bounds(zeroed);
}

/// Expansion only adds marks.
proof fn lemma_vis_monotone(adj: Seq<Seq<usize>>, src: int, k: nat)
    ensures
        forall|i: int|
            0 <= i < adj.len() && vis_at(adj, src, k)[i] ==> vis_at(adj, src, (k + 1) as nat)[i],
        reach_upto(adj, src, k) <= reach_upto(adj, src, (k + 1) as nat),
{
    lemma_vis_len(adj, src, k);
    lemma_vis_len(adj, src, (k + 1) as nat);
    lemma_count_true_pointwise_le(vis_at(adj, src, k), vis_at(adj, src, (k + 1) as nat));
}

/// Once one expansion adds nothing, every later stage is the same vector.
proof fn lemma_vis_stable(adj: Seq<Seq<usize>>, src: int, k: nat, m: nat)
    requires
        vis_at(adj, src, (k + 1) as nat) == vis_at(adj, src, k),
        k <= m,
    ensures
        vis_at(adj, src, m) == vis_at(adj, src, k),
    decreases m,
{
    if m > k {
        lemma_vis_stable(adj, src, k, (m - 1) as nat);
        assert(vis_at(adj, src, m) == step(adj, vis_at(adj, src, (m - 1) as nat)));
    }
}

/// Once the visited vector is stable, the distance sum is stable too.
proof fn lemma_dist_sum_stable(adj: Seq<Seq<usize>>, src: int, k: nat, m: nat)
    requires
        vis_at(adj, src, (k + 1) as nat) == vis_at(adj, src, k),
        k <= m,
    ensures
        dist_sum_upto(adj, src, m) == dist_sum_upto(adj, src, k),
    decreases m,
{
    if m > k {
        lemma_dist_sum_stable(adj, src, k, (m - 1) as nat);
        lemma_vis_stable(adj, src, k, m);
        lemma_vis_stable(adj, src, k, (m - 1) as nat);
        assert(reach_upto(adj, src, m) == reach_upto(adj, src, (m - 1) as nat));
        assert(dist_sum_upto(adj, src, m) == dist_sum_upto(adj, src, (m - 1) as nat) + m * (
        reach_upto(adj, src, m) - reach_upto(adj, src, (m - 1) as nat)));
    }
}

/// A node `i` has been reached by the scan of the frontier `fr` up to (but
/// not including) member `f`'s neighbor `k`: some earlier neighbor entry
/// equals `i`.
spec fn expanded_prefix(
    adj: Seq<Seq<usize>>,
    fr: Seq<usize>,
    f: int,
    k: int,
    i: int,
) -> bool {
    exists|j: int, k2: int|
        0 <= j < fr.len() && 0 <= k2 < adj[fr[j] as int].len() && (j < f || (j == f && k2 < k))
            && #[trigger] adj[fr[j] as int][k2] == i
}

/// Scanning further never loses reached nodes.
proof fn lemma_expanded_monotone(
    adj: Seq<Seq<usize>>,
    fr: Seq<usize>,
    f1: int,
    k1: int,
    f2: int,
    k2: int,
    i: int,
)
    requires
        expanded_prefix(adj, fr, f1, k1, i),
        f1 < f2 || (f1 == f2 && k1 <= k2),
    ensures
        expanded_prefix(adj, fr, f2, k2, i),
{
    let (j, t): (int, int) = choose|j: int, t: int|
        0 <= j < fr.len() && 0 <= t < adj[fr[j] as int].len() && (j < f1 || (j == f1 && t < k1))
            && #[trigger] adj[fr[j] as int][t] == i;
    assert(j < f2 || (j == f2 && t < k2));
}

/// Scanning one more neighbor entry reaches exactly that entry's node more.
proof fn lemma_expanded_extend(adj: Seq<Seq<usize>>, fr: Seq<usize>, f: int, k: int, i: int)
    requires
        0 <= f < fr.len(),
        0 <= k < adj[fr[f] as int].len(),
    ensures
        expanded_prefix(adj, fr, f, k + 1, i) <==> (expanded_prefix(adj, fr, f, k, i) || adj[fr[
            f
        ] as int][k] == i),
{
    if expanded_prefix(adj, fr, f, k + 1, i) {
        let (j, t): (int, int) = choose|j: int, t: int|
            0 <= j < fr.len() && 0 <= t < adj[fr[j] as int].len() && (j < f || (j == f && t < k
                + 1)) && #[trigger] adj[fr[j] as int][t] == i;
        if j < f || (j == f && t < k) {
            assert(expanded_prefix(adj, fr, f, k, i));
        } else {
            assert(j == f && t == k);
        }
    }
    if expanded_prefix(adj, fr, f, k, i) {
        lemma_expanded_monotone(adj, fr, f, k, f, k + 1, i);
    }
    if adj[fr[f] as int][k] == i {
        assert(expanded_prefix(adj, fr, f, k + 1, i));
    }
}

/// Finishing one frontier member's neighbors is the same as standing at the
/// start of the next member's.
proof fn lemma_expanded_next_member(adj: Seq<Seq<usize>>, fr: Seq<usize>, f: int, i: int)
    requires
        0 <= f < fr.len(),
    ensures
        expanded_prefix(adj, fr, f + 1, 0, i) <==> expanded_prefix(
            adj,
            fr,
            f,
            adj[fr[f] as int].len() as int,
            i,
        ),
{
    let flen = adj[fr[f] as int].len() as int;
    if expanded_prefix(adj, fr, f + 1, 0, i) {
        let (j, t): (int, int) = choose|j: int, t: int|
            0 <= j < fr.len() && 0 <= t < adj[fr[j] as int].len() && (j < f + 1 || (j == f + 1 && t
                < 0)) && #[trigger] adj[fr[j] as int][t] == i;
        assert(j < f || (j == f && t < flen));
        assert(expanded_prefix(adj, fr, f, flen, i));
    }
    if expanded_prefix(adj, fr, f, flen, i) {
        lemma_expanded_monotone(adj, fr, f, flen, f + 1, 0, i);
    }
}

/// Marking every node adjacent to a frontier member performs exactly one
/// breadth-first expansion, provided the frontier holds every node first
/// marked at the current stage and only nodes marked at the current stage.
proof fn lemma_expand_step(
    adj: Seq<Seq<usize>>,
    src: int,
    level: nat,
    fr: Seq<usize>,
    vis2: Seq<bool>,
)
    requires
        adj_wf(adj),
        0 <= src < adj.len(),
        vis2.len() == adj.len(),
        forall|t: int|
            0 <= t < fr.len() ==> (#[trigger] fr[t] as int) < adj.len() && vis_at(adj, src, level)[fr[t] as int],
        forall|i: int|
            0 <= i < adj.len() && vis_at(adj, src, level)[i] && (level == 0 || !vis_at(
                adj,
                src,
                (level - 1) as nat,
            )[i]) ==> fr.contains(i as usize),
        forall|i: int|
            0 <= i < adj.len() ==> (vis2[i] <==> vis_at(adj, src, level)[i] || expanded_prefix(
                adj,
                fr,
                fr.len() as int,
                0,
                i,
            )),
    ensures
        vis2 == vis_at(adj, src, (level + 1) as nat),
{
    let vis = vis_at(adj, src, level);
    let vnext = vis_at(adj, src, (level + 1) as nat);
    lemma_vis_len(adj, src, level);
    lemma_vis_len(adj, src, (level + 1) as nat);
    assert(vnext == step(adj, vis));
    assert forall|i: int| 0 <= i < adj.len() implies (vis2[i] <==> vnext[i]) by {
        if vis2[i] {
            if vis[i] {
                assert(vnext[i]);
            } else {
                let (j, t): (int, int) = choose|j: int, t: int|
                    0 <= j < fr.len() && 0 <= t < adj[fr[j] as int].len() && (j < fr.len() || (j
                        == fr.len() && t < 0)) && #[trigger] adj[fr[j] as int][t] == i;
                let node = fr[j] as int;
                assert(vis[node]);
                assert(vnext[i]);
            }
        }
        if vnext[i] {
            if vis[i] {
                assert(vis2[i]);
            } else {
                let (j, t): (int, int) = choose|j: int, t: int|
                    0 <= j < vis.len() && vis[j] && 0 <= t < adj[j].len() && #[trigger] adj[j][t]
                        == i;
                if level == 0 || !vis_at(adj, src, (level - 1) as nat)[j] {
                    assert(fr.contains(j as usize));
                    let w = choose|w: int| 0 <= w < fr.len() && fr[w] == j as usize;
                    assert(adj[fr[w] as int][t] == i);
                    assert(expanded_prefix(adj, fr, fr.len() as int, 0, i));
                    assert(vis2[i]);
                } else {
                    // the neighbor was already marked one stage earlier
                    let prev = vis_at(adj, src, (level - 1) as nat);
                    lemma_vis_len(adj, src, (level - 1) as nat);
                    assert(vis == step(adj, prev));
                    assert(prev[j] && adj[j][t] == i);
                    assert(vis[i]);
                }
            }
        }
    }
    assert(vis2 =~= vnext);
}

/// Appending to a sequence adds exactly one member to its contents.
proof fn lemma_push_contains(s: Seq<usize>, x: usize, y: usize)
    ensures
        s.push(x).contains(y) <==> (s.contains(y) || y == x),
{
    if s.contains(y) {
        let w = choose|w: int| 0 <= w < s.len() && s[w] == y;
        assert(s.push(x)[w] == y);
    }
    assert(s.push(x)[s.len() as int] == x);
    if s.push(x).contains(y) {
        let w = choose|w: int| 0 <= w < s.push(x).len() && s.push(x)[w] == y;
        if w < s.len() {
            assert(s[w] == y);
        }
    }
}

/// Machine limit: the square of a machine-word-sized count fits 128 bits.
proof fn lemma_square_fits(n: int)
    requires
        0 <= n <= usize::MAX,
    ensures
        n * n <= u128::MAX,
{
    assert(usize::MAX <= u64::MAX);
    assert(n * n <= u64::MAX * u64::MAX) by (nonlinear_arith)
        requires
            0 <= n <= u64::MAX,
    ;
}

/// Runs one breadth-first traversal from `src` and returns how many nodes it
/// reached and the sum of their breadth-first distances from `src`.
#[verifier::loop_isolation(false)]
fn bfs_totals(graph: &Graph, src: usize) -> (r: (usize, u128))
    requires
        graph.wf(),
        (src as int) < graph.adj().len(),
    ensures
        r.0 as int == reach_count(graph.adj(), src as int),
        r.1 as int == dist_total(graph.adj(), src as int),
        r.0 as int <= graph.adj().len(),
{
    let ghost adj = graph.adj();
    let n = graph.node_count();
    let mut visited: Vec<bool> = vec![false; n];
    proof {
        lemma_count_true_zero(visited@);
        lemma_count_true_update_true(visited@, src as int);
    }
    let ghost blank = visited@;
    visited[src] = true;
    proof {
        assert(visited@ =~= blank.update(src as int, true));
        assert(visited@ =~= init_vis(n as nat, src as int));
        assert(count_true(visited@) == 1);
    }
    let mut frontier: Vec<usize> = Vec::new();
    frontier.push(src);
    let mut count: usize = 1;
    let mut total: u128 = 0;
    let mut level: usize = 0;
    proof {
        assert(frontier@ =~= Seq::empty().push(src));
        assert(frontier@.contains(src)) by {
            assert(frontier@[0] == src);
        }
    }
    let mut done = false;
    while !done
        invariant
            level < count <= n,
            visited@ == vis_at(adj, src as int, level as nat),
            visited@.len() == n,
            count == count_true(visited@),
            total as int == dist_sum_upto(adj, src as int, level as nat),
            total as int <= (n as int) * (count as int),
            forall|t: int|
                0 <= t < frontier@.len() ==> (#[trigger] frontier@[t] as int) < n && vis_at(
                    adj,
                    src as int,
                    level as nat,
                )[frontier@[t] as int],
            forall|i: int|
                0 <= i < n && vis_at(adj, src as int, level as nat)[i] && (level == 0 || !vis_at(
                    adj,
                    src as int,
                    (level - 1) as nat,
                )[i]) ==> frontier@.contains(i as usize),
            done ==> count as int == reach_count(adj, src as int) && total as int == dist_total(
                adj,
                src as int,
            ),
        decreases n - level, (if done { 0int } else { 1int }),
    {
        let ghost vis0 = visited@;
        let mut next: Vec<usize> = Vec::new();
        let mut f: usize = 0;
        while f < frontier.len()
            invariant
                f <= frontier@.len(),
                visited@.len() == n,
                count == count_true(visited@),
                count <= n,
                next@.len() == count_true(visited@) - count_true(vis0),
                total as int == dist_sum_upto(adj, src as int, level as nat) + (level + 1) * (
                count_true(visited@) - count_true(vis0)),
                total as int <= (n as int) * (count as int),
                forall|i: int| #![trigger visited@[i]]
                    0 <= i < n ==> (visited@[i] <==> vis0[i] || expanded_prefix(
                        adj,
                        frontier@,
                        f as int,
                        0,
                        i,
                    )),
                forall|t: int| 0 <= t < next@.len() ==> (#[trigger] next@[t] as int) < n,
                forall|i: int| #![trigger visited@[i]]
                    0 <= i < n ==> ((visited@[i] && !vis0[i]) <==> next@.contains(i as usize)),
            decreases frontier@.len() - f,
        {
            let node = frontier[f];
            let nbrs = graph.neighbors(node);
            let mut k: usize = 0;
            while k < nbrs.len()
                invariant
                    f < frontier@.len(),
                    node == frontier@[f as int],
                    nbrs@ == adj[node as int],
                    k <= nbrs@.len(),
                    visited@.len() == n,
                    count == count_true(visited@),
                    count <= n,
                    next@.len() == count_true(visited@) - count_true(vis0),
                    total as int == dist_sum_upto(adj, src as int, level as nat) + (level + 1) * (
                    count_true(visited@) - count_true(vis0)),
                    total as int <= (n as int) * (count as int),
                    forall|i: int| #![trigger visited@[i]]
                        0 <= i < n ==> (visited@[i] <==> vis0[i] || expanded_prefix(
                            adj,
                            frontier@,
                            f as int,
                            k as int,
                            i,
                        )),
                    forall|t: int| 0 <= t < next@.len() ==> (#[trigger] next@[t] as int) < n,
                    forall|i: int| #![trigger visited@[i]]
                        0 <= i < n ==> ((visited@[i] && !vis0[i]) <==> next@.contains(i as usize)),
                decreases nbrs@.len() - k,
            {
                let nb = nbrs[k];
                let ghost before = visited@;
                let ghost next0 = next@;
                proof {
                    assert(adj[node as int][k as int] == nb);
                    assert((nb as int) < n);
                }
                if !visited[nb] {
                    let ghost d = count_true(before) - count_true(vis0);
                    proof {
                        lemma_count_true_update_true(before, nb as int);
                        lemma_count_true_bounds(before.update(nb as int, true));
                    }
                    visited[nb] = true;
                    count += 1;
                    proof {
                        lemma_square_fits(n as int);
                        assert((n as int) * (count as int) <= (n as int) * (n as int))
                            by (nonlinear_arith)
                            requires
                                0 <= (n as int),
                                count <= n,
                        ;
                        assert((n as int) * (count as int) == (n as int) * ((count - 1) as int) + (
                        n as int)) by (nonlinear_arith);
                        assert((level + 1) * (d + 1) == (level + 1) * d + (level + 1))
                            by (nonlinear_arith);
                        assert(level + 1 <= n);
                    }
                    total = total + (level as u128) + 1;
                    next.push(nb);
                    proof {
                        assert(visited@ =~= before.update(nb as int, true));
                        assert(next@ =~= next0.push(nb));
                        assert forall|i: int| 0 <= i < n implies ((visited@[i] && !vis0[i])
                            <==> next@.contains(i as usize)) by {
                            lemma_push_contains(next0, nb, i as usize);
                            assert((before[i] && !vis0[i]) <==> next0.contains(i as usize));
                            assert(before[i] <==> vis0[i] || expanded_prefix(
                                adj,
                                frontier@,
                                f as int,
                                k as int,
                                i,
                            ));
                        }
                    }
                }
                proof {
                    assert forall|i: int| 0 <= i < n implies (visited@[i] <==> vis0[i]
                        || expanded_prefix(adj, frontier@, f as int, (k + 1) as int, i)) by {
                        lemma_expanded_extend(adj, frontier@, f as int, k as int, i);
                        assert(before[i] <==> vis0[i] || expanded_prefix(
                            adj,
                            frontier@,
                            f as int,
                            k as int,
                            i,
                        ));
                        if i != nb as int {
                            assert(visited@[i] == before[i]);
                        }
                    }
                }
                k += 1;
            }
            proof {
                assert forall|i: int| 0 <= i < n implies (expanded_prefix(
                    adj,
                    frontier@,
                    (f + 1) as int,
                    0,
                    i,
                ) <==> expanded_prefix(adj, frontier@, f as int, nbrs@.len() as int, i)) by {
                    lemma_expanded_next_member(adj, frontier@, f as int, i);
                }
            }
            f += 1;
        }
        proof {
            lemma_expand_step(adj, src as int, level as nat, frontier@, visited@);
        }
        if next.len() == 0 {
            proof {
                assert forall|i: int| 0 <= i < n implies (visited@[i] <==> vis0[i]) by {
                    if visited@[i] && !vis0[i] {
                        assert(next@.contains(i as usize));
                    }
                }
                assert(visited@ =~= vis0);
                assert(vis_at(adj, src as int, (level + 1) as nat) == vis_at(
                    adj,
                    src as int,
                    level as nat,
                ));
                lemma_vis_stable(adj, src as int, level as nat, n as nat);
                lemma_dist_sum_stable(adj, src as int, level as nat, n as nat);
            }
            done = true;
        } else {
        proof {
            assert(dist_sum_upto(adj, src as int, (level + 1) as nat) == dist_sum_upto(
                adj,
                src as int,
                level as nat,
            ) + (level + 1) * (reach_upto(adj, src as int, (level + 1) as nat) - reach_upto(
                adj,
                src as int,
                level as nat,
            )));
            assert(count_true(vis0) == reach_upto(adj, src as int, level as nat));
            assert forall|t: int| 0 <= t < next@.len() implies (#[trigger] next@[t] as int) < n
                && vis_at(adj, src as int, (level + 1) as nat)[next@[t] as int] by {
                assert(next@.contains(next@[t]));
            }
        }
        level += 1;
        frontier = next;
        }
    }
    (count, total)
}

/// What `closeness_totals` returns: one entry per node, in index order,
/// holding the node's name, how many nodes its breadth-first traversal
/// reached, and the sum of their distances from it. The closeness score of a
/// node with entry `(name, c, t)` is `(c - 1) / t` when `c > 1`, else zero.
pub open spec fn closeness_spec(g: Graph, r: Seq<(String, usize, u128)>) -> bool {
    &&& r.len() == g.names_seq().len()
    &&& forall|i: int|
        0 <= i < r.len() ==> (#[trigger] r[i]).0@ == g.names_seq()[i] && r[i].1 as int
            == reach_count(g.adj(), i) && r[i].2 as int == dist_total(g.adj(), i)
}

/// Computes the raw closeness figures for each node: the size of its
/// reachable set and the total breadth-first distance to that set.
#[verifier::loop_isolation(false)]
pub fn closeness_totals(graph: &Graph) -> (r: Vec<(String, usize, u128)>)
    requires
        graph.wf(),
    ensures
        closeness_spec(*graph, r@),
{
    let pairs = graph.nodes();
    let mut r: Vec<(String, usize, u128)> = Vec::new();
    let mut i: usize = 0;
    while i < pairs.len()
        invariant
            i <= pairs@.len(),
            r@.len() == i,
            forall|t: int|
                0 <= t < i ==> (#[trigger] r@[t]).0@ == graph.names_seq()[t] && r@[t].1 as int
                    == reach_count(graph.adj(), t) && r@[t].2 as int == dist_total(graph.adj(), t),
        decreases pairs@.len() - i,
    {
        let name = pairs[i].0.clone();
        let idx = pairs[i].1;
        let totals = bfs_totals(graph, idx);
        r.push((name, totals.0, totals.1));
        i += 1;
    }
    r
}

/// What `degree_centrality` returns: one entry per node, in index order,
/// holding the node's name and the raw length of its adjacency list
/// (multi-edges kept, and a self-loop counted twice).
pub open spec fn degree_spec(g: Graph, r: Seq<(String, usize)>) -> bool {
    &&& r.len() == g.names_seq().len()
    &&& forall|i: int|
        0 <= i < r.len() ==> (#[trigger] r[i]).0@ == g.names_seq()[i] && r[i].1 == g.adj()[
            i
        ].len()
}

/// Computes degree centrality: each node's raw adjacency-list length.
#[verifier::loop_isolation(false)]
pub fn degree_centrality(graph: &Graph) -> (r: Vec<(String, usize)>)
    requires
        graph.wf(),
    ensures
        degree_spec(*graph, r@),
{
    let pairs = graph.nodes();
    let mut r: Vec<(String, usize)> = Vec::new();
    let mut i: usize = 0;
    while i < pairs.len()
        invariant
            i <= pairs@.len(),
            r@.len() == i,
            forall|t: int|
                0 <= t < i ==> (#[trigger] r@[t]).0@ == graph.names_seq()[t] && r@[t].1
                    == graph.adj()[t].len(),
        decreases pairs@.len() - i,
    {
        let name = pairs[i].0.clone();
        let idx = pairs[i].1;
        let nbrs = graph.neighbors(idx);
        r.push((name, nbrs.len()));
        i += 1;
    }
    r
}

/// The first expansion step marks exactly one node.
proof fn lemma_count_init(n: nat, src: int)
    requires
        0 <= src < n,
    ensures
        count_true(init_vis(n, src)) == 1,
{
    let blank = Seq::new(n, |i: int| false);
    lemma_count_true_zero(blank);
    lemma_count_true_update_true(blank, src);
    assert(blank.update(src, true) =~= init_vis(n, src));
}

/// Reached-node counts never shrink as the traversal deepens.
proof fn lemma_reach_monotone(adj: Seq<Seq<usize>>, src: int, k: nat, m: nat)
    requires
        k <= m,
    ensures
        reach_upto(adj, src, k) <= reach_upto(adj, src, m),
    decreases m,
{
    if m > k {
        lemma_reach_monotone(adj, src, k, (m - 1) as nat);
        lemma_vis_monotone(adj, src, (m - 1) as nat);
    }
}

/// The distance sum dominates the count of reached nodes other than the
/// source, and is never negative.
proof fn lemma_dist_sum_lb(adj: Seq<Seq<usize>>, src: int, k: nat)
    requires
        0 <= src < adj.len(),
    ensures
        dist_sum_upto(adj, src, k) >= reach_upto(adj, src, k) - 1,
        dist_sum_upto(adj, src, k) >= 0,
    decreases k,
{
    if k == 0 {
        lemma_count_init(adj.len(), src);
    } else {
        lemma_dist_sum_lb(adj, src, (k - 1) as nat);
        lemma_vis_monotone(adj, src, (k - 1) as nat);
        let d = reach_upto(adj, src, k) - reach_upto(adj, src, (k - 1) as nat);
        assert(k * d >= d && k * d >= 0) by (nonlinear_arith)
            requires
                k >= 1,
                d >= 0,
        ;
    }
}

/// Law: from any source, the traversal reaches at least the source itself and
/// at most every node; the distance sum is at least the number of other
/// reached nodes. So when two or more nodes are reached — in particular from
/// every node of a connected graph of two or more nodes — the closeness
/// ratio (reached - 1) / (distance sum) lies in (0, 1]; and when only the
/// source is reached the distance sum is zero, giving a zero score.
pub proof fn lemma_closeness_bounds(adj: Seq<Seq<usize>>, src: int)
    requires
        0 <= src < adj.len(),
    ensures
        1 <= reach_count(adj, src) <= adj.len(),
        dist_total(adj, src) >= reach_count(adj, src) - 1,
        dist_total(adj, src) >= 0,
        reach_count(adj, src) >= 2 ==> 1 <= reach_count(adj, src) - 1 <= dist_total(adj, src),
        reach_count(adj, src) == 1 ==> dist_total(adj, src) == 0,
{
    let n = adj.len();
    lemma_vis_src(adj, src, n);
    lemma_vis_len(adj, src, n);
    lemma_count_true_bounds(vis_at(adj, src, n));
    lemma_dist_sum_lb(adj, src, n);
    if reach_count(adj, src) == 1 {
        lemma_dist_sum_flat(adj, src, n);
    }
}

/// While the reached count stays at one, the distance sum stays at zero.
proof fn lemma_dist_sum_flat(adj: Seq<Seq<usize>>, src: int, k: nat)
    requires
        0 <= src < adj.len(),
        reach_upto(adj, src, k) == 1,
    ensures
        dist_sum_upto(adj, src, k) == 0,
    decreases k,
{
    if k > 0 {
        lemma_count_init(adj.len(), src);
        lemma_reach_monotone(adj, src, (k - 1) as nat, k);
        lemma_vis_src(adj, src, (k - 1) as nat);
        assert(reach_upto(adj, src, (k - 1) as nat) == 1);
        lemma_dist_sum_flat(adj, src, (k - 1) as nat);
    }
}

/// Law: an isolated node — one whose adjacency list is empty — reaches only
/// itself, with a zero distance sum, so its closeness score is zero.
pub proof fn lemma_isolated_node(adj: Seq<Seq<usize>>, src: int)
    requires
        0 <= src < adj.len(),
        adj[src].len() == 0,
    ensures
        reach_count(adj, src) == 1,
        dist_total(adj, src) == 0,
{
    let n = adj.len();
    let init = init_vis(n, src);
    lemma_vis_len(adj, src, 0);
    assert forall|i: int| 0 <= i < n implies (step(adj, init)[i] <==> init[i]) by {
        if step(adj, init)[i] && !init[i] {
            let (j, t): (int, int) = choose|j: int, t: int|
                0 <= j < init.len() && init[j] && 0 <= t < adj[j].len() && #[trigger] adj[j][t]
                    == i;
            assert(j == src);
        }
    }
    assert(vis_at(adj, src, 1nat) =~= vis_at(adj, src, 0nat));
    lemma_vis_stable(adj, src, 0nat, n);
    lemma_dist_sum_stable(adj, src, 0nat, n);
    lemma_count_init(n, src);
}

/// Law: degree centrality is a pure function of the graph — any two results
/// for the same graph agree entry by entry.
pub proof fn lemma_degree_deterministic(
    g: Graph,
    r1: Seq<(String, usize)>,
    r2: Seq<(String, usize)>,
)
    requires
        g.wf(),
        degree_spec(g, r1),
        degree_spec(g, r2),
    ensures
        r1.map_values(|p: (String, usize)| (p.0@, p.1)) =~= r2.map_values(
            |p: (String, usize)| (p.0@, p.1),
        ),
{
}

/// Law: the closeness figures are a pure function of the graph — any two
/// results for the same graph agree entry by entry.
pub proof fn lemma_closeness_deterministic(
    g: Graph,
    r1: Seq<(String, usize, u128)>,
    r2: Seq<(String, usize, u128)>,
)
    requires
        g.wf(),
        closeness_spec(g, r1),
        closeness_spec(g, r2),
    ensures
        r1.map_values(|p: (String, usize, u128)| (p.0@, p.1, p.2)) =~= r2.map_values(
            |p: (String, usize, u128)| (p.0@, p.1, p.2),
        ),
{
}

/// Law: the degree reported under a node's name equals the length of the
/// adjacency list found by looking the name up through its index.
pub proof fn lemma_degree_matches_neighbors(g: Graph, r: Seq<(String, usize)>, name: Seq<char>)
    requires
        g.wf(),
        degree_spec(g, r),
        has_name(g.names_seq(), name),
    ensures
        0 <= name_index(g.names_seq(), name) < r.len(),
        r[name_index(g.names_seq(), name)].0@ == name,
        r[name_index(g.names_seq(), name)].1 == g.adj()[name_index(g.names_seq(), name)].len(),
{
    let i = name_index(g.names_seq(), name);
    assert(0 <= i < g.names_seq().len() && g.names_seq()[i] == name);
}

} // verus!
