//! Theorems about the description in `model`.
use vstd::prelude::*;
use crate::model::{
    at_least, chosen, cost_from, cost_to, costs_of_all, count_true, covered, final_state, floor_at,
    is_least_cost, is_pick, is_route, is_square, is_symmetric, is_walk, leads_to, linked,
    next_rank, pick, ranked, reachable, reached_count, relax_fits, round, rounds, Scratch,
    sentinel_is_apart, settled, sound, start, state_from, tally, tight, walk_cost, walk_is_real,
    weight_at, weight_cap, weights_capped, with_edge, within,
};

verus! {

/// Selection is determined: at most one vertex is the one it takes.
pub proof fn pick_is_unique(distance: Seq<u64>, inf: u64, a: int, b: int)
    requires
        is_pick(distance, inf, a),
        is_pick(distance, inf, b),
    ensures
        a == b,
{
    if exists|i: int| 0 <= i < distance.len() && distance[i] != inf {
        if a < b {
            assert(distance[b] < distance[a]);
        } else if b < a {
            assert(distance[a] < distance[b]);
        }
    }
}

/// The vertex that selection takes among the first `k` slots.
proof fn pick_of_prefix(distance: Seq<u64>, inf: u64, k: nat) -> (v: int)
    requires
        1 <= k <= distance.len(),
    ensures
        0 <= v < k,
        distance[v] == inf ==> v == k - 1 && forall|j: int| 0 <= j < k ==> distance[j] == inf,
        distance[v] != inf ==> forall|j: int| 0 <= j < k && distance[j] != inf ==> distance[v] <= distance[j],
        distance[v] != inf ==> forall|j: int| 0 <= j < v && distance[j] != inf ==> distance[v] < distance[j],
    decreases k,
{
    if k == 1 {
        0
    } else {
        let m = pick_of_prefix(distance, inf, (k - 1) as nat);
        let d = distance[k - 1];
        if distance[m] == inf || (d != inf && d < distance[m]) {
            k - 1
        } else {
            m
        }
    }
}

/// Selection always takes a vertex: `pick` names it.
pub proof fn pick_exists(distance: Seq<u64>, inf: u64)
    requires
        distance.len() >= 1,
    ensures
        is_pick(distance, inf, pick(distance, inf)),
{
    let v = pick_of_prefix(distance, inf, distance.len());
    assert(is_pick(distance, inf, v));
}

/// `m` values of at most `weight_cap(n)` add up inside `u64` where `m <= n`.
pub proof fn cap_times(n: nat, m: nat)
    requires
        m <= n,
    ensures
        0 <= m * weight_cap(n) <= u64::MAX,
{
    if n > 0 {
        let c = weight_cap(n);
        let top = u64::MAX as int;
        assert(0 <= m * c <= top) by (nonlinear_arith)
            requires
                c == top / (n as int),
                n > 0,
                m <= n,
                top >= 0,
        ;
    }
}

/// The state that a query starts from holds `n` distances, each at most one
/// cap.
pub proof fn start_fits(w: Seq<u64>, n: nat, inf: u64, src: usize)
    requires
        is_square(w, n),
        weights_capped(w, n, inf),
        src < n,
    ensures
        start(w, n, src).visited.len() == n,
        start(w, n, src).distance.len() == n,
        start(w, n, src).path.len() == n,
        within(start(w, n, src).distance, (0 + 1) * weight_cap(n)),
{
    assert(0 <= src * n <= (src + 1) * n <= n * n && (src + 1) * n - src * n == n) by (nonlinear_arith)
        requires
            0 <= src < n,
    ;
    let row = start(w, n, src).distance;
    assert((0 + 1) * weight_cap(n) == weight_cap(n)) by (nonlinear_arith);
    assert forall|i: int| 0 <= i < row.len() implies #[trigger] row[i] <= weight_cap(n) by {
        assert(row[i] == w[src * n + i]);
    }
}

/// A round on capped weights forms no sum outside `u64`, and raises the
/// bound on the distances by one cap.
pub proof fn round_fits(w: Seq<u64>, n: nat, inf: u64, s: Scratch, k: nat)
    requires
        is_square(w, n),
        weights_capped(w, n, inf),
        s.visited.len() == n,
        s.distance.len() == n,
        k + 2 <= n,
        within(s.distance, (k + 1) * weight_cap(n)),
    ensures
        is_pick(s.distance, inf, pick(s.distance, inf)),
        relax_fits(
            w,
            n,
            inf,
            pick(s.distance, inf),
            s.distance[pick(s.distance, inf)],
            s.visited.update(pick(s.distance, inf), true),
        ),
        round(w, n, inf, s).visited.len() == n,
        round(w, n, inf, s).distance.len() == n,
        round(w, n, inf, s).path.len() == s.path.len(),
        within(round(w, n, inf, s).distance, (k + 2) * weight_cap(n)),
{
    pick_exists(s.distance, inf);
    let u = pick(s.distance, inf);
    let c = s.distance[u];
    let cap = weight_cap(n);
    cap_times(n, k + 2);
    assert((k + 2) * cap == (k + 1) * cap + cap) by (nonlinear_arith);
    assert(cap >= 0);
    assert forall|i: int| 0 <= i < n implies 0 <= #[trigger] (u * n + i) < w.len() by {
        assert(0 <= u * n + i < n * n) by (nonlinear_arith)
            requires
                0 <= u < n,
                0 <= i < n,
        ;
    }
    assert forall|i: int| 0 <= i < n implies #[trigger] weight_at(w, n, u, i) <= cap by {
        assert(0 <= u * n + i < w.len());
    }
    let next = round(w, n, inf, s);
    assert forall|i: int| 0 <= i < next.distance.len() implies #[trigger] next.distance[i] <= (k + 2)
        * cap by {
        assert(weight_at(w, n, u, i) <= cap);
        assert(s.distance[i] <= (k + 1) * cap);
    }
}

/// A round keeps the predecessor links free of cycles.
pub proof fn round_keeps_ranked(
    w: Seq<u64>,
    n: nat,
    inf: u64,
    s: Scratch,
    src: usize,
    rank: Seq<nat>,
    k: nat,
)
    requires
        ranked(s, n, src, rank, k),
    ensures
        ranked(round(w, n, inf, s), n, src, next_rank(round(w, n, inf, s), rank, k + 1), k + 1),
{
    pick_exists(s.distance, inf);
    let u = pick(s.distance, inf);
    let next = round(w, n, inf, s);
    let up = next_rank(next, rank, k + 1);
    assert forall|v: int| 0 <= v < n implies (#[trigger] next.path[v]) == src || up[next.path[v] as int]
        < up[v] by {
        assert(s.path[v] == src || rank[s.path[v] as int] < rank[v]);
    }
}

/// Ranked links lead from every vertex to the source.
pub proof fn ranked_leads_to(s: Scratch, n: nat, src: usize, rank: Seq<nat>, k: nat, v: usize, fuel: nat)
    requires
        ranked(s, n, src, rank, k),
        v < n,
        rank[v as int] < fuel,
    ensures
        leads_to(s.path, src, v, fuel),
    decreases fuel,
{
    if v != src {
        let u = s.path[v as int];
        if u != src {
            ranked_leads_to(s, n, src, rank, k, u, (fuel - 1) as nat);
        }
        assert(leads_to(s.path, src, u, (fuel - 1) as nat));
    }
}

/// Every state that a query on capped weights passes through holds `n`
/// slots in each array, and after `k` rounds no distance exceeds `k + 1`
/// caps.
pub proof fn rounds_fit(w: Seq<u64>, n: nat, inf: u64, src: usize, k: nat)
    requires
        is_square(w, n),
        weights_capped(w, n, inf),
        src < n,
        k + 1 <= n,
    ensures
        rounds(w, n, inf, src, k).visited.len() == n,
        rounds(w, n, inf, src, k).distance.len() == n,
        rounds(w, n, inf, src, k).path.len() == n,
        within(rounds(w, n, inf, src, k).distance, (k + 1) * weight_cap(n)),
    decreases k,
{
    if k == 0 {
        start_fits(w, n, inf, src);
    } else {
        let j = (k - 1) as nat;
        rounds_fit(w, n, inf, src, j);
        round_fits(w, n, inf, rounds(w, n, inf, src, j), j);
    }
}

/// The source is visited from the start and stays so; no round relaxes its
/// own slot, which holds what the matrix holds for the source and itself
/// until a round clears it.
pub proof fn source_is_never_relaxed(w: Seq<u64>, n: nat, inf: u64, src: usize, k: nat)
    requires
        is_square(w, n),
        weights_capped(w, n, inf),
        src < n,
        k + 1 <= n,
    ensures
        rounds(w, n, inf, src, k).visited[src as int],
        rounds(w, n, inf, src, k).distance[src as int] == weight_at(w, n, src as int, src as int)
            || rounds(w, n, inf, src, k).distance[src as int] == inf,
    decreases k,
{
    rounds_fit(w, n, inf, src, k);
    if k == 0 {
        assert(0 <= src * n <= (src + 1) * n <= n * n && (src + 1) * n - src * n == n) by (nonlinear_arith)
            requires
                0 <= src < n,
        ;
    } else {
        let j = (k - 1) as nat;
        source_is_never_relaxed(w, n, inf, src, j);
        rounds_fit(w, n, inf, src, j);
        round_fits(w, n, inf, rounds(w, n, inf, src, j), j);
    }
}

/// The walk back to the source is determined by the predecessors: two
/// walks between the same vertices agree on their first `k` vertices.
proof fn walks_agree(path: Seq<usize>, src: usize, dst: int, p: Seq<usize>, q: Seq<usize>, k: nat)
    requires
        is_walk(path, src, dst, p),
        is_walk(path, src, dst, q),
        k < p.len(),
        k < q.len(),
    ensures
        p[k as int] == q[k as int],
    decreases k,
{
    if k > 0 {
        walks_agree(path, src, dst, p, q, (k - 1) as nat);
        assert(p[k - 1 + 1] == path[p[k - 1] as int]);
        assert(q[k - 1 + 1] == path[q[k - 1] as int]);
    }
}

/// The walk back to the source is determined by the predecessors: the
/// same query on the same graph gives the same path, whatever the scratch
/// arrays held.
pub proof fn walk_is_unique(path: Seq<usize>, src: usize, dst: int, p: Seq<usize>, q: Seq<usize>)
    requires
        is_walk(path, src, dst, p),
        is_walk(path, src, dst, q),
    ensures
        p == q,
{
    if p.len() < q.len() {
        walks_agree(path, src, dst, p, q, (p.len() - 1) as nat);
        assert(q[p.len() - 1] != src);
    } else if q.len() < p.len() {
        walks_agree(path, src, dst, p, q, (q.len() - 1) as nat);
        assert(p[q.len() - 1] != src);
    }
    assert forall|k: int| 0 <= k < p.len() implies p[k] == q[k] by {
        walks_agree(path, src, dst, p, q, k as nat);
    }
    assert(p =~= q);
}

/// Two runs of the same search for all targets with their paths give the
/// same list, whatever the scratch arrays held before.
pub proof fn listing_is_repeatable(
    w: Seq<u64>,
    n: nat,
    inf: u64,
    src: usize,
    first: Seq<(u64, Seq<usize>)>,
    second: Seq<(u64, Seq<usize>)>,
)
    requires
        first.len() == reached_count(w, n, inf, src, 0),
        second.len() == reached_count(w, n, inf, src, 0),
        forall|j: int|
            0 <= j < first.len() ==> (#[trigger] first[j]).0 == chosen(w, n, inf, src, j as nat).1 && is_walk(
                rounds(w, n, inf, src, (j + 1) as nat).path,
                src,
                chosen(w, n, inf, src, j as nat).0,
                first[j].1,
            ),
        forall|j: int|
            0 <= j < second.len() ==> (#[trigger] second[j]).0 == chosen(w, n, inf, src, j as nat).1
                && is_walk(
                rounds(w, n, inf, src, (j + 1) as nat).path,
                src,
                chosen(w, n, inf, src, j as nat).0,
                second[j].1,
            ),
    ensures
        first == second,
{
    assert forall|j: int| 0 <= j < first.len() implies first[j] == second[j] by {
        walk_is_unique(
            rounds(w, n, inf, src, (j + 1) as nat).path,
            src,
            chosen(w, n, inf, src, j as nat).0,
            first[j].1,
            second[j].1,
        );
    }
    assert(first =~= second);
}

/// After a round that selected at a cost other than the sentinel, no
/// recorded distance is below that cost.
pub proof fn round_raises_floor(w: Seq<u64>, n: nat, inf: u64, s: Scratch, k: nat)
    requires
        is_square(w, n),
        weights_capped(w, n, inf),
        s.visited.len() == n,
        s.distance.len() == n,
        k + 2 <= n,
        within(s.distance, (k + 1) * weight_cap(n)),
        s.distance[pick(s.distance, inf)] != inf,
    ensures
        at_least(round(w, n, inf, s).distance, inf, s.distance[pick(s.distance, inf)] as int),
{
    round_fits(w, n, inf, s, k);
    let u = pick(s.distance, inf);
    let c = s.distance[u];
    let next = round(w, n, inf, s);
    assert forall|i: int| 0 <= i < next.distance.len() && #[trigger] next.distance[i] != inf implies next.distance[i]
        >= c by {
        if i != u {
            assert(s.distance.update(u, inf)[i] == s.distance[i]);
        }
    }
}

/// Costs are finalized in non-decreasing order: of two rounds, the later
/// selects at no lower a cost, as long as no round between them selects
/// at the sentinel.
pub proof fn costs_never_decrease(w: Seq<u64>, n: nat, inf: u64, src: usize, i: nat, j: nat)
    requires
        is_square(w, n),
        weights_capped(w, n, inf),
        src < n,
        i <= j,
        j + 2 <= n,
        forall|t: nat| i <= t <= j ==> (#[trigger] chosen(w, n, inf, src, t)).1 != inf,
    ensures
        chosen(w, n, inf, src, i).1 <= chosen(w, n, inf, src, j).1,
    decreases j - i,
{
    if i < j {
        let h = (j - 1) as nat;
        costs_never_decrease(w, n, inf, src, i, h);
        assert(chosen(w, n, inf, src, h).1 != inf);
        assert(chosen(w, n, inf, src, j).1 != inf);
        rounds_fit(w, n, inf, src, h);
        rounds_fit(w, n, inf, src, j);
        round_fits(w, n, inf, rounds(w, n, inf, src, j), j);
        round_raises_floor(w, n, inf, rounds(w, n, inf, src, h), h);
    }
}

/// A cell of the matrix belongs to one ordered pair of vertices only.
pub proof fn cell_is_unique(n: nat, a: int, b: int, i: int, j: int)
    requires
        0 <= a,
        0 <= i,
        0 <= b < n,
        0 <= j < n,
        a * n + b == i * n + j,
    ensures
        a == i,
        b == j,
{
    assert(a == i) by (nonlinear_arith)
        requires
            0 <= a,
            0 <= i,
            0 <= b < n,
            0 <= j < n,
            a * n + b == i * n + j,
    ;
}

/// Setting an edge is symmetric: afterwards both directions hold the new
/// weight, every other pair holds what it held, and a symmetric matrix
/// stays symmetric.
pub proof fn set_edge_is_symmetric(w: Seq<u64>, n: nat, i: int, j: int, edge: u64)
    requires
        is_square(w, n),
        0 <= i < n,
        0 <= j < n,
    ensures
        is_square(with_edge(w, n, i, j, edge), n),
        weight_at(with_edge(w, n, i, j, edge), n, i, j) == edge,
        weight_at(with_edge(w, n, i, j, edge), n, j, i) == edge,
        forall|a: int, b: int|
            0 <= a < n && 0 <= b < n && !(a == i && b == j) && !(a == j && b == i) ==> weight_at(
                with_edge(w, n, i, j, edge),
                n,
                a,
                b,
            ) == weight_at(w, n, a, b),
        is_symmetric(w, n) ==> is_symmetric(with_edge(w, n, i, j, edge), n),
{
    let v = with_edge(w, n, i, j, edge);
    assert(0 <= i * n + j < n * n && 0 <= j * n + i < n * n) by (nonlinear_arith)
        requires
            0 <= i < n,
            0 <= j < n,
    ;
    assert forall|a: int, b: int| 0 <= a < n && 0 <= b < n implies weight_at(v, n, a, b) == (if (a == i
        && b == j) || (a == j && b == i) {
        edge
    } else {
        weight_at(w, n, a, b)
    }) by {
        assert(0 <= a * n + b < n * n) by (nonlinear_arith)
            requires
                0 <= a < n,
                0 <= b < n,
        ;
        if a * n + b == i * n + j {
            cell_is_unique(n, a, b, i, j);
        }
        if a * n + b == j * n + i {
            cell_is_unique(n, a, b, j, i);
        }
    }
}

/// As long as no round selects at the sentinel, and the source has no edge
/// to itself, every recorded distance and settled cost is that of the
/// predecessor plus one edge.
pub proof fn rounds_are_sound(w: Seq<u64>, n: nat, inf: u64, src: usize, k: nat)
    requires
        is_square(w, n),
        weights_capped(w, n, inf),
        src < n <= usize::MAX,
        k + 1 <= n,
        weight_at(w, n, src as int, src as int) == inf,
        forall|t: nat| t < k ==> (#[trigger] chosen(w, n, inf, src, t)).1 != inf,
    ensures
        sound(w, n, inf, src, k),
    decreases k,
{
    rounds_fit(w, n, inf, src, k);
    if k == 0 {
        assert(0 <= src * n <= (src + 1) * n <= n * n && (src + 1) * n - src * n == n) by (nonlinear_arith)
            requires
                0 <= src < n,
        ;
        let s = rounds(w, n, inf, src, 0);
        assert forall|v: int| 0 <= v < n implies #[trigger] s.distance[v] == weight_at(w, n, src as int, v) by {
            assert(s.distance[v] == w[src * n + v]);
        }
    } else {
        let j = (k - 1) as nat;
        rounds_are_sound(w, n, inf, src, j);
        rounds_fit(w, n, inf, src, j);
        let s = rounds(w, n, inf, src, j);
        round_fits(w, n, inf, s, j);
        let u = pick(s.distance, inf);
        let c = s.distance[u];
        assert(chosen(w, n, inf, src, j).1 != inf);
        assert(!s.visited[u]);
        let next = rounds(w, n, inf, src, k);
        let old_cost = settled(w, n, inf, src, j);
        let cost = settled(w, n, inf, src, k);
        assert(cost == old_cost.update(u, c as int));
        assert forall|v: int| 0 <= v < n && v != src && #[trigger] next.visited[v] implies linked(
            w,
            n,
            inf,
            next,
            cost,
            v,
            cost[v],
        ) by {
            if v == u {
                assert(linked(w, n, inf, s, old_cost, v, s.distance[v] as int));
            } else {
                assert(s.visited[v]);
                assert(linked(w, n, inf, s, old_cost, v, old_cost[v]));
            }
        }
        assert forall|v: int| 0 <= v < n && !(#[trigger] next.visited[v]) && next.distance[v] != inf implies linked(
            w,
            n,
            inf,
            next,
            cost,
            v,
            next.distance[v] as int,
        ) by {
            assert(!s.visited[v]);
            if next.path[v] != u || next.distance[v] != c + weight_at(w, n, u, v) {
                assert(linked(w, n, inf, s, old_cost, v, s.distance[v] as int));
            }
        }
    }
}

/// Where the links are sound, the walk back from a visited vertex goes
/// along edges, and their weights add up to its settled cost.
proof fn walk_adds_up(w: Seq<u64>, n: nat, inf: u64, src: usize, k: nat, v: int, p: Seq<usize>)
    requires
        sound(w, n, inf, src, k),
        src < n,
        0 <= v < n,
        rounds(w, n, inf, src, k).visited[v],
        rounds(w, n, inf, src, k).path.len() == n,
        is_walk(rounds(w, n, inf, src, k).path, src, v, p),
    ensures
        walk_is_real(w, n, inf, p),
        walk_cost(w, n, p) == settled(w, n, inf, src, k)[v],
    decreases p.len(),
{
    let s = rounds(w, n, inf, src, k);
    if v == src {
        if p.len() > 1 {
            assert(p[0] != src);
        }
    } else {
        assert(p.len() >= 2);
        let q = p.skip(1);
        assert(p[0int + 1] == s.path[p[0] as int]);
        assert(linked(w, n, inf, s, settled(w, n, inf, src, k), v, settled(w, n, inf, src, k)[v]));
        assert forall|i: int| 0 <= i < q.len() - 1 implies (#[trigger] q[i]) != src && q[i] < s.path.len()
            && q[i + 1] == s.path[q[i] as int] by {
            assert(q[i] == p[i + 1]);
            assert(q[i + 1] == p[i + 1 + 1]);
        }
        assert(q.last() == p.last());
        walk_adds_up(w, n, inf, src, k, s.path[v] as int, q);
        assert forall|i: int| 0 <= i < p.len() - 1 implies weight_at(w, n, #[trigger] p[i + 1] as int, p[i] as int)
            != inf by {
            if i > 0 {
                assert(q[i - 1 + 1] == p[i + 1]);
                assert(q[i - 1] == p[i]);
            }
        }
    }
}

/// A returned path is valid: it starts at the vertex that the round
/// selected and ends at the source, every step goes along an edge, and the
/// weights add up to the returned cost. This holds of every round up to
/// which none selected at the sentinel, on a graph whose source has no edge
/// to itself.
pub proof fn walk_is_valid(w: Seq<u64>, n: nat, inf: u64, src: usize, j: nat, p: Seq<usize>)
    requires
        is_square(w, n),
        weights_capped(w, n, inf),
        src < n <= usize::MAX,
        j + 2 <= n,
        weight_at(w, n, src as int, src as int) == inf,
        forall|t: nat| t <= j ==> (#[trigger] chosen(w, n, inf, src, t)).1 != inf,
        is_walk(rounds(w, n, inf, src, j + 1).path, src, chosen(w, n, inf, src, j).0, p),
    ensures
        is_route(w, n, inf, src, chosen(w, n, inf, src, j).0, p),
        walk_cost(w, n, p) == chosen(w, n, inf, src, j).1,
{
    rounds_are_sound(w, n, inf, src, j);
    rounds_are_sound(w, n, inf, src, j + 1);
    rounds_fit(w, n, inf, src, j);
    rounds_fit(w, n, inf, src, j + 1);
    round_fits(w, n, inf, rounds(w, n, inf, src, j), j);
    let v = chosen(w, n, inf, src, j).0;
    assert(rounds(w, n, inf, src, j + 1).visited[v]);
    assert(settled(w, n, inf, src, j + 1) == settled(w, n, inf, src, j).update(
        v,
        chosen(w, n, inf, src, j).1 as int,
    ));
    walk_adds_up(w, n, inf, src, j + 1, v, p);
}

/// Where no route costs the sentinel, as long as no round selects at the
/// sentinel and the source has no edge to itself, the settled costs and the
/// recorded distances stay tight.
pub proof fn rounds_are_tight(w: Seq<u64>, n: nat, inf: u64, src: usize, k: nat)
    requires
        is_square(w, n),
        weights_capped(w, n, inf),
        src < n <= usize::MAX,
        k + 1 <= n,
        weight_at(w, n, src as int, src as int) == inf,
        sentinel_is_apart(w, n, inf, src),
        forall|t: nat| t < k ==> (#[trigger] chosen(w, n, inf, src, t)).1 != inf,
    ensures
        sound(w, n, inf, src, k),
        tight(w, n, inf, src, k),
    decreases k,
{
    rounds_are_sound(w, n, inf, src, k);
    rounds_fit(w, n, inf, src, k);
    if k == 0 {
        assert(0 <= src * n <= (src + 1) * n <= n * n && (src + 1) * n - src * n == n) by (nonlinear_arith)
            requires
                0 <= src < n,
        ;
        let s = rounds(w, n, inf, src, 0);
        assert forall|v: int| 0 <= v < n implies #[trigger] s.distance[v] == weight_at(w, n, src as int, v) by {
            assert(s.distance[v] == w[src * n + v]);
        }
    } else {
        let j = (k - 1) as nat;
        rounds_are_tight(w, n, inf, src, j);
        rounds_fit(w, n, inf, src, j);
        let s = rounds(w, n, inf, src, j);
        round_fits(w, n, inf, s, j);
        let u = pick(s.distance, inf);
        let c = s.distance[u];
        assert(chosen(w, n, inf, src, j).1 != inf);
        assert(!s.visited[u]);
        round_raises_floor(w, n, inf, s, j);
        let next = rounds(w, n, inf, src, k);
        let old_cost = settled(w, n, inf, src, j);
        let cost = settled(w, n, inf, src, k);
        assert(cost == old_cost.update(u, c as int));
        assert(floor_at(w, n, inf, src, k) == c);
        assert(floor_at(w, n, inf, src, j) <= c);
        assert forall|q: int, v: int|
            0 <= q < n && 0 <= v < n && next.visited[q] && #[trigger] weight_at(w, n, q, v) != inf implies covered(
            w,
            n,
            inf,
            next,
            cost,
            q,
            v,
        ) by {
            if q != u {
                assert(s.visited[q]);
                assert(covered(w, n, inf, s, old_cost, q, v));
            }
            if weight_at(w, n, u, v) != inf && !next.visited[v] {
                relaxed_is_apart(w, n, inf, src, j, v);
            }
            if v != u && s.visited[v] {
                assert(old_cost[v] <= floor_at(w, n, inf, src, j));
            }
        }
    }
}

/// Where the state is sound and tight, a route from the source to a
/// visited vertex costs no less than the vertex's settled cost, and a route
/// to an unvisited vertex costs no less than what the next round selects at,
/// which is then not the sentinel.
proof fn route_is_no_cheaper(w: Seq<u64>, n: nat, inf: u64, src: usize, k: nat, x: int, p: Seq<usize>)
    requires
        sound(w, n, inf, src, k),
        tight(w, n, inf, src, k),
        src < n,
        rounds(w, n, inf, src, k).visited.len() == n,
        rounds(w, n, inf, src, k).distance.len() == n,
        is_route(w, n, inf, src, x, p),
    ensures
        walk_cost(w, n, p) >= 0,
        rounds(w, n, inf, src, k).visited[x] ==> settled(w, n, inf, src, k)[x] <= walk_cost(w, n, p),
        !rounds(w, n, inf, src, k).visited[x] ==> chosen(w, n, inf, src, k).1 != inf && chosen(
            w,
            n,
            inf,
            src,
            k,
        ).1 <= walk_cost(w, n, p),
    decreases p.len(),
{
    let s = rounds(w, n, inf, src, k);
    let cost = settled(w, n, inf, src, k);
    pick_exists(s.distance, inf);
    if p.len() > 1 {
        let q = p[1] as int;
        let rest = p.skip(1);
        assert(rest[0] == p[1]);
        assert(rest.last() == p.last());
        assert forall|i: int| 0 <= i < rest.len() implies (#[trigger] rest[i]) < n by {
            assert(rest[i] == p[i + 1]);
        }
        assert forall|i: int| 0 <= i < rest.len() - 1 implies weight_at(
            w,
            n,
            #[trigger] rest[i + 1] as int,
            rest[i] as int,
        ) != inf by {
            assert(rest[i + 1] == p[i + 1 + 1]);
            assert(rest[i] == p[i + 1]);
        }
        route_is_no_cheaper(w, n, inf, src, k, q, rest);
        assert(p[0int + 1] == q);
        assert(weight_at(w, n, q, x) != inf);
        if s.visited[q] {
            assert(covered(w, n, inf, s, cost, q, x));
        } else {
            if s.visited[x] {
                assert(cost[x] <= floor_at(w, n, inf, src, k));
            }
        }
    }
}

/// A returned cost is the least: no route along edges from the source to
/// the vertex that a round selects costs less than the round selects it
/// at. This holds where no route costs the sentinel, of every round up to
/// which none selected at the sentinel, on a graph whose source has no edge
/// to itself.
pub proof fn cost_is_least(w: Seq<u64>, n: nat, inf: u64, src: usize, j: nat, p: Seq<usize>)
    requires
        is_square(w, n),
        weights_capped(w, n, inf),
        src < n <= usize::MAX,
        j + 2 <= n,
        weight_at(w, n, src as int, src as int) == inf,
        sentinel_is_apart(w, n, inf, src),
        forall|t: nat| t <= j ==> (#[trigger] chosen(w, n, inf, src, t)).1 != inf,
        is_route(w, n, inf, src, chosen(w, n, inf, src, j).0, p),
    ensures
        chosen(w, n, inf, src, j).1 <= walk_cost(w, n, p),
{
    rounds_are_tight(w, n, inf, src, j);
    rounds_fit(w, n, inf, src, j);
    assert(chosen(w, n, inf, src, j).1 != inf);
    route_is_no_cheaper(w, n, inf, src, j, chosen(w, n, inf, src, j).0, p);
}

/// Once a round selects at the sentinel, no route along edges leads from
/// the source to any vertex that is not visited by then. This holds where
/// no route costs the sentinel and no earlier round selected at the
/// sentinel, on a graph whose source has no edge to itself.
pub proof fn unreached_is_unreachable(w: Seq<u64>, n: nat, inf: u64, src: usize, k: nat, x: int, p: Seq<usize>)
    requires
        is_square(w, n),
        weights_capped(w, n, inf),
        src < n <= usize::MAX,
        k + 1 <= n,
        weight_at(w, n, src as int, src as int) == inf,
        sentinel_is_apart(w, n, inf, src),
        forall|t: nat| t < k ==> (#[trigger] chosen(w, n, inf, src, t)).1 != inf,
        chosen(w, n, inf, src, k).1 == inf,
        0 <= x < n,
        !rounds(w, n, inf, src, k).visited[x],
    ensures
        !is_route(w, n, inf, src, x, p),
{
    rounds_are_tight(w, n, inf, src, k);
    rounds_fit(w, n, inf, src, k);
    if is_route(w, n, inf, src, x, p) {
        route_is_no_cheaper(w, n, inf, src, k, x, p);
    }
}

/// No more flags are set than there are, and fewer where one is not set.
proof fn count_is_bounded(flags: Seq<bool>)
    ensures
        count_true(flags) <= flags.len(),
        (exists|i: int| 0 <= i < flags.len() && !flags[i]) ==> count_true(flags) < flags.len(),
    decreases flags.len(),
{
    if flags.len() > 0 {
        let front = flags.drop_last();
        count_is_bounded(front);
        if exists|i: int| 0 <= i < flags.len() && !flags[i] {
            let i = choose|i: int| 0 <= i < flags.len() && !flags[i];
            if i < flags.len() - 1 {
                assert(!front[i]);
            }
        }
    }
}

/// Setting a flag that was not set adds one to the count.
proof fn count_after_mark(flags: Seq<bool>, i: int)
    requires
        0 <= i < flags.len(),
        !flags[i],
    ensures
        count_true(flags.update(i, true)) == count_true(flags) + 1,
    decreases flags.len(),
{
    let marked = flags.update(i, true);
    if i == flags.len() - 1 {
        assert(marked.drop_last() =~= flags.drop_last());
    } else {
        assert(marked.drop_last() =~= flags.drop_last().update(i, true));
        count_after_mark(flags.drop_last(), i);
    }
}

/// Among the first `m` flags of a query's start only the source's is set.
proof fn count_at_start(w: Seq<u64>, n: nat, src: usize, m: nat)
    requires
        m <= n,
    ensures
        count_true(start(w, n, src).visited.take(m as int)) == if src < m {
            1nat
        } else {
            0nat
        },
    decreases m,
{
    let flags = start(w, n, src).visited;
    if m > 0 {
        count_at_start(w, n, src, (m - 1) as nat);
        assert(flags.take(m as int).drop_last() =~= flags.take(m - 1));
    }
}

/// From round `k` on, a search for a vertex to which a route leads selects
/// it within the rounds it has, and selects at the sentinel in no round up
/// to that one.
proof fn search_reaches(w: Seq<u64>, n: nat, inf: u64, src: usize, dst: usize, p: Seq<usize>, k: nat) -> (j: nat)
    requires
        is_square(w, n),
        weights_capped(w, n, inf),
        src < n <= usize::MAX,
        weight_at(w, n, src as int, src as int) == inf,
        sentinel_is_apart(w, n, inf, src),
        dst < n,
        is_route(w, n, inf, src, dst as int, p),
        k + 1 <= n,
        forall|t: nat| t < k ==> (#[trigger] chosen(w, n, inf, src, t)).1 != inf,
        forall|t: nat| t < k ==> (#[trigger] chosen(w, n, inf, src, t)).0 != dst,
        !rounds(w, n, inf, src, k).visited[dst as int],
        count_true(rounds(w, n, inf, src, k).visited) == k + 1,
    ensures
        k <= j,
        j + 2 <= n,
        chosen(w, n, inf, src, j).0 == dst,
        forall|t: nat| t <= j ==> (#[trigger] chosen(w, n, inf, src, t)).1 != inf,
        forall|t: nat| t < j ==> (#[trigger] chosen(w, n, inf, src, t)).0 != dst,
    decreases n - k,
{
    let s = rounds(w, n, inf, src, k);
    rounds_are_tight(w, n, inf, src, k);
    rounds_fit(w, n, inf, src, k);
    count_is_bounded(s.visited);
    route_is_no_cheaper(w, n, inf, src, k, dst as int, p);
    round_fits(w, n, inf, s, k);
    let u = chosen(w, n, inf, src, k).0;
    if u == dst {
        k
    } else {
        assert(!s.visited[u]);
        count_after_mark(s.visited, u);
        assert(rounds(w, n, inf, src, k + 1).visited == s.visited.update(u, true));
        search_reaches(w, n, inf, src, dst, p, k + 1)
    }
}

/// A vertex that is visited stays visited.
pub proof fn visited_stays(w: Seq<u64>, n: nat, inf: u64, src: usize, a: nat, b: nat, v: int)
    requires
        is_square(w, n),
        weights_capped(w, n, inf),
        src < n,
        a <= b,
        b + 1 <= n,
        0 <= v < n,
        rounds(w, n, inf, src, a).visited[v],
    ensures
        rounds(w, n, inf, src, b).visited[v],
    decreases b - a,
{
    if a < b {
        let h = (b - 1) as nat;
        visited_stays(w, n, inf, src, a, h, v);
        rounds_fit(w, n, inf, src, h);
        round_fits(w, n, inf, rounds(w, n, inf, src, h), h);
    }
}

/// The costs recorded per vertex are `n`, and a vertex that no round has
/// selected keeps the sentinel.
pub proof fn tally_keeps_sentinel(w: Seq<u64>, n: nat, inf: u64, src: usize, k: nat, v: int)
    requires
        is_square(w, n),
        weights_capped(w, n, inf),
        src < n,
        k + 1 <= n,
        0 <= v < n,
    ensures
        tally(w, n, inf, src, k).len() == n,
        (forall|t: nat| t < k ==> (#[trigger] chosen(w, n, inf, src, t)).0 != v) ==> tally(w, n, inf, src, k)[v]
            == inf,
    decreases k,
{
    if k > 0 {
        let h = (k - 1) as nat;
        tally_keeps_sentinel(w, n, inf, src, h, v);
        rounds_fit(w, n, inf, src, h);
        round_fits(w, n, inf, rounds(w, n, inf, src, h), h);
        if forall|t: nat| t < k ==> (#[trigger] chosen(w, n, inf, src, t)).0 != v {
            assert(chosen(w, n, inf, src, h).0 != v);
            assert forall|t: nat| t < h implies (#[trigger] chosen(w, n, inf, src, t)).0 != v by {
                assert(t < k);
            }
        }
    }
}

/// The cost at which a round selected a vertex stays recorded for it, as
/// long as no round selects at the sentinel, on a graph whose source has no
/// edge to itself.
pub proof fn tally_keeps_cost(w: Seq<u64>, n: nat, inf: u64, src: usize, j: nat, k: nat)
    requires
        is_square(w, n),
        weights_capped(w, n, inf),
        src < n <= usize::MAX,
        weight_at(w, n, src as int, src as int) == inf,
        j < k,
        k + 1 <= n,
        forall|t: nat| t < k ==> (#[trigger] chosen(w, n, inf, src, t)).1 != inf,
    ensures
        tally(w, n, inf, src, k)[chosen(w, n, inf, src, j).0] == chosen(w, n, inf, src, j).1,
    decreases k,
{
    let h = (k - 1) as nat;
    rounds_fit(w, n, inf, src, h);
    round_fits(w, n, inf, rounds(w, n, inf, src, h), h);
    rounds_fit(w, n, inf, src, j);
    round_fits(w, n, inf, rounds(w, n, inf, src, j), j);
    let v = chosen(w, n, inf, src, j).0;
    tally_keeps_sentinel(w, n, inf, src, h, v);
    if j < h {
        tally_keeps_cost(w, n, inf, src, j, h);
        rounds_are_sound(w, n, inf, src, h);
        assert(chosen(w, n, inf, src, h).1 != inf);
        assert(rounds(w, n, inf, src, j + 1).visited[v]);
        visited_stays(w, n, inf, src, j + 1, h, v);
    }
}

/// As long as no round selects at the sentinel, a route leads from the
/// source to every visited vertex at the vertex's settled cost, on a graph
/// whose source has no edge to itself.
pub proof fn route_to_visited(w: Seq<u64>, n: nat, inf: u64, src: usize, k: nat, v: int) -> (p: Seq<usize>)
    requires
        is_square(w, n),
        weights_capped(w, n, inf),
        src < n <= usize::MAX,
        k + 1 <= n,
        weight_at(w, n, src as int, src as int) == inf,
        forall|t: nat| t < k ==> (#[trigger] chosen(w, n, inf, src, t)).1 != inf,
        0 <= v < n,
        rounds(w, n, inf, src, k).visited[v],
    ensures
        is_route(w, n, inf, src, v, p),
        p.len() <= k + 1,
        walk_cost(w, n, p) == settled(w, n, inf, src, k)[v],
        reachable(w, n, inf, src, v),
    decreases k,
{
    rounds_are_sound(w, n, inf, src, k);
    if k == 0 {
        let p = seq![src];
        assert(is_route(w, n, inf, src, v, p));
        p
    } else {
        let h = (k - 1) as nat;
        let s = rounds(w, n, inf, src, h);
        rounds_fit(w, n, inf, src, h);
        round_fits(w, n, inf, s, h);
        rounds_are_sound(w, n, inf, src, h);
        assert(chosen(w, n, inf, src, h).1 != inf);
        if s.visited[v] {
            route_to_visited(w, n, inf, src, h, v)
        } else {
            assert(v == chosen(w, n, inf, src, h).0);
            assert(linked(w, n, inf, s, settled(w, n, inf, src, h), v, s.distance[v] as int));
            let q = s.path[v];
            let front = route_to_visited(w, n, inf, src, h, q as int);
            let p = seq![v as usize] + front;
            assert(p.skip(1) =~= front);
            assert forall|i: int| 0 <= i < p.len() - 1 implies weight_at(
                w,
                n,
                #[trigger] p[i + 1] as int,
                p[i] as int,
            ) != inf by {
                if i > 0 {
                    assert(p[i + 1] == front[i - 1 + 1]);
                    assert(p[i] == front[i - 1]);
                }
            }
            assert(is_route(w, n, inf, src, v, p));
            p
        }
    }
}

/// The cost at which a round selects a vertex is the least cost of a route
/// from the source to it. This holds where no route costs the sentinel, of
/// every round up to which none selected at the sentinel, on a graph whose
/// source has no edge to itself.
pub proof fn selected_cost_is_least(w: Seq<u64>, n: nat, inf: u64, src: usize, j: nat)
    requires
        is_square(w, n),
        weights_capped(w, n, inf),
        src < n <= usize::MAX,
        j + 2 <= n,
        weight_at(w, n, src as int, src as int) == inf,
        sentinel_is_apart(w, n, inf, src),
        forall|t: nat| t <= j ==> (#[trigger] chosen(w, n, inf, src, t)).1 != inf,
    ensures
        is_least_cost(w, n, inf, src, chosen(w, n, inf, src, j).0, chosen(w, n, inf, src, j).1 as int),
{
    let u = chosen(w, n, inf, src, j).0;
    rounds_are_sound(w, n, inf, src, j);
    rounds_fit(w, n, inf, src, j);
    round_fits(w, n, inf, rounds(w, n, inf, src, j), j);
    assert(rounds(w, n, inf, src, j + 1).visited[u]);
    assert(settled(w, n, inf, src, j + 1) == settled(w, n, inf, src, j).update(
        u,
        chosen(w, n, inf, src, j).1 as int,
    ));
    let q = route_to_visited(w, n, inf, src, j + 1, u);
    assert forall|p: Seq<usize>| #[trigger] is_route(w, n, inf, src, u, p) implies chosen(w, n, inf, src, j).1
        <= walk_cost(w, n, p) by {
        cost_is_least(w, n, inf, src, j, p);
    }
}

/// The vertices listed with a path are at least as many as the rounds
/// before the first that selects at the sentinel.
proof fn reached_count_covers(w: Seq<u64>, n: nat, inf: u64, src: usize, k: nat, r: nat)
    requires
        k <= r,
        r + 1 <= n,
        forall|t: nat| t < r ==> (#[trigger] chosen(w, n, inf, src, t)).1 != inf,
    ensures
        reached_count(w, n, inf, src, k) >= r,
    decreases r - k,
{
    if k < r {
        assert(chosen(w, n, inf, src, k).1 != inf);
        reached_count_covers(w, n, inf, src, k + 1, r);
    } else {
        reached_count_starts_at(w, n, inf, src, k);
    }
}

/// Counted from round `k`, at least `k` vertices are listed with a path.
proof fn reached_count_starts_at(w: Seq<u64>, n: nat, inf: u64, src: usize, k: nat)
    requires
        k + 1 <= n,
    ensures
        reached_count(w, n, inf, src, k) >= k,
    decreases n - k,
{
    if k + 1 < n && chosen(w, n, inf, src, k).1 != inf {
        reached_count_starts_at(w, n, inf, src, k + 1);
    }
}

/// The sum that a round forms when it relaxes an edge is not the sentinel,
/// where no route costs the sentinel: it is the cost of a route.
proof fn relaxed_is_apart(w: Seq<u64>, n: nat, inf: u64, src: usize, j: nat, v: int)
    requires
        is_square(w, n),
        weights_capped(w, n, inf),
        src < n <= usize::MAX,
        j + 2 <= n,
        weight_at(w, n, src as int, src as int) == inf,
        sentinel_is_apart(w, n, inf, src),
        forall|t: nat| t <= j ==> (#[trigger] chosen(w, n, inf, src, t)).1 != inf,
        0 <= v < n,
        !rounds(w, n, inf, src, j + 1).visited[v],
        weight_at(w, n, chosen(w, n, inf, src, j).0, v) != inf,
    ensures
        chosen(w, n, inf, src, j).1 + weight_at(w, n, chosen(w, n, inf, src, j).0, v) != inf,
{
    visited_count(w, n, inf, src, j + 1);
    rounds_fit(w, n, inf, src, j + 1);
    count_is_bounded(rounds(w, n, inf, src, j + 1).visited);
    let u = chosen(w, n, inf, src, j).0;
    rounds_are_sound(w, n, inf, src, j);
    rounds_fit(w, n, inf, src, j);
    round_fits(w, n, inf, rounds(w, n, inf, src, j), j);
    assert(rounds(w, n, inf, src, j + 1).visited[u]);
    assert(settled(w, n, inf, src, j + 1) == settled(w, n, inf, src, j).update(
        u,
        chosen(w, n, inf, src, j).1 as int,
    ));
    let front = route_to_visited(w, n, inf, src, j + 1, u);
    let p = seq![v as usize] + front;
    assert(p.skip(1) =~= front);
    assert forall|i: int| 0 <= i < p.len() - 1 implies weight_at(w, n, #[trigger] p[i + 1] as int, p[i] as int)
        != inf by {
        if i > 0 {
            assert(p[i + 1] == front[i - 1 + 1]);
            assert(p[i] == front[i - 1]);
        }
    }
    assert(is_route(w, n, inf, src, v, p));
}

/// As long as no round selects at the sentinel, each round visits one
/// vertex more, on a graph whose source has no edge to itself.
proof fn visited_count(w: Seq<u64>, n: nat, inf: u64, src: usize, k: nat)
    requires
        is_square(w, n),
        weights_capped(w, n, inf),
        src < n <= usize::MAX,
        k + 1 <= n,
        weight_at(w, n, src as int, src as int) == inf,
        forall|t: nat| t < k ==> (#[trigger] chosen(w, n, inf, src, t)).1 != inf,
    ensures
        count_true(rounds(w, n, inf, src, k).visited) == k + 1,
    decreases k,
{
    if k == 0 {
        count_at_start(w, n, src, n);
        assert(start(w, n, src).visited.take(n as int) =~= start(w, n, src).visited);
    } else {
        let h = (k - 1) as nat;
        let s = rounds(w, n, inf, src, h);
        visited_count(w, n, inf, src, h);
        rounds_are_sound(w, n, inf, src, h);
        rounds_fit(w, n, inf, src, h);
        round_fits(w, n, inf, s, h);
        let u = chosen(w, n, inf, src, h).0;
        assert(chosen(w, n, inf, src, h).1 != inf);
        assert(!s.visited[u]);
        count_after_mark(s.visited, u);
        assert(rounds(w, n, inf, src, k).visited == s.visited.update(u, true));
    }
}

/// The weights along a walk add up to no less than 0.
proof fn walk_cost_is_not_negative(w: Seq<u64>, n: nat, p: Seq<usize>)
    ensures
        walk_cost(w, n, p) >= 0,
    decreases p.len(),
{
    if p.len() > 1 {
        walk_cost_is_not_negative(w, n, p.skip(1));
    }
}

/// With 0 for the sentinel no route costs the sentinel: every edge weighs 1
/// at least.
pub proof fn zero_is_apart(w: Seq<u64>, n: nat, src: usize)
    ensures
        sentinel_is_apart(w, n, 0, src),
{
    assert forall|x: int, p: Seq<usize>|
        #[trigger] is_route(w, n, 0, src, x, p) && 2 <= p.len() <= n implies walk_cost(w, n, p) != 0 by {
        walk_cost_is_not_negative(w, n, p.skip(1));
        assert(weight_at(w, n, p[0int + 1] as int, p[0] as int) != 0);
    }
}

/// No round before the first that selects at the sentinel does so, and
/// that round is among the `n - 1` that a search has.
pub proof fn reached_rounds_are_finite(w: Seq<u64>, n: nat, inf: u64, src: usize, k: nat)
    requires
        k + 1 <= n,
        forall|t: nat| t < k ==> (#[trigger] chosen(w, n, inf, src, t)).1 != inf,
    ensures
        k <= reached_count(w, n, inf, src, k) <= n - 1,
        forall|t: nat|
            t < reached_count(w, n, inf, src, k) ==> (#[trigger] chosen(w, n, inf, src, t)).1 != inf,
        reached_count(w, n, inf, src, k) + 1 < n ==> chosen(
            w,
            n,
            inf,
            src,
            reached_count(w, n, inf, src, k),
        ).1 == inf,
    decreases n - k,
{
    if k + 1 < n && chosen(w, n, inf, src, k).1 != inf {
        reached_rounds_are_finite(w, n, inf, src, k + 1);
    }
}

/// A search that returns a cost other than the sentinel has selected its
/// target in some round, at that cost, and stops in the state after that
/// round; no round up to it selected at the sentinel.
pub proof fn found_cost_is_selected(w: Seq<u64>, n: nat, inf: u64, src: usize, dst: usize, k: nat) -> (j: nat)
    requires
        k + 1 <= n,
        forall|t: nat| t < k ==> (#[trigger] chosen(w, n, inf, src, t)).1 != inf,
        cost_from(w, n, inf, src, dst, k) != inf,
    ensures
        k <= j,
        j + 2 <= n,
        chosen(w, n, inf, src, j) == (dst as int, cost_from(w, n, inf, src, dst, k)),
        state_from(w, n, inf, src, dst, k) == rounds(w, n, inf, src, j + 1),
        forall|t: nat| t <= j ==> (#[trigger] chosen(w, n, inf, src, t)).1 != inf,
    decreases n - k,
{
    if chosen(w, n, inf, src, k).0 == dst {
        k
    } else {
        found_cost_is_selected(w, n, inf, src, dst, k + 1)
    }
}

/// A search returns the cost of the first round that selects its target,
/// where no round up to that one selects at the sentinel.
proof fn search_stops_at_first_hit(w: Seq<u64>, n: nat, inf: u64, src: usize, dst: usize, k: nat, j: nat)
    requires
        k <= j,
        j + 2 <= n,
        chosen(w, n, inf, src, j).0 == dst,
        forall|t: nat| t <= j ==> (#[trigger] chosen(w, n, inf, src, t)).1 != inf,
        forall|t: nat| k <= t < j ==> (#[trigger] chosen(w, n, inf, src, t)).0 != dst,
    ensures
        cost_from(w, n, inf, src, dst, k) == chosen(w, n, inf, src, j).1,
        state_from(w, n, inf, src, dst, k) == rounds(w, n, inf, src, j + 1),
    decreases j - k,
{
    assert(chosen(w, n, inf, src, k).1 != inf);
    if k < j {
        assert(chosen(w, n, inf, src, k).0 != dst);
        search_stops_at_first_hit(w, n, inf, src, dst, k + 1, j);
    }
}

/// A search for a vertex to which a route leads finds it: the cost it
/// returns is not the sentinel and is the least cost of a route. This holds
/// on a graph whose source has no edge to itself and where no route costs
/// the sentinel.
pub proof fn reachable_target_is_found(w: Seq<u64>, n: nat, inf: u64, src: usize, dst: usize) -> (j: nat)
    requires
        is_square(w, n),
        weights_capped(w, n, inf),
        src < n <= usize::MAX,
        weight_at(w, n, src as int, src as int) == inf,
        sentinel_is_apart(w, n, inf, src),
        dst < n,
        dst != src,
        reachable(w, n, inf, src, dst as int),
    ensures
        j + 2 <= n,
        chosen(w, n, inf, src, j) == (dst as int, cost_to(w, n, inf, src, dst)),
        final_state(w, n, inf, src, dst) == rounds(w, n, inf, src, j + 1),
        forall|t: nat| t <= j ==> (#[trigger] chosen(w, n, inf, src, t)).1 != inf,
        cost_to(w, n, inf, src, dst) != inf,
        is_least_cost(w, n, inf, src, dst as int, cost_to(w, n, inf, src, dst) as int),
{
    let p = choose|p: Seq<usize>| is_route(w, n, inf, src, dst as int, p);
    count_at_start(w, n, src, n);
    assert(start(w, n, src).visited.take(n as int) =~= start(w, n, src).visited);
    let j = search_reaches(w, n, inf, src, dst, p, 0);
    search_stops_at_first_hit(w, n, inf, src, dst, 0, j);
    selected_cost_is_least(w, n, inf, src, j);
    j
}

/// A search for a vertex to which no route leads returns the sentinel.
pub proof fn unreachable_target_costs_sentinel(w: Seq<u64>, n: nat, inf: u64, src: usize, dst: usize)
    requires
        is_square(w, n),
        weights_capped(w, n, inf),
        src < n <= usize::MAX,
        dst < n,
        !reachable(w, n, inf, src, dst as int),
    ensures
        cost_to(w, n, inf, src, dst) == inf,
{
    if cost_to(w, n, inf, src, dst) != inf {
        let j = found_cost_is_selected(w, n, inf, src, dst, 0);
        rounds_fit(w, n, inf, src, j);
        round_fits(w, n, inf, rounds(w, n, inf, src, j), j);
        recorded_is_reachable(w, n, inf, src, j);
    }
}

/// Every vertex other than the source to which a route leads is selected
/// by a round before the first that selects at the sentinel. This holds on
/// a graph whose source has no edge to itself and where no route costs the
/// sentinel.
pub proof fn reachable_is_listed(w: Seq<u64>, n: nat, inf: u64, src: usize, v: usize) -> (j: nat)
    requires
        is_square(w, n),
        weights_capped(w, n, inf),
        src < n <= usize::MAX,
        weight_at(w, n, src as int, src as int) == inf,
        sentinel_is_apart(w, n, inf, src),
        v < n,
        v != src,
        reachable(w, n, inf, src, v as int),
    ensures
        j < reached_count(w, n, inf, src, 0),
        chosen(w, n, inf, src, j).0 == v,
        chosen(w, n, inf, src, j).1 == cost_to(w, n, inf, src, v),
{
    let j = reachable_target_is_found(w, n, inf, src, v);
    reached_count_covers(w, n, inf, src, 0, j + 1);
    j
}

/// The costs for all targets hold, for a vertex to which a route leads, the
/// least cost of a route, which is not the sentinel. This holds on a graph
/// whose source has no edge to itself and where no route costs the sentinel.
pub proof fn recorded_cost_is_least(w: Seq<u64>, n: nat, inf: u64, src: usize, v: usize)
    requires
        is_square(w, n),
        weights_capped(w, n, inf),
        src < n <= usize::MAX,
        weight_at(w, n, src as int, src as int) == inf,
        sentinel_is_apart(w, n, inf, src),
        v < n,
        v != src,
        reachable(w, n, inf, src, v as int),
    ensures
        costs_of_all(w, n, inf, src).len() == n,
        costs_of_all(w, n, inf, src)[v as int] == cost_to(w, n, inf, src, v),
        costs_of_all(w, n, inf, src)[v as int] != inf,
        is_least_cost(w, n, inf, src, v as int, costs_of_all(w, n, inf, src)[v as int] as int),
{
    let j = reachable_is_listed(w, n, inf, src, v);
    let m = reached_count(w, n, inf, src, 0);
    reached_rounds_are_finite(w, n, inf, src, 0);
    tally_keeps_cost(w, n, inf, src, j, m);
    tally_keeps_sentinel(w, n, inf, src, m, v as int);
    let found = reachable_target_is_found(w, n, inf, src, v);
}

/// The costs for all targets hold the sentinel for every vertex to which
/// no route leads, and for the source where it has no edge to itself.
pub proof fn unreached_keeps_sentinel(w: Seq<u64>, n: nat, inf: u64, src: usize, v: usize)
    requires
        is_square(w, n),
        weights_capped(w, n, inf),
        src < n <= usize::MAX,
        v < n,
        !reachable(w, n, inf, src, v as int) || (v == src && weight_at(w, n, src as int, src as int) == inf),
    ensures
        costs_of_all(w, n, inf, src).len() == n,
        costs_of_all(w, n, inf, src)[v as int] == inf,
{
    let m = reached_count(w, n, inf, src, 0);
    reached_rounds_are_finite(w, n, inf, src, 0);
    assert forall|t: nat| t < m implies (#[trigger] chosen(w, n, inf, src, t)).0 != v by {
        if chosen(w, n, inf, src, t).0 == v {
            rounds_fit(w, n, inf, src, t);
            round_fits(w, n, inf, rounds(w, n, inf, src, t), t);
            recorded_is_reachable(w, n, inf, src, t);
            if reachable(w, n, inf, src, v as int) {
                rounds_are_sound(w, n, inf, src, t);
            }
        }
    }
    tally_keeps_sentinel(w, n, inf, src, m, v as int);
}

/// Two runs of the same search for one target give the same cost and the
/// same path, whatever the scratch arrays held before: both are determined
/// by the graph, the source and the target.
pub proof fn search_is_repeatable(
    w: Seq<u64>,
    n: nat,
    inf: u64,
    src: usize,
    dst: usize,
    first: (u64, Seq<usize>),
    second: (u64, Seq<usize>),
)
    requires
        first.0 == cost_to(w, n, inf, src, dst),
        second.0 == cost_to(w, n, inf, src, dst),
        is_walk(final_state(w, n, inf, src, dst).path, src, dst as int, first.1),
        is_walk(final_state(w, n, inf, src, dst).path, src, dst as int, second.1),
    ensures
        first == second,
{
    walk_is_unique(final_state(w, n, inf, src, dst).path, src, dst as int, first.1, second.1);
}

/// Two places of a walk that hold the same vertex stay equal step by step.
proof fn repeat_runs_on(path: Seq<usize>, src: usize, dst: int, p: Seq<usize>, a: int, b: int, d: nat)
    requires
        is_walk(path, src, dst, p),
        0 <= a < b,
        b + d < p.len(),
        p[a] == p[b],
    ensures
        p[a + d] == p[b + d],
    decreases d,
{
    if d > 0 {
        repeat_runs_on(path, src, dst, p, a, b, (d - 1) as nat);
        assert(p[a + d - 1 + 1] == path[p[a + d - 1] as int]);
        assert(p[b + d - 1 + 1] == path[p[b + d - 1] as int]);
    }
}

/// No vertex occurs twice in the walk back to the source.
pub proof fn walk_has_no_repeat(path: Seq<usize>, src: usize, dst: int, p: Seq<usize>)
    requires
        is_walk(path, src, dst, p),
    ensures
        p.no_duplicates(),
{
    assert forall|a: int, b: int| 0 <= a < p.len() && 0 <= b < p.len() && a != b implies p[a] != p[b] by {
        if p[a] == p[b] {
            if a < b {
                repeat_runs_on(path, src, dst, p, a, b, (p.len() - 1 - b) as nat);
                assert(p[a + (p.len() - 1 - b)] != src);
            } else {
                repeat_runs_on(path, src, dst, p, b, a, (p.len() - 1 - a) as nat);
                assert(p[b + (p.len() - 1 - a)] != src);
            }
        }
    }
}

/// The walk back to the source holds no more vertices than the
/// predecessors are.
pub proof fn walk_is_short(path: Seq<usize>, src: usize, dst: int, p: Seq<usize>)
    requires
        is_walk(path, src, dst, p),
        src < path.len(),
    ensures
        p.no_duplicates(),
        p.len() <= path.len(),
{
    walk_has_no_repeat(path, src, dst, p);
    let q = Seq::new(p.len(), |i: int| p[i] as int);
    let all = vstd::set_lib::set_int_range(0, path.len() as int);
    assert(q.no_duplicates());
    q.unique_seq_to_set();
    vstd::set_lib::lemma_int_range(0, path.len() as int);
    assert forall|x: int| q.to_set().contains(x) implies all.contains(x) by {
        let i = choose|i: int| 0 <= i < q.len() && q[i] == x;
        assert(q[i] == p[i]);
        if i < p.len() - 1 {
            assert(p[i] < path.len());
        }
    }
    vstd::set_lib::lemma_len_subset(q.to_set(), all);
}

/// A route goes on along an edge.
proof fn route_goes_on(w: Seq<u64>, n: nat, inf: u64, src: usize, u: int, v: int, q: Seq<usize>) -> (p: Seq<usize>)
    requires
        is_route(w, n, inf, src, u, q),
        0 <= v < n <= usize::MAX,
        weight_at(w, n, u, v) != inf,
    ensures
        is_route(w, n, inf, src, v, p),
        reachable(w, n, inf, src, v),
{
    let p = seq![v as usize] + q;
    assert forall|i: int| 0 <= i < p.len() - 1 implies weight_at(w, n, #[trigger] p[i + 1] as int, p[i] as int)
        != inf by {
        if i > 0 {
            assert(p[i + 1] == q[i - 1 + 1]);
            assert(p[i] == q[i - 1]);
        }
    }
    assert(is_route(w, n, inf, src, v, p));
    p
}

/// As long as no round selects at the sentinel, a route leads to every
/// vertex that is visited or has a distance recorded.
pub proof fn recorded_is_reachable(w: Seq<u64>, n: nat, inf: u64, src: usize, k: nat)
    requires
        is_square(w, n),
        weights_capped(w, n, inf),
        src < n <= usize::MAX,
        k + 1 <= n,
        forall|t: nat| t < k ==> (#[trigger] chosen(w, n, inf, src, t)).1 != inf,
    ensures
        forall|v: int|
            0 <= v < n && (rounds(w, n, inf, src, k).visited[v] || rounds(w, n, inf, src, k).distance[v]
                != inf) ==> #[trigger] reachable(w, n, inf, src, v),
    decreases k,
{
    rounds_fit(w, n, inf, src, k);
    let own = seq![src];
    assert(is_route(w, n, inf, src, src as int, own));
    if k == 0 {
        assert(0 <= src * n <= (src + 1) * n <= n * n && (src + 1) * n - src * n == n) by (nonlinear_arith)
            requires
                0 <= src < n,
        ;
        let s = rounds(w, n, inf, src, 0);
        assert forall|v: int| 0 <= v < n && (s.visited[v] || s.distance[v] != inf) implies #[trigger] reachable(
            w,
            n,
            inf,
            src,
            v,
        ) by {
            assert(s.distance[v] == w[src * n + v]);
            if s.distance[v] != inf {
                let p = route_goes_on(w, n, inf, src, src as int, v, own);
            }
        }
    } else {
        let h = (k - 1) as nat;
        let s = rounds(w, n, inf, src, h);
        recorded_is_reachable(w, n, inf, src, h);
        rounds_fit(w, n, inf, src, h);
        round_fits(w, n, inf, s, h);
        let u = pick(s.distance, inf);
        assert(chosen(w, n, inf, src, h).1 != inf);
        assert(reachable(w, n, inf, src, u));
        let q = choose|q: Seq<usize>| is_route(w, n, inf, src, u, q);
        let next = rounds(w, n, inf, src, k);
        assert forall|v: int| 0 <= v < n && (next.visited[v] || next.distance[v] != inf) implies #[trigger] reachable(
            w,
            n,
            inf,
            src,
            v,
        ) by {
            if !(s.visited[v] || s.distance[v] != inf) && v != u {
                let p = route_goes_on(w, n, inf, src, u, v, q);
            }
        }
    }
}

} // verus!
