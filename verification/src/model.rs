//! Mathematical description of the matrix, of the scratch state of a query
//! and of one round (select, then relax) of the search.
use vstd::prelude::*;

verus! {

/// A flat buffer holds a full `n` by `n` matrix.
pub open spec fn is_square(w: Seq<u64>, n: nat) -> bool {
    w.len() == n * n
}

/// Weight stored for the ordered pair `(i, j)`, row-major.
pub open spec fn weight_at(w: Seq<u64>, n: nat, i: int, j: int) -> u64 {
    w[i * n + j]
}

/// The row of vertex `i`: its weight towards every vertex.
pub open spec fn row_of(w: Seq<u64>, n: nat, i: int) -> Seq<u64> {
    w.subrange(i * n, (i + 1) * n)
}

/// The matrix is symmetric: it stands for an undirected graph.
pub open spec fn is_symmetric(w: Seq<u64>, n: nat) -> bool {
    forall|i: int, j: int|
        0 <= i < n && 0 <= j < n ==> weight_at(w, n, i, j) == weight_at(w, n, j, i)
}

/// Largest value of which `n` can be added up inside `u64`.
pub open spec fn weight_cap(n: nat) -> int {
    if n == 0 {
        u64::MAX as int
    } else {
        u64::MAX as int / n as int
    }
}

/// Every entry of the matrix, and the sentinel, is at most `weight_cap(n)`:
/// no sum that a query forms can leave `u64`.
pub open spec fn weights_capped(w: Seq<u64>, n: nat, inf: u64) -> bool {
    &&& inf <= weight_cap(n)
    &&& forall|k: int| 0 <= k < w.len() ==> #[trigger] w[k] <= weight_cap(n)
}

/// Every recorded distance is at most `bound`.
pub open spec fn within(distance: Seq<u64>, bound: int) -> bool {
    forall|i: int| 0 <= i < distance.len() ==> #[trigger] distance[i] <= bound
}

/// Every recorded distance other than the sentinel is at least `floor`.
pub open spec fn at_least(distance: Seq<u64>, inf: u64, floor: int) -> bool {
    forall|i: int| 0 <= i < distance.len() && #[trigger] distance[i] != inf ==> distance[i] >= floor
}

/// `v` is the vertex that selection takes: the first index that holds the
/// least distance other than the sentinel; the last index where every slot
/// holds the sentinel.
pub open spec fn is_pick(distance: Seq<u64>, inf: u64, v: int) -> bool {
    &&& 0 <= v < distance.len()
    &&& if exists|i: int| 0 <= i < distance.len() && distance[i] != inf {
        &&& distance[v] != inf
        &&& forall|i: int| 0 <= i < distance.len() && distance[i] != inf ==> distance[v] <= distance[i]
        &&& forall|i: int| 0 <= i < v && distance[i] != inf ==> distance[v] < distance[i]
    } else {
        v == distance.len() - 1
    }
}

/// The vertex that selection takes (see `laws::pick_is_unique`).
pub open spec fn pick(distance: Seq<u64>, inf: u64) -> int {
    choose|v: int| is_pick(distance, inf, v)
}

/// Going through `u`, reached at cost `c`, gives vertex `i` a better distance.
pub open spec fn improves(
    w: Seq<u64>,
    n: nat,
    inf: u64,
    u: int,
    c: u64,
    visited: Seq<bool>,
    distance: Seq<u64>,
    i: int,
) -> bool {
    &&& 0 <= i < n
    &&& !visited[i]
    &&& weight_at(w, n, u, i) != inf
    &&& (distance[i] == inf || distance[i] > c + weight_at(w, n, u, i))
}

/// No sum that relaxing from `u` at cost `c` forms leaves `u64`.
pub open spec fn relax_fits(w: Seq<u64>, n: nat, inf: u64, u: int, c: u64, visited: Seq<bool>) -> bool {
    forall|i: int|
        0 <= i < n && !visited[i] && #[trigger] weight_at(w, n, u, i) != inf ==> c + weight_at(
            w,
            n,
            u,
            i,
        ) <= u64::MAX
}

/// The distances after relaxing every edge that leaves `u`.
pub open spec fn relax(
    w: Seq<u64>,
    n: nat,
    inf: u64,
    u: int,
    c: u64,
    visited: Seq<bool>,
    distance: Seq<u64>,
) -> Seq<u64> {
    Seq::new(
        distance.len(),
        |i: int|
            if improves(w, n, inf, u, c, visited, distance, i) {
                (c + weight_at(w, n, u, i)) as u64
            } else {
                distance[i]
            },
    )
}

/// The predecessors after relaxing every edge that leaves `u`.
pub open spec fn relax_path(
    w: Seq<u64>,
    n: nat,
    inf: u64,
    u: int,
    c: u64,
    visited: Seq<bool>,
    distance: Seq<u64>,
    path: Seq<usize>,
) -> Seq<usize> {
    Seq::new(
        path.len(),
        |i: int|
            if improves(w, n, inf, u, c, visited, distance, i) {
                u as usize
            } else {
                path[i]
            },
    )
}

/// The scratch state of a query, over the first `n` slots of each array.
pub struct Scratch {
    pub visited: Seq<bool>,
    pub distance: Seq<u64>,
    pub path: Seq<usize>,
}

/// The state that a query starts from: only the source is visited, the
/// distances are the source's row, every predecessor is the source.
pub open spec fn start(w: Seq<u64>, n: nat, src: usize) -> Scratch {
    Scratch {
        visited: Seq::new(n, |i: int| i == src),
        distance: row_of(w, n, src as int),
        path: Seq::new(n, |i: int| src),
    }
}

/// One round: select a vertex, mark it, clear its slot, relax from it.
pub open spec fn round(w: Seq<u64>, n: nat, inf: u64, s: Scratch) -> Scratch {
    let u = pick(s.distance, inf);
    let c = s.distance[u];
    let visited = s.visited.update(u, true);
    let cleared = s.distance.update(u, inf);
    Scratch {
        visited,
        distance: relax(w, n, inf, u, c, visited, cleared),
        path: relax_path(w, n, inf, u, c, visited, cleared, s.path),
    }
}

/// The state after `k` rounds from source `src`.
pub open spec fn rounds(w: Seq<u64>, n: nat, inf: u64, src: usize, k: nat) -> Scratch
    decreases k,
{
    if k == 0 {
        start(w, n, src)
    } else {
        round(w, n, inf, rounds(w, n, inf, src, (k - 1) as nat))
    }
}

/// The vertex that round `k` (counted from 0) selects, and its cost.
pub open spec fn chosen(w: Seq<u64>, n: nat, inf: u64, src: usize, k: nat) -> (int, u64) {
    let s = rounds(w, n, inf, src, k);
    let u = pick(s.distance, inf);
    (u, s.distance[u])
}

/// The state after selection alone: the selected vertex is marked and its
/// slot cleared, nothing is relaxed.
pub open spec fn after_pick(s: Scratch, inf: u64) -> Scratch {
    let u = pick(s.distance, inf);
    Scratch { visited: s.visited.update(u, true), distance: s.distance.update(u, inf), path: s.path }
}

/// The cost that a search for `dst` returns, given that rounds `0..k` selected
/// neither `dst` nor at the sentinel: the cost of the first round that
/// selects `dst`, or the sentinel where a round selects at the sentinel
/// first or the `n - 1` rounds are used up.
pub open spec fn cost_from(w: Seq<u64>, n: nat, inf: u64, src: usize, dst: usize, k: nat) -> u64
    decreases n - k,
{
    if k + 1 >= n {
        inf
    } else if chosen(w, n, inf, src, k).1 == inf {
        inf
    } else if chosen(w, n, inf, src, k).0 == dst {
        chosen(w, n, inf, src, k).1
    } else {
        cost_from(w, n, inf, src, dst, k + 1)
    }
}

/// The cost that a search for `dst` returns.
pub open spec fn cost_to(w: Seq<u64>, n: nat, inf: u64, src: usize, dst: usize) -> u64 {
    cost_from(w, n, inf, src, dst, 0)
}

/// The state in which a search for `dst` stops, given that rounds `0..k`
/// selected neither `dst` nor at the sentinel. A round that selects at the
/// sentinel ends the search after its selection; the round that selects
/// `dst` ends it after its relaxation.
pub open spec fn state_from(w: Seq<u64>, n: nat, inf: u64, src: usize, dst: usize, k: nat) -> Scratch
    decreases n - k,
{
    if k + 1 >= n {
        rounds(w, n, inf, src, k)
    } else if chosen(w, n, inf, src, k).1 == inf {
        after_pick(rounds(w, n, inf, src, k), inf)
    } else if chosen(w, n, inf, src, k).0 == dst {
        rounds(w, n, inf, src, k + 1)
    } else {
        state_from(w, n, inf, src, dst, k + 1)
    }
}

/// The state in which a search for `dst` stops.
pub open spec fn final_state(w: Seq<u64>, n: nat, inf: u64, src: usize, dst: usize) -> Scratch {
    state_from(w, n, inf, src, dst, 0)
}

/// The state in which a search for all targets stops: after the selection
/// of the first round that selects at the sentinel, or after `n - 1` rounds.
pub open spec fn final_state_of_all(w: Seq<u64>, n: nat, inf: u64, src: usize) -> Scratch {
    let m = reached_count(w, n, inf, src, 0);
    if m + 1 < n {
        after_pick(rounds(w, n, inf, src, m), inf)
    } else {
        rounds(w, n, inf, src, m)
    }
}

/// The costs that a search for all targets returns: those recorded by the
/// rounds before the first that selects at the sentinel.
pub open spec fn costs_of_all(w: Seq<u64>, n: nat, inf: u64, src: usize) -> Seq<u64> {
    tally(w, n, inf, src, reached_count(w, n, inf, src, 0))
}

/// The costs recorded per vertex by the first `k` rounds.
pub open spec fn tally(w: Seq<u64>, n: nat, inf: u64, src: usize, k: nat) -> Seq<u64>
    decreases k,
{
    if k == 0 {
        Seq::new(n, |i: int| inf)
    } else {
        let j = (k - 1) as nat;
        tally(w, n, inf, src, j).update(chosen(w, n, inf, src, j).0, chosen(w, n, inf, src, j).1)
    }
}

/// The first round from `k` on that selects at the sentinel's cost, or
/// `n - 1` where none does: the number of vertices listed with a path.
pub open spec fn reached_count(w: Seq<u64>, n: nat, inf: u64, src: usize, k: nat) -> nat
    decreases n - k,
{
    if k + 1 >= n {
        k
    } else if chosen(w, n, inf, src, k).1 == inf {
        k
    } else {
        reached_count(w, n, inf, src, k + 1)
    }
}

/// Following predecessors from `v` arrives at `src` within `fuel` steps.
pub open spec fn leads_to(path: Seq<usize>, src: usize, v: usize, fuel: nat) -> bool
    decreases fuel,
{
    v == src || (fuel > 0 && v < path.len() && leads_to(path, src, path[v as int], (fuel - 1) as nat))
}

/// Following predecessors from `v` arrives at `src`.
pub open spec fn reaches_source(path: Seq<usize>, src: usize, v: usize) -> bool {
    exists|fuel: nat| leads_to(path, src, v, fuel)
}

/// `p` is the walk along the predecessors from `dst` up to the first
/// occurrence of `src`: `dst` first, `src` last.
pub open spec fn is_walk(path: Seq<usize>, src: usize, dst: int, p: Seq<usize>) -> bool {
    &&& p.len() >= 1
    &&& p[0] == dst
    &&& p.last() == src
    &&& forall|k: int|
        0 <= k < p.len() - 1 ==> (#[trigger] p[k]) != src && p[k] < path.len() && p[k + 1] == path[p[k] as int]
}

/// Every step of a walk, listed from its end back to its start, is along
/// an edge of the graph.
pub open spec fn walk_is_real(w: Seq<u64>, n: nat, inf: u64, p: Seq<usize>) -> bool {
    forall|k: int| 0 <= k < p.len() - 1 ==> weight_at(w, n, #[trigger] p[k + 1] as int, p[k] as int) != inf
}

/// The sum of the weights along a walk, listed from its end back to its
/// start.
pub open spec fn walk_cost(w: Seq<u64>, n: nat, p: Seq<usize>) -> int
    decreases p.len(),
{
    if p.len() <= 1 {
        0
    } else {
        weight_at(w, n, p[1] as int, p[0] as int) + walk_cost(w, n, p.skip(1))
    }
}

/// The cost at which each vertex was selected last by the first `k` rounds;
/// 0 for the source and for a vertex not selected yet.
pub open spec fn settled(w: Seq<u64>, n: nat, inf: u64, src: usize, k: nat) -> Seq<int>
    decreases k,
{
    if k == 0 {
        Seq::new(n, |v: int| 0int)
    } else {
        let j = (k - 1) as nat;
        settled(w, n, inf, src, j).update(chosen(w, n, inf, src, j).0, chosen(w, n, inf, src, j).1 as int)
    }
}

/// After `k` rounds every recorded distance and every settled cost is the
/// settled cost of the predecessor plus the weight of the edge from it.
pub open spec fn sound(w: Seq<u64>, n: nat, inf: u64, src: usize, k: nat) -> bool {
    let s = rounds(w, n, inf, src, k);
    let cost = settled(w, n, inf, src, k);
    &&& cost.len() == n
    &&& s.visited[src as int]
    &&& cost[src as int] == 0
    &&& forall|v: int| 0 <= v < n && #[trigger] s.visited[v] ==> s.distance[v] == inf
    &&& forall|v: int|
        0 <= v < n && v != src && #[trigger] s.visited[v] ==> linked(w, n, inf, s, cost, v, cost[v])
    &&& forall|v: int|
        0 <= v < n && !(#[trigger] s.visited[v]) && s.distance[v] != inf ==> linked(
            w,
            n,
            inf,
            s,
            cost,
            v,
            s.distance[v] as int,
        )
}

/// The predecessor of `v` is visited, an edge leads from it to `v`, and
/// `total` is its settled cost plus the weight of that edge.
pub open spec fn linked(w: Seq<u64>, n: nat, inf: u64, s: Scratch, cost: Seq<int>, v: int, total: int) -> bool {
    let q = s.path[v] as int;
    &&& 0 <= q < n
    &&& s.visited[q]
    &&& weight_at(w, n, q, v) != inf
    &&& total == cost[q] + weight_at(w, n, q, v)
}

/// `p` lists the vertices of a route along edges of the graph from `src` to
/// `x`, from its end back to its start.
pub open spec fn is_route(w: Seq<u64>, n: nat, inf: u64, src: usize, x: int, p: Seq<usize>) -> bool {
    &&& p.len() >= 1
    &&& p[0] == x
    &&& p.last() == src
    &&& forall|k: int| 0 <= k < p.len() ==> (#[trigger] p[k]) < n
    &&& walk_is_real(w, n, inf, p)
}

/// The cost at which the round before round `k` selected; 0 before the
/// first round.
pub open spec fn floor_at(w: Seq<u64>, n: nat, inf: u64, src: usize, k: nat) -> int {
    if k == 0 {
        0
    } else {
        chosen(w, n, inf, src, (k - 1) as nat).1 as int
    }
}

/// The edge from `q` to `v` has been taken into account: `v` is settled or
/// recorded at no more than the settled cost of `q` plus the edge.
pub open spec fn covered(w: Seq<u64>, n: nat, inf: u64, s: Scratch, cost: Seq<int>, q: int, v: int) -> bool {
    if s.visited[v] {
        cost[v] <= cost[q] + weight_at(w, n, q, v)
    } else {
        s.distance[v] != inf && s.distance[v] <= cost[q] + weight_at(w, n, q, v)
    }
}

/// After `k` rounds no settled cost is above the last selected cost, no
/// recorded distance is below it, and every edge that leaves a visited
/// vertex has been taken into account.
pub open spec fn tight(w: Seq<u64>, n: nat, inf: u64, src: usize, k: nat) -> bool {
    let s = rounds(w, n, inf, src, k);
    let cost = settled(w, n, inf, src, k);
    &&& forall|v: int| 0 <= v < n && #[trigger] s.visited[v] ==> cost[v] <= floor_at(w, n, inf, src, k)
    &&& at_least(s.distance, inf, floor_at(w, n, inf, src, k))
    &&& forall|q: int, v: int|
        0 <= q < n && 0 <= v < n && s.visited[q] && #[trigger] weight_at(w, n, q, v) != inf ==> covered(
            w,
            n,
            inf,
            s,
            cost,
            q,
            v,
        )
}

/// No route from `src` of at least one and at most `n - 1` edges costs
/// exactly the sentinel: a distance that is recorded is never taken for
/// "not reached".
pub open spec fn sentinel_is_apart(w: Seq<u64>, n: nat, inf: u64, src: usize) -> bool {
    forall|x: int, p: Seq<usize>|
        #[trigger] is_route(w, n, inf, src, x, p) && 2 <= p.len() <= n ==> walk_cost(w, n, p) != inf
}

/// The source has no edge to itself.
pub open spec fn no_loop_at(w: Seq<u64>, n: nat, inf: u64, src: usize) -> bool {
    weight_at(w, n, src as int, src as int) == inf
}

/// The conditions under which a search is exact: the source has no edge to
/// itself, and no route costs exactly the sentinel.
pub open spec fn is_exact(w: Seq<u64>, n: nat, inf: u64, src: usize) -> bool {
    no_loop_at(w, n, inf, src) && sentinel_is_apart(w, n, inf, src)
}

/// `c` is the least cost of a route from `src` to `x`: some route costs
/// `c`, and none costs less.
pub open spec fn is_least_cost(w: Seq<u64>, n: nat, inf: u64, src: usize, x: int, c: int) -> bool {
    &&& exists|q: Seq<usize>| #[trigger] is_route(w, n, inf, src, x, q) && walk_cost(w, n, q) == c
    &&& forall|p: Seq<usize>| #[trigger] is_route(w, n, inf, src, x, p) ==> c <= walk_cost(w, n, p)
}

/// A route leads from `src` to `x`.
pub open spec fn reachable(w: Seq<u64>, n: nat, inf: u64, src: usize, x: int) -> bool {
    exists|p: Seq<usize>| is_route(w, n, inf, src, x, p)
}

/// How many of the flags are set.
pub open spec fn count_true(flags: Seq<bool>) -> nat
    decreases flags.len(),
{
    if flags.len() == 0 {
        0
    } else {
        count_true(flags.drop_last()) + if flags.last() {
            1nat
        } else {
            0nat
        }
    }
}

/// What validation reports for the given sizes and indices: the message of
/// the first condition that fails, in the order in which they are listed
/// here, or nothing where all hold.
pub open spec fn first_failure(
    data_len: nat,
    n: nat,
    src: usize,
    dst: Option<usize>,
    path_len: Option<nat>,
    visited_len: nat,
    distance_len: nat,
) -> Option<Seq<char>> {
    if data_len != n * n {
        Some("graph_error: self.len()."@)
    } else if src >= n {
        Some("graph_error: src out of scope."@)
    } else if dst is Some && dst->0 >= n {
        Some("graph_error: dst out of scope."@)
    } else if path_len is Some && path_len->0 < n {
        Some("graph_error: path.len()."@)
    } else if visited_len < n {
        Some("graph_error: visited.len()."@)
    } else if distance_len < n {
        Some("graph_error: distance.len()."@)
    } else {
        None
    }
}

/// The matrix after the weight of the undirected edge between `i` and `j`
/// is set: both cells hold `edge`.
pub open spec fn with_edge(w: Seq<u64>, n: nat, i: int, j: int, edge: u64) -> Seq<u64> {
    w.update(i * n + j, edge).update(j * n + i, edge)
}

/// Ranks that show the predecessor links to be free of cycles after `k`
/// rounds: a visited vertex has the number of the round that took it, an
/// unvisited one has `k + 1`, and every link that does not end at the source
/// leads to a smaller rank.
pub open spec fn ranked(s: Scratch, n: nat, src: usize, rank: Seq<nat>, k: nat) -> bool {
    &&& s.visited.len() == n
    &&& s.distance.len() == n
    &&& s.path.len() == n
    &&& rank.len() == n
    &&& src < n <= usize::MAX
    &&& forall|v: int| 0 <= v < n ==> (#[trigger] s.path[v]) < n
    &&& forall|v: int| 0 <= v < n ==> if s.visited[v] { (#[trigger] rank[v]) <= k } else { rank[v] == k + 1 }
    &&& forall|v: int|
        0 <= v < n ==> (#[trigger] s.path[v]) == src || rank[s.path[v] as int] < rank[v]
}

/// The ranks after one more round.
pub open spec fn next_rank(s: Scratch, rank: Seq<nat>, k: nat) -> Seq<nat> {
    Seq::new(rank.len(), |v: int| if s.visited[v] { rank[v] } else { k + 1 })
}

} // verus!
