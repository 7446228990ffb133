//! The adjacency-matrix traits, the borrowed `Graph`, and the queries.
use vstd::prelude::*;
use crate::laws::{
    costs_never_decrease, found_cost_is_selected, pick_is_unique, ranked_leads_to,
    reachable_is_listed, reachable_target_is_found, recorded_cost_is_least, round_fits,
    round_keeps_ranked, rounds_fit, selected_cost_is_least, set_edge_is_symmetric, start_fits,
    unreachable_target_costs_sentinel, unreached_keeps_sentinel, walk_is_short, walk_is_valid,
};
use crate::model::{
    chosen, cost_from, cost_to, costs_of_all, final_state, final_state_of_all, first_failure,
    improves, is_exact, is_least_cost, is_pick, is_route, is_square, is_symmetric, is_walk, leads_to, next_rank,
    no_loop_at, pick, ranked, reachable, reached_count, reaches_source, relax, relax_fits,
    relax_path, round, rounds, row_of, sentinel_is_apart, state_from, tally, walk_cost,
    walk_is_real, weight_at, weight_cap, weights_capped, with_edge, within,
};

verus! {

/// Read access to a dense matrix of edge weights, and the shortest-path
/// queries over it.
///
/// A query runs at most `order() - 1` rounds. A round selects the vertex
/// with the least recorded distance other than the sentinel, marks it
/// visited, clears its slot and relaxes the edges that leave it. A round
/// that finds the sentinel in every slot has nothing left to reach: its
/// selection ends the search. `model::rounds` is the state after a number of
/// rounds, `model::chosen` what a round selects.
///
/// The queries form sums of at most `order()` weights: they ask that every
/// weight, and the sentinel, is at most `u64::MAX / order()`, which
/// `weights_fit` tests.
pub trait AdjencyMatrix {
    /// The buffer of weights, row-major.
    spec fn matrix(&self) -> Seq<u64>;

    /// The number of vertices.
    spec fn order(&self) -> nat;

    /// The weight that stands for "no edge" and for "not reached".
    spec fn sentinel(&self) -> u64;

    /// The buffer of weights.
    fn inner(&self) -> (data: &[u64])
        ensures
            data@ == self.matrix(),
    ;

    /// The number of vertices.
    fn nb_vertex(&self) -> (n: usize)
        ensures
            n == self.order(),
    ;

    /// The sentinel.
    fn infinite(&self) -> (inf: u64)
        ensures
            inf == self.sentinel(),
    ;

    /// The weights from vertex `i` towards every vertex.
    fn neighbors(&self, i: usize) -> (row: &[u64])
        requires
            is_square(self.matrix(), self.order()),
            i < self.order(),
        ensures
            row@ == row_of(self.matrix(), self.order(), i as int),
            row@.len() == self.order(),
    {
        let nb_vertex = self.nb_vertex();
        let data = self.inner();
        let len = data.len();
        assert(i * nb_vertex <= (i + 1) * nb_vertex <= len && (i + 1) * nb_vertex - i * nb_vertex
            == nb_vertex) by (nonlinear_arith)
            requires
                i < nb_vertex,
                len == nb_vertex * nb_vertex,
        ;
        &data[i * nb_vertex..(i + 1) * nb_vertex]
    }

    /// The weight between `i` and `j`, the sentinel where there is no edge.
    fn edge(&self, i: usize, j: usize) -> (weight: u64)
        requires
            is_square(self.matrix(), self.order()),
            i < self.order(),
            j < self.order(),
        ensures
            weight == weight_at(self.matrix(), self.order(), i as int, j as int),
    {
        let nb_vertex = self.nb_vertex();
        let data = self.inner();
        let len = data.len();
        assert(i * nb_vertex + j < len) by (nonlinear_arith)
            requires
                i < nb_vertex,
                j < nb_vertex,
                len == nb_vertex * nb_vertex,
        ;
        data[i * nb_vertex + j]
    }

    /// Whether every weight, and the sentinel, is small enough for the
    /// queries to form their sums inside `u64`.
    fn weights_fit(&self) -> (ok: bool)
        ensures
            ok == weights_capped(self.matrix(), self.order(), self.sentinel()),
    {
        let nb_vertex = self.nb_vertex();
        let infinite = self.infinite();
        let data = self.inner();
        let cap: u64 = if nb_vertex == 0 {
            u64::MAX
        } else {
            u64::MAX / (nb_vertex as u64)
        };
        assert(cap == weight_cap(self.order()));
        if infinite > cap {
            return false;
        }
        let len = data.len();
        let mut i: usize = 0;
        while i < len
            invariant
                i <= len,
                len == data@.len(),
                data@ == self.matrix(),
                cap == weight_cap(self.order()),
                infinite == self.sentinel(),
                infinite <= cap,
                forall|k: int| 0 <= k < i ==> data@[k] <= cap,
            decreases len - i,
        {
            if data[i] > cap {
                assert(self.matrix()[i as int] > weight_cap(self.order()));
                return false;
            }
            i += 1;
        }
        true
    }

    /// Prepares the scratch state of a cost-only query from `src`.
    fn dijkstra_init(&self, src: usize, visited: &mut [bool], distance: &mut [u64])
        requires
            is_square(self.matrix(), self.order()),
            src < self.order(),
            src < old(visited)@.len(),
            old(distance)@.len() == self.order(),
        ensures
            final(visited)@ == Seq::new(old(visited)@.len(), |i: int| i == src),
            final(distance)@ == row_of(self.matrix(), self.order(), src as int),
    {
        let len = visited.len();
        let mut i: usize = 0;
        while i < len
            invariant
                i <= len,
                visited@.len() == len,
                forall|j: int| 0 <= j < i ==> !visited@[j],
            decreases len - i,
        {
            visited[i] = false;
            i += 1;
        }
        let row = self.neighbors(src);
        let nb_vertex = row.len();
        let mut j: usize = 0;
        while j < nb_vertex
            invariant
                j <= nb_vertex,
                distance@.len() == nb_vertex,
                row@.len() == nb_vertex,
                forall|k: int| 0 <= k < j ==> distance@[k] == row@[k],
            decreases nb_vertex - j,
        {
            distance[j] = row[j];
            j += 1;
        }
        visited[src] = true;
        assert(visited@ =~= Seq::new(len as nat, |i: int| i == src));
        assert(distance@ =~= row@);
    }

    /// Prepares the scratch state of a query with paths from `src`.
    fn dijkstra_with_path_init(
        &self,
        src: usize,
        path: &mut [usize],
        visited: &mut [bool],
        distance: &mut [u64],
    )
        requires
            is_square(self.matrix(), self.order()),
            src < self.order(),
            src < old(visited)@.len(),
            old(distance)@.len() == self.order(),
        ensures
            final(visited)@ == Seq::new(old(visited)@.len(), |i: int| i == src),
            final(path)@ == Seq::new(old(path)@.len(), |i: int| src),
            final(distance)@ == row_of(self.matrix(), self.order(), src as int),
    {
        let len = path.len();
        let mut i: usize = 0;
        while i < len
            invariant
                i <= len,
                path@.len() == len,
                forall|j: int| 0 <= j < i ==> path@[j] == src,
            decreases len - i,
        {
            path[i] = src;
            i += 1;
        }
        assert(path@ =~= Seq::new(len as nat, |i: int| src));
        self.dijkstra_init(src, visited, distance);
    }

    /// Selects the next vertex, marks it visited and clears its slot.
    fn visits(&self, visited: &mut [bool], distance: &mut [u64]) -> (cur: (usize, u64))
        requires
            old(distance)@.len() >= 1,
            old(visited)@.len() >= old(distance)@.len(),
        ensures
            is_pick(old(distance)@, self.sentinel(), cur.0 as int),
            cur.0 == pick(old(distance)@, self.sentinel()),
            cur.1 == old(distance)@[cur.0 as int],
            final(visited)@ == old(visited)@.update(cur.0 as int, true),
            final(distance)@ == old(distance)@.update(cur.0 as int, self.sentinel()),
    {
        let infinite = self.infinite();
        let len = distance.len();
        let mut min: (usize, u64) = (0, distance[0]);
        let mut i: usize = 1;
        while i < len
            invariant
                1 <= i <= len,
                distance@ == old(distance)@,
                distance@.len() == len,
                min.0 < i,
                min.1 == distance@[min.0 as int],
                min.1 == infinite ==> min.0 == i - 1 && forall|j: int|
                    0 <= j < i ==> distance@[j] == infinite,
                min.1 != infinite ==> forall|j: int|
                    0 <= j < i && distance@[j] != infinite ==> min.1 <= distance@[j],
                min.1 != infinite ==> forall|j: int|
                    0 <= j < min.0 && distance@[j] != infinite ==> min.1 < distance@[j],
            decreases len - i,
        {
            let d = distance[i];
            if min.1 == infinite || (d != infinite && d < min.1) {
                min = (i, d);
            }
            i += 1;
        }
        proof {
            assert(is_pick(distance@, infinite, min.0 as int));
            pick_is_unique(distance@, infinite, min.0 as int, pick(distance@, infinite));
        }
        visited[min.0] = true;
        distance[min.0] = infinite;
        min
    }

    /// Relaxes every edge that leaves the vertex just selected.
    fn update_distance(&self, cur: (usize, u64), visited: &[bool], distance: &mut [u64])
        requires
            is_square(self.matrix(), self.order()),
            cur.0 < self.order(),
            visited@.len() >= self.order(),
            old(distance)@.len() >= self.order(),
            relax_fits(self.matrix(), self.order(), self.sentinel(), cur.0 as int, cur.1, visited@),
        ensures
            final(distance)@ == relax(
                self.matrix(),
                self.order(),
                self.sentinel(),
                cur.0 as int,
                cur.1,
                visited@,
                old(distance)@,
            ),
    {
        let infinite = self.infinite();
        let nb_vertex = self.nb_vertex();
        let ghost before = distance@;
        let ghost after = relax(
            self.matrix(),
            self.order(),
            infinite,
            cur.0 as int,
            cur.1,
            visited@,
            before,
        );
        let mut i: usize = 0;
        while i < nb_vertex
            invariant
                i <= nb_vertex,
                nb_vertex == self.order(),
                infinite == self.sentinel(),
                is_square(self.matrix(), self.order()),
                cur.0 < self.order(),
                visited@.len() >= nb_vertex,
                before == old(distance)@,
                distance@.len() == before.len(),
                before.len() >= nb_vertex,
                after == relax(self.matrix(), self.order(), infinite, cur.0 as int, cur.1, visited@, before),
                relax_fits(self.matrix(), self.order(), infinite, cur.0 as int, cur.1, visited@),
                forall|j: int| 0 <= j < i ==> distance@[j] == after[j],
                forall|j: int| i <= j < before.len() ==> distance@[j] == before[j],
            decreases nb_vertex - i,
        {
            let edge = self.edge(cur.0, i);
            if !visited[i] && edge != infinite {
                let new_dist = cur.1 + edge;
                let distance_i = distance[i];
                if distance_i == infinite || distance_i > new_dist {
                    distance[i] = new_dist;
                }
            }
            i += 1;
        }
        assert(distance@ =~= after);
    }

    /// Relaxes every edge that leaves the vertex just selected, and records
    /// that vertex as the predecessor of each vertex it improves.
    fn update_distance_with_path(
        &self,
        cur: (usize, u64),
        path: &mut [usize],
        visited: &[bool],
        distance: &mut [u64],
    )
        requires
            is_square(self.matrix(), self.order()),
            cur.0 < self.order(),
            old(path)@.len() >= self.order(),
            visited@.len() >= self.order(),
            old(distance)@.len() >= self.order(),
            relax_fits(self.matrix(), self.order(), self.sentinel(), cur.0 as int, cur.1, visited@),
        ensures
            final(distance)@ == relax(
                self.matrix(),
                self.order(),
                self.sentinel(),
                cur.0 as int,
                cur.1,
                visited@,
                old(distance)@,
            ),
            final(path)@ == relax_path(
                self.matrix(),
                self.order(),
                self.sentinel(),
                cur.0 as int,
                cur.1,
                visited@,
                old(distance)@,
                old(path)@,
            ),
    {
        let infinite = self.infinite();
        let nb_vertex = self.nb_vertex();
        let ghost before = distance@;
        let ghost links = path@;
        let ghost after = relax(
            self.matrix(),
            self.order(),
            infinite,
            cur.0 as int,
            cur.1,
            visited@,
            before,
        );
        let ghost relinked = relax_path(
            self.matrix(),
            self.order(),
            infinite,
            cur.0 as int,
            cur.1,
            visited@,
            before,
            links,
        );
        let mut i: usize = 0;
        while i < nb_vertex
            invariant
                i <= nb_vertex,
                nb_vertex == self.order(),
                infinite == self.sentinel(),
                is_square(self.matrix(), self.order()),
                cur.0 < self.order(),
                visited@.len() >= nb_vertex,
                before == old(distance)@,
                links == old(path)@,
                distance@.len() == before.len(),
                path@.len() == links.len(),
                before.len() >= nb_vertex,
                links.len() >= nb_vertex,
                after == relax(self.matrix(), self.order(), infinite, cur.0 as int, cur.1, visited@, before),
                relinked == relax_path(
                    self.matrix(),
                    self.order(),
                    infinite,
                    cur.0 as int,
                    cur.1,
                    visited@,
                    before,
                    links,
                ),
                relax_fits(self.matrix(), self.order(), infinite, cur.0 as int, cur.1, visited@),
                forall|j: int| 0 <= j < i ==> distance@[j] == after[j],
                forall|j: int| i <= j < before.len() ==> distance@[j] == before[j],
                forall|j: int| 0 <= j < i ==> path@[j] == relinked[j],
                forall|j: int| i <= j < links.len() ==> path@[j] == links[j],
            decreases nb_vertex - i,
        {
            let edge = self.edge(cur.0, i);
            if !visited[i] && edge != infinite {
                let new_dist = cur.1 + edge;
                let distance_i = distance[i];
                if distance_i == infinite || distance_i > new_dist {
                    distance[i] = new_dist;
                    path[i] = cur.0;
                }
            }
            i += 1;
        }
        assert(distance@ =~= after);
        assert(path@ =~= relinked);
    }

    /// Walks the predecessors from `dst` back to `src`: `dst` comes first,
    /// `src` last.
    fn rebuild_path(&self, src: usize, dst: usize, path: &[usize]) -> (p: Vec<usize>)
        requires
            reaches_source(path@, src, dst),
        ensures
            is_walk(path@, src, dst as int, p@),
    {
        let nb_vertex = self.nb_vertex();
        let mut p: Vec<usize> = Vec::with_capacity(nb_vertex);
        let mut last_vertex = dst;
        let ghost mut fuel: nat = choose|f: nat| leads_to(path@, src, dst, f);
        p.push(last_vertex);
        while last_vertex != src
            invariant
                leads_to(path@, src, last_vertex, fuel),
                p@.len() >= 1,
                p@[0] == dst,
                p@.last() == last_vertex,
                forall|k: int|
                    0 <= k < p@.len() - 1 ==> (#[trigger] p@[k]) != src && p@[k] < path@.len() && p@[k
                        + 1] == path@[p@[k] as int],
            decreases fuel,
        {
            last_vertex = path[last_vertex];
            p.push(last_vertex);
            proof {
                fuel = (fuel - 1) as nat;
            }
        }
        p
    }

    /// Searches from `src` until a round selects `dst`, and returns the cost
    /// at which it did. It returns the sentinel where a round finds the
    /// sentinel in every slot first, which ends the search, or where none of
    /// the rounds selects `dst`.
    ///
    /// A `dst` to which no route leads gets the sentinel. Where `src` has
    /// no edge to itself and no route costs the sentinel, a `dst` to which a
    /// route leads gets the least cost of any route. The scratch
    /// arrays are left as the search left them.
    fn dijkstra(&self, src: usize, dst: usize, visited: &mut [bool], distance: &mut [u64]) -> (cost: u64)
        requires
            is_square(self.matrix(), self.order()),
            weights_capped(self.matrix(), self.order(), self.sentinel()),
            src < self.order(),
            old(visited)@.len() >= self.order(),
            old(distance)@.len() >= self.order(),
        ensures
            cost == cost_to(self.matrix(), self.order(), self.sentinel(), src, dst),
            dst < self.order() && !reachable(
                self.matrix(),
                self.order(),
                self.sentinel(),
                src,
                dst as int,
            ) ==> cost == self.sentinel(),
            is_exact(self.matrix(), self.order(), self.sentinel(), src) && dst < self.order() && dst
                != src && reachable(self.matrix(), self.order(), self.sentinel(), src, dst as int)
                ==> cost != self.sentinel() && is_least_cost(
                self.matrix(),
                self.order(),
                self.sentinel(),
                src,
                dst as int,
                cost as int,
            ),
            ({
                let n = self.order();
                let s = final_state(self.matrix(), n, self.sentinel(), src, dst);
                &&& final(visited)@ == s.visited + old(visited)@.skip(n as int)
                &&& final(distance)@ == s.distance + old(distance)@.skip(n as int)
            }),
    {
        let nb_vertex = self.nb_vertex();
        let infinite = self.infinite();
        let ghost w = self.matrix();
        let ghost n = self.order();
        let (vis, vis_rest) = visited.split_at_mut(nb_vertex);
        let (dist, dist_rest) = distance.split_at_mut(nb_vertex);

        self.dijkstra_init(src, vis, dist);
        proof {
            start_fits(w, n, infinite, src);
        }
        let mut k: usize = 0;
        let mut done = false;
        let mut cost = infinite;
        while k < nb_vertex - 1 && !done
            invariant
                k <= nb_vertex - 1,
                nb_vertex == n,
                n == self.order(),
                w == self.matrix(),
                infinite == self.sentinel(),
                is_square(w, n),
                weights_capped(w, n, infinite),
                src < n,
                vis@.len() == n,
                dist@.len() == n,
                vis_rest@ == old(visited)@.skip(n as int),
                dist_rest@ == old(distance)@.skip(n as int),
                !done ==> vis@ == rounds(w, n, infinite, src, k as nat).visited,
                !done ==> dist@ == rounds(w, n, infinite, src, k as nat).distance,
                !done ==> within(dist@, (k + 1) * weight_cap(n)),
                !done ==> cost == infinite,
                !done ==> cost_to(w, n, infinite, src, dst) == cost_from(w, n, infinite, src, dst, k as nat),
                !done ==> final_state(w, n, infinite, src, dst) == state_from(
                    w,
                    n,
                    infinite,
                    src,
                    dst,
                    k as nat,
                ),
                done ==> cost == cost_to(w, n, infinite, src, dst),
                done ==> vis@ == final_state(w, n, infinite, src, dst).visited,
                done ==> dist@ == final_state(w, n, infinite, src, dst).distance,
            decreases nb_vertex - 1 - k,
        {
            proof {
                round_fits(w, n, infinite, rounds(w, n, infinite, src, k as nat), k as nat);
            }
            let cur = self.visits(vis, dist);
            if cur.1 == infinite {
                done = true;
            } else {
                self.update_distance(cur, vis, dist);
                if cur.0 == dst {
                    done = true;
                    cost = cur.1;
                }
            }
            k += 1;
        }
        proof {
            if dst < n {
                if !reachable(w, n, infinite, src, dst as int) {
                    unreachable_target_costs_sentinel(w, n, infinite, src, dst);
                } else if dst != src && is_exact(w, n, infinite, src) {
                    let j = reachable_target_is_found(w, n, infinite, src, dst);
                }
            }
        }
        cost
    }

    /// Searches from `src` as `dijkstra` does, and returns the cost with the
    /// walk along the predecessors from `dst` back to `src`.
    ///
    /// No vertex occurs twice in the walk, which holds `order()` vertices at
    /// most. Where `src` has no edge to itself
    /// and the cost is not the sentinel, the walk goes along edges whose
    /// weights add up to the cost. Where the cost is the sentinel the walk is
    /// only what the predecessors hold.
    fn dijkstra_with_path(
        &self,
        src: usize,
        dst: usize,
        path: &mut [usize],
        visited: &mut [bool],
        distance: &mut [u64],
    ) -> (found: (u64, Vec<usize>))
        requires
            is_square(self.matrix(), self.order()),
            weights_capped(self.matrix(), self.order(), self.sentinel()),
            src < self.order(),
            dst < self.order(),
            old(path)@.len() >= self.order(),
            old(visited)@.len() >= self.order(),
            old(distance)@.len() >= self.order(),
        ensures
            found.0 == cost_to(self.matrix(), self.order(), self.sentinel(), src, dst),
            dst < self.order() && !reachable(
                self.matrix(),
                self.order(),
                self.sentinel(),
                src,
                dst as int,
            ) ==> found.0 == self.sentinel(),
            is_exact(self.matrix(), self.order(), self.sentinel(), src) && dst < self.order() && dst
                != src && reachable(self.matrix(), self.order(), self.sentinel(), src, dst as int)
                ==> found.0 != self.sentinel() && is_least_cost(
                self.matrix(),
                self.order(),
                self.sentinel(),
                src,
                dst as int,
                found.0 as int,
            ),
            no_loop_at(self.matrix(), self.order(), self.sentinel(), src) && found.0 != self.sentinel()
                ==> is_route(self.matrix(), self.order(), self.sentinel(), src, dst as int, found.1@)
                && walk_cost(self.matrix(), self.order(), found.1@) == found.0,
            found.1@.no_duplicates(),
            found.1@.len() <= self.order(),
            ({
                let n = self.order();
                let s = final_state(self.matrix(), n, self.sentinel(), src, dst);
                &&& is_walk(s.path, src, dst as int, found.1@)
                &&& final(path)@ == s.path + old(path)@.skip(n as int)
                &&& final(visited)@ == s.visited + old(visited)@.skip(n as int)
                &&& final(distance)@ == s.distance + old(distance)@.skip(n as int)
            }),
    {
        let nb_vertex = self.nb_vertex();
        let infinite = self.infinite();
        let ghost w = self.matrix();
        let ghost n = self.order();
        let (pth, pth_rest) = path.split_at_mut(nb_vertex);
        let (vis, vis_rest) = visited.split_at_mut(nb_vertex);
        let (dist, dist_rest) = distance.split_at_mut(nb_vertex);

        self.dijkstra_with_path_init(src, pth, vis, dist);
        let ghost mut rank: Seq<nat> = Seq::new(n, |v: int| if v == src { 0nat } else { 1nat });
        proof {
            start_fits(w, n, infinite, src);
        }
        let mut k: usize = 0;
        let mut done = false;
        let mut cost = infinite;
        while k < nb_vertex - 1 && !done
            invariant
                k <= nb_vertex - 1,
                nb_vertex == n,
                n == self.order(),
                w == self.matrix(),
                infinite == self.sentinel(),
                is_square(w, n),
                weights_capped(w, n, infinite),
                src < n,
                vis@.len() == n,
                dist@.len() == n,
                vis_rest@ == old(visited)@.skip(n as int),
                dist_rest@ == old(distance)@.skip(n as int),
                !done ==> vis@ == rounds(w, n, infinite, src, k as nat).visited,
                !done ==> dist@ == rounds(w, n, infinite, src, k as nat).distance,
                !done ==> within(dist@, (k + 1) * weight_cap(n)),
                !done ==> cost == infinite,
                !done ==> cost_to(w, n, infinite, src, dst) == cost_from(w, n, infinite, src, dst, k as nat),
                !done ==> final_state(w, n, infinite, src, dst) == state_from(
                    w,
                    n,
                    infinite,
                    src,
                    dst,
                    k as nat,
                ),
                done ==> cost == cost_to(w, n, infinite, src, dst),
                done ==> vis@ == final_state(w, n, infinite, src, dst).visited,
                done ==> dist@ == final_state(w, n, infinite, src, dst).distance,
                dst < n,
                pth@.len() == n,
                pth_rest@ == old(path)@.skip(n as int),
                !done ==> pth@ == rounds(w, n, infinite, src, k as nat).path,
                !done ==> ranked(rounds(w, n, infinite, src, k as nat), n, src, rank, k as nat),
                done ==> pth@ == final_state(w, n, infinite, src, dst).path,
                done ==> reaches_source(pth@, src, dst),
            decreases nb_vertex - 1 - k,
        {
            proof {
                let s = rounds(w, n, infinite, src, k as nat);
                round_fits(w, n, infinite, s, k as nat);
                ranked_leads_to(s, n, src, rank, k as nat, dst, rank[dst as int] + 1);
                round_keeps_ranked(w, n, infinite, s, src, rank, k as nat);
            }
            let cur = self.visits(vis, dist);
            if cur.1 == infinite {
                done = true;
            } else {
                self.update_distance_with_path(cur, pth, vis, dist);
                proof {
                    let s = rounds(w, n, infinite, src, k as nat);
                    rank = next_rank(round(w, n, infinite, s), rank, (k + 1) as nat);
                    ranked_leads_to(round(w, n, infinite, s), n, src, rank, (k + 1) as nat, dst, rank[dst as int] + 1);
                }
                if cur.0 == dst {
                    done = true;
                    cost = cur.1;
                }
            }
            k += 1;
        }
        proof {
            if !done {
                let s = rounds(w, n, infinite, src, k as nat);
                ranked_leads_to(s, n, src, rank, k as nat, dst, rank[dst as int] + 1);
            }
        }
        let walk = self.rebuild_path(src, dst, pth);
        proof {
            walk_is_short(pth@, src, dst as int, walk@);
            if !reachable(w, n, infinite, src, dst as int) {
                unreachable_target_costs_sentinel(w, n, infinite, src, dst);
            }
            if no_loop_at(w, n, infinite, src) {
                if dst != src && is_exact(w, n, infinite, src) && reachable(w, n, infinite, src, dst as int) {
                    let j = reachable_target_is_found(w, n, infinite, src, dst);
                }
                if cost != infinite {
                    let j = found_cost_is_selected(w, n, infinite, src, dst, 0);
                    walk_is_valid(w, n, infinite, src, j, walk@);
                }
            }
        }
        (cost, walk)
    }

    /// Runs the rounds of the search from `src` up to the first that finds
    /// the sentinel in every slot, and returns, for every vertex, the cost at
    /// which a round selected it, the sentinel where none did.
    ///
    /// Every vertex to which no route leads has the sentinel, and so has
    /// `src` where it has no edge to itself. Where moreover no route costs
    /// the sentinel, every other vertex has the least cost of any route to
    /// it.
    fn dijkstra_from_src(&self, src: usize, visited: &mut [bool], distance: &mut [u64]) -> (output: Vec<u64>)
        requires
            is_square(self.matrix(), self.order()),
            weights_capped(self.matrix(), self.order(), self.sentinel()),
            src < self.order(),
            old(visited)@.len() >= self.order(),
            old(distance)@.len() >= self.order(),
        ensures
            output@ == costs_of_all(self.matrix(), self.order(), self.sentinel(), src),
            output@.len() == self.order(),
            forall|v: int|
                0 <= v < self.order() && !reachable(self.matrix(), self.order(), self.sentinel(), src, v)
                    ==> (#[trigger] output@[v]) == self.sentinel(),
            no_loop_at(self.matrix(), self.order(), self.sentinel(), src) ==> output@[src as int]
                == self.sentinel(),
            is_exact(self.matrix(), self.order(), self.sentinel(), src) ==> forall|v: int|
                0 <= v < self.order() && v != src && reachable(
                    self.matrix(),
                    self.order(),
                    self.sentinel(),
                    src,
                    v,
                ) ==> (#[trigger] output@[v]) != self.sentinel() && is_least_cost(
                    self.matrix(),
                    self.order(),
                    self.sentinel(),
                    src,
                    v,
                    output@[v] as int,
                ),
            ({
                let n = self.order();
                let s = final_state_of_all(self.matrix(), n, self.sentinel(), src);
                &&& final(visited)@ == s.visited + old(visited)@.skip(n as int)
                &&& final(distance)@ == s.distance + old(distance)@.skip(n as int)
            }),
    {
        let infinite = self.infinite();
        let nb_vertex = self.nb_vertex();
        let ghost w = self.matrix();
        let ghost n = self.order();
        let (vis, vis_rest) = visited.split_at_mut(nb_vertex);
        let (dist, dist_rest) = distance.split_at_mut(nb_vertex);
        let mut output = vec![infinite; nb_vertex];
        assert(output@ =~= tally(w, n, infinite, src, 0));

        self.dijkstra_init(src, vis, dist);
        proof {
            start_fits(w, n, infinite, src);
        }
        let mut k: usize = 0;
        let mut done = false;
        while k < nb_vertex - 1 && !done
            invariant
                k <= nb_vertex - 1,
                nb_vertex == n,
                n == self.order(),
                w == self.matrix(),
                infinite == self.sentinel(),
                is_square(w, n),
                weights_capped(w, n, infinite),
                src < n,
                vis@.len() == n,
                dist@.len() == n,
                vis_rest@ == old(visited)@.skip(n as int),
                dist_rest@ == old(distance)@.skip(n as int),
                !done ==> vis@ == rounds(w, n, infinite, src, k as nat).visited,
                !done ==> dist@ == rounds(w, n, infinite, src, k as nat).distance,
                !done ==> within(dist@, (k + 1) * weight_cap(n)),
                output@.len() == n,
                !done ==> output@ == tally(w, n, infinite, src, k as nat),
                !done ==> reached_count(w, n, infinite, src, 0) == reached_count(w, n, infinite, src, k as nat),
                done ==> output@ == costs_of_all(w, n, infinite, src),
                done ==> vis@ == final_state_of_all(w, n, infinite, src).visited,
                done ==> dist@ == final_state_of_all(w, n, infinite, src).distance,
            decreases nb_vertex - 1 - k,
        {
            proof {
                round_fits(w, n, infinite, rounds(w, n, infinite, src, k as nat), k as nat);
            }
            let cur = self.visits(vis, dist);
            if cur.1 == infinite {
                done = true;
            } else {
                self.update_distance(cur, vis, dist);
                output[cur.0] = cur.1;
            }
            k += 1;
        }
        proof {
            assert forall|v: int| 0 <= v < n && !reachable(w, n, infinite, src, v) implies (#[trigger] output@[v])
                == infinite by {
                unreached_keeps_sentinel(w, n, infinite, src, v as usize);
            }
            if no_loop_at(w, n, infinite, src) {
                unreached_keeps_sentinel(w, n, infinite, src, src);
                if is_exact(w, n, infinite, src) {
                    assert forall|v: int|
                        0 <= v < n && v != src && reachable(w, n, infinite, src, v) implies (#[trigger] output@[v])
                        != infinite && is_least_cost(w, n, infinite, src, v, output@[v] as int) by {
                        recorded_cost_is_least(w, n, infinite, src, v as usize);
                    }
                }
            }
        }
        output
    }

    /// The vertices that the search from `src` selects at a cost other than
    /// the sentinel, in the order in which it selects them, up to the first
    /// round that selects at the sentinel: each with its cost and the walk
    /// back to `src`.
    ///
    /// The costs never decrease along the result, and no vertex occurs twice
    /// in a walk. Where `src` has no edge to itself, each walk goes along
    /// edges whose weights add up to its cost. Where moreover no route costs
    /// the sentinel, each cost is the least of any route to its vertex, and
    /// every vertex other than `src` to which a route leads is in the result.
    fn dijkstra_from_src_with_path(
        &self,
        src: usize,
        path: &mut [usize],
        visited: &mut [bool],
        distance: &mut [u64],
    ) -> (output: Vec<(u64, Vec<usize>)>)
        requires
            is_square(self.matrix(), self.order()),
            weights_capped(self.matrix(), self.order(), self.sentinel()),
            src < self.order(),
            old(path)@.len() >= self.order(),
            old(visited)@.len() >= self.order(),
            old(distance)@.len() >= self.order(),
        ensures
            output@.len() == reached_count(self.matrix(), self.order(), self.sentinel(), src, 0),
            forall|j: int|
                0 <= j < output@.len() ==> {
                    let c = chosen(self.matrix(), self.order(), self.sentinel(), src, j as nat);
                    let s = rounds(self.matrix(), self.order(), self.sentinel(), src, (j + 1) as nat);
                    &&& (#[trigger] output@[j]).0 == c.1
                    &&& output@[j].0 != self.sentinel()
                    &&& is_walk(s.path, src, c.0, output@[j].1@)
                },
            forall|a: int, b: int| 0 <= a <= b < output@.len() ==> output@[a].0 <= output@[b].0,
            forall|j: int|
                0 <= j < output@.len() ==> (#[trigger] output@[j]).1@.no_duplicates() && output@[j].1@.len()
                    <= self.order(),
            no_loop_at(self.matrix(), self.order(), self.sentinel(), src) ==> forall|j: int|
                0 <= j < output@.len() ==> {
                    &&& walk_is_real(self.matrix(), self.order(), self.sentinel(), (#[trigger] output@[j]).1@)
                    &&& walk_cost(self.matrix(), self.order(), output@[j].1@) == output@[j].0
                },
            is_exact(self.matrix(), self.order(), self.sentinel(), src) ==> forall|j: int|
                0 <= j < output@.len() ==> is_least_cost(
                    self.matrix(),
                    self.order(),
                    self.sentinel(),
                    src,
                    (#[trigger] output@[j]).1@[0] as int,
                    output@[j].0 as int,
                ),
            is_exact(self.matrix(), self.order(), self.sentinel(), src) ==> forall|v: usize|
                v < self.order() && v != src && #[trigger] reachable(
                    self.matrix(),
                    self.order(),
                    self.sentinel(),
                    src,
                    v as int,
                ) ==> exists|j: int| 0 <= j < output@.len() && (#[trigger] output@[j]).1@[0] == v,
            ({
                let n = self.order();
                let s = final_state_of_all(self.matrix(), n, self.sentinel(), src);
                &&& final(path)@ == s.path + old(path)@.skip(n as int)
                &&& final(visited)@ == s.visited + old(visited)@.skip(n as int)
                &&& final(distance)@ == s.distance + old(distance)@.skip(n as int)
            }),
    {
        let nb_vertex = self.nb_vertex();
        let infinite = self.infinite();
        let ghost w = self.matrix();
        let ghost n = self.order();
        let (pth, pth_rest) = path.split_at_mut(nb_vertex);
        let (vis, vis_rest) = visited.split_at_mut(nb_vertex);
        let (dist, dist_rest) = distance.split_at_mut(nb_vertex);
        let mut output: Vec<(u64, Vec<usize>)> = Vec::with_capacity(nb_vertex);

        self.dijkstra_with_path_init(src, pth, vis, dist);
        let ghost mut rank: Seq<nat> = Seq::new(n, |v: int| if v == src { 0nat } else { 1nat });
        proof {
            start_fits(w, n, infinite, src);
        }
        let mut k: usize = 0;
        let mut r: usize = 0;
        let mut dry = false;
        while r < nb_vertex - 1 && !dry
            invariant
                k <= r <= nb_vertex - 1,
                nb_vertex == n,
                n == self.order(),
                w == self.matrix(),
                infinite == self.sentinel(),
                is_square(w, n),
                weights_capped(w, n, infinite),
                src < n,
                vis@.len() == n,
                dist@.len() == n,
                vis_rest@ == old(visited)@.skip(n as int),
                dist_rest@ == old(distance)@.skip(n as int),
                pth_rest@ == old(path)@.skip(n as int),
                !dry ==> vis@ == rounds(w, n, infinite, src, k as nat).visited,
                !dry ==> dist@ == rounds(w, n, infinite, src, k as nat).distance,
                !dry ==> pth@ == rounds(w, n, infinite, src, k as nat).path,
                !dry ==> within(dist@, (k + 1) * weight_cap(n)),
                !dry ==> ranked(rounds(w, n, infinite, src, k as nat), n, src, rank, k as nat),
                dry ==> r == k + 1 && k + 1 < n && reached_count(w, n, infinite, src, 0) == k,
                dry ==> vis@ == final_state_of_all(w, n, infinite, src).visited,
                dry ==> dist@ == final_state_of_all(w, n, infinite, src).distance,
                dry ==> pth@ == final_state_of_all(w, n, infinite, src).path,
                !dry ==> r == k && reached_count(w, n, infinite, src, 0) == reached_count(
                    w,
                    n,
                    infinite,
                    src,
                    k as nat,
                ),
                output@.len() == k,
                forall|j: int|
                    0 <= j < k ==> {
                        let c = chosen(w, n, infinite, src, j as nat);
                        let s = rounds(w, n, infinite, src, (j + 1) as nat);
                        &&& (#[trigger] output@[j]).0 == c.1
                        &&& output@[j].0 != infinite
                        &&& is_walk(s.path, src, c.0, output@[j].1@)
                    },
            decreases nb_vertex - 1 - r,
        {
            proof {
                let s = rounds(w, n, infinite, src, k as nat);
                round_fits(w, n, infinite, s, k as nat);
                round_keeps_ranked(w, n, infinite, s, src, rank, k as nat);
            }
            let cur = self.visits(vis, dist);
            r += 1;
            if cur.1 == infinite {
                dry = true;
            } else {
                self.update_distance_with_path(cur, pth, vis, dist);
                proof {
                    let before = rounds(w, n, infinite, src, k as nat);
                    rank = next_rank(round(w, n, infinite, before), rank, (k + 1) as nat);
                    let s = rounds(w, n, infinite, src, (k + 1) as nat);
                    ranked_leads_to(s, n, src, rank, (k + 1) as nat, cur.0, rank[cur.0 as int] + 1);
                }
                let walk = self.rebuild_path(src, cur.0, pth);
                output.push((cur.1, walk));
                k += 1;
            }
        }
        proof {
            assert forall|t: nat| t < k implies (#[trigger] chosen(w, n, infinite, src, t)).1 != infinite by {
                assert(output@[t as int].0 == chosen(w, n, infinite, src, t).1);
            }
            assert forall|j: int| 0 <= j < output@.len() implies (#[trigger] output@[j]).1@.no_duplicates()
                && output@[j].1@.len() <= n by {
                rounds_fit(w, n, infinite, src, (j + 1) as nat);
                walk_is_short(
                    rounds(w, n, infinite, src, (j + 1) as nat).path,
                    src,
                    chosen(w, n, infinite, src, j as nat).0,
                    output@[j].1@,
                );
            }
            assert forall|a: int, b: int| 0 <= a <= b < output@.len() implies output@[a].0 <= output@[b].0 by {
                costs_never_decrease(w, n, infinite, src, a as nat, b as nat);
                assert(output@[a].0 == chosen(w, n, infinite, src, a as nat).1);
                assert(output@[b].0 == chosen(w, n, infinite, src, b as nat).1);
            }
            if weight_at(w, n, src as int, src as int) == infinite {
                assert forall|j: int| 0 <= j < output@.len() implies walk_is_real(
                    w,
                    n,
                    infinite,
                    (#[trigger] output@[j]).1@,
                ) && walk_cost(w, n, output@[j].1@) == output@[j].0 by {
                    walk_is_valid(w, n, infinite, src, j as nat, output@[j].1@);
                }
                if sentinel_is_apart(w, n, infinite, src) {
                    assert forall|j: int| 0 <= j < output@.len() implies is_least_cost(
                        w,
                        n,
                        infinite,
                        src,
                        (#[trigger] output@[j]).1@[0] as int,
                        output@[j].0 as int,
                    ) by {
                        assert(output@[j].1@[0] == chosen(w, n, infinite, src, j as nat).0);
                        selected_cost_is_least(w, n, infinite, src, j as nat);
                    }
                    assert forall|v: usize|
                        v < n && v != src && #[trigger] reachable(w, n, infinite, src, v as int) implies exists|
                        j: int,
                    |
                        0 <= j < output@.len() && (#[trigger] output@[j]).1@[0] == v by {
                        let j = reachable_is_listed(w, n, infinite, src, v);
                        assert(output@[j as int].1@[0] == chosen(w, n, infinite, src, j).0);
                    }
                }
            }
        }
        output
    }

    /// Tells whether the matrix, the indices and the scratch arrays fit
    /// together, and which condition fails first where they do not. Changes
    /// nothing.
    fn dijkstra_check(
        &self,
        src: usize,
        dst: Option<usize>,
        path: Option<&mut [usize]>,
        visited: &mut [bool],
        distance: &mut [u64],
    ) -> (checked: Result<(), &'static str>)
        ensures
            checked is Ok <==> first_failure(
                self.matrix().len(),
                self.order(),
                src,
                dst,
                match path {
                    Some(p) => Some(p@.len()),
                    None => None,
                },
                old(visited)@.len(),
                old(distance)@.len(),
            ) is None,
            checked is Err ==> Some(checked->Err_0@) == first_failure(
                self.matrix().len(),
                self.order(),
                src,
                dst,
                match path {
                    Some(p) => Some(p@.len()),
                    None => None,
                },
                old(visited)@.len(),
                old(distance)@.len(),
            ),
            final(visited)@ == old(visited)@,
            final(distance)@ == old(distance)@,
            path matches Some(p) ==> final(p)@ == p@,
    {
        let nb_vertex = self.nb_vertex();
        let len = self.inner().len();
        match nb_vertex.checked_mul(nb_vertex) {
            Some(nb_vertex2) => {
                if len != nb_vertex2 {
                    return Err("graph_error: self.len().");
                }
            },
            None => {
                return Err("graph_error: self.len().");
            },
        }
        if src >= nb_vertex {
            return Err("graph_error: src out of scope.");
        }
        if let Some(dst) = dst {
            if dst >= nb_vertex {
                return Err("graph_error: dst out of scope.");
            }
        }
        if let Some(path) = path {
            if path.len() < nb_vertex {
                return Err("graph_error: path.len().");
            }
        }
        if visited.len() < nb_vertex {
            return Err("graph_error: visited.len().");
        }
        if distance.len() < nb_vertex {
            return Err("graph_error: distance.len().");
        }
        Ok(())
    }
}

/// Write access to the matrix of an undirected graph.
pub trait AdjencyMatrixNotOriented: AdjencyMatrix {
    /// The buffer of weights, open to writing.
    fn inner_mut(&mut self) -> (data: &mut [u64])
        ensures
            data@ == old(self).matrix(),
            final(self).matrix() == final(data)@,
            final(self).order() == old(self).order(),
            final(self).sentinel() == old(self).sentinel(),
    ;

    /// Sets the weight between `i` and `j`, in both directions.
    fn set_edge(&mut self, i: usize, j: usize, edge: u64)
        requires
            is_square(old(self).matrix(), old(self).order()),
            i < old(self).order(),
            j < old(self).order(),
        ensures
            final(self).order() == old(self).order(),
            final(self).sentinel() == old(self).sentinel(),
            final(self).matrix() == with_edge(
                old(self).matrix(),
                old(self).order(),
                i as int,
                j as int,
                edge,
            ),
            is_square(final(self).matrix(), final(self).order()),
            is_symmetric(old(self).matrix(), old(self).order()) ==> is_symmetric(
                final(self).matrix(),
                final(self).order(),
            ),
            weight_at(final(self).matrix(), final(self).order(), i as int, j as int) == edge,
            weight_at(final(self).matrix(), final(self).order(), j as int, i as int) == edge,
    {
        let nb_vertex = self.nb_vertex();
        let len = self.inner().len();
        proof {
            set_edge_is_symmetric(self.matrix(), self.order(), i as int, j as int, edge);
        }
        assert(i * nb_vertex + j < len && j * nb_vertex + i < len) by (nonlinear_arith)
            requires
                i < nb_vertex,
                j < nb_vertex,
                len == nb_vertex * nb_vertex,
        ;
        self.inner_mut()[i * nb_vertex + j] = edge;
        self.inner_mut()[j * nb_vertex + i] = edge;
    }

    /// The weights from vertex `i` towards every vertex, open to writing.
    fn neighbors_mut(&mut self, i: usize) -> (row: &mut [u64])
        requires
            is_square(old(self).matrix(), old(self).order()),
            i < old(self).order(),
        ensures
            row@ == row_of(old(self).matrix(), old(self).order(), i as int),
            final(self).order() == old(self).order(),
            final(self).sentinel() == old(self).sentinel(),
            final(self).matrix() == old(self).matrix().subrange(0, i * old(self).order())
                + final(row)@ + old(self).matrix().subrange(
                (i + 1) * old(self).order(),
                old(self).matrix().len() as int,
            ),
    {
        let nb_vertex = self.nb_vertex();
        let len = self.inner().len();
        assert(i * nb_vertex <= (i + 1) * nb_vertex <= len && (i + 1) * nb_vertex - i * nb_vertex
            == nb_vertex) by (nonlinear_arith)
            requires
                i < nb_vertex,
                len == nb_vertex * nb_vertex,
        ;
        let (_, tail) = self.inner_mut().split_at_mut(i * nb_vertex);
        let (row, _) = tail.split_at_mut(nb_vertex);
        row
    }
}

/// A graph over a buffer of weights that the caller owns.
pub struct Graph<'a> {
    data: &'a mut [u64],
    nb_vertex: usize,
    infinite: u64,
}

impl<'a> Graph<'a> {
    /// A graph of `nb_vertex` vertices over `data`, with `infinite` standing
    /// for "no edge".
    pub fn from_inner(data: &'a mut [u64], nb_vertex: usize, infinite: u64) -> (graph: Self)
        ensures
            graph.matrix() == old(data)@,
            graph.order() == nb_vertex,
            graph.sentinel() == infinite,
    {
        Self { data, nb_vertex, infinite }
    }
}

impl<'a> AdjencyMatrix for Graph<'a> {
    closed spec fn matrix(&self) -> Seq<u64> {
        self.data@
    }

    closed spec fn order(&self) -> nat {
        self.nb_vertex as nat
    }

    closed spec fn sentinel(&self) -> u64 {
        self.infinite
    }

    fn inner(&self) -> (data: &[u64]) {
        self.data
    }

    fn nb_vertex(&self) -> (n: usize) {
        self.nb_vertex
    }

    fn infinite(&self) -> (inf: u64) {
        self.infinite
    }
}

impl<'a> AdjencyMatrixNotOriented for Graph<'a> {
    fn inner_mut(&mut self) -> (data: &mut [u64]) {
        self.data
    }
}

} // verus!
