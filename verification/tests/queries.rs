use dijkstra::structure::{AdjencyMatrix, AdjencyMatrixNotOriented, Graph};

const INFINITE: u64 = 0;

fn sample_edges() -> Vec<(usize, usize, u64)> {
    vec![
        (0, 1, 85),
        (0, 2, 217),
        (0, 4, 173),
        (1, 5, 80),
        (2, 6, 186),
        (2, 7, 103),
        (3, 7, 183),
        (4, 9, 502),
        (5, 8, 250),
        (7, 9, 167),
        (8, 9, 84),
    ]
}

fn fill(data: &mut [u64], nb_vertex: usize, edges: &[(usize, usize, u64)]) {
    let mut graph = Graph::from_inner(data, nb_vertex, INFINITE);
    for &(i, j, w) in edges {
        graph.set_edge(i, j, w);
    }
}

fn hexagon() -> Vec<(usize, usize, u64)> {
    vec![
        (0, 1, 7),
        (0, 2, 9),
        (0, 5, 14),
        (1, 2, 10),
        (1, 3, 15),
        (2, 3, 11),
        (2, 5, 2),
        (3, 4, 6),
        (4, 5, 9),
    ]
}

/// The least cost over all simple paths from `src` to `dst`, by exhaustive search.
fn brute_force(data: &[u64], n: usize, at: usize, dst: usize, seen: &mut Vec<bool>) -> Option<u64> {
    if at == dst {
        return Some(0);
    }
    let mut best: Option<u64> = None;
    seen[at] = true;
    for next in 0..n {
        let w = data[at * n + next];
        if w != INFINITE && !seen[next] {
            if let Some(rest) = brute_force(data, n, next, dst, seen) {
                let total = w + rest;
                if best.map_or(true, |b| total < b) {
                    best = Some(total);
                }
            }
        }
    }
    seen[at] = false;
    best
}

#[test]
fn set_edge_writes_both_directions() {
    let mut data = vec![INFINITE; 9];
    let mut graph = Graph::from_inner(&mut data, 3, INFINITE);
    graph.set_edge(0, 2, 17);
    assert_eq!(graph.edge(0, 2), 17);
    assert_eq!(graph.edge(2, 0), 17);
    assert_eq!(graph.edge(0, 1), INFINITE);
    assert_eq!(graph.inner(), &[0, 0, 17, 0, 0, 0, 17, 0, 0][..]);
    graph.set_edge(1, 1, 4);
    assert_eq!(graph.edge(1, 1), 4);
    assert_eq!(graph.inner(), &[0, 0, 17, 0, 4, 0, 17, 0, 0][..]);
}

#[test]
fn from_inner_keeps_what_it_is_given() {
    let mut data = vec![1, 2, 3, 4];
    let graph = Graph::from_inner(&mut data, 2, 9);
    assert_eq!(graph.nb_vertex(), 2);
    assert_eq!(graph.infinite(), 9);
    assert_eq!(graph.inner(), &[1, 2, 3, 4][..]);
    assert_eq!(graph.edge(1, 0), 3);
}

#[test]
fn neighbors_is_the_row() {
    let mut data = vec![INFINITE; 100];
    fill(&mut data, 10, &sample_edges());
    let graph = Graph::from_inner(&mut data, 10, INFINITE);
    assert_eq!(graph.neighbors(0), &[0, 85, 217, 0, 173, 0, 0, 0, 0, 0][..]);
    assert_eq!(graph.neighbors(9), &[0, 0, 0, 0, 502, 0, 0, 167, 84, 0][..]);
}

#[test]
fn neighbors_mut_opens_one_row() {
    let mut data = vec![1, 2, 3, 4, 5, 6, 7, 8, 9];
    let mut graph = Graph::from_inner(&mut data, 3, INFINITE);
    {
        let row = graph.neighbors_mut(1);
        assert_eq!(row, &mut [4, 5, 6][..]);
        row[2] = 60;
    }
    assert_eq!(graph.inner(), &[1, 2, 3, 4, 5, 60, 7, 8, 9][..]);
}

#[test]
fn init_marks_only_the_source() {
    let mut data = vec![INFINITE; 100];
    fill(&mut data, 10, &sample_edges());
    let graph = Graph::from_inner(&mut data, 10, INFINITE);
    let mut visited = vec![true; 10];
    let mut distance = vec![77; 10];
    graph.dijkstra_init(2, &mut visited, &mut distance);
    assert_eq!(
        visited,
        vec![false, false, true, false, false, false, false, false, false, false]
    );
    assert_eq!(distance, vec![217, 0, 0, 0, 0, 0, 186, 103, 0, 0]);
    assert_eq!(distance[2], INFINITE);
}

#[test]
fn init_with_path_points_every_vertex_at_the_source() {
    let mut data = vec![INFINITE; 100];
    fill(&mut data, 10, &sample_edges());
    let graph = Graph::from_inner(&mut data, 10, INFINITE);
    let mut path = vec![9; 12];
    let mut visited = vec![true; 10];
    let mut distance = vec![77; 10];
    graph.dijkstra_with_path_init(4, &mut path, &mut visited, &mut distance);
    assert_eq!(path, vec![4; 12]);
    assert_eq!(
        visited,
        vec![false, false, false, false, true, false, false, false, false, false]
    );
    assert_eq!(distance, vec![173, 0, 0, 0, 0, 0, 0, 0, 0, 502]);
}

#[test]
fn visits_takes_the_first_least_distance() {
    let mut data = vec![INFINITE; 16];
    let graph = Graph::from_inner(&mut data, 4, INFINITE);
    let mut visited = vec![false; 4];
    let mut distance = vec![0, 8, 3, 3];
    assert_eq!(graph.visits(&mut visited, &mut distance), (2, 3));
    assert_eq!(visited, vec![false, false, true, false]);
    assert_eq!(distance, vec![0, 8, 0, 3]);
    assert_eq!(graph.visits(&mut visited, &mut distance), (3, 3));
    assert_eq!(graph.visits(&mut visited, &mut distance), (1, 8));
    assert_eq!(distance, vec![0, 0, 0, 0]);
}

#[test]
fn visits_takes_the_last_slot_when_nothing_is_reached() {
    let mut data = vec![INFINITE; 9];
    let graph = Graph::from_inner(&mut data, 3, INFINITE);
    let mut visited = vec![false; 3];
    let mut distance = vec![0, 0, 0];
    assert_eq!(graph.visits(&mut visited, &mut distance), (2, INFINITE));
    assert_eq!(visited, vec![false, false, true]);
    let mut one = vec![5];
    let mut seen = vec![false];
    assert_eq!(graph.visits(&mut seen, &mut one), (0, 5));
    assert_eq!(one, vec![INFINITE]);
}

#[test]
fn update_distance_relaxes_unvisited_neighbours() {
    let mut data = vec![INFINITE; 16];
    fill(&mut data, 4, &[(0, 1, 4), (0, 2, 1), (2, 1, 2), (2, 3, 9), (1, 3, 5)]);
    let graph = Graph::from_inner(&mut data, 4, INFINITE);
    let visited = vec![true, false, true, false];
    let mut distance = vec![0, 4, 0, 0, 99];
    graph.update_distance((2, 1), &visited, &mut distance);
    // 1 improves from 4 to 1 + 2, 3 is reached at 1 + 9, the slot past the graph stays.
    assert_eq!(distance, vec![0, 3, 0, 10, 99]);
    graph.update_distance((1, 3), &[true, true, true, false], &mut distance);
    assert_eq!(distance, vec![0, 3, 0, 8, 99]);
    // An equal cost is no improvement.
    graph.update_distance((1, 3), &[true, true, true, false], &mut distance);
    assert_eq!(distance, vec![0, 3, 0, 8, 99]);
}

#[test]
fn update_distance_with_path_records_the_predecessor() {
    let mut data = vec![INFINITE; 16];
    fill(&mut data, 4, &[(0, 1, 4), (0, 2, 1), (2, 1, 2), (2, 3, 9), (1, 3, 5)]);
    let graph = Graph::from_inner(&mut data, 4, INFINITE);
    let visited = vec![true, false, true, false];
    let mut distance = vec![0, 4, 0, 0];
    let mut path = vec![0, 0, 0, 0, 7];
    graph.update_distance_with_path((2, 1), &mut path, &visited, &mut distance);
    assert_eq!(distance, vec![0, 3, 0, 10]);
    assert_eq!(path, vec![0, 2, 0, 2, 7]);
}

#[test]
fn rebuild_path_walks_back_to_the_source() {
    let mut data = vec![INFINITE; 100];
    let graph = Graph::from_inner(&mut data, 10, INFINITE);
    let path = vec![0, 0, 0, 7, 0, 1, 2, 2, 5, 7];
    assert_eq!(graph.rebuild_path(0, 3, &path), vec![3, 7, 2, 0]);
    assert_eq!(graph.rebuild_path(0, 8, &path), vec![8, 5, 1, 0]);
    assert_eq!(graph.rebuild_path(0, 0, &path), vec![0]);
    assert_eq!(graph.rebuild_path(2, 9, &path), vec![9, 7, 2]);
}

#[test]
fn sample_cost_to_one_target() {
    let mut data = vec![INFINITE; 100];
    fill(&mut data, 10, &sample_edges());
    let graph = Graph::from_inner(&mut data, 10, INFINITE);
    let mut visited = vec![false; 10];
    let mut distance = vec![0; 10];
    assert_eq!(graph.dijkstra(0, 5, &mut visited, &mut distance), 165);
    assert_eq!(
        visited,
        vec![true, true, false, false, false, true, false, false, false, false]
    );
    assert_eq!(distance, vec![0, 0, 217, 0, 173, 0, 0, 0, 415, 0]);
    assert_eq!(graph.dijkstra(0, 9, &mut visited, &mut distance), 487);
    assert_eq!(graph.dijkstra(0, 3, &mut visited, &mut distance), 503);
}

#[test]
fn sample_cost_and_path_to_one_target() {
    let mut data = vec![INFINITE; 100];
    fill(&mut data, 10, &sample_edges());
    let graph = Graph::from_inner(&mut data, 10, INFINITE);
    let mut path = vec![0; 10];
    let mut visited = vec![false; 10];
    let mut distance = vec![0; 10];
    let found = graph.dijkstra_with_path(0, 5, &mut path, &mut visited, &mut distance);
    assert_eq!(found, (165, vec![5, 1, 0]));
    assert_eq!(path, vec![0, 0, 0, 0, 0, 1, 0, 0, 5, 0]);
    let found = graph.dijkstra_with_path(0, 9, &mut path, &mut visited, &mut distance);
    assert_eq!(found, (487, vec![9, 7, 2, 0]));
}

#[test]
fn sample_costs_to_all_targets() {
    let mut data = vec![INFINITE; 100];
    fill(&mut data, 10, &sample_edges());
    let graph = Graph::from_inner(&mut data, 10, INFINITE);
    let mut visited = vec![false; 10];
    let mut distance = vec![0; 10];
    let costs = graph.dijkstra_from_src(0, &mut visited, &mut distance);
    assert_eq!(costs, vec![0, 85, 217, 503, 173, 165, 403, 320, 415, 487]);
    assert_eq!(visited, vec![true; 10]);
    assert_eq!(distance, vec![INFINITE; 10]);
}

#[test]
fn sample_costs_and_paths_to_all_targets() {
    let mut data = vec![INFINITE; 100];
    fill(&mut data, 10, &sample_edges());
    let graph = Graph::from_inner(&mut data, 10, INFINITE);
    let mut path = vec![0; 10];
    let mut visited = vec![false; 10];
    let mut distance = vec![0; 10];
    let all = graph.dijkstra_from_src_with_path(0, &mut path, &mut visited, &mut distance);
    assert_eq!(
        all,
        vec![
            (85, vec![1, 0]),
            (165, vec![5, 1, 0]),
            (173, vec![4, 0]),
            (217, vec![2, 0]),
            (320, vec![7, 2, 0]),
            (403, vec![6, 2, 0]),
            (415, vec![8, 5, 1, 0]),
            (487, vec![9, 7, 2, 0]),
            (503, vec![3, 7, 2, 0]),
        ]
    );
    assert_eq!(path, vec![0, 0, 0, 7, 0, 1, 2, 2, 5, 7]);
}

#[test]
fn scratch_longer_than_the_graph_keeps_its_tail() {
    let mut data = vec![INFINITE; 16];
    fill(&mut data, 4, &[(0, 1, 4), (0, 2, 1), (2, 1, 2), (1, 3, 5)]);
    let graph = Graph::from_inner(&mut data, 4, INFINITE);
    let mut path = vec![9; 6];
    let mut visited = vec![true, true, true, true, true, false];
    let mut distance = vec![41, 42, 43, 44, 45];
    let found = graph.dijkstra_with_path(0, 3, &mut path, &mut visited, &mut distance);
    assert_eq!(found, (8, vec![3, 1, 2, 0]));
    assert_eq!(path, vec![0, 2, 0, 1, 9, 9]);
    assert_eq!(visited, vec![true, true, true, true, true, false]);
    assert_eq!(distance, vec![0, 0, 0, 0, 45]);
}

#[test]
fn same_query_twice_gives_the_same_result() {
    let mut data = vec![INFINITE; 36];
    fill(&mut data, 6, &hexagon());
    let graph = Graph::from_inner(&mut data, 6, INFINITE);
    let mut path = vec![0; 6];
    let mut visited = vec![false; 6];
    let mut distance = vec![0; 6];
    let first = graph.dijkstra_with_path(0, 4, &mut path, &mut visited, &mut distance);
    // What the first run left in the scratch arrays does not matter.
    let second = graph.dijkstra_with_path(0, 4, &mut path, &mut visited, &mut distance);
    let mut path = vec![5; 6];
    let mut visited = vec![true; 6];
    let mut distance = vec![123; 6];
    let third = graph.dijkstra_with_path(0, 4, &mut path, &mut visited, &mut distance);
    assert_eq!(first, (20, vec![4, 5, 2, 0]));
    assert_eq!(first, second);
    assert_eq!(first, third);
    let a = graph.dijkstra_from_src(3, &mut visited, &mut distance);
    let b = graph.dijkstra_from_src(3, &mut visited, &mut distance);
    assert_eq!(a, b);
}

#[test]
fn finalized_costs_never_decrease() {
    let mut data = vec![INFINITE; 36];
    fill(&mut data, 6, &hexagon());
    let graph = Graph::from_inner(&mut data, 6, INFINITE);
    let mut path = vec![0; 6];
    let mut visited = vec![false; 6];
    let mut distance = vec![0; 6];
    for src in 0..6 {
        let all = graph.dijkstra_from_src_with_path(src, &mut path, &mut visited, &mut distance);
        assert_eq!(all.len(), 5);
        for pair in all.windows(2) {
            assert!(pair[0].0 <= pair[1].0);
        }
    }
    let all = graph.dijkstra_from_src_with_path(0, &mut path, &mut visited, &mut distance);
    let costs: Vec<u64> = all.iter().map(|x| x.0).collect();
    assert_eq!(costs, vec![7, 9, 11, 20, 20]);
}

#[test]
fn costs_agree_with_exhaustive_search() {
    let n = 6;
    let mut data = vec![INFINITE; n * n];
    fill(&mut data, n, &hexagon());
    let copy = data.clone();
    let graph = Graph::from_inner(&mut data, n, INFINITE);
    let mut visited = vec![false; n];
    let mut distance = vec![0; n];
    for src in 0..n {
        let costs = graph.dijkstra_from_src(src, &mut visited, &mut distance);
        for dst in 0..n {
            if dst != src {
                let mut seen = vec![false; n];
                let best = brute_force(&copy, n, src, dst, &mut seen);
                assert_eq!(Some(costs[dst]), best);
                assert_eq!(Some(graph.dijkstra(src, dst, &mut visited, &mut distance)), best);
            }
        }
    }
    let costs = graph.dijkstra_from_src(0, &mut visited, &mut distance);
    assert_eq!(costs, vec![0, 7, 9, 20, 20, 11]);
    let costs = graph.dijkstra_from_src(3, &mut visited, &mut distance);
    assert_eq!(costs, vec![20, 15, 11, 0, 6, 13]);
}

#[test]
fn returned_paths_are_real_and_add_up() {
    let n = 6;
    let mut data = vec![INFINITE; n * n];
    fill(&mut data, n, &hexagon());
    let graph = Graph::from_inner(&mut data, n, INFINITE);
    let mut path = vec![0; n];
    let mut visited = vec![false; n];
    let mut distance = vec![0; n];
    for src in 0..n {
        for dst in 0..n {
            if src == dst {
                continue;
            }
            let (cost, walk) = graph.dijkstra_with_path(src, dst, &mut path, &mut visited, &mut distance);
            assert_ne!(cost, INFINITE);
            assert_eq!(walk[0], dst);
            assert_eq!(walk[walk.len() - 1], src);
            let mut total = 0;
            for pair in walk.windows(2) {
                let w = graph.edge(pair[1], pair[0]);
                assert_ne!(w, INFINITE);
                total += w;
            }
            assert_eq!(total, cost);
        }
    }
}

#[test]
fn isolated_vertex_is_not_reached() {
    let mut data = vec![INFINITE; 9];
    fill(&mut data, 3, &[(0, 2, 5)]);
    let graph = Graph::from_inner(&mut data, 3, INFINITE);
    let mut path = vec![0; 3];
    let mut visited = vec![false; 3];
    let mut distance = vec![0; 3];
    assert_eq!(graph.dijkstra(0, 1, &mut visited, &mut distance), INFINITE);
    let costs = graph.dijkstra_from_src(0, &mut visited, &mut distance);
    assert_eq!(costs, vec![INFINITE, INFINITE, 5]);
    assert_eq!(graph.dijkstra(0, 2, &mut visited, &mut distance), 5);
    let all = graph.dijkstra_from_src_with_path(0, &mut path, &mut visited, &mut distance);
    assert_eq!(all, vec![(5, vec![2, 0])]);
    let (cost, walk) = graph.dijkstra_with_path(0, 1, &mut path, &mut visited, &mut distance);
    assert_eq!(cost, INFINITE);
    assert_eq!(walk, vec![1, 0]);
}

#[test]
fn a_sentinel_other_than_zero() {
    let mut data = vec![7; 16];
    {
        let mut graph = Graph::from_inner(&mut data, 4, 7);
        graph.set_edge(0, 1, 4);
        graph.set_edge(0, 2, 1);
        graph.set_edge(2, 1, 2);
        graph.set_edge(1, 3, 5);
    }
    let graph = Graph::from_inner(&mut data, 4, 7);
    let mut path = vec![0; 4];
    let mut visited = vec![false; 4];
    let mut distance = vec![0; 4];
    assert_eq!(graph.dijkstra_from_src(0, &mut visited, &mut distance), vec![7, 3, 1, 8]);
    assert_eq!(
        graph.dijkstra_from_src_with_path(0, &mut path, &mut visited, &mut distance),
        vec![(1, vec![2, 0]), (3, vec![1, 2, 0]), (8, vec![3, 1, 2, 0])]
    );
}

#[test]
fn single_vertex_graph_runs_no_round() {
    let mut data = vec![INFINITE; 1];
    let graph = Graph::from_inner(&mut data, 1, INFINITE);
    let mut path = vec![3; 1];
    let mut visited = vec![false; 1];
    let mut distance = vec![9; 1];
    assert_eq!(graph.dijkstra(0, 0, &mut visited, &mut distance), INFINITE);
    assert_eq!(graph.dijkstra_from_src(0, &mut visited, &mut distance), vec![INFINITE]);
    assert_eq!(
        graph.dijkstra_with_path(0, 0, &mut path, &mut visited, &mut distance),
        (INFINITE, vec![0])
    );
    assert!(graph
        .dijkstra_from_src_with_path(0, &mut path, &mut visited, &mut distance)
        .is_empty());
    assert_eq!(visited, vec![true]);
}

#[test]
fn single_target_agrees_with_all_targets() {
    let mut data = vec![INFINITE; 100];
    fill(&mut data, 10, &sample_edges());
    let graph = Graph::from_inner(&mut data, 10, INFINITE);
    let mut path = vec![0; 10];
    let mut visited = vec![false; 10];
    let mut distance = vec![0; 10];
    let costs = graph.dijkstra_from_src(0, &mut visited, &mut distance);
    let all = graph.dijkstra_from_src_with_path(0, &mut path, &mut visited, &mut distance);
    assert_eq!(all.len(), 9);
    for (cost, walk) in all {
        let dst = walk[0];
        assert_eq!(costs[dst], cost);
        assert_eq!(graph.dijkstra(0, dst, &mut visited, &mut distance), cost);
        assert_eq!(
            graph.dijkstra_with_path(0, dst, &mut path, &mut visited, &mut distance),
            (cost, walk)
        );
    }
}

#[test]
fn unreachable_part_is_left_out_when_the_last_vertex_is_reached() {
    // Two components: {0, 1, 4} and {2, 3}.
    let mut data = vec![INFINITE; 25];
    fill(&mut data, 5, &[(0, 1, 3), (1, 4, 4), (0, 4, 9), (2, 3, 1)]);
    let graph = Graph::from_inner(&mut data, 5, INFINITE);
    let mut path = vec![0; 5];
    let mut visited = vec![false; 5];
    let mut distance = vec![0; 5];
    assert_eq!(graph.dijkstra(0, 2, &mut visited, &mut distance), INFINITE);
    assert_eq!(graph.dijkstra(0, 3, &mut visited, &mut distance), INFINITE);
    assert_eq!(graph.dijkstra(0, 4, &mut visited, &mut distance), 7);
    let costs = graph.dijkstra_from_src(0, &mut visited, &mut distance);
    assert_eq!(costs, vec![INFINITE, 3, INFINITE, INFINITE, 7]);
    let all = graph.dijkstra_from_src_with_path(0, &mut path, &mut visited, &mut distance);
    assert_eq!(all, vec![(3, vec![1, 0]), (7, vec![4, 1, 0])]);
    assert_eq!(visited, vec![true, true, false, false, true]);
}

#[test]
fn two_vertices_one_edge() {
    let mut data = vec![INFINITE; 4];
    fill(&mut data, 2, &[(0, 1, 6)]);
    let graph = Graph::from_inner(&mut data, 2, INFINITE);
    let mut path = vec![0; 2];
    let mut visited = vec![false; 2];
    let mut distance = vec![0; 2];
    assert_eq!(graph.dijkstra(1, 0, &mut visited, &mut distance), 6);
    assert_eq!(graph.dijkstra_from_src(1, &mut visited, &mut distance), vec![6, INFINITE]);
    assert_eq!(
        graph.dijkstra_with_path(0, 1, &mut path, &mut visited, &mut distance),
        (6, vec![1, 0])
    );
    assert_eq!(
        graph.dijkstra_from_src_with_path(1, &mut path, &mut visited, &mut distance),
        vec![(6, vec![0, 1])]
    );
}

#[test]
fn weights_at_the_cap_do_not_overflow() {
    let cap = u64::MAX / 3;
    let mut data = vec![INFINITE; 9];
    fill(&mut data, 3, &[(0, 1, cap), (1, 2, cap)]);
    let graph = Graph::from_inner(&mut data, 3, INFINITE);
    let mut visited = vec![false; 3];
    let mut distance = vec![0; 3];
    assert_eq!(graph.dijkstra(0, 2, &mut visited, &mut distance), 2 * cap);
    assert_eq!(
        graph.dijkstra_from_src(0, &mut visited, &mut distance),
        vec![INFINITE, cap, 2 * cap]
    );
}

#[test]
fn another_component_is_not_reached() {
    // Two components: {0, 1} and {2, 3}.
    let mut data = vec![INFINITE; 16];
    fill(&mut data, 4, &[(0, 1, 5), (2, 3, 7)]);
    let graph = Graph::from_inner(&mut data, 4, INFINITE);
    let mut path = vec![0; 4];
    let mut visited = vec![false; 4];
    let mut distance = vec![0; 4];
    assert_eq!(graph.dijkstra(0, 2, &mut visited, &mut distance), INFINITE);
    // The round that found nothing marked the last vertex and relaxed nothing.
    assert_eq!(visited, vec![true, true, false, true]);
    assert_eq!(distance, vec![INFINITE; 4]);
    assert_eq!(graph.dijkstra(0, 3, &mut visited, &mut distance), INFINITE);
    assert_eq!(graph.dijkstra(0, 1, &mut visited, &mut distance), 5);
    assert_eq!(
        graph.dijkstra_from_src(0, &mut visited, &mut distance),
        vec![INFINITE, 5, INFINITE, INFINITE]
    );
    assert_eq!(
        graph.dijkstra_with_path(0, 2, &mut path, &mut visited, &mut distance),
        (INFINITE, vec![2, 0])
    );
    assert_eq!(path, vec![0, 0, 0, 0]);
    assert_eq!(
        graph.dijkstra_from_src_with_path(0, &mut path, &mut visited, &mut distance),
        vec![(5, vec![1, 0])]
    );
}

#[test]
fn a_finalized_cost_stays_when_the_search_runs_dry() {
    let mut data = vec![INFINITE; 9];
    fill(&mut data, 3, &[(0, 2, 5)]);
    let graph = Graph::from_inner(&mut data, 3, INFINITE);
    let mut visited = vec![false; 3];
    let mut distance = vec![0; 3];
    assert_eq!(
        graph.dijkstra_from_src(0, &mut visited, &mut distance),
        vec![INFINITE, INFINITE, 5]
    );
    assert_eq!(visited, vec![true, false, true]);
}

#[test]
fn a_source_that_reaches_nothing() {
    let mut data = vec![INFINITE; 9];
    fill(&mut data, 3, &[(1, 2, 5)]);
    let graph = Graph::from_inner(&mut data, 3, INFINITE);
    let mut path = vec![0; 3];
    let mut visited = vec![false; 3];
    let mut distance = vec![0; 3];
    assert_eq!(graph.dijkstra(0, 1, &mut visited, &mut distance), INFINITE);
    assert_eq!(graph.dijkstra(0, 2, &mut visited, &mut distance), INFINITE);
    assert_eq!(
        graph.dijkstra_from_src(0, &mut visited, &mut distance),
        vec![INFINITE, INFINITE, INFINITE]
    );
    assert_eq!(
        graph.dijkstra_with_path(0, 1, &mut path, &mut visited, &mut distance),
        (INFINITE, vec![1, 0])
    );
    assert!(graph
        .dijkstra_from_src_with_path(0, &mut path, &mut visited, &mut distance)
        .is_empty());
}

#[test]
fn weights_fit_tests_the_cap() {
    let cap = u64::MAX / 3;
    let mut data = vec![INFINITE; 9];
    fill(&mut data, 3, &[(0, 1, cap), (1, 2, 7)]);
    assert!(Graph::from_inner(&mut data, 3, INFINITE).weights_fit());
    assert!(!Graph::from_inner(&mut data, 3, cap + 1).weights_fit());
    fill(&mut data, 3, &[(0, 2, cap + 1)]);
    assert!(!Graph::from_inner(&mut data, 3, INFINITE).weights_fit());
    let mut none: Vec<u64> = Vec::new();
    assert!(Graph::from_inner(&mut none, 0, u64::MAX).weights_fit());
}

#[test]
fn unreached_vertex_keeps_a_sentinel_other_than_zero() {
    let mut data = vec![9; 9];
    {
        let mut graph = Graph::from_inner(&mut data, 3, 9);
        graph.set_edge(0, 1, 4);
    }
    let graph = Graph::from_inner(&mut data, 3, 9);
    let mut path = vec![0; 3];
    let mut visited = vec![false; 3];
    let mut distance = vec![0; 3];
    assert_eq!(graph.dijkstra(0, 2, &mut visited, &mut distance), 9);
    assert_eq!(graph.dijkstra(0, 1, &mut visited, &mut distance), 4);
    assert_eq!(graph.dijkstra_from_src(0, &mut visited, &mut distance), vec![9, 4, 9]);
    assert_eq!(
        graph.dijkstra_with_path(0, 2, &mut path, &mut visited, &mut distance),
        (9, vec![2, 0])
    );
    assert_eq!(
        graph.dijkstra_from_src_with_path(0, &mut path, &mut visited, &mut distance),
        vec![(4, vec![1, 0])]
    );
}
