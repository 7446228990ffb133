use dijkstra::structure::{AdjencyMatrix, Graph};

#[test]
fn check_accepts_a_fitting_query() {
    let mut data = vec![0; 9];
    let graph = Graph::from_inner(&mut data, 3, 0);
    let mut path = vec![0; 3];
    let mut visited = vec![false; 4];
    let mut distance = vec![0; 3];
    assert_eq!(
        graph.dijkstra_check(0, Some(2), Some(&mut path[..]), &mut visited, &mut distance),
        Ok(())
    );
    assert_eq!(graph.dijkstra_check(2, None, None, &mut visited, &mut distance), Ok(()));
    assert_eq!(visited, vec![false; 4]);
}

#[test]
fn check_reports_a_buffer_that_is_no_square() {
    let mut data = vec![0; 8];
    let graph = Graph::from_inner(&mut data, 3, 0);
    let mut visited = vec![false; 3];
    let mut distance = vec![0; 3];
    assert_eq!(
        graph.dijkstra_check(0, None, None, &mut visited, &mut distance),
        Err("graph_error: self.len().")
    );
    // The buffer is tested first, whatever else is wrong.
    assert_eq!(
        graph.dijkstra_check(7, Some(9), None, &mut visited[..1], &mut distance[..0]),
        Err("graph_error: self.len().")
    );
}

#[test]
fn check_reports_a_vertex_count_whose_square_is_out_of_range() {
    let mut data = vec![0; 4];
    let graph = Graph::from_inner(&mut data, usize::MAX, 0);
    let mut visited = vec![false; 3];
    let mut distance = vec![0; 3];
    assert_eq!(
        graph.dijkstra_check(0, None, None, &mut visited, &mut distance),
        Err("graph_error: self.len().")
    );
}

#[test]
fn check_reports_the_source() {
    let mut data = vec![0; 9];
    let graph = Graph::from_inner(&mut data, 3, 0);
    let mut visited = vec![false; 3];
    let mut distance = vec![0; 3];
    assert_eq!(
        graph.dijkstra_check(3, Some(5), None, &mut visited, &mut distance),
        Err("graph_error: src out of scope.")
    );
}

#[test]
fn check_reports_the_destination() {
    let mut data = vec![0; 9];
    let graph = Graph::from_inner(&mut data, 3, 0);
    let mut path = vec![0; 1];
    let mut visited = vec![false; 3];
    let mut distance = vec![0; 3];
    assert_eq!(
        graph.dijkstra_check(2, Some(3), Some(&mut path[..]), &mut visited, &mut distance),
        Err("graph_error: dst out of scope.")
    );
}

#[test]
fn check_reports_the_path_array() {
    let mut data = vec![0; 9];
    let graph = Graph::from_inner(&mut data, 3, 0);
    let mut path = vec![0; 2];
    let mut visited = vec![false; 1];
    let mut distance = vec![0; 3];
    assert_eq!(
        graph.dijkstra_check(2, Some(1), Some(&mut path[..]), &mut visited, &mut distance),
        Err("graph_error: path.len().")
    );
}

#[test]
fn check_reports_the_visited_array() {
    let mut data = vec![0; 9];
    let graph = Graph::from_inner(&mut data, 3, 0);
    let mut path = vec![0; 3];
    let mut visited = vec![false; 2];
    let mut distance = vec![0; 1];
    assert_eq!(
        graph.dijkstra_check(2, Some(1), Some(&mut path[..]), &mut visited, &mut distance),
        Err("graph_error: visited.len().")
    );
}

#[test]
fn check_reports_the_distance_array() {
    let mut data = vec![0; 9];
    let graph = Graph::from_inner(&mut data, 3, 0);
    let mut visited = vec![false; 3];
    let mut distance = vec![0; 2];
    assert_eq!(
        graph.dijkstra_check(2, None, None, &mut visited, &mut distance),
        Err("graph_error: distance.len().")
    );
}
