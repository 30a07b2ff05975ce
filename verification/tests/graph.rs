use algo_labs::graph::Edge;
use algo_labs::graph::Graph;
use algo_labs::graph::NO_EDGE_WEIGHT;
use algo_labs::graph::NO_LOOP_WEIGHT;
use algo_labs::shortest_path::floyd_shortest_path;
use algo_labs::shortest_path::Error;

#[test]
fn test_graph() {
    let mut graph = Graph::<10>::default();
    assert!(graph.add_edge(Edge(1, 2, 10)).is_ok());
    assert!(graph.add_edge(Edge(1, 3, 11)).is_ok());
    assert!(graph.add_edge(Edge(1, 4, 12)).is_ok());
    assert!(graph.add_edge(Edge(1, 11, 13)).is_err());
    assert_eq!(graph.adj(1), [(2, 10), (3, 11), (4, 12)]);
}

#[test]
fn test_adjacency() {
    const V: usize = 5;
    let mut graph = Graph::<V>::default();
    let adj_matrix = graph.adjacency_matrix();

    let expected_adj_matrix = [
        [NO_LOOP_WEIGHT, NO_EDGE_WEIGHT, NO_EDGE_WEIGHT, NO_EDGE_WEIGHT, NO_EDGE_WEIGHT],
        [NO_EDGE_WEIGHT, NO_LOOP_WEIGHT, NO_EDGE_WEIGHT, NO_EDGE_WEIGHT, NO_EDGE_WEIGHT],
        [NO_EDGE_WEIGHT, NO_EDGE_WEIGHT, NO_LOOP_WEIGHT, NO_EDGE_WEIGHT, NO_EDGE_WEIGHT],
        [NO_EDGE_WEIGHT, NO_EDGE_WEIGHT, NO_EDGE_WEIGHT, NO_LOOP_WEIGHT, NO_EDGE_WEIGHT],
        [NO_EDGE_WEIGHT, NO_EDGE_WEIGHT, NO_EDGE_WEIGHT, NO_EDGE_WEIGHT, NO_LOOP_WEIGHT],
    ];

    assert_eq!(adj_matrix, expected_adj_matrix);

    assert!(graph.add_edge(Edge(1, 2, 10)).is_ok());
    assert!(graph.add_edge(Edge(1, 3, 11)).is_ok());
    assert!(graph.add_edge(Edge(1, 4, 12)).is_ok());
    assert!(graph.add_edge(Edge(2, 4, 13)).is_ok());

    let adj_matrix = graph.adjacency_matrix();

    let expected_adj_matrix = [
        [NO_LOOP_WEIGHT, NO_EDGE_WEIGHT, NO_EDGE_WEIGHT, NO_EDGE_WEIGHT, NO_EDGE_WEIGHT],
        [NO_EDGE_WEIGHT, NO_LOOP_WEIGHT,             10,             11,             12],
        [NO_EDGE_WEIGHT,             10, NO_LOOP_WEIGHT, NO_EDGE_WEIGHT,             13],
        [NO_EDGE_WEIGHT,             11, NO_EDGE_WEIGHT, NO_LOOP_WEIGHT, NO_EDGE_WEIGHT],
        [NO_EDGE_WEIGHT,             12,             13, NO_EDGE_WEIGHT, NO_LOOP_WEIGHT],
    ];

    assert_eq!(adj_matrix, expected_adj_matrix);
}

#[test]
fn test_shortest_path_direct_edge() {
    let mut graph = Graph::<2>::default();
    assert!(graph.add_edge(Edge(0, 1, 5)).is_ok());
    let result = floyd_shortest_path(&graph, 0, 1);
    assert_eq!(result, Ok(vec![0, 1]));
}

#[test]
fn test_shortest_path_with_intermediate_vertex() {
    let mut graph = Graph::<3>::default();
    assert!(graph.add_edge(Edge(0, 1, 3)).is_ok());
    assert!(graph.add_edge(Edge(1, 2, 4)).is_ok());
    let result = floyd_shortest_path(&graph, 0, 2);
    assert_eq!(result, Ok(vec![0, 1, 2]));
}

#[test]
fn test_no_path_between_disconnected_vertices() {
    let graph = Graph::<2>::default();
    let result = floyd_shortest_path(&graph, 0, 1);
    assert_eq!(result, Err(Error::NoShortestPath));
}

#[test]
fn test_invalid_vertices() {
    let graph = Graph::<2>::default();
    let result = floyd_shortest_path(&graph, 0, 3);
    assert_eq!(result, Err(Error::InvalidVertices(vec![3])));
}

#[test]
fn test_large_graph_with_multiple_paths() {
    let mut graph = Graph::<10>::default();

    assert!(graph.add_edge(Edge(0, 1, 2)).is_ok());
    assert!(graph.add_edge(Edge(1, 2, 4)).is_ok());
    assert!(graph.add_edge(Edge(2, 3, 1)).is_ok());
    assert!(graph.add_edge(Edge(3, 4, 7)).is_ok());
    assert!(graph.add_edge(Edge(4, 5, 3)).is_ok());
    assert!(graph.add_edge(Edge(5, 6, 1)).is_ok());
    assert!(graph.add_edge(Edge(6, 7, 5)).is_ok());
    assert!(graph.add_edge(Edge(7, 8, 2)).is_ok());
    assert!(graph.add_edge(Edge(8, 9, 6)).is_ok());

    assert!(graph.add_edge(Edge(0, 3, 10)).is_ok());
    assert!(graph.add_edge(Edge(1, 4, 8)).is_ok());
    assert!(graph.add_edge(Edge(2, 5, 2)).is_ok());
    assert!(graph.add_edge(Edge(3, 6, 4)).is_ok());
    assert!(graph.add_edge(Edge(4, 7, 6)).is_ok());
    assert!(graph.add_edge(Edge(5, 8, 3)).is_ok());
    assert!(graph.add_edge(Edge(6, 9, 7)).is_ok());

    let result = floyd_shortest_path(&graph, 0, 9);
    assert_eq!(result, Ok(vec![0, 1, 2, 5, 6, 9]));
}

#[test]
fn both_vertices_invalid_are_both_reported() {
    let graph = Graph::<2>::default();
    assert_eq!(
        floyd_shortest_path(&graph, 5, 0),
        Err(Error::InvalidVertices(vec![5]))
    );
    assert_eq!(
        floyd_shortest_path(&graph, 7, 7),
        Err(Error::InvalidVertices(vec![7, 7]))
    );
    assert_eq!(
        floyd_shortest_path(&graph, 2, 9),
        Err(Error::InvalidVertices(vec![2, 9]))
    );
}

#[test]
fn path_from_a_vertex_to_itself() {
    let mut graph = Graph::<3>::default();
    assert!(graph.add_edge(Edge(0, 1, 3)).is_ok());
    assert_eq!(floyd_shortest_path(&graph, 2, 2), Ok(vec![2]));
    assert_eq!(floyd_shortest_path(&graph, 0, 0), Ok(vec![0]));
}

#[test]
fn later_edge_replaces_the_weight() {
    let mut graph = Graph::<3>::default();
    assert!(graph.add_edge(Edge(0, 1, 9)).is_ok());
    assert!(graph.add_edge(Edge(1, 0, 4)).is_ok());
    assert!(graph.add_edge(Edge(2, 2, 6)).is_ok());
    let matrix = graph.adjacency_matrix();
    assert_eq!(matrix[0][1], 4);
    assert_eq!(matrix[1][0], 4);
    assert_eq!(matrix[2][2], NO_LOOP_WEIGHT);
    assert_eq!(matrix[0][2], NO_EDGE_WEIGHT);
    assert_eq!(graph.adj(0), [(1, 9), (1, 4)]);
    assert_eq!(graph.adj(2), [(2, 6), (2, 6)]);
}

#[test]
fn invalid_edge_leaves_the_graph_as_it_is() {
    let mut graph = Graph::<2>::default();
    assert!(graph.add_edge(Edge(2, 0, 1)).is_err());
    assert!(graph.add_edge(Edge(0, 2, 1)).is_err());
    assert_eq!(graph.adj(0), []);
    assert_eq!(graph.adj(1), []);
    assert!(Graph::<2>::is_valid_vertex(1));
    assert!(!Graph::<2>::is_valid_vertex(2));
}

#[test]
fn detour_beats_a_heavy_edge() {
    let mut graph = Graph::<4>::default();
    assert!(graph.add_edge(Edge(0, 3, 100)).is_ok());
    assert!(graph.add_edge(Edge(0, 1, 1)).is_ok());
    assert!(graph.add_edge(Edge(1, 2, 1)).is_ok());
    assert!(graph.add_edge(Edge(2, 3, 1)).is_ok());
    assert_eq!(floyd_shortest_path(&graph, 0, 3), Ok(vec![0, 1, 2, 3]));
    assert_eq!(floyd_shortest_path(&graph, 3, 0), Ok(vec![3, 2, 1, 0]));
}

#[test]
fn weights_near_the_limit_do_not_wrap() {
    let mut graph = Graph::<3>::default();
    assert!(graph.add_edge(Edge(0, 1, u32::MAX - 1)).is_ok());
    assert!(graph.add_edge(Edge(1, 2, u32::MAX - 1)).is_ok());
    assert_eq!(floyd_shortest_path(&graph, 0, 1), Ok(vec![0, 1]));
    assert_eq!(
        floyd_shortest_path(&graph, 0, 2),
        Err(Error::NoShortestPath)
    );
}

#[test]
fn matrix_is_symmetric_and_path_repeats_no_vertex() {
    let mut graph = Graph::<6>::default();
    for (a, b, w) in [(0, 1, 0), (1, 2, 0), (2, 0, 0), (2, 3, 4), (3, 4, 0), (4, 5, 1), (3, 5, 1)] {
        assert!(graph.add_edge(Edge(a, b, w)).is_ok());
    }
    let matrix = graph.adjacency_matrix();
    for a in 0..6 {
        for b in 0..6 {
            assert_eq!(matrix[a][b], matrix[b][a]);
        }
    }
    for from in 0..6 {
        for to in 0..6 {
            let path = floyd_shortest_path(&graph, from, to).unwrap();
            assert_eq!(path[0], from);
            assert_eq!(*path.last().unwrap(), to);
            for i in 0..path.len() {
                for j in (i + 1)..path.len() {
                    assert_ne!(path[i], path[j]);
                }
            }
            for step in path.windows(2) {
                assert_ne!(matrix[step[0]][step[1]], NO_EDGE_WEIGHT);
            }
        }
    }
    assert_eq!(floyd_shortest_path(&graph, 0, 5), Ok(vec![0, 2, 3, 5]));
}
