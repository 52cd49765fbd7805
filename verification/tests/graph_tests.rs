use aco_tsp::errors::AcoError;
use aco_tsp::graph::Graph;

fn bytes(s: &str) -> Vec<u8> {
    s.as_bytes().to_vec()
}

#[test]
fn parses_a_small_matrix() {
    let g = Graph::new(&bytes("0 1\n1 0\n")).unwrap();
    assert_eq!(g.nodes.len(), 2);
    assert_eq!(g.distance(0, 1), Some(1000));
    assert_eq!(g.distance(1, 0), Some(1000));
    assert_eq!(g.distance(0, 0), None);
    assert_eq!(g.pheromone(0, 1), Some(500));
    assert_eq!(g.pheromone(0, 0), None);
}

#[test]
fn parses_decimals_into_fixed_point() {
    let g = Graph::new(&bytes("0 1.5\n2.25 0\n")).unwrap();
    assert_eq!(g.distance(0, 1), Some(1500));
    assert_eq!(g.distance(1, 0), Some(2250));
}

#[test]
fn short_row_is_a_format_error() {
    let r = Graph::new(&bytes("0 1\n1\n"));
    assert!(matches!(r, Err(AcoError::FormatError)));
}

#[test]
fn long_row_is_a_format_error() {
    let r = Graph::new(&bytes("0 1 2\n1 0\n"));
    assert!(matches!(r, Err(AcoError::FormatError)));
}

#[test]
fn non_numeric_cell_is_a_format_error() {
    let r = Graph::new(&bytes("0 x\n1 0\n"));
    assert!(matches!(r, Err(AcoError::FormatError)));
}

#[test]
fn nonzero_diagonal_is_a_format_error() {
    let r = Graph::new(&bytes("1 1\n1 0\n"));
    assert!(matches!(r, Err(AcoError::FormatError)));
}

#[test]
fn too_many_fraction_digits_is_a_format_error() {
    let r = Graph::new(&bytes("0 1.2345\n1 0\n"));
    assert!(matches!(r, Err(AcoError::FormatError)));
}

#[test]
fn neighbors_are_sorted_and_exact() {
    let g = Graph::new(&bytes("0 1 0 3\n1 0 2 0\n0 2 0 1\n3 0 1 0\n")).unwrap();
    assert_eq!(g.neighbors(0), vec![1u8, 3u8]);
    assert_eq!(g.neighbors(1), vec![0u8, 2u8]);
    assert_eq!(g.neighbors(2), vec![1u8, 3u8]);
}

#[test]
fn set_pheromone_only_touches_present_edges() {
    let mut g = Graph::new(&bytes("0 1\n1 0\n")).unwrap();
    assert!(g.set_pheromone(0, 1, 777));
    assert_eq!(g.pheromone(0, 1), Some(777));
    assert_eq!(g.pheromone(1, 0), Some(500));
    assert!(!g.set_pheromone(0, 0, 777));
}

#[test]
fn cloning_is_independent() {
    let mut g = Graph::new(&bytes("0 1\n1 0\n")).unwrap();
    let copy = g.clone();
    g.set_pheromone(0, 1, 999);
    assert_eq!(copy.pheromone(0, 1), Some(500));
    assert_eq!(g.pheromone(0, 1), Some(999));
}

#[test]
fn empty_input_is_an_empty_graph() {
    let g = Graph::new(&bytes("")).unwrap();
    assert_eq!(g.nodes.len(), 0);
}
