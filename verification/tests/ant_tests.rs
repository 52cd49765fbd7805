use aco_tsp::ant::Ant;

#[test]
fn a_fresh_ant_stands_at_its_start() {
    let a = Ant::new(1, 4);
    assert_eq!(a.path, vec![1u8]);
    assert_eq!(a.total_cost, 0);
    assert_eq!(a.current_node, 1);
    assert_eq!(a.remaining_nodes, vec![0u8, 2u8, 3u8]);
}

#[test]
fn moving_extends_the_path_and_pays_the_edge() {
    let mut a = Ant::new(0, 3);
    a.move_to(2, 1500);
    assert_eq!(a.path, vec![0u8, 2u8]);
    assert_eq!(a.total_cost, 1500);
    assert_eq!(a.current_node, 2);
    assert_eq!(a.remaining_nodes, vec![1u8]);
}

#[test]
fn closing_returns_to_the_start() {
    let mut a = Ant::new(0, 2);
    a.move_to(1, 1000);
    a.close_path(0, 1000);
    assert_eq!(a.path, vec![0u8, 1u8, 0u8]);
    assert_eq!(a.total_cost, 2000);
}
