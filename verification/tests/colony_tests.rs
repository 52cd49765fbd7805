use aco_tsp::aco::Aco;
use aco_tsp::ant::Ant;
use aco_tsp::errors::AcoError;
use aco_tsp::graph::Graph;
use aco_tsp::runner::run;

fn bytes(s: &str) -> Vec<u8> {
    s.as_bytes().to_vec()
}

fn four_nodes() -> Graph {
    // d(0,1)=1, d(0,2)=4, d(0,3)=3, d(1,2)=2, d(1,3)=5, d(2,3)=1
    Graph::new(&bytes("0 1 4 3\n1 0 2 5\n4 2 0 1\n3 5 1 0\n")).unwrap()
}

fn tour_cost(g: &Graph, path: &[u8]) -> u64 {
    let mut cost: u64 = 0;
    for w in 0..path.len() - 1 {
        cost += g.distance(path[w], path[w + 1]).unwrap();
    }
    cost
}

#[test]
fn constructed_tours_are_hamiltonian_cycles() {
    let g = four_nodes();
    let colony = Aco::new(g);
    let mut ant = Ant::new(0, 4);
    let draws: Vec<u32> = vec![2905419896, 1103515245, 12345];
    colony.move_ant_complete_path(&mut ant, &draws).unwrap();
    // closed cycle of n + 1 nodes, all nodes visited exactly once
    assert_eq!(ant.path.len(), 5);
    assert_eq!(ant.path[0], 0);
    assert_eq!(ant.path[4], 0);
    let mut seen = [false; 4];
    for &id in &ant.path[0..4] {
        assert!(!seen[id as usize]);
        seen[id as usize] = true;
    }
    assert!(seen.iter().all(|&s| s));
    // the reported cost is exactly the sum of the traversed edges
    assert_eq!(ant.total_cost, tour_cost(&colony.graph, &ant.path));
}

#[test]
fn fixed_draws_give_identical_iterations() {
    let g1 = four_nodes();
    let g2 = four_nodes();
    let mut c1 = Aco::new(g1);
    let mut c2 = Aco::new(g2);
    let draws: Vec<u32> = (0..24u32).map(|k| k.wrapping_mul(2654435761)).collect();
    for _ in 0..3 {
        c1.iterate_with(&draws).unwrap();
        c2.iterate_with(&draws).unwrap();
    }
    assert_eq!(c1.elite_ant.path, c2.elite_ant.path);
    assert_eq!(c1.elite_ant.total_cost, c2.elite_ant.total_cost);
    for (a1, a2) in c1.ants.iter().zip(c2.ants.iter()) {
        assert_eq!(a1.path, a2.path);
        assert_eq!(a1.total_cost, a2.total_cost);
    }
    for i in 0..4u8 {
        for j in 0..4u8 {
            assert_eq!(c1.graph.pheromone(i, j), c2.graph.pheromone(i, j));
        }
    }
}

#[test]
fn pheromone_stays_inside_its_clamps() {
    let g = four_nodes();
    let mut colony = Aco::new(g);
    for _ in 0..50 {
        colony.iterate().unwrap();
        for i in 0..4u8 {
            for j in 0..4u8 {
                if let Some(p) = colony.graph.pheromone(i, j) {
                    assert!(colony.min_pheromone <= p && p <= colony.max_pheromone);
                }
            }
        }
    }
}

#[test]
fn evaporation_alone_strictly_decreases() {
    let g = four_nodes();
    let mut colony = Aco::new(g);
    colony.evaporate_pheromone();
    for i in 0..4u8 {
        for j in 0..4u8 {
            if let Some(p) = colony.graph.pheromone(i, j) {
                // 500 * 990 / 1000 = 495, still above the floor of 100
                assert_eq!(p, 495);
            }
        }
    }
}

#[test]
fn deposition_adds_the_exact_reinforcement() {
    let g = four_nodes();
    let mut colony = Aco::new(g);
    let mut ant = Ant::new(0, 4);
    ant.move_to(1, 1000);
    ant.move_to(2, 2000);
    ant.move_to(3, 1000);
    ant.close_path(0, 3000);
    assert_eq!(ant.total_cost, 7000);
    colony.update_pheronome(&ant);
    // each edge of the tour gains q / cost = 1000 * 1000 / 7000 = 142
    assert_eq!(colony.graph.pheromone(0, 1), Some(642));
    assert_eq!(colony.graph.pheromone(1, 2), Some(642));
    assert_eq!(colony.graph.pheromone(2, 3), Some(642));
    assert_eq!(colony.graph.pheromone(3, 0), Some(642));
    // edges off the tour are untouched
    assert_eq!(colony.graph.pheromone(1, 0), Some(500));
    assert_eq!(colony.graph.pheromone(0, 2), Some(500));
}

#[test]
fn elite_cost_never_worsens() {
    let g = four_nodes();
    let mut colony = Aco::new(g);
    assert_eq!(colony.elite_ant.total_cost, u64::MAX);
    let mut last = u64::MAX;
    for _ in 0..30 {
        colony.iterate().unwrap();
        assert!(colony.elite_ant.total_cost <= last);
        last = colony.elite_ant.total_cost;
    }
}

#[test]
fn an_isolated_node_fails_every_repetition() {
    let g = Graph::new(&bytes("0 1 0\n1 0 0\n0 0 0\n")).unwrap();
    let mut colony = Aco::new(g.clone());
    let r = colony.iterate();
    assert!(matches!(r, Err(AcoError::NoFeasibleMoveError)));
    let (results, best) = run(&g, 5, 3);
    assert_eq!(results.len(), 3);
    for r in &results {
        assert!(matches!(r, Err(AcoError::NoFeasibleMoveError)));
    }
    assert!(best.is_none());
}

#[test]
fn the_known_optimum_is_found() {
    let g = four_nodes();
    let (results, best) = run(&g, 200, 3);
    assert_eq!(results.len(), 3);
    for r in &results {
        assert!(r.is_ok());
    }
    let best = best.unwrap();
    // optimal cycle 0-1-2-3-0 costs 1 + 2 + 1 + 3 = 7, scaled to 7000
    assert_eq!(best.total_cost, 7000);
    assert_eq!(best.path.len(), 5);
    assert_eq!(best.path[0], 0);
    assert_eq!(best.path[4], 0);
}
