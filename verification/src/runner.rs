//! Independent repetitions of the colony, reduced to one global best tour.

use vstd::prelude::*;
use crate::aco::{Aco, path_cost, valid_tour, DEFAULT_MAX_PHEROMONE, DEFAULT_MIN_PHEROMONE,
    INFINITE_COST};
use crate::ant::Ant;
use crate::errors::AcoError;
use crate::graph::Graph;

verus! {

/// A copy of a graph carries over well-formedness, structure and every
/// entry of both matrices.
proof fn lemma_graph_copy_props(g1: Graph, g2: Graph)
    requires
        g2.size() == g1.size(),
        forall|i: int|
            0 <= i < g1.size() ==> {
                &&& (#[trigger] g2.nodes@[i]).id == g1.nodes@[i].id
                &&& g2.nodes@[i].edges_distances@ == g1.nodes@[i].edges_distances@
                &&& g2.nodes@[i].edges_pheromones@ == g1.nodes@[i].edges_pheromones@
            },
    ensures
        Graph::same_structure(g1, g2),
        forall|i: int, j: int|
            0 <= i < g1.size() && 0 <= j < g1.size() ==> #[trigger] g2.dist(i, j) == g1.dist(i, j),
        forall|i: int, j: int|
            0 <= i < g1.size() && 0 <= j < g1.size() ==> #[trigger] g2.pher(i, j) == g1.pher(i, j),
        g1.wf() ==> g2.wf(),
{
    assert forall|i: int, j: int|
        0 <= i < g1.size() && 0 <= j < g1.size() implies #[trigger] g2.dist(i, j) == g1.dist(
        i,
        j,
    ) && #[trigger] g2.pher(i, j) == g1.pher(i, j) by {
        assert(g2.nodes@[i].edges_distances@ == g1.nodes@[i].edges_distances@);
    }
    if g1.wf() {
        assert forall|i: int, j: int|
            0 <= i < g2.size() && 0 <= j < g2.size() implies {
                &&& #[trigger] g2.dist(i, j) <= crate::MAX_ENTRY
                &&& (g2.dist(i, j) == 0 ==> g2.pher(i, j) == 0)
            } by {
            assert(g1.dist(i, j) <= crate::MAX_ENTRY);
        }
    }
}

/// Two graphs of the same structure agree on which edges exist.
proof fn lemma_same_structure_edges(g1: Graph, g2: Graph)
    requires
        Graph::same_structure(g1, g2),
    ensures
        g2.size() == g1.size(),
        forall|i: int, j: int|
            0 <= i < g1.size() && 0 <= j < g1.size() ==> (#[trigger] g2.has_edge(i, j)
                <==> g1.has_edge(i, j)),
        Graph::same_structure(g2, g1),
{
    assert forall|i: int, j: int|
        0 <= i < g1.size() && 0 <= j < g1.size() implies (#[trigger] g2.has_edge(i, j)
            <==> g1.has_edge(i, j)) by {
        assert(g2.nodes@[i].edges_distances@ == g1.nodes@[i].edges_distances@);
    }
}

/// Run `repetitions` independent colonies over copies of `graph`, each for
/// `iterations` generations, and reduce to the cheapest elite tour.  Each
/// repetition reports success or its own failure; the global best is the
/// first of the cheapest successful elites, and it is absent exactly when
/// every repetition failed.
#[verifier::rlimit(100)]
pub fn run(graph: &Graph, iterations: usize, repetitions: usize) -> (out: (
    Vec<Result<Ant, AcoError>>,
    Option<Ant>,
))
    requires
        graph.wf(),
        1 <= graph.size(),
        graph.pher_in(DEFAULT_MIN_PHEROMONE, DEFAULT_MAX_PHEROMONE),
        1 <= iterations,
        1 <= repetitions,
    ensures
        out.0@.len() == repetitions,
        forall|k: int|
            0 <= k < repetitions ==> ((#[trigger] out.0@[k]) matches Ok(a) ==> {
                &&& valid_tour(*graph, a.path@)
                &&& a.total_cost as int == path_cost(*graph, a.path@)
                &&& a.path@[0] == 0
            }),
        (out.1 is Some) <==> (exists|k: int|
            0 <= k < repetitions && (#[trigger] out.0@[k]) is Ok),
        out.1 matches Some(b) ==> {
            &&& exists|k: int|
                0 <= k < repetitions && ((#[trigger] out.0@[k]) matches Ok(a) && a.total_cost
                    == b.total_cost && a.path@ == b.path@)
            &&& forall|k: int|
                0 <= k < repetitions ==> ((#[trigger] out.0@[k]) matches Ok(a) ==> b.total_cost
                    <= a.total_cost)
        },
        graph.complete() && graph.size() >= 2 ==> forall|k: int|
            0 <= k < repetitions ==> (#[trigger] out.0@[k]) is Ok,
        graph.size() >= 2 && (exists|w: int| 0 <= w < graph.size() && graph.isolated(w))
            ==> forall|k: int| 0 <= k < repetitions ==> (#[trigger] out.0@[k]) is Err,
    {
    let mut results: Vec<Result<Ant, AcoError>> = Vec::new();
    let mut best: Option<Ant> = None;
    let mut best_cost: u64 = INFINITE_COST;
    let mut rep: usize = 0;
    while rep < repetitions
        invariant
            rep <= repetitions,
            graph.wf(),
            1 <= graph.size(),
            graph.pher_in(DEFAULT_MIN_PHEROMONE, DEFAULT_MAX_PHEROMONE),
            1 <= iterations,
            results@.len() == rep,
            forall|k: int|
                0 <= k < rep ==> ((#[trigger] results@[k]) matches Ok(a) ==> {
                    &&& valid_tour(*graph, a.path@)
                    &&& a.total_cost as int == path_cost(*graph, a.path@)
                    &&& a.path@[0] == 0
                    &&& a.total_cost < INFINITE_COST
                }),
            (best is Some) <==> best_cost < INFINITE_COST,
            (best is Some) <==> (exists|k: int| 0 <= k < rep && (#[trigger] results@[k]) is Ok),
            best matches Some(b) ==> b.total_cost == best_cost && (exists|k: int|
                0 <= k < rep && ((#[trigger] results@[k]) matches Ok(a) && a.total_cost
                    == b.total_cost && a.path@ == b.path@)),
            forall|k: int|
                0 <= k < rep ==> ((#[trigger] results@[k]) matches Ok(a) ==> best_cost
                    <= a.total_cost),
            graph.complete() && graph.size() >= 2 ==> forall|k: int|
                0 <= k < rep ==> (#[trigger] results@[k]) is Ok,
            graph.size() >= 2 && (exists|w: int| 0 <= w < graph.size() && graph.isolated(w))
                ==> forall|k: int| 0 <= k < rep ==> (#[trigger] results@[k]) is Err,
        decreases repetitions - rep,
    {
        let g = graph.clone();
        proof {
            lemma_graph_copy_props(*graph, g);
            assert forall|i: int, j: int|
                0 <= i < g.size() && 0 <= j < g.size() && g.has_edge(i, j) implies
                DEFAULT_MIN_PHEROMONE <= #[trigger] g.pher(i, j) <= DEFAULT_MAX_PHEROMONE by {
                assert(g.pher(i, j) == graph.pher(i, j));
                assert(g.dist(i, j) == graph.dist(i, j));
            }
        }
        let mut colony = Aco::new(g);
        let mut it: usize = 0;
        let mut failed: Option<AcoError> = None;
        proof {
            lemma_graph_copy_props(*graph, colony.graph);
        }
        while it < iterations && failed.is_none()
            invariant
                it <= iterations,
                1 <= iterations,
                colony.wf(),
                graph.wf(),
                1 <= graph.size(),
                Graph::same_structure(*graph, colony.graph),
                graph.complete() && graph.size() >= 2 ==> failed is None,
                graph.size() >= 2 && (exists|w: int|
                    0 <= w < graph.size() && graph.isolated(w)) && failed is None ==> it == 0,
                graph.size() >= 2 && (exists|w: int|
                    0 <= w < graph.size() && graph.isolated(w)) && failed is Some ==> failed
                    == Some(AcoError::NoFeasibleMoveError),
                it >= 1 && failed is None ==> colony.elite_ant.total_cost < INFINITE_COST,
            decreases iterations - it + (if failed is Some {
                0int
            } else {
                1int
            }),
        {
            let ghost gpre = colony.graph;
            let res = colony.iterate();
            proof {
                assert forall|i: int|
                    0 <= i < graph.size() implies {
                        &&& (#[trigger] colony.graph.nodes@[i]).id == graph.nodes@[i].id
                        &&& colony.graph.nodes@[i].edges_distances@ == graph.nodes@[
                            i].edges_distances@
                    } by {
                    assert(gpre.nodes@[i].edges_distances@ == graph.nodes@[i].edges_distances@);
                }
                assert(Graph::same_structure(*graph, colony.graph));
            }
            match res {
                Result::Ok(u) => {
                    it = it + 1;
                    proof {
                        if graph.size() >= 2 && (exists|w: int|
                            0 <= w < graph.size() && graph.isolated(w)) {
                            let w = choose|w: int|
                                0 <= w < graph.size() && (#[trigger] graph.isolated(w));
                            lemma_same_structure_edges(*graph, gpre);
                            assert forall|i: int|
                                0 <= i < gpre.size() implies !(#[trigger] gpre.has_edge(i, w))
                                    && !gpre.has_edge(w, i) by {
                                assert(!graph.has_edge(i, w) && !graph.has_edge(w, i));
                            }
                            assert(gpre.isolated(w));
                            assert(false);
                        }
                    }
                },
                Result::Err(e) => {
                    proof {
                        if graph.complete() && graph.size() >= 2 {
                            lemma_same_structure_edges(*graph, gpre);
                            assert forall|i: int, j: int|
                                0 <= i < gpre.size() && 0 <= j < gpre.size() && i
                                    != j implies #[trigger] gpre.has_edge(i, j) by {
                                assert(graph.has_edge(i, j));
                            }
                            assert(gpre.complete());
                            assert(false);
                        }
                        if graph.size() >= 2 && (exists|w: int|
                            0 <= w < graph.size() && graph.isolated(w)) {
                            let w = choose|w: int|
                                0 <= w < graph.size() && (#[trigger] graph.isolated(w));
                            lemma_same_structure_edges(*graph, gpre);
                            assert forall|i: int|
                                0 <= i < gpre.size() implies !(#[trigger] gpre.has_edge(i, w))
                                    && !gpre.has_edge(w, i) by {
                                assert(!graph.has_edge(i, w) && !graph.has_edge(w, i));
                            }
                            assert(gpre.isolated(w));
                        }
                    }
                    failed = Some(e);
                },
            }
        }
        match failed {
            Option::Some(e) => {
                let ghost results0 = results@;
                results.push(Err(e));
                proof {
                    assert(results@ == results0.push(Err(e)));
                    assert(results@[rep as int] is Err);
                    if exists|k: int| 0 <= k < rep + 1 && (#[trigger] results@[k]) is Ok {
                        let k = choose|k: int|
                            0 <= k < rep + 1 && (#[trigger] results@[k]) is Ok;
                        assert(results0[k] == results@[k]);
                        assert(0 <= k < rep && (#[trigger] results0[k]) is Ok);
                    }
                    if exists|k: int| 0 <= k < rep && (#[trigger] results0[k]) is Ok {
                        let k = choose|k: int| 0 <= k < rep && (#[trigger] results0[k]) is Ok;
                        assert((#[trigger] results@[k]) is Ok);
                    }
                    if best is Some {
                        let w = choose|w: int|
                            0 <= w < rep && ((#[trigger] results0[w]) matches Ok(a)
                                && a.total_cost == best.unwrap().total_cost && a.path@
                                == best.unwrap().path@);
                        assert((#[trigger] results@[w]) == results0[w]);
                    }
                }
            },
            Option::None => {
                let elite = colony.elite_ant.clone();
                proof {
                    assert(it == iterations >= 1);
                    assert(colony.elite_ant.total_cost < INFINITE_COST);
                    assert(valid_tour(colony.graph, colony.elite_ant.path@));
                    lemma_same_structure_edges(*graph, colony.graph);
                    crate::aco::lemma_tour_transfer(colony.graph, *graph, colony.elite_ant.path@);
                }
                let cost = elite.total_cost;
                let elite2 = colony.elite_ant.clone();
                let ghost results0 = results@;
                let ghost best0 = best;
                let ghost best_cost0 = best_cost;
                results.push(Ok(elite));
                if cost < best_cost {
                    best_cost = cost;
                    best = Some(elite2);
                }
                proof {
                    assert(results@ == results0.push(Ok(elite)));
                    assert((#[trigger] results@[rep as int]) is Ok);
                    assert forall|k: int| 0 <= k < rep implies (#[trigger] results@[k])
                        == results0[k] by {}
                    if cost < best_cost0 {
                        assert(results@[rep as int] matches Ok(a) && a.total_cost == best_cost
                            && a.path@ == best.unwrap().path@);
                    } else {
                        if best0 is Some {
                            let w = choose|w: int|
                                0 <= w < rep && ((#[trigger] results0[w]) matches Ok(a)
                                    && a.total_cost == best0.unwrap().total_cost && a.path@
                                    == best0.unwrap().path@);
                            assert(results@[w] == results0[w]);
                        }
                    }
                }
            },
        }
        rep = rep + 1;
    }
    (results, best)
}

} // verus!