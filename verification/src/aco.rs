//! The colony: owns a graph and a population of ants, and drives one
//! iteration of ant colony optimization (construct tours, evaporate
//! pheromone, deposit pheromone, track the elite tour).

use vstd::prelude::*;
use vstd::arithmetic::power::*;
use vstd::seq_lib::*;
use crate::ant::Ant;
use crate::errors::AcoError;
use crate::graph::Graph;
use crate::rng;
use crate::{MAX_ENTRY, SCALE};

verus! {

/// Default distance-weight exponent.
pub const DEFAULT_ALPHA: u32 = 1;

/// Default pheromone-weight exponent.
pub const DEFAULT_BETA: u32 = 2;

/// Default deposition strength (scaled: stands for 1.0).
pub const DEFAULT_Q: u64 = 1000;

/// Default evaporation fraction per iteration (scaled: stands for 0.01).
pub const DEFAULT_PERSISTENCE: u64 = 10;

/// Default lower pheromone clamp (scaled: stands for 0.1).
pub const DEFAULT_MIN_PHEROMONE: u64 = 100;

/// Default upper pheromone clamp (scaled: stands for 4.0).
pub const DEFAULT_MAX_PHEROMONE: u64 = 4000;

/// Scale of a desirability score.
pub const DESIRE_SCALE: u64 = 1_000_000;

/// One random draw `r` stands for the real `r / R_UNIT` in `[0, 1)`.
pub const R_UNIT: u64 = 4_294_967_296;

/// Sentinel cost of the elite ant before any tour has completed: every real
/// tour costs less, so the first completed tour always replaces it.
pub const INFINITE_COST: u64 = u64::MAX;

/// A closed Hamiltonian cycle of `g`: `n + 1` nodes, the same node at both
/// ends, every node exactly once in between, every step over a present edge.
pub open spec fn valid_tour(g: Graph, path: Seq<u8>) -> bool {
    &&& path.len() == g.size() + 1
    &&& path.len() >= 2
    &&& path[0] == path[path.len() - 1]
    &&& forall|a: int, b: int| 0 <= a < b < path.len() - 1 ==> path[a] != path[b]
    &&& forall|a: int| 0 <= a < path.len() ==> (#[trigger] path[a]) < g.size()
    &&& forall|a: int|
        0 <= a < path.len() - 1 ==> g.has_edge(#[trigger] path[a] as int, path[a + 1] as int)
    &&& forall|id: u8|
        (id as int) < g.size() ==> #[trigger] path.take(path.len() - 1).contains(id)
}

/// The exact sum of the edge distances along `path`.
pub open spec fn path_cost(g: Graph, path: Seq<u8>) -> int
    decreases path.len(),
{
    if path.len() <= 1 {
        0
    } else {
        g.dist(path[0] as int, path[1] as int) + path_cost(g, path.drop_first())
    }
}

/// The mathematical state of an ant in mid-construction.
pub struct TourState {
    pub path: Seq<u8>,
    pub cost: int,
    pub current: u8,
    pub remaining: Seq<u8>,
}

/// The state an `Ant` value stands for.
pub open spec fn ant_state(a: Ant) -> TourState {
    TourState {
        path: a.path@,
        cost: a.total_cost as int,
        current: a.current_node,
        remaining: a.remaining_nodes@,
    }
}

/// Invariant of a partial tour: the path is a duplicate-free walk over
/// present edges, the unvisited set is exactly the complement, the current
/// node is the last of the path, and the cost is the sum so far.
pub open spec fn tour_inv(g: Graph, st: TourState) -> bool {
    &&& st.path.len() >= 1
    &&& st.path.len() + st.remaining.len() == g.size()
    &&& forall|a: int, b: int| 0 <= a < b < st.path.len() ==> st.path[a] != st.path[b]
    &&& forall|a: int, b: int|
        0 <= a < b < st.remaining.len() ==> st.remaining[a] != st.remaining[b]
    &&& forall|a: int| 0 <= a < st.path.len() ==> (#[trigger] st.path[a]) < g.size()
    &&& forall|a: int| 0 <= a < st.remaining.len() ==> (#[trigger] st.remaining[a]) < g.size()
    &&& forall|id: u8|
        (id as int) < g.size() ==> (#[trigger] st.path.contains(id)
            <==> !st.remaining.contains(id))
    &&& st.current == st.path[st.path.len() - 1]
    &&& st.cost == path_cost(g, st.path)
    &&& forall|a: int|
        0 <= a < st.path.len() - 1 ==> g.has_edge(#[trigger] st.path[a] as int, st.path[a
            + 1] as int)
}

/// The candidates among node ids below `j`: unvisited neighbors of `cur`,
/// in ascending id order.
pub open spec fn spec_cands_upto(g: Graph, cur: int, rem: Seq<u8>, j: int) -> Seq<u8>
    decreases j,
{
    if j <= 0 {
        Seq::empty()
    } else {
        spec_cands_upto(g, cur, rem, j - 1) + (if g.has_edge(cur, j - 1) && rem.contains(
            (j - 1) as u8,
        ) {
            seq![(j - 1) as u8]
        } else {
            Seq::empty()
        })
    }
}

/// All candidates for the next move.
pub open spec fn spec_candidates(g: Graph, cur: int, rem: Seq<u8>) -> Seq<u8> {
    spec_cands_upto(g, cur, rem, g.size())
}

/// Structure of the colony: the hyperparameters, the population, the graph
/// it works on, and the best tour seen so far.
pub struct Aco {
    pub alpha: u32,
    pub beta: u32,
    pub q: u64,
    pub pheromone_persistence: u64,
    pub min_pheromone: u64,
    pub max_pheromone: u64,
    pub number_of_ants: usize,
    pub ants: Vec<Ant>,
    pub graph: Graph,
    pub elite_ant: Ant,
}

impl Aco {
    /// The elite record is either the untouched sentinel or a completed
    /// tour from the reference start node with its exact cost.
    pub open spec fn elite_ok(&self) -> bool {
        ||| self.elite_ant.total_cost == INFINITE_COST
        ||| {
            &&& valid_tour(self.graph, self.elite_ant.path@)
            &&& self.elite_ant.total_cost as int == path_cost(self.graph, self.elite_ant.path@)
            &&& self.elite_ant.path@[0] == 0
        }
    }

    /// Well-formedness: a sound graph, hyperparameters inside the ranges
    /// that keep every computation within `u64`, pheromone inside its
    /// clamps, and a sound elite record.
    pub open spec fn wf(&self) -> bool {
        &&& self.graph.wf()
        &&& 1 <= self.graph.size()
        &&& 1 <= self.number_of_ants <= 65535
        &&& 1 <= self.alpha
        &&& 1 <= self.beta
        &&& 1 <= self.min_pheromone <= self.max_pheromone
        &&& self.max_pheromone <= 1_000_000_000_000
        &&& self.pheromone_persistence <= SCALE
        &&& 1 <= self.q <= MAX_ENTRY
        &&& pow(self.max_pheromone as int, self.beta as nat) * DESIRE_SCALE * 256 <= u64::MAX
        &&& pow(MAX_ENTRY as int, self.alpha as nat) <= u64::MAX
        &&& self.graph.pher_in(self.min_pheromone, self.max_pheromone)
        &&& self.elite_ok()
    }

    /// The desirability of moving from `i` to `j`: inverse distance to the
    /// power `alpha` times pheromone to the power `beta`, in fixed point
    /// with scale `DESIRE_SCALE`.
    pub open spec fn spec_desire(&self, i: int, j: int) -> int {
        pow(self.graph.pher(i, j) as int, self.beta as nat) * DESIRE_SCALE / pow(
            self.graph.dist(i, j) as int,
            self.alpha as nat,
        )
    }

    /// A colony over `graph` with the default hyperparameters, an empty
    /// population, and the sentinel elite.
    pub fn new(graph: Graph) -> (a: Aco)
        requires
            graph.wf(),
            1 <= graph.size(),
            graph.pher_in(DEFAULT_MIN_PHEROMONE, DEFAULT_MAX_PHEROMONE),
        ensures
            a.wf(),
            a.graph == graph,
            a.alpha == DEFAULT_ALPHA,
            a.beta == DEFAULT_BETA,
            a.q == DEFAULT_Q,
            a.pheromone_persistence == DEFAULT_PERSISTENCE,
            a.min_pheromone == DEFAULT_MIN_PHEROMONE,
            a.max_pheromone == DEFAULT_MAX_PHEROMONE,
            a.number_of_ants == 2 * graph.size(),
            a.ants@.len() == 0,
            a.elite_ant.total_cost == INFINITE_COST,
    {
        let n = graph.nodes.len();
        let mut elite_ant = Ant::new(0, n as u8);
        elite_ant.total_cost = INFINITE_COST;
        proof {
            reveal_with_fuel(pow, 3);
            assert(pow(DEFAULT_MAX_PHEROMONE as int, 2) == 16_000_000);
            assert(pow(MAX_ENTRY as int, 1) == MAX_ENTRY);
        }
        Aco {
            alpha: DEFAULT_ALPHA,
            beta: DEFAULT_BETA,
            q: DEFAULT_Q,
            pheromone_persistence: DEFAULT_PERSISTENCE,
            min_pheromone: DEFAULT_MIN_PHEROMONE,
            max_pheromone: DEFAULT_MAX_PHEROMONE,
            number_of_ants: n * 2,
            ants: Vec::new(),
            graph,
            elite_ant,
        }
    }

    /// Discard the previous population and create `number_of_ants` fresh
    /// ants, all starting at node 0.
    pub fn reset_ants(&mut self)
        requires
            old(self).wf(),
        ensures
            final(self).wf(),
            *final(self) == (Aco { ants: final(self).ants, ..*old(self) }),
            final(self).ants@.len() == old(self).number_of_ants,
            forall|k: int|
                0 <= k < final(self).ants@.len() ==> fresh_ant(
                    #[trigger] final(self).ants@[k],
                    final(self).graph,
                ),
    {
        let n = self.graph.nodes.len();
        let count = self.number_of_ants;
        let mut ants: Vec<Ant> = Vec::new();
        let mut k: usize = 0;
        while k < count
            invariant
                k <= count,
                1 <= n <= 255,
                n == self.graph.size(),
                ants@.len() == k,
                forall|x: int| 0 <= x < k ==> fresh_ant(#[trigger] ants@[x], self.graph),
            decreases count - k,
        {
            let a = Ant::new(0, n as u8);
            ants.push(a);
            k = k + 1;
        }
        self.ants = ants;
    }
}

/// A fresh ant standing at node 0 with everything else unvisited.
pub open spec fn fresh_ant(a: Ant, g: Graph) -> bool {
    &&& a.path@ == seq![0u8]
    &&& a.total_cost == 0
    &&& a.current_node == 0
    &&& a.remaining_nodes@ == Ant::spec_initial_remaining(0, g.size() as u8)
}

/// Raising a smaller base to the same power gives a smaller result.
proof fn lemma_pow_base_le(b1: nat, b2: nat, e: nat)
    requires
        1 <= b1 <= b2,
    ensures
        pow(b1 as int, e) <= pow(b2 as int, e),
    decreases e,
{
    reveal(pow);
    if e > 0 {
        lemma_pow_base_le(b1, b2, (e - 1) as nat);
        lemma_pow_positive(b1 as int, (e - 1) as nat);
        assert(pow(b1 as int, e) == b1 * pow(b1 as int, (e - 1) as nat));
        assert(pow(b2 as int, e) == b2 * pow(b2 as int, (e - 1) as nat));
        assert(b1 * pow(b1 as int, (e - 1) as nat) <= b2 * pow(b2 as int, (e - 1) as nat))
            by (nonlinear_arith)
            requires
                b1 <= b2,
                0 < pow(b1 as int, (e - 1) as nat) <= pow(b2 as int, (e - 1) as nat),
        ;
    }
}

/// `base` to the power `exp`, proved exact and free of overflow.
fn pow_u64(base: u64, exp: u32) -> (r: u64)
    requires
        1 <= base,
        pow(base as int, exp as nat) <= u64::MAX,
    ensures
        r as int == pow(base as int, exp as nat),
{
    let mut r: u64 = 1;
    let mut e: u32 = 0;
    proof {
        lemma_pow0(base as int);
    }
    while e < exp
        invariant
            1 <= base,
            e <= exp,
            pow(base as int, exp as nat) <= u64::MAX,
            r as int == pow(base as int, e as nat),
        decreases exp - e,
    {
        proof {
            reveal(pow);
            lemma_pow_increases(base as nat, (e + 1) as nat, exp as nat);
            assert(pow(base as int, (e + 1) as nat) == base * pow(base as int, e as nat));
            lemma_pow_positive(base as int, e as nat);
        }
        r = r * base;
        e = e + 1;
    }
    r
}

/// Whether `v` holds `x`.
fn contains_node(v: &Vec<u8>, x: u8) -> (b: bool)
    ensures
        b == v@.contains(x),
{
    let mut k: usize = 0;
    while k < v.len()
        invariant
            k <= v@.len(),
            forall|a: int| 0 <= a < k ==> v@[a] != x,
        decreases v@.len() - k,
    {
        if v[k] == x {
            return true;
        }
        k = k + 1;
    }
    proof {
        if v@.contains(x) {
            let w = choose|w: int| 0 <= w < v@.len() && v@[w] == x;
            assert(v@[w] != x);
        }
    }
    false
}

/// Every candidate is an unvisited neighbor below `j`, and every unvisited
/// neighbor below `j` is a candidate; candidates are ascending.
proof fn lemma_cands_props(g: Graph, cur: int, rem: Seq<u8>, j: int)
    requires
        0 <= j <= 255,
    ensures
        forall|x: int|
            0 <= x < spec_cands_upto(g, cur, rem, j).len() ==> {
                &&& (#[trigger] spec_cands_upto(g, cur, rem, j)[x] as int) < j
                &&& g.has_edge(cur, spec_cands_upto(g, cur, rem, j)[x] as int)
                &&& rem.contains(spec_cands_upto(g, cur, rem, j)[x])
            },
        forall|id: int|
            0 <= id < j && g.has_edge(cur, id) && rem.contains(id as u8)
                ==> spec_cands_upto(g, cur, rem, j).contains(id as u8),
        forall|a: int, b: int|
            0 <= a < b < spec_cands_upto(g, cur, rem, j).len() ==> spec_cands_upto(
                g,
                cur,
                rem,
                j,
            )[a] < spec_cands_upto(g, cur, rem, j)[b],
        spec_cands_upto(g, cur, rem, j).len() <= j,
    decreases j,
{
    if j > 0 {
        lemma_cands_props(g, cur, rem, j - 1);
        let prev = spec_cands_upto(g, cur, rem, j - 1);
        let cands = spec_cands_upto(g, cur, rem, j);
        if g.has_edge(cur, j - 1) && rem.contains((j - 1) as u8) {
            assert(cands == prev + seq![(j - 1) as u8]);
            assert(cands.len() == prev.len() + 1);
            assert forall|x: int|
                0 <= x < cands.len() implies {
                    &&& ((#[trigger] cands[x]) as int) < j
                    &&& g.has_edge(cur, cands[x] as int)
                    &&& rem.contains(cands[x])
                } by {
                if x < prev.len() {
                    assert(cands[x] == prev[x]);
                } else {
                    assert(cands[x] == (j - 1) as u8);
                }
            }
            assert forall|a: int, b: int| 0 <= a < b < cands.len() implies cands[a]
                < cands[b] by {
                if b < prev.len() {
                    assert(cands[a] == prev[a] && cands[b] == prev[b]);
                } else {
                    assert(cands[b] == (j - 1) as u8);
                    assert(cands[a] == prev[a]);
                    assert((prev[a] as int) < j - 1);
                }
            }
            assert forall|id: int|
                0 <= id < j && g.has_edge(cur, id) && rem.contains(id as u8) implies cands.contains(
                id as u8,
            ) by {
                if id < j - 1 {
                    let w = choose|w: int| 0 <= w < prev.len() && prev[w] == id as u8;
                    assert(cands[w] == id as u8);
                } else {
                    assert(cands[cands.len() - 1] == id as u8);
                }
            }
        } else {
            assert(cands =~= prev);
            assert forall|id: int|
                0 <= id < j && g.has_edge(cur, id) && rem.contains(id as u8) implies cands.contains(
                id as u8,
            ) by {
                if id < j - 1 {
                    let w = choose|w: int| 0 <= w < prev.len() && prev[w] == id as u8;
                    assert(cands[w] == id as u8);
                }
            }
        }
    }
}

/// The sum of the desirability scores of `cands`.
pub open spec fn spec_total_desire(c: Aco, cur: int, cands: Seq<u8>) -> int
    decreases cands.len(),
{
    if cands.len() == 0 {
        0
    } else {
        spec_total_desire(c, cur, cands.drop_last()) + c.spec_desire(cur, cands.last() as int)
    }
}

/// Walk the candidates from index `i` on and take the first whose
/// individual selection probability exceeds the draw: `desire / total`
/// exceeds `rv / R_UNIT` exactly when `desire * R_UNIT > rv * total`.
pub open spec fn spec_pick_from(
    c: Aco,
    cur: int,
    cands: Seq<u8>,
    total: int,
    rv: u32,
    i: int,
) -> Option<u8>
    decreases cands.len() - i,
{
    if i < 0 || i >= cands.len() {
        None
    } else if c.spec_desire(cur, cands[i] as int) * R_UNIT > rv * total {
        Some(cands[i])
    } else {
        spec_pick_from(c, cur, cands, total, rv, i + 1)
    }
}

/// The move a draw of `rv` selects: the first candidate (ascending id
/// order) whose own probability exceeds the draw, the last candidate when
/// none does, `None` when there is no candidate at all.
pub open spec fn spec_choose(c: Aco, cur: int, rem: Seq<u8>, rv: u32) -> Option<u8> {
    let cands = spec_candidates(c.graph, cur, rem);
    if cands.len() == 0 {
        None
    } else {
        match spec_pick_from(c, cur, cands, spec_total_desire(c, cur, cands), rv, 0) {
            Some(j) => Some(j),
            None => Some(cands[cands.len() - 1]),
        }
    }
}

/// What the walk picks is one of the candidates.
proof fn lemma_pick_in_cands(c: Aco, cur: int, cands: Seq<u8>, total: int, rv: u32, i: int)
    requires
        spec_pick_from(c, cur, cands, total, rv, i) is Some,
    ensures
        cands.contains(spec_pick_from(c, cur, cands, total, rv, i).unwrap()),
    decreases cands.len() - i,
{
    if 0 <= i < cands.len() {
        if c.spec_desire(cur, cands[i] as int) * R_UNIT > rv * total {
            assert(cands.contains(cands[i]));
        } else {
            lemma_pick_in_cands(c, cur, cands, total, rv, i + 1);
        }
    }
}

/// A selected node is an unvisited neighbor of the current node.
pub proof fn lemma_choose_props(c: Aco, cur: int, rem: Seq<u8>, rv: u32)
    requires
        0 <= cur,
        c.graph.size() <= 255,
    ensures
        spec_choose(c, cur, rem, rv) matches Some(j) ==> {
            &&& rem.contains(j)
            &&& c.graph.has_edge(cur, j as int)
            &&& (j as int) < c.graph.size()
        },
{
    lemma_cands_props(c.graph, cur, rem, c.graph.size());
    let cands = spec_candidates(c.graph, cur, rem);
    if cands.len() > 0 {
        let t = spec_total_desire(c, cur, cands);
        if spec_pick_from(c, cur, cands, t, rv, 0) is Some {
            lemma_pick_in_cands(c, cur, cands, t, rv, 0);
        } else {
            assert(cands.contains(cands[cands.len() - 1]));
        }
        let j = spec_choose(c, cur, rem, rv).unwrap();
        let w = choose|w: int| 0 <= w < cands.len() && cands[w] == j;
        assert(cands[w] == j);
    }
}

impl Aco {
    /// The desirability score of moving from `i` to `j`, exact in fixed
    /// point and bounded by the largest score any edge can have.
    fn desire(&self, i: u8, j: u8) -> (d: u64)
        requires
            self.wf(),
            (i as int) < self.graph.size(),
            (j as int) < self.graph.size(),
            self.graph.has_edge(i as int, j as int),
        ensures
            d as int == self.spec_desire(i as int, j as int),
            d as int <= pow(self.max_pheromone as int, self.beta as nat) * DESIRE_SCALE,
    {
        let p = self.graph.nodes[i as usize].edges_pheromones[j as usize];
        let dist = self.graph.nodes[i as usize].edges_distances[j as usize];
        let ghost maxnum = pow(self.max_pheromone as int, self.beta as nat);
        proof {
            assert(self.min_pheromone <= self.graph.pher(i as int, j as int)
                <= self.max_pheromone);
            assert(self.graph.dist(i as int, j as int) <= MAX_ENTRY);
            lemma_pow_base_le(p as nat, self.max_pheromone as nat, self.beta as nat);
            lemma_pow_base_le(dist as nat, MAX_ENTRY as nat, self.alpha as nat);
            lemma_pow_positive(p as int, self.beta as nat);
            lemma_pow_positive(dist as int, self.alpha as nat);
            assert(maxnum * DESIRE_SCALE <= maxnum * DESIRE_SCALE * 256) by (nonlinear_arith)
                requires
                    maxnum >= 0,
            ;
            assert(pow(p as int, self.beta as nat) * DESIRE_SCALE <= maxnum * DESIRE_SCALE)
                by (nonlinear_arith)
                requires
                    0 <= pow(p as int, self.beta as nat) <= maxnum,
            ;
        }
        let num = pow_u64(p, self.beta);
        let den = pow_u64(dist, self.alpha);
        let nd = num * DESIRE_SCALE;
        let d = nd / den;
        proof {
            vstd::arithmetic::div_mod::lemma_div_nonincreasing(nd as int, den as int);
        }
        d
    }

    /// One selection step: gather the unvisited neighbors of `current` in
    /// ascending id order, weight them by desirability, and pick the node
    /// the draw `rv` selects.
    pub fn choose_next_node(&self, current: u8, remaining: &Vec<u8>, rv: u32) -> (r: Option<u8>)
        requires
            self.wf(),
            (current as int) < self.graph.size(),
        ensures
            r == spec_choose(*self, current as int, remaining@, rv),
            r matches Some(j) ==> {
                &&& (j as int) < self.graph.size()
                &&& self.graph.has_edge(current as int, j as int)
                &&& remaining@.contains(j)
            },
            r is None <==> spec_candidates(self.graph, current as int, remaining@).len() == 0,
    {
        let n = self.graph.nodes.len();
        let ghost gcands = spec_candidates(self.graph, current as int, remaining@);
        proof {
            lemma_cands_props(self.graph, current as int, remaining@, n as int);
        }
        let mut cands: Vec<u8> = Vec::new();
        let mut j: usize = 0;
        while j < n
            invariant
                j <= n,
                n == self.graph.size(),
                self.wf(),
                (current as int) < self.graph.size(),
                cands@ == spec_cands_upto(self.graph, current as int, remaining@, j as int),
            decreases n - j,
        {
            let ghost prev = cands@;
            let e = self.graph.nodes[current as usize].edges_distances[j];
            if e > 0 && contains_node(remaining, j as u8) {
                cands.push(j as u8);
                proof {
                    assert(cands@ =~= prev + seq![j as u8]);
                }
            } else {
                proof {
                    assert(cands@ =~= prev + Seq::<u8>::empty());
                }
            }
            j = j + 1;
        }
        let ghost maxd = pow(self.max_pheromone as int, self.beta as nat) * DESIRE_SCALE;
        let mut desires: Vec<u64> = Vec::new();
        let mut total: u64 = 0;
        let mut k: usize = 0;
        proof {
            assert(cands@.take(0) =~= Seq::<u8>::empty());
            lemma_pow_positive(self.max_pheromone as int, self.beta as nat);
            assert(maxd > 0) by (nonlinear_arith)
                requires
                    pow(self.max_pheromone as int, self.beta as nat) > 0,
                    maxd == pow(self.max_pheromone as int, self.beta as nat) * DESIRE_SCALE,
            ;
        }
        while k < cands.len()
            invariant
                k <= cands@.len(),
                self.wf(),
                (current as int) < self.graph.size(),
                cands@ == gcands,
                gcands.len() <= 255,
                forall|x: int|
                    0 <= x < cands@.len() ==> (((#[trigger] cands@[x]) as int) < self.graph.size()
                        && self.graph.has_edge(current as int, cands@[x] as int)),
                desires@.len() == k,
                forall|x: int|
                    0 <= x < k ==> (#[trigger] desires@[x]) as int == self.spec_desire(
                        current as int,
                        cands@[x] as int,
                    ),
                total as int == spec_total_desire(*self, current as int, cands@.take(k as int)),
                total as int <= k * maxd,
                maxd == pow(self.max_pheromone as int, self.beta as nat) * DESIRE_SCALE,
                maxd >= 0,
                maxd * 256 <= u64::MAX,
            decreases cands@.len() - k,
        {
            let d = self.desire(current, cands[k]);
            proof {
                assert(cands@.take(k as int + 1).drop_last() =~= cands@.take(k as int));
                assert(cands@.take(k as int + 1).last() == cands@[k as int]);
                assert((k + 1) * maxd <= 256 * maxd) by (nonlinear_arith)
                    requires
                        0 <= maxd,
                        k + 1 <= 256,
                ;
                assert(total + d <= (k + 1) * maxd) by (nonlinear_arith)
                    requires
                        total as int <= k * maxd,
                        d as int <= maxd,
                ;
            }
            total = total + d;
            desires.push(d);
            k = k + 1;
        }
        proof {
            assert(cands@.take(cands@.len() as int) =~= cands@);
        }
        let mut i2: usize = 0;
        while i2 < cands.len()
            invariant
                i2 <= cands@.len(),
                cands@ == gcands,
                gcands == spec_candidates(self.graph, current as int, remaining@),
                desires@.len() == cands@.len(),
                forall|x: int|
                    0 <= x < cands@.len() ==> (#[trigger] desires@[x]) as int == self.spec_desire(
                        current as int,
                        cands@[x] as int,
                    ),
                total as int == spec_total_desire(*self, current as int, cands@),
                forall|x: int|
                    0 <= x < cands@.len() ==> (((#[trigger] cands@[x]) as int) < self.graph.size()
                        && self.graph.has_edge(current as int, cands@[x] as int)
                        && remaining@.contains(cands@[x])),
                spec_pick_from(*self, current as int, cands@, total as int, rv, 0)
                    == spec_pick_from(*self, current as int, cands@, total as int, rv, i2 as int),
            decreases cands@.len() - i2,
        {
            proof {
                assert((desires@[i2 as int] as int) * (R_UNIT as int) <= u128::MAX)
                    by (nonlinear_arith)
                    requires
                        desires@[i2 as int] <= u64::MAX,
                ;
                assert((rv as int) * (total as int) <= u128::MAX) by (nonlinear_arith)
                    requires
                        rv <= u32::MAX,
                        total <= u64::MAX,
                ;
            }
            if (desires[i2] as u128) * (R_UNIT as u128) > (rv as u128) * (total as u128) {
                proof {
                    assert(spec_pick_from(*self, current as int, cands@, total as int, rv, i2 as int)
                        == Some(cands@[i2 as int]));
                }
                return Some(cands[i2]);
            }
            i2 = i2 + 1;
        }
        if cands.len() == 0 {
            None
        } else {
            Some(cands[cands.len() - 1])
        }
    }
}

/// Appending a node adds exactly the closing edge's distance.
proof fn lemma_path_cost_push(g: Graph, path: Seq<u8>, j: u8)
    requires
        path.len() >= 1,
    ensures
        path_cost(g, path.push(j)) == path_cost(g, path) + g.dist(
            path[path.len() - 1] as int,
            j as int,
        ),
    decreases path.len(),
{
    if path.len() == 1 {
        assert(path.push(j).drop_first() =~= seq![j]);
        assert(path_cost(g, seq![j]) == 0);
    } else {
        assert(path.push(j).drop_first() =~= path.drop_first().push(j));
        lemma_path_cost_push(g, path.drop_first(), j);
    }
}

/// A path's cost is at most one maximal entry per edge.
proof fn lemma_path_cost_bound(g: Graph, path: Seq<u8>)
    requires
        g.wf(),
        forall|a: int| 0 <= a < path.len() ==> ((#[trigger] path[a]) as int) < g.size(),
    ensures
        0 <= path_cost(g, path),
        path.len() >= 1 ==> path_cost(g, path) <= (path.len() - 1) * MAX_ENTRY,
    decreases path.len(),
{
    if path.len() > 1 {
        assert forall|a: int|
            0 <= a < path.drop_first().len() implies ((#[trigger] path.drop_first()[a]) as int)
            < g.size() by {
            assert(path.drop_first()[a] == path[a + 1]);
        }
        lemma_path_cost_bound(g, path.drop_first());
        assert(g.dist(path[0] as int, path[1] as int) <= MAX_ENTRY);
    }
}

/// A path over present edges costs at least one unit per edge.
proof fn lemma_path_cost_lower(g: Graph, path: Seq<u8>)
    requires
        forall|a: int|
            0 <= a < path.len() - 1 ==> g.has_edge(#[trigger] path[a] as int, path[a + 1] as int),
    ensures
        path_cost(g, path) >= path.len() - 1,
    decreases path.len(),
{
    if path.len() > 1 {
        assert forall|a: int|
            0 <= a < path.drop_first().len() - 1 implies g.has_edge(
            #[trigger] path.drop_first()[a] as int,
            path.drop_first()[a + 1] as int,
        ) by {
            assert(path.drop_first()[a] == path[a + 1]);
            assert(path.drop_first()[a + 1] == path[a + 2]);
        }
        lemma_path_cost_lower(g, path.drop_first());
        assert(g.has_edge(path[0] as int, path[1] as int));
    }
}

/// Striking a value out of a duplicate-free sequence: one shorter, still
/// duplicate-free, holding exactly the other values.
proof fn lemma_remove_value_props(s: Seq<u8>, v: u8)
    requires
        s.contains(v),
        forall|a: int, b: int| 0 <= a < b < s.len() ==> s[a] != s[b],
    ensures
        s.remove_value(v).len() == s.len() - 1,
        forall|x: u8| #[trigger] s.remove_value(v).contains(x) <==> (s.contains(x) && x != v),
        forall|a: int, b: int|
            0 <= a < b < s.remove_value(v).len() ==> s.remove_value(v)[a] != s.remove_value(v)[b],
        forall|x: int|
            0 <= x < s.remove_value(v).len() ==> s.contains(#[trigger] s.remove_value(v)[x]),
{
    s.index_of_first_ensures(v);
    let i = s.index_of_first(v).unwrap();
    let r = s.remove(i);
    s.remove_ensures(i);
    assert forall|x: int| 0 <= x < r.len() implies s.contains(#[trigger] r[x]) by {
        if x < i {
            assert(r[x] == s[x]);
        } else {
            assert(r[x] == s[x + 1]);
        }
    }
    assert forall|x: u8| #[trigger] r.contains(x) implies (s.contains(x) && x != v) by {
        let w = choose|w: int| 0 <= w < r.len() && r[w] == x;
        if w < i {
            assert(s[w] == x);
            if x == v {
                assert(s[w] == s[i]);
            }
        } else {
            assert(s[w + 1] == x);
            if x == v {
                assert(s[w + 1] == s[i]);
            }
        }
    }
    assert forall|x: u8| (s.contains(x) && x != v) implies #[trigger] r.contains(x) by {
        let w = choose|w: int| 0 <= w < s.len() && s[w] == x;
        if w < i {
            assert(r[w] == x);
        } else {
            assert(w != i);
            assert(r[w - 1] == s[w]);
        }
    }
    assert forall|a: int, b: int| 0 <= a < b < r.len() implies r[a] != r[b] by {
        if b < i {
        } else if a < i {
            assert(r[a] == s[a] && r[b] == s[b + 1]);
        } else {
            assert(r[a] == s[a + 1] && r[b] == s[b + 1]);
        }
    }
}

/// The state after the whole remaining construction, step by step: each
/// entry of `rs` drives one selection; when the unvisited set is empty the
/// tour closes over the edge back to the start.
pub open spec fn spec_tour(c: Aco, st: TourState, rs: Seq<u32>) -> Result<TourState, AcoError>
    decreases rs.len(),
{
    if st.remaining.len() == 0 {
        if st.path.len() >= 1 && c.graph.has_edge(st.current as int, st.path[0] as int) {
            Ok(
                TourState {
                    path: st.path.push(st.path[0]),
                    cost: st.cost + c.graph.dist(st.current as int, st.path[0] as int),
                    current: st.current,
                    remaining: st.remaining,
                },
            )
        } else {
            Err(AcoError::MissingEdgeError)
        }
    } else if rs.len() == 0 {
        Err(AcoError::NoFeasibleMoveError)
    } else {
        match spec_choose(c, st.current as int, st.remaining, rs[0]) {
            Option::None => Err(AcoError::NoFeasibleMoveError),
            Option::Some(j) => spec_tour(
                c,
                TourState {
                    path: st.path.push(j),
                    cost: st.cost + c.graph.dist(st.current as int, j as int),
                    current: j,
                    remaining: st.remaining.remove_value(j),
                },
                rs.drop_first(),
            ),
        }
    }
}

/// Closing a finished walk yields a valid tour with the exact closing cost.
proof fn lemma_close_tour(g: Graph, stb: TourState, start: u8)
    requires
        tour_inv(g, stb),
        stb.remaining.len() == 0,
        start == stb.path[0],
        g.has_edge(stb.current as int, start as int),
    ensures
        valid_tour(g, stb.path.push(start)),
        path_cost(g, stb.path.push(start)) == stb.cost + g.dist(stb.current as int, start as int),
{
    lemma_path_cost_push(g, stb.path, start);
    let p = stb.path.push(start);
    assert(p.take(p.len() - 1) =~= stb.path);
    assert forall|id: u8| (id as int) < g.size() implies #[trigger] p.take(p.len() - 1).contains(
        id,
    ) by {
        assert(!stb.remaining.contains(id));
    }
    assert forall|a: int| 0 <= a < p.len() - 1 implies g.has_edge(
        #[trigger] p[a] as int,
        p[a + 1] as int,
    ) by {
        if a < stb.path.len() - 1 {
            assert(p[a] == stb.path[a] && p[a + 1] == stb.path[a + 1]);
        } else {
            assert(p[a] == stb.current && p[a + 1] == start);
        }
    }
}

/// Some node with no edges at all is still ahead of this ant: unvisited,
/// or the very node it stands on.
pub open spec fn blocked_by_isolated(c: Aco, st: TourState) -> bool {
    exists|k: int|
        0 <= k < c.graph.size() && (#[trigger] c.graph.isolated(k)) && (st.remaining.contains(
            k as u8,
        ) || st.current as int == k)
}

impl Aco {
    /// Construct the rest of this ant's tour, one draw per step, and close
    /// it back to its start node.  The outcome is exactly what `spec_tour`
    /// says of the draws; completeness of the graph guarantees success, and
    /// an isolated node still ahead guarantees `NoFeasibleMoveError`.
    #[verifier::rlimit(100)]
    pub fn move_ant_complete_path(&self, ant: &mut Ant, randoms: &Vec<u32>) -> (r: Result<
        (),
        AcoError,
    >)
        requires
            self.wf(),
            tour_inv(self.graph, ant_state(*old(ant))),
            randoms@.len() == old(ant).remaining_nodes@.len(),
        ensures
            spec_tour(*self, ant_state(*old(ant)), randoms@) matches Ok(st) ==> (r is Ok
                && ant_state(*final(ant)) == st),
            spec_tour(*self, ant_state(*old(ant)), randoms@) matches Err(e) ==> r == Result::<
                (),
                AcoError,
            >::Err(e),
            r is Ok ==> valid_tour(self.graph, final(ant).path@),
            r is Ok ==> final(ant).total_cost as int == path_cost(self.graph, final(ant).path@),
            r is Ok ==> final(ant).path@[0] == old(ant).path@[0],
            self.graph.complete() && self.graph.size() >= 2 ==> r is Ok,
            self.graph.size() >= 2 && blocked_by_isolated(*self, ant_state(*old(ant))) ==> r
                == Result::<(), AcoError>::Err(AcoError::NoFeasibleMoveError),
    {
        let ghost st0 = ant_state(*ant);
        let rlen = randoms.len();
        let mut t: usize = 0;
        proof {
            assert(randoms@.skip(0) =~= randoms@);
        }
        while ant.remaining_nodes.len() > 0
            invariant
                self.wf(),
                st0 == ant_state(*old(ant)),
                tour_inv(self.graph, ant_state(*ant)),
                rlen == randoms@.len(),
                t + ant.remaining_nodes@.len() == randoms@.len(),
                ant.path@[0] == st0.path[0],
                spec_tour(*self, st0, randoms@) == spec_tour(
                    *self,
                    ant_state(*ant),
                    randoms@.skip(t as int),
                ),
                self.graph.size() >= 2 && blocked_by_isolated(*self, st0) ==> blocked_by_isolated(
                    *self,
                    ant_state(*ant),
                ),
            decreases ant.remaining_nodes@.len(),
        {
            let ghost stb = ant_state(*ant);
            proof {
                assert(stb.path[stb.path.len() - 1] == stb.current);
                assert((stb.current as int) < self.graph.size());
                assert(randoms@.skip(t as int).len() > 0);
                assert(randoms@.skip(t as int)[0] == randoms@[t as int]);
            }
            let rv = randoms[t];
            let choice = self.choose_next_node(ant.current_node, &ant.remaining_nodes, rv);
            match choice {
                Option::None => {
                    proof {
                        assert(spec_tour(*self, stb, randoms@.skip(t as int)) == Err::<
                            TourState,
                            AcoError,
                        >(AcoError::NoFeasibleMoveError));
                        if self.graph.complete() && self.graph.size() >= 2 {
                            let x = stb.remaining[0];
                            assert(stb.remaining.contains(x));
                            assert(stb.path.contains(stb.current));
                            assert(!stb.remaining.contains(stb.current));
                            assert(x != stb.current);
                            assert(self.graph.has_edge(stb.current as int, x as int));
                            lemma_cands_props(
                                self.graph,
                                stb.current as int,
                                stb.remaining,
                                self.graph.size(),
                            );
                            assert(spec_candidates(
                                self.graph,
                                stb.current as int,
                                stb.remaining,
                            ).contains(x));
                            assert(false);
                        }
                    }
                    return Err(AcoError::NoFeasibleMoveError);
                },
                Option::Some(next) => {
                    let d = self.graph.nodes[ant.current_node as usize].edges_distances[
                        next as usize];
                    proof {
                        lemma_path_cost_bound(self.graph, stb.path);
                        assert(stb.path.len() <= 255);
                    }
                    proof {
                        assert(t < rlen);
                    }
                    ant.move_to(next, d);
                    t = t + 1;
                    proof {
                        let stn = ant_state(*ant);
                        assert(randoms@.skip(t - 1).drop_first() =~= randoms@.skip(t as int));
                        assert(spec_tour(*self, stb, randoms@.skip(t - 1)) == spec_tour(
                            *self,
                            stn,
                            randoms@.skip(t as int),
                        ));
                        lemma_remove_value_props(stb.remaining, next);
                        lemma_path_cost_push(self.graph, stb.path, next);
                        assert(!stb.path.contains(next));
                        assert forall|a: int, b: int|
                            0 <= a < b < stn.path.len() implies stn.path[a] != stn.path[b] by {
                            if b == stn.path.len() - 1 {
                                assert(stn.path[b] == next);
                                assert(stn.path[a] == stb.path[a]);
                                if stb.path[a] == next {
                                    assert(stb.path.contains(next));
                                }
                            }
                        }
                        assert forall|id: u8|
                            (id as int) < self.graph.size() implies (
                            #[trigger] stn.path.contains(id) <==> !stn.remaining.contains(
                                id,
                            )) by {
                            if stn.path.contains(id) {
                                let w = choose|w: int|
                                    0 <= w < stn.path.len() && stn.path[w] == id;
                                if w < stb.path.len() {
                                    assert(stb.path[w] == id);
                                    assert(stb.path.contains(id));
                                } else {
                                    assert(id == next);
                                }
                            }
                            if !stn.path.contains(id) {
                                assert(stn.path[stn.path.len() - 1] == next);
                                assert(stn.path.contains(next));
                                assert(id != next);
                                assert(forall|w: int|
                                    0 <= w < stb.path.len() ==> stn.path[w] == stb.path[w]);
                                if stb.path.contains(id) {
                                    let w = choose|w: int|
                                        0 <= w < stb.path.len() && stb.path[w] == id;
                                    assert(stn.path[w] == id);
                                }
                                assert(!stb.path.contains(id));
                            }
                        }
                        assert(stn.current == stn.path[stn.path.len() - 1]);
                        assert(tour_inv(self.graph, stn));
                        if self.graph.size() >= 2 && blocked_by_isolated(*self, st0) {
                            let k = choose|k: int|
                                0 <= k < self.graph.size() && (#[trigger] self.graph.isolated(k))
                                    && (stb.remaining.contains(k as u8) || stb.current as int
                                    == k);
                            if stb.current as int == k {
                                assert(self.graph.has_edge(stb.current as int, next as int));
                                assert(!self.graph.has_edge(next as int, k));
                                assert(!self.graph.has_edge(k, next as int));
                                assert(false);
                            } else {
                                assert(stb.remaining.contains(k as u8));
                                if k == next as int {
                                    assert(self.graph.has_edge(stb.current as int, k));
                                    assert(false);
                                }
                                assert(stn.remaining.contains(k as u8));
                                assert(blocked_by_isolated(*self, stn));
                            }
                        }
                    }
                },
            }
        }
        proof {
            assert(t == randoms@.len());
            assert(ant.path@[ant.path@.len() - 1] == ant.current_node);
            assert((ant.current_node as int) < self.graph.size());
            assert((ant.path@[0] as int) < self.graph.size());
        }
        let start = ant.path[0];
        let cur = ant.current_node;
        let d = self.graph.nodes[cur as usize].edges_distances[start as usize];
        if d > 0 {
            let ghost stb = ant_state(*ant);
            proof {
                lemma_path_cost_bound(self.graph, stb.path);
                assert(stb.path.len() <= 255);
            }
            ant.close_path(start, d);
            proof {
                let stn = ant_state(*ant);
                assert(spec_tour(*self, stb, randoms@.skip(t as int)) == Ok::<
                    TourState,
                    AcoError,
                >(stn));
                lemma_close_tour(self.graph, stb, start);
                assert(valid_tour(self.graph, stn.path));
                if self.graph.size() >= 2 && blocked_by_isolated(*self, st0) {
                    let k = choose|k: int|
                        0 <= k < self.graph.size() && (#[trigger] self.graph.isolated(k)) && (
                        stb.remaining.contains(k as u8) || stb.current as int == k);
                    assert(stb.current as int == k);
                    assert(self.graph.has_edge(k, start as int));
                    assert(!self.graph.has_edge(start as int, k));
                    assert(!self.graph.has_edge(k, start as int));
                    assert(false);
                }
            }
            Ok(())
        } else {
            proof {
                let stb = ant_state(*ant);
                assert(spec_tour(*self, stb, randoms@.skip(t as int)) == Err::<
                    TourState,
                    AcoError,
                >(AcoError::MissingEdgeError));
                if self.graph.complete() && self.graph.size() >= 2 {
                    assert(stb.path.len() == self.graph.size());
                    assert(stb.path[0] != stb.path[stb.path.len() - 1]);
                    assert(self.graph.has_edge(stb.current as int, stb.path[0] as int));
                    assert(false);
                }
                if self.graph.size() >= 2 && blocked_by_isolated(*self, st0) {
                    let k = choose|k: int|
                        0 <= k < self.graph.size() && (#[trigger] self.graph.isolated(k)) && (
                        stb.remaining.contains(k as u8) || stb.current as int == k);
                    assert(stb.current as int == k);
                    assert(stb.path.len() == self.graph.size() >= 2);
                    assert(self.graph.has_edge(
                        stb.path[stb.path.len() - 2] as int,
                        stb.path[stb.path.len() - 1] as int,
                    ));
                    assert(!self.graph.has_edge(stb.path[stb.path.len() - 2] as int, k));
                    assert(false);
                }
            }
            Err(AcoError::MissingEdgeError)
        }
    }
}

/// Pheromone never enters a path's cost: graphs of the same structure
/// price every path alike.
proof fn lemma_path_cost_same(g1: Graph, g2: Graph, path: Seq<u8>)
    requires
        Graph::same_structure(g1, g2),
        forall|a: int| 0 <= a < path.len() ==> ((#[trigger] path[a]) as int) < g1.size(),
    ensures
        path_cost(g1, path) == path_cost(g2, path),
    decreases path.len(),
{
    if path.len() > 1 {
        assert forall|a: int|
            0 <= a < path.drop_first().len() implies ((#[trigger] path.drop_first()[a]) as int)
            < g1.size() by {
            assert(path.drop_first()[a] == path[a + 1]);
        }
        lemma_path_cost_same(g1, g2, path.drop_first());
        assert(g2.nodes@[path[0] as int].edges_distances@ == g1.nodes@[
            path[0] as int].edges_distances@);
    }
}

/// Pheromone never enters a tour's validity either.
proof fn lemma_valid_tour_same(g1: Graph, g2: Graph, path: Seq<u8>)
    requires
        Graph::same_structure(g1, g2),
        valid_tour(g1, path),
    ensures
        valid_tour(g2, path),
{
    assert forall|a: int| 0 <= a < path.len() - 1 implies g2.has_edge(
        #[trigger] path[a] as int,
        path[a + 1] as int,
    ) by {
        assert(g2.nodes@[path[a] as int].edges_distances@ == g1.nodes@[
            path[a] as int].edges_distances@);
        assert(g1.has_edge(path[a] as int, path[a + 1] as int));
    }
}

/// A positive evaporation fraction strictly lowers every pheromone value
/// still above the floor.
proof fn lemma_evap_decreases(p: u64, rho: u64, min: u64)
    requires
        1 <= rho <= SCALE,
        p > min,
        min >= 1,
    ensures
        evap_value(p, rho, min) < p,
{
    assert(p * (SCALE - rho) < p * SCALE) by (nonlinear_arith)
        requires
            1 <= rho <= SCALE,
            p >= 1,
    ;
    vstd::arithmetic::div_mod::lemma_multiply_divide_lt(
        (p * (SCALE - rho)) as int,
        SCALE as int,
        p as int,
    );
}

/// A tour of one graph is a tour, at the same cost, of any graph with the
/// same nodes and distances.
pub proof fn lemma_tour_transfer(g1: Graph, g2: Graph, path: Seq<u8>)
    requires
        Graph::same_structure(g1, g2),
        valid_tour(g1, path),
    ensures
        valid_tour(g2, path),
        path_cost(g2, path) == path_cost(g1, path),
{
    lemma_valid_tour_same(g1, g2, path);
    lemma_path_cost_same(g1, g2, path);
}

/// The pheromone left on an edge after one evaporation step: multiplied by
/// `1 - rho` (scaled) and floored at `min`.
pub open spec fn evap_value(p: u64, rho: u64, min: u64) -> int {
    let np = p * (SCALE - rho) / (SCALE as int);
    if np < min {
        min as int
    } else {
        np
    }
}

/// Clamping into `[lo, hi]`.
pub open spec fn clamp(v: int, lo: u64, hi: u64) -> int {
    if v < lo {
        lo as int
    } else if v > hi {
        hi as int
    } else {
        v
    }
}

/// What one tour adds to each of its edges.
pub open spec fn deposit_amount(q: u64, cost: u64) -> int {
    q * SCALE / (cost as int)
}

/// The directed edge `(i, j)` is one of the first `m` steps of `path`.
pub open spec fn on_path_upto(path: Seq<u8>, m: int, i: int, j: int) -> bool {
    exists|w: int|
        0 <= w < m && w < path.len() - 1 && (#[trigger] path[w]) as int == i && path[w + 1] as int
            == j
}

/// The directed edge `(i, j)` is a step of `path`.
pub open spec fn on_path(path: Seq<u8>, i: int, j: int) -> bool {
    on_path_upto(path, path.len() - 1, i, j)
}

/// The pheromone of edge `(i, j)` after the first `m` ants have deposited,
/// in order: each ant whose tour uses the edge adds `q / cost`, clamped.
pub open spec fn spec_deposit_after(
    p: int,
    i: int,
    j: int,
    ants: Seq<Ant>,
    m: int,
    q: u64,
    min: u64,
    max: u64,
) -> int
    decreases m,
{
    if m <= 0 {
        p
    } else {
        let prev = spec_deposit_after(p, i, j, ants, m - 1, q, min, max);
        if on_path(ants[m - 1].path@, i, j) {
            clamp(prev + deposit_amount(q, ants[m - 1].total_cost), min, max)
        } else {
            prev
        }
    }
}

impl Aco {
    /// Multiply every edge's pheromone by `1 - pheromone_persistence`,
    /// floored at `min_pheromone`.  With a positive persistence this
    /// strictly decreases every value still above the floor.
    pub fn evaporate_pheromone(&mut self)
        requires
            old(self).wf(),
        ensures
            final(self).wf(),
            *final(self) == (Aco { graph: final(self).graph, ..*old(self) }),
            Graph::same_structure(old(self).graph, final(self).graph),
            forall|i: int, j: int|
                0 <= i < old(self).graph.size() && 0 <= j < old(self).graph.size() && old(
                    self,
                ).graph.has_edge(i, j) ==> #[trigger] final(self).graph.pher(i, j) == evap_value(
                    old(self).graph.pher(i, j),
                    old(self).pheromone_persistence,
                    old(self).min_pheromone,
                ),
            forall|i: int, j: int|
                0 <= i < old(self).graph.size() && 0 <= j < old(self).graph.size() && !old(
                    self,
                ).graph.has_edge(i, j) ==> #[trigger] final(self).graph.pher(i, j) == old(
                    self,
                ).graph.pher(i, j),
            forall|i: int, j: int|
                0 <= i < old(self).graph.size() && 0 <= j < old(self).graph.size() && old(
                    self,
                ).graph.has_edge(i, j) && old(self).graph.pher(i, j) > old(self).min_pheromone
                    && old(self).pheromone_persistence >= 1 ==> #[trigger] final(self).graph.pher(
                    i,
                    j,
                ) < old(self).graph.pher(i, j),
    {
        let n = self.graph.nodes.len();
        let rho = self.pheromone_persistence;
        let minp = self.min_pheromone;
        let maxp = self.max_pheromone;
        let ghost self0 = *self;
        let ghost g0 = self.graph;
        let mut i: usize = 0;
        while i < n
            invariant
                i <= n,
                n == g0.size(),
                self0.wf(),
                g0 == self0.graph,
                rho == self0.pheromone_persistence,
                minp == self0.min_pheromone,
                maxp == self0.max_pheromone,
                *self == (Aco { graph: self.graph, ..self0 }),
                self.graph.wf(),
                Graph::same_structure(g0, self.graph),
                forall|a: int, b: int|
                    0 <= a < n && 0 <= b < n && a < i && g0.has_edge(a, b)
                        ==> #[trigger] self.graph.pher(a, b) == evap_value(
                        g0.pher(a, b),
                        rho,
                        minp,
                    ),
                forall|a: int, b: int|
                    0 <= a < n && 0 <= b < n && a >= i ==> #[trigger] self.graph.pher(a, b)
                        == g0.pher(a, b),
                forall|a: int, b: int|
                    0 <= a < n && 0 <= b < n && !g0.has_edge(a, b) ==> #[trigger] self.graph.pher(
                        a,
                        b,
                    ) == g0.pher(a, b),
                self.graph.pher_in(minp, maxp),
            decreases n - i,
        {
            let mut j: usize = 0;
            while j < n
                invariant
                    i < n,
                    j <= n,
                    n == g0.size(),
                    self0.wf(),
                    g0 == self0.graph,
                    rho == self0.pheromone_persistence,
                    minp == self0.min_pheromone,
                    maxp == self0.max_pheromone,
                    *self == (Aco { graph: self.graph, ..self0 }),
                    self.graph.wf(),
                    Graph::same_structure(g0, self.graph),
                    forall|a: int, b: int|
                        0 <= a < n && 0 <= b < n && (a < i || (a == i && b < j)) && g0.has_edge(
                            a,
                            b,
                        ) ==> #[trigger] self.graph.pher(a, b) == evap_value(
                            g0.pher(a, b),
                            rho,
                            minp,
                        ),
                    forall|a: int, b: int|
                        0 <= a < n && 0 <= b < n && (a > i || (a == i && b >= j))
                            ==> #[trigger] self.graph.pher(a, b) == g0.pher(a, b),
                    forall|a: int, b: int|
                        0 <= a < n && 0 <= b < n && !g0.has_edge(a, b)
                            ==> #[trigger] self.graph.pher(a, b) == g0.pher(a, b),
                    self.graph.pher_in(minp, maxp),
                decreases n - j,
            {
                let d = self.graph.nodes[i].edges_distances[j];
                if d > 0 {
                    let p = self.graph.nodes[i].edges_pheromones[j];
                    proof {
                        assert(self.graph.nodes@[i as int].edges_distances@ == g0.nodes@[
                            i as int].edges_distances@);
                        assert(g0.has_edge(i as int, j as int));
                        assert(p == self.graph.pher(i as int, j as int));
                        assert(p == g0.pher(i as int, j as int));
                        assert(minp <= p <= maxp);
                        assert(p * (SCALE - rho) <= 1_000_000_000_000 * 1000)
                            by (nonlinear_arith)
                            requires
                                0 <= p <= 1_000_000_000_000,
                                0 <= SCALE - rho <= 1000,
                        ;
                    }
                    let mut np = p * (SCALE - rho) / SCALE;
                    if np < minp {
                        np = minp;
                    }
                    proof {
                        let pv = p * (SCALE - rho) / (SCALE as int);
                        vstd::arithmetic::div_mod::lemma_div_pos_is_pos(
                            (p * (SCALE - rho)) as int,
                            SCALE as int,
                        );
                        assert(p * (SCALE - rho) <= p * SCALE) by (nonlinear_arith)
                            requires
                                rho >= 0,
                                p >= 0,
                        ;
                        vstd::arithmetic::div_mod::lemma_div_is_ordered(
                            (p * (SCALE - rho)) as int,
                            (p * SCALE) as int,
                            SCALE as int,
                        );
                        vstd::arithmetic::div_mod::lemma_div_by_multiple(p as int, SCALE as int);
                        assert(pv <= p);
                        if rho >= 1 && p > minp {
                            assert(p * (SCALE - rho) < p * SCALE) by (nonlinear_arith)
                                requires
                                    1 <= rho <= SCALE,
                                    p >= 1,
                            ;
                            vstd::arithmetic::div_mod::lemma_multiply_divide_lt(
                                (p * (SCALE - rho)) as int,
                                SCALE as int,
                                p as int,
                            );
                            assert(pv < p);
                        }
                        assert(np == evap_value(p, rho, minp));
                    }
                    let ghost gprev = self.graph;
                    self.graph.nodes[i].edges_pheromones[j] = np;
                    proof {
                        assert(self.graph.nodes@[i as int].edges_pheromones@ == gprev.nodes@[
                            i as int].edges_pheromones@.update(j as int, np));
                        assert forall|a: int, b: int|
                            0 <= a < n && 0 <= b < n && !(a == i as int && b
                                == j as int) implies #[trigger] self.graph.pher(a, b)
                            == gprev.pher(a, b) by {}
                        assert(self.graph.pher(i as int, j as int) == np);
                        assert forall|a: int|
                            0 <= a < self.graph.size() implies {
                                &&& (#[trigger] self.graph.nodes@[a]).id == a as u8
                                &&& self.graph.nodes@[a].edges_distances@.len()
                                    == self.graph.size()
                                &&& self.graph.nodes@[a].edges_pheromones@.len()
                                    == self.graph.size()
                            } by {}
                        assert forall|a: int, b: int|
                            0 <= a < self.graph.size() && 0 <= b < self.graph.size() implies {
                                &&& #[trigger] self.graph.dist(a, b) <= MAX_ENTRY
                                &&& (self.graph.dist(a, b) == 0 ==> self.graph.pher(a, b) == 0)
                            } by {
                            assert(gprev.dist(a, b) <= MAX_ENTRY);
                            if !(a == i as int && b == j as int) {
                                assert(self.graph.pher(a, b) == gprev.pher(a, b));
                            }
                        }
                    }
                }
                j = j + 1;
            }
            i = i + 1;
        }
        proof {
            if self.elite_ant.total_cost != INFINITE_COST {
                lemma_valid_tour_same(g0, self.graph, self.elite_ant.path@);
                lemma_path_cost_same(g0, self.graph, self.elite_ant.path@);
            }
            assert forall|a: int, b: int|
                0 <= a < g0.size() && 0 <= b < g0.size() && g0.has_edge(a, b) && g0.pher(a, b)
                    > minp && rho >= 1 implies #[trigger] self.graph.pher(a, b) < g0.pher(
                a,
                b,
            ) by {
                lemma_evap_decreases(g0.pher(a, b), rho, minp);
            }
        }
    }
}

impl Aco {
    /// Deposit this ant's reinforcement: every directed edge of its closed
    /// tour gains `q / total_cost`, clamped into the pheromone bounds; a
    /// step over an absent edge is skipped as a recoverable anomaly.
    pub fn update_pheronome(&mut self, ant: &Ant)
        requires
            old(self).wf(),
            valid_tour(old(self).graph, ant.path@),
            1 <= ant.total_cost,
        ensures
            final(self).wf(),
            *final(self) == (Aco { graph: final(self).graph, ..*old(self) }),
            Graph::same_structure(old(self).graph, final(self).graph),
            forall|i: int, j: int|
                0 <= i < old(self).graph.size() && 0 <= j < old(self).graph.size() && old(
                    self,
                ).graph.has_edge(i, j) && on_path(ant.path@, i, j)
                    ==> #[trigger] final(self).graph.pher(i, j) == clamp(
                    old(self).graph.pher(i, j) + deposit_amount(old(self).q, ant.total_cost),
                    old(self).min_pheromone,
                    old(self).max_pheromone,
                ),
            forall|i: int, j: int|
                0 <= i < old(self).graph.size() && 0 <= j < old(self).graph.size() && !(old(
                    self,
                ).graph.has_edge(i, j) && on_path(ant.path@, i, j))
                    ==> #[trigger] final(self).graph.pher(i, j) == old(self).graph.pher(i, j),
    {
        let ghost self0 = *self;
        let ghost g0 = self.graph;
        let cost = ant.total_cost;
        let q = self.q;
        let minp = self.min_pheromone;
        let maxp = self.max_pheromone;
        let n = self.graph.nodes.len();
        let steps = ant.path.len() - 1;
        let mut k: usize = 0;
        while k < steps
            invariant
                k <= steps,
                steps == ant.path@.len() - 1,
                n == g0.size(),
                self0.wf(),
                g0 == self0.graph,
                q == self0.q,
                cost == ant.total_cost,
                1 <= cost,
                minp == self0.min_pheromone,
                maxp == self0.max_pheromone,
                valid_tour(g0, ant.path@),
                *self == (Aco { graph: self.graph, ..self0 }),
                self.graph.wf(),
                Graph::same_structure(g0, self.graph),
                forall|a: int, b: int|
                    0 <= a < n && 0 <= b < n && g0.has_edge(a, b) && on_path_upto(
                        ant.path@,
                        k as int,
                        a,
                        b,
                    ) ==> #[trigger] self.graph.pher(a, b) == clamp(
                        g0.pher(a, b) + deposit_amount(q, cost),
                        minp,
                        maxp,
                    ),
                forall|a: int, b: int|
                    0 <= a < n && 0 <= b < n && !(g0.has_edge(a, b) && on_path_upto(
                        ant.path@,
                        k as int,
                        a,
                        b,
                    )) ==> #[trigger] self.graph.pher(a, b) == g0.pher(a, b),
                self.graph.pher_in(minp, maxp),
            decreases steps - k,
        {
            let ci = ant.path[k];
            let cj = ant.path[k + 1];
            let d = self.graph.nodes[ci as usize].edges_distances[cj as usize];
            let ghost gprev = self.graph;
            if d > 0 {
                proof {
                    assert(self.graph.nodes@[ci as int].edges_distances@ == g0.nodes@[
                        ci as int].edges_distances@);
                    assert(g0.has_edge(ci as int, cj as int));
                    assert forall|w: int|
                        0 <= w < k && w < ant.path@.len() - 1 implies !((#[trigger] ant.path@[
                        w]) as int == ci as int && ant.path@[w + 1] as int == cj as int) by {
                        if ant.path@[w] == ant.path@[k as int] {
                            assert(w == k);
                        }
                    }
                    assert(!on_path_upto(ant.path@, k as int, ci as int, cj as int));
                    assert(self.graph.pher(ci as int, cj as int) == g0.pher(ci as int, cj as int));
                    assert(minp <= self.graph.pher(ci as int, cj as int) <= maxp);
                    vstd::arithmetic::div_mod::lemma_div_nonincreasing(
                        (q * SCALE) as int,
                        cost as int,
                    );
                    vstd::arithmetic::div_mod::lemma_div_pos_is_pos(
                        (q * SCALE) as int,
                        cost as int,
                    );
                }
                let p = self.graph.nodes[ci as usize].edges_pheromones[cj as usize];
                let dep = q * SCALE / cost;
                let mut np = p + dep;
                if np < minp {
                    np = minp;
                }
                if np > maxp {
                    np = maxp;
                }
                self.graph.nodes[ci as usize].edges_pheromones[cj as usize] = np;
                proof {
                    assert(np == clamp(
                        g0.pher(ci as int, cj as int) + deposit_amount(q, cost),
                        minp,
                        maxp,
                    ));
                    assert(self.graph.nodes@[ci as int].edges_pheromones@ == gprev.nodes@[
                        ci as int].edges_pheromones@.update(cj as int, np));
                    assert forall|a: int, b: int|
                        0 <= a < n && 0 <= b < n && !(a == ci as int && b
                            == cj as int) implies #[trigger] self.graph.pher(a, b) == gprev.pher(
                        a,
                        b,
                    ) by {}
                    assert forall|a: int|
                        0 <= a < self.graph.size() implies {
                            &&& (#[trigger] self.graph.nodes@[a]).id == a as u8
                            &&& self.graph.nodes@[a].edges_distances@.len() == self.graph.size()
                            &&& self.graph.nodes@[a].edges_pheromones@.len() == self.graph.size()
                        } by {}
                    assert forall|a: int, b: int|
                        0 <= a < self.graph.size() && 0 <= b < self.graph.size() implies {
                            &&& #[trigger] self.graph.dist(a, b) <= MAX_ENTRY
                            &&& (self.graph.dist(a, b) == 0 ==> self.graph.pher(a, b) == 0)
                        } by {
                        assert(gprev.dist(a, b) <= MAX_ENTRY);
                        if !(a == ci as int && b == cj as int) {
                            assert(self.graph.pher(a, b) == gprev.pher(a, b));
                        }
                    }
                }
            }
            k = k + 1;
            proof {
                assert forall|a: int, b: int|
                    0 <= a < n && 0 <= b < n && !(g0.has_edge(a, b) && on_path_upto(
                        ant.path@,
                        k as int,
                        a,
                        b,
                    )) implies #[trigger] self.graph.pher(a, b) == g0.pher(a, b) by {
                    if !(a == ci as int && b == cj as int) {
                        if on_path_upto(ant.path@, k - 1, a, b) {
                            assert(on_path_upto(ant.path@, k as int, a, b));
                        }
                        assert(self.graph.pher(a, b) == gprev.pher(a, b));
                    }
                }
                assert forall|a: int, b: int|
                    0 <= a < n && 0 <= b < n && g0.has_edge(a, b) && on_path_upto(
                        ant.path@,
                        k as int,
                        a,
                        b,
                    ) implies #[trigger] self.graph.pher(a, b) == clamp(
                        g0.pher(a, b) + deposit_amount(q, cost),
                        minp,
                        maxp,
                    ) by {
                    if !(a == ci as int && b == cj as int) {
                        let w = choose|w: int|
                            0 <= w < k && w < ant.path@.len() - 1 && (#[trigger] ant.path@[
                            w]) as int == a && ant.path@[w + 1] as int == b;
                        assert(w != k - 1);
                        assert(on_path_upto(ant.path@, k - 1, a, b));
                    }
                }
            }
        }
        proof {
            if self.elite_ant.total_cost != INFINITE_COST {
                lemma_valid_tour_same(g0, self.graph, self.elite_ant.path@);
                lemma_path_cost_same(g0, self.graph, self.elite_ant.path@);
            }
        }
    }
}

/// A fresh ant's state satisfies the construction invariant.
proof fn lemma_fresh_tour_inv(g: Graph, a: Ant)
    requires
        g.wf(),
        1 <= g.size(),
        fresh_ant(a, g),
    ensures
        tour_inv(g, ant_state(a)),
        ant_state(a).remaining.len() == g.size() - 1,
{
    let st = ant_state(a);
    assert(st.path[0] == 0);
    assert forall|id: u8| (id as int) < g.size() implies (#[trigger] st.path.contains(id)
        <==> !st.remaining.contains(id)) by {
        if id == 0 {
            assert(st.path[0] == 0u8);
            assert(st.path.contains(0u8));
            if st.remaining.contains(id) {
                let w = choose|w: int| 0 <= w < st.remaining.len() && st.remaining[w] == id;
                assert(st.remaining[w] != 0u8);
            }
        } else {
            assert(st.remaining[id - 1] == id);
            assert(st.remaining.contains(id));
            if st.path.contains(id) {
                let w = choose|w: int| 0 <= w < st.path.len() && st.path[w] == id;
                assert(st.path[w] == 0u8);
            }
        }
    }
}

impl Aco {
    /// Construct a complete tour for every ant of the population, one
    /// after the other; the first failure aborts the batch untouched.
    pub fn move_all_ants(&mut self, randoms: &Vec<u32>) -> (r: Result<(), AcoError>)
        requires
            old(self).wf(),
            old(self).ants@.len() == old(self).number_of_ants,
            forall|k: int|
                0 <= k < old(self).ants@.len() ==> fresh_ant(
                    #[trigger] old(self).ants@[k],
                    old(self).graph,
                ),
            randoms@.len() == old(self).number_of_ants * (old(self).graph.size() - 1),
        ensures
            r is Err ==> *final(self) == *old(self),
            old(self).graph.complete() && old(self).graph.size() >= 2 ==> r is Ok,
            old(self).graph.size() >= 2 && (exists|k: int|
                0 <= k < old(self).graph.size() && old(self).graph.isolated(k)) ==> r == Result::<
                (),
                AcoError,
            >::Err(AcoError::NoFeasibleMoveError),
            r is Ok ==> *final(self) == (Aco { ants: final(self).ants, ..*old(self) }),
            r is Ok ==> final(self).ants@.len() == old(self).ants@.len(),
            r is Ok ==> forall|k: int|
                0 <= k < final(self).ants@.len() ==> {
                    let a = #[trigger] final(self).ants@[k];
                    &&& valid_tour(old(self).graph, a.path@)
                    &&& a.total_cost as int == path_cost(old(self).graph, a.path@)
                    &&& a.path@[0] == 0
                    &&& ant_state(a) == spec_tour(
                        *old(self),
                        ant_state(old(self).ants@[k]),
                        randoms@.subrange(
                            k * (old(self).graph.size() - 1),
                            (k + 1) * (old(self).graph.size() - 1),
                        ),
                    ).unwrap()
                },
    {
        let n = self.graph.nodes.len();
        let m = n - 1;
        let count = self.ants.len();
        let rlen = randoms.len();
        let ghost self0 = *self;
        let mut new_ants: Vec<Ant> = Vec::new();
        let mut k: usize = 0;
        while k < count
            invariant
                k <= count,
                count == self0.ants@.len(),
                count == self0.number_of_ants,
                n == self0.graph.size(),
                m == n - 1,
                1 <= n,
                *self == self0,
                self0.wf(),
                forall|x: int|
                    0 <= x < count ==> fresh_ant(#[trigger] self0.ants@[x], self0.graph),
                randoms@.len() == count * m,
                rlen == randoms@.len(),
                new_ants@.len() == k,
                forall|x: int|
                    0 <= x < k ==> {
                        let a = #[trigger] new_ants@[x];
                        &&& valid_tour(self0.graph, a.path@)
                        &&& a.total_cost as int == path_cost(self0.graph, a.path@)
                        &&& a.path@[0] == 0
                        &&& ant_state(a) == spec_tour(
                            self0,
                            ant_state(self0.ants@[x]),
                            randoms@.subrange(x * m, (x + 1) * m),
                        ).unwrap()
                    },
                k >= 1 ==> !(self0.graph.size() >= 2 && (exists|w: int|
                    0 <= w < self0.graph.size() && self0.graph.isolated(w))),
            decreases count - k,
        {
            proof {
                assert((k + 1) * m <= count * m) by (nonlinear_arith)
                    requires
                        k + 1 <= count,
                        m >= 0,
                ;
                assert((k + 1) * m == k * m + m) by (nonlinear_arith);
                assert(k * m >= 0) by (nonlinear_arith)
                    requires
                        k >= 0,
                        m >= 0,
                ;
                assert(k * m <= (k + 1) * m) by (nonlinear_arith)
                    requires
                        k >= 0,
                        m >= 0,
                ;
            }
            let base = k * m;
            let mut seg: Vec<u32> = Vec::new();
            let mut t: usize = 0;
            while t < m
                invariant
                    t <= m,
                    rlen == randoms@.len(),
                    base + m <= rlen,
                    seg@ == randoms@.subrange(base as int, base + t),
                decreases m - t,
            {
                seg.push(randoms[base + t]);
                proof {
                    assert(seg@ =~= randoms@.subrange(base as int, base + t + 1));
                }
                t = t + 1;
            }
            let mut ant = self.ants[k].clone();
            proof {
                assert(fresh_ant(ant, self.graph));
                lemma_fresh_tour_inv(self.graph, ant);
                assert(ant_state(ant) == ant_state(self0.ants@[k as int]));
            }
            let res = self.move_ant_complete_path(&mut ant, &seg);
            let ghost st0 = ant_state(self0.ants@[k as int]);
            proof {
                if self.graph.size() >= 2 && (exists|w: int|
                    0 <= w < self.graph.size() && self.graph.isolated(w)) {
                    let w = choose|w: int|
                        0 <= w < self.graph.size() && (#[trigger] self.graph.isolated(w));
                    if w == 0 {
                        assert(st0.current as int == w);
                    } else {
                        assert(st0.remaining[w - 1] == w as u8);
                        assert(st0.remaining.contains(w as u8));
                    }
                    assert(blocked_by_isolated(*self, st0));
                }
            }
            match res {
                Result::Err(e) => {
                    return Err(e);
                },
                Result::Ok(u) => {
                    new_ants.push(ant);
                },
            }
            k = k + 1;
        }
        self.ants = new_ants;
        Ok(())
    }

    /// Deposit every ant's reinforcement, in population order.
    pub fn update_pheronome_all_ants(&mut self)
        requires
            old(self).wf(),
            forall|k: int|
                0 <= k < old(self).ants@.len() ==> valid_tour(
                    old(self).graph,
                    (#[trigger] old(self).ants@[k]).path@,
                ) && 1 <= old(self).ants@[k].total_cost,
        ensures
            final(self).wf(),
            *final(self) == (Aco { graph: final(self).graph, ..*old(self) }),
            Graph::same_structure(old(self).graph, final(self).graph),
            forall|i: int, j: int|
                0 <= i < old(self).graph.size() && 0 <= j < old(self).graph.size() && old(
                    self,
                ).graph.has_edge(i, j) ==> #[trigger] final(self).graph.pher(i, j)
                    == spec_deposit_after(
                    old(self).graph.pher(i, j) as int,
                    i,
                    j,
                    old(self).ants@,
                    old(self).ants@.len() as int,
                    old(self).q,
                    old(self).min_pheromone,
                    old(self).max_pheromone,
                ),
            forall|i: int, j: int|
                0 <= i < old(self).graph.size() && 0 <= j < old(self).graph.size() && !old(
                    self,
                ).graph.has_edge(i, j) ==> #[trigger] final(self).graph.pher(i, j) == old(
                    self,
                ).graph.pher(i, j),
    {
        let ghost self0 = *self;
        let ghost g0 = self.graph;
        let count = self.ants.len();
        let mut a: usize = 0;
        while a < count
            invariant
                a <= count,
                count == self.ants@.len(),
                self0.wf(),
                g0 == self0.graph,
                self.ants@ == self0.ants@,
                forall|k: int|
                    0 <= k < count ==> valid_tour(g0, (#[trigger] self0.ants@[k]).path@) && 1
                        <= self0.ants@[k].total_cost,
                *self == (Aco { graph: self.graph, ..self0 }),
                self.wf(),
                Graph::same_structure(g0, self.graph),
                forall|i: int, j: int|
                    0 <= i < g0.size() && 0 <= j < g0.size() && g0.has_edge(i, j)
                        ==> #[trigger] self.graph.pher(i, j) == spec_deposit_after(
                        g0.pher(i, j) as int,
                        i,
                        j,
                        self0.ants@,
                        a as int,
                        self0.q,
                        self0.min_pheromone,
                        self0.max_pheromone,
                    ),
                forall|i: int, j: int|
                    0 <= i < g0.size() && 0 <= j < g0.size() && !g0.has_edge(i, j)
                        ==> #[trigger] self.graph.pher(i, j) == g0.pher(i, j),
            decreases count - a,
        {
            let ant = self.ants[a].clone();
            let ghost gprev = self.graph;
            proof {
                lemma_valid_tour_same(g0, self.graph, ant.path@);
            }
            self.update_pheronome(&ant);
            a = a + 1;
            proof {
                assert forall|i: int, j: int|
                    0 <= i < g0.size() && 0 <= j < g0.size() && g0.has_edge(
                        i,
                        j,
                    ) implies #[trigger] self.graph.pher(i, j) == spec_deposit_after(
                    g0.pher(i, j) as int,
                    i,
                    j,
                    self0.ants@,
                    a as int,
                    self0.q,
                    self0.min_pheromone,
                    self0.max_pheromone,
                ) by {
                    assert(gprev.has_edge(i, j));
                    assert(ant.path@ == self0.ants@[a - 1].path@);
                    if on_path(ant.path@, i, j) {
                        assert(self.graph.pher(i, j) == clamp(
                            gprev.pher(i, j) + deposit_amount(self0.q, ant.total_cost),
                            self0.min_pheromone,
                            self0.max_pheromone,
                        ));
                    } else {
                        assert(self.graph.pher(i, j) == gprev.pher(i, j));
                    }
                }
            }
        }
    }
}

/// The index the elite comparison selects: among the ants whose tour
/// starts at the reference node, the cheapest, ties to the later one.
pub open spec fn spec_best_idx(ants: Seq<Ant>, m: int) -> Option<int>
    decreases m,
{
    if m <= 0 {
        None
    } else {
        let prev = spec_best_idx(ants, m - 1);
        let a = ants[m - 1];
        if a.path@.len() >= 1 && a.path@[0] == 0 && (prev is None || a.total_cost <= ants[
            prev.unwrap()].total_cost) {
            Some(m - 1)
        } else {
            prev
        }
    }
}

impl Aco {
    /// One full generation driven by the given draws: fresh population,
    /// tour construction, evaporation, deposition, elite update.  Pheromone
    /// stays inside its clamps and the elite cost never worsens.
    pub fn iterate_with(&mut self, randoms: &Vec<u32>) -> (r: Result<(), AcoError>)
        requires
            old(self).wf(),
            randoms@.len() == old(self).number_of_ants * (old(self).graph.size() - 1),
        ensures
            final(self).wf(),
            final(self).graph.pher_in(final(self).min_pheromone, final(self).max_pheromone),
            final(self).elite_ant.total_cost <= old(self).elite_ant.total_cost,
            *final(self) == (Aco {
                ants: final(self).ants,
                graph: final(self).graph,
                elite_ant: final(self).elite_ant,
                ..*old(self)
            }),
            Graph::same_structure(old(self).graph, final(self).graph),
            old(self).graph.complete() && old(self).graph.size() >= 2 ==> r is Ok,
            old(self).graph.size() >= 2 && (exists|k: int|
                0 <= k < old(self).graph.size() && old(self).graph.isolated(k)) ==> r == Result::<
                (),
                AcoError,
            >::Err(AcoError::NoFeasibleMoveError),
            r is Err ==> final(self).graph == old(self).graph && final(self).elite_ant == old(
                self,
            ).elite_ant,
            r is Ok ==> final(self).elite_ant.total_cost < INFINITE_COST,
            r is Ok ==> forall|k: int|
                0 <= k < final(self).ants@.len() ==> final(self).elite_ant.total_cost <= (
                #[trigger] final(self).ants@[k]).total_cost,
            r is Ok ==> (spec_best_idx(final(self).ants@, final(self).ants@.len() as int)
                matches Some(b) && (if final(self).ants@[b].total_cost
                    < old(self).elite_ant.total_cost {
                final(self).elite_ant.path@ == final(self).ants@[b].path@
                    && final(self).elite_ant.total_cost == final(self).ants@[b].total_cost
            } else {
                final(self).elite_ant == old(self).elite_ant
            })),
    {
        self.reset_ants();
        let res = self.move_all_ants(randoms);
        match res {
            Result::Err(e) => {
                return Err(e);
            },
            Result::Ok(u) => {},
        }
        let ghost cm = *self;
        proof {
            assert forall|k: int|
                0 <= k < self.ants@.len() implies valid_tour(
                self.graph,
                (#[trigger] self.ants@[k]).path@,
            ) && 1 <= self.ants@[k].total_cost by {
                lemma_path_cost_lower(self.graph, self.ants@[k].path@);
            }
        }
        self.evaporate_pheromone();
        proof {
            assert forall|k: int|
                0 <= k < self.ants@.len() implies valid_tour(
                self.graph,
                (#[trigger] self.ants@[k]).path@,
            ) && 1 <= self.ants@[k].total_cost by {
                lemma_valid_tour_same(cm.graph, self.graph, self.ants@[k].path@);
            }
        }
        self.update_pheronome_all_ants();
        proof {
            assert forall|k: int|
                0 <= k < self.ants@.len() implies valid_tour(
                self.graph,
                (#[trigger] self.ants@[k]).path@,
            ) && self.ants@[k].total_cost as int == path_cost(
                self.graph,
                self.ants@[k].path@,
            ) && (#[trigger] self.ants@[k]).path@.len() >= 1 && self.ants@[k].path@[0] == 0 by {
                lemma_valid_tour_same(cm.graph, self.graph, self.ants@[k].path@);
                lemma_path_cost_same(cm.graph, self.graph, self.ants@[k].path@);
            }
        }
        // elite update: the best of the ants that start at the reference
        // node, ties to the later one, replaces a strictly worse elite
        let count = self.ants.len();
        let mut best: usize = 0;
        let mut found = false;
        let mut k: usize = 0;
        while k < count
            invariant
                k <= count,
                count == self.ants@.len(),
                found ==> best < count && self.ants@[best as int].path@.len() >= 1 && self.ants@[
                    best as int].path@[0] == 0,
                found ==> forall|w: int|
                    0 <= w < k && (#[trigger] self.ants@[w]).path@.len() >= 1 && self.ants@[
                        w].path@[0] == 0 ==> self.ants@[best as int].total_cost <= self.ants@[
                        w].total_cost,
                !found ==> forall|w: int|
                    0 <= w < k ==> !((#[trigger] self.ants@[w]).path@.len() >= 1 && self.ants@[
                        w].path@[0] == 0),
                found <==> spec_best_idx(self.ants@, k as int) is Some,
                found ==> best as int == spec_best_idx(self.ants@, k as int).unwrap(),
            decreases count - k,
        {
            if self.ants[k].path.len() >= 1 && self.ants[k].path[0] == 0 {
                if !found || self.ants[k].total_cost <= self.ants[best].total_cost {
                    best = k;
                    found = true;
                }
            }
            k = k + 1;
        }
        proof {
            assert(count >= 1);
            assert(self.ants@[0].path@.len() >= 1 && self.ants@[0].path@[0] == 0);
            assert(found);
            lemma_path_cost_bound(self.graph, self.ants@[best as int].path@);
            assert(self.ants@[best as int].total_cost < INFINITE_COST);
        }
        if found && self.ants[best].total_cost < self.elite_ant.total_cost {
            self.elite_ant = self.ants[best].clone();
        }
        Ok(())
    }

    /// One full generation with fresh randomness: draws one value per
    /// construction step and runs `iterate_with` on them.
    pub fn iterate(&mut self) -> (r: Result<(), AcoError>)
        requires
            old(self).wf(),
        ensures
            final(self).wf(),
            final(self).graph.pher_in(final(self).min_pheromone, final(self).max_pheromone),
            final(self).elite_ant.total_cost <= old(self).elite_ant.total_cost,
            *final(self) == (Aco {
                ants: final(self).ants,
                graph: final(self).graph,
                elite_ant: final(self).elite_ant,
                ..*old(self)
            }),
            Graph::same_structure(old(self).graph, final(self).graph),
            old(self).graph.complete() && old(self).graph.size() >= 2 ==> r is Ok,
            old(self).graph.size() >= 2 && (exists|k: int|
                0 <= k < old(self).graph.size() && old(self).graph.isolated(k)) ==> r == Result::<
                (),
                AcoError,
            >::Err(AcoError::NoFeasibleMoveError),
            r is Ok ==> final(self).elite_ant.total_cost < INFINITE_COST,
    {
        let n = self.graph.nodes.len();
        proof {
            assert(self.number_of_ants * (n - 1) <= 65535 * 254) by (nonlinear_arith)
                requires
                    self.number_of_ants <= 65535,
                    0 <= n - 1 <= 254,
            ;
        }
        let m = self.number_of_ants * (n - 1);
        let mut rs: Vec<u32> = Vec::new();
        let mut i: usize = 0;
        while i < m
            invariant
                i <= m,
                rs@.len() == i,
            decreases m - i,
        {
            let v = rng::random_u32();
            rs.push(v);
            i = i + 1;
        }
        self.iterate_with(&rs)
    }
}

/// Two colonies agree on everything tour construction reads: the
/// exponents, and both matrices entry by entry.
pub open spec fn same_setting(c1: Aco, c2: Aco) -> bool {
    &&& c1.alpha == c2.alpha
    &&& c1.beta == c2.beta
    &&& c2.graph.size() == c1.graph.size()
    &&& c1.graph.size() <= 255
    &&& forall|i: int|
        0 <= i < c1.graph.size() ==> {
            &&& (#[trigger] c2.graph.nodes@[i]).edges_distances@ == c1.graph.nodes@[
                i].edges_distances@
            &&& c2.graph.nodes@[i].edges_pheromones@ == c1.graph.nodes@[i].edges_pheromones@
        }
}

/// What remains after striking a value was already there.
proof fn lemma_remove_value_subset(s: Seq<u8>, v: u8)
    ensures
        forall|x: int|
            0 <= x < s.remove_value(v).len() ==> s.contains(#[trigger] s.remove_value(v)[x]),
{
    s.index_of_first_ensures(v);
    if s.contains(v) {
        let i = s.index_of_first(v).unwrap();
        s.remove_ensures(i);
        assert forall|x: int|
            0 <= x < s.remove_value(v).len() implies s.contains(
            #[trigger] s.remove_value(v)[x],
        ) by {
            if x < i {
                assert(s.remove_value(v)[x] == s[x]);
            } else {
                assert(s.remove_value(v)[x] == s[x + 1]);
            }
        }
    } else {
        assert forall|x: int|
            0 <= x < s.remove_value(v).len() implies s.contains(
            #[trigger] s.remove_value(v)[x],
        ) by {}
    }
}

/// Candidate gathering reads only the shared entries.
proof fn lemma_cands_congruent(c1: Aco, c2: Aco, cur: int, rem: Seq<u8>, j: int)
    requires
        same_setting(c1, c2),
        0 <= cur < c1.graph.size(),
        0 <= j <= c1.graph.size(),
    ensures
        spec_cands_upto(c2.graph, cur, rem, j) == spec_cands_upto(c1.graph, cur, rem, j),
    decreases j,
{
    if j > 0 {
        lemma_cands_congruent(c1, c2, cur, rem, j - 1);
        assert(c2.graph.nodes@[cur].edges_distances@ == c1.graph.nodes@[cur].edges_distances@);
    }
}

/// Desirability reads only the shared entries.
proof fn lemma_desire_congruent(c1: Aco, c2: Aco, cur: int, j: int)
    requires
        same_setting(c1, c2),
        0 <= cur < c1.graph.size(),
        0 <= j < c1.graph.size(),
    ensures
        c2.spec_desire(cur, j) == c1.spec_desire(cur, j),
{
    assert(c2.graph.nodes@[cur].edges_distances@ == c1.graph.nodes@[cur].edges_distances@);
}

/// So does the total over any candidate set from the shared graph.
proof fn lemma_total_congruent(c1: Aco, c2: Aco, cur: int, cands: Seq<u8>)
    requires
        same_setting(c1, c2),
        0 <= cur < c1.graph.size(),
        forall|x: int| 0 <= x < cands.len() ==> ((#[trigger] cands[x]) as int) < c1.graph.size(),
    ensures
        spec_total_desire(c2, cur, cands) == spec_total_desire(c1, cur, cands),
    decreases cands.len(),
{
    if cands.len() > 0 {
        assert forall|x: int|
            0 <= x < cands.drop_last().len() implies ((#[trigger] cands.drop_last()[x]) as int)
            < c1.graph.size() by {
            assert(cands.drop_last()[x] == cands[x]);
        }
        lemma_total_congruent(c1, c2, cur, cands.drop_last());
        lemma_desire_congruent(c1, c2, cur, cands.last() as int);
    }
}

/// And so does the walk that picks the selected candidate.
proof fn lemma_pick_congruent(c1: Aco, c2: Aco, cur: int, cands: Seq<u8>, total: int, rv: u32, i: int)
    requires
        same_setting(c1, c2),
        0 <= cur < c1.graph.size(),
        forall|x: int| 0 <= x < cands.len() ==> ((#[trigger] cands[x]) as int) < c1.graph.size(),
    ensures
        spec_pick_from(c2, cur, cands, total, rv, i) == spec_pick_from(c1, cur, cands, total, rv, i),
    decreases cands.len() - i,
{
    if 0 <= i < cands.len() {
        lemma_desire_congruent(c1, c2, cur, cands[i] as int);
        lemma_pick_congruent(c1, c2, cur, cands, total, rv, i + 1);
    }
}

/// One selection step is the same in both colonies.
proof fn lemma_choose_congruent(c1: Aco, c2: Aco, cur: int, rem: Seq<u8>, rv: u32)
    requires
        same_setting(c1, c2),
        0 <= cur < c1.graph.size(),
    ensures
        spec_choose(c2, cur, rem, rv) == spec_choose(c1, cur, rem, rv),
{
    lemma_cands_congruent(c1, c2, cur, rem, c1.graph.size());
    let cands = spec_candidates(c1.graph, cur, rem);
    lemma_cands_props(c1.graph, cur, rem, c1.graph.size());
    if cands.len() > 0 {
        lemma_total_congruent(c1, c2, cur, cands);
        lemma_pick_congruent(c1, c2, cur, cands, spec_total_desire(c1, cur, cands), rv, 0);
    }
}

/// Determinism under fixed randomness: two colonies that agree on their
/// graph entries and exponents construct, from the same state and the same
/// draws, exactly the same tour with the same cost, step by step.
pub proof fn lemma_tour_deterministic(c1: Aco, c2: Aco, st: TourState, rs: Seq<u32>)
    requires
        same_setting(c1, c2),
        (st.current as int) < c1.graph.size(),
        forall|a: int| 0 <= a < st.path.len() ==> ((#[trigger] st.path[a]) as int) < c1.graph.size(),
        forall|a: int|
            0 <= a < st.remaining.len() ==> ((#[trigger] st.remaining[a]) as int)
                < c1.graph.size(),
    ensures
        spec_tour(c2, st, rs) == spec_tour(c1, st, rs),
    decreases rs.len(),
{
    if st.remaining.len() == 0 {
        if st.path.len() >= 1 {
            assert(c2.graph.nodes@[st.current as int].edges_distances@ == c1.graph.nodes@[
                st.current as int].edges_distances@);
        }
    } else if rs.len() == 0 {
    } else {
        lemma_choose_congruent(c1, c2, st.current as int, st.remaining, rs[0]);
        match spec_choose(c1, st.current as int, st.remaining, rs[0]) {
            Option::None => {},
            Option::Some(j) => {
                lemma_choose_props(c1, st.current as int, st.remaining, rs[0]);
                assert(c2.graph.nodes@[st.current as int].edges_distances@ == c1.graph.nodes@[
                    st.current as int].edges_distances@);
                let st2 = TourState {
                    path: st.path.push(j),
                    cost: st.cost + c1.graph.dist(st.current as int, j as int),
                    current: j,
                    remaining: st.remaining.remove_value(j),
                };
                lemma_remove_value_subset(st.remaining, j);
                assert forall|a: int|
                    0 <= a < st2.path.len() implies ((#[trigger] st2.path[a]) as int)
                    < c1.graph.size() by {
                    if a < st.path.len() {
                        assert(st2.path[a] == st.path[a]);
                    }
                }
                assert forall|a: int|
                    0 <= a < st2.remaining.len() implies ((#[trigger] st2.remaining[a]) as int)
                    < c1.graph.size() by {
                    assert(st.remaining.contains(st2.remaining[a]));
                    let w = choose|w: int|
                        0 <= w < st.remaining.len() && st.remaining[w] == st2.remaining[a];
                    assert((st.remaining[w] as int) < c1.graph.size());
                }
                lemma_tour_deterministic(c1, c2, st2, rs.drop_first());
            },
        }
    }
}

} // verus!
