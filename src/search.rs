use vstd::prelude::*;

use crate::database::Database;
use crate::error::GraphError;
use crate::graph::{bytes_fit, size_ok, AdjMatrix};

verus! {

/// Multiplier of the generator's noise recurrence.
pub const NOISE_MUL: u64 = 18446744073709551557;

/// Increment of the generator's noise recurrence.
pub const NOISE_ADD: u64 = 18446744073709551533;

/// The next value of the noise recurrence, modulo `2^64`.
pub open spec fn next_noise(noise: u64) -> u64 {
    noise.wrapping_mul(NOISE_MUL).wrapping_add(NOISE_ADD)
}

/// The unordered pair `{a, b}` as `(min, max)`.
pub open spec fn pair_key(a: int, b: int) -> (int, int) {
    if a < b {
        (a, b)
    } else {
        (b, a)
    }
}

/// The state of one run of the degree-bounded generator, which starts from the
/// complete graph and removes edges.
pub struct GenState {
    /// Neighbours left at each node.
    pub left: Seq<int>,
    /// Nodes whose count has come down to the bound (or started within it).
    pub ready: int,
    /// The node whose turn it is.
    pub active: int,
    /// The noise value, which picks removal partners.
    pub noise: u64,
    /// The pairs removed so far, as `pair_key`s.
    pub removed: Set<(int, int)>,
}

/// The first state for `n` nodes, bound `d` and `seed`: every count `n - 1`,
/// the active pointer just before node 0, and every node ready when `n - 1 <= d`.
pub open spec fn gen_init(n: int, d: int, seed: u64) -> GenState {
    GenState {
        left: Seq::new(n as nat, |i: int| n - 1),
        ready: if n - 1 <= d { n } else { 0 },
        active: n - 1,
        noise: seed,
        removed: Set::empty(),
    }
}

/// One transition: advance the active node cyclically; skip it when within the
/// bound; else draw a partner from the noise, skip it when it is the active node
/// or has at most one neighbour left, and remove the pair if it is still linked,
/// counting each node whose count comes down to the bound.
pub open spec fn gen_step(s: GenState, n: int, d: int) -> GenState {
    let active = if s.active + 1 == n { 0 } else { s.active + 1 };
    if s.left[active] <= d {
        GenState { active, ..s }
    } else {
        let noise = next_noise(s.noise);
        let other = noise as int % n;
        if active == other || s.left[other] <= 1 || s.removed.contains(pair_key(active, other)) {
            GenState { active, noise, ..s }
        } else {
            let left = s.left.update(active, s.left[active] - 1).update(
                other,
                s.left[other] - 1,
            );
            let ready = s.ready + (if left[active] == d { 1int } else { 0 }) + (if left[other]
                == d { 1int } else { 0 });
            GenState { left, ready, active, noise, removed: s.removed.insert(pair_key(active, other)) }
        }
    }
}

/// The state in which a run ends, all nodes ready, within `fuel` transitions;
/// `None` when the fuel runs out first.
pub open spec fn gen_run(s: GenState, n: int, d: int, fuel: nat) -> Option<GenState>
    decreases fuel,
{
    if s.ready >= n {
        Some(s)
    } else if fuel == 0 {
        None
    } else {
        gen_run(gen_step(s, n, d), n, d, (fuel - 1) as nat)
    }
}

/// `g` is the graph on `n` nodes that links every pair outside `removed`.
pub open spec fn complete_minus(g: AdjMatrix, n: int, removed: Set<(int, int)>) -> bool {
    &&& g.wf()
    &&& g.node_count() == n
    &&& forall|a: int, b: int|
        g.valid_pair(a, b) ==> #[trigger] g.edge(a, b) == !removed.contains(pair_key(a, b))
}

/// What `generate` makes of its inputs: the graph of the final state of the run.
pub open spec fn generated(
    n_nodes: u64,
    max_degree: u32,
    seed: u64,
    max_steps: u64,
    r: Result<AdjMatrix, GraphError>,
) -> bool {
    if !size_ok(n_nodes as int) {
        r == Err::<AdjMatrix, GraphError>(GraphError::Size)
    } else if !bytes_fit(n_nodes as int) || n_nodes > usize::MAX {
        r == Err::<AdjMatrix, GraphError>(GraphError::Allocation)
    } else {
        match gen_run(
            gen_init(n_nodes as int, max_degree as int, seed),
            n_nodes as int,
            max_degree as int,
            max_steps as nat,
        ) {
            None => r == Err::<AdjMatrix, GraphError>(GraphError::StepLimit),
            Some(s) => r matches Ok(g) && complete_minus(g, n_nodes as int, s.removed),
        }
    }
}

/// Generates a graph on `n_nodes` nodes with every degree at most `max_degree`
/// by removing edges from the complete graph, partners drawn from a noise
/// recurrence seeded with `seed`. Fails with `StepLimit` when the run has not
/// ended after `max_steps` transitions.
pub fn generate(n_nodes: u64, max_degree: u32, seed: u64, max_steps: u64) -> (r: Result<
    AdjMatrix,
    GraphError,
>)
    ensures
        generated(n_nodes, max_degree, seed, max_steps, r),
{
    let mut adjm = match AdjMatrix::complete(n_nodes) {
        Ok(g) => g,
        Err(e) => return Err(e),
    };
    if n_nodes > usize::MAX as u64 {
        return Err(GraphError::Allocation);
    }
    let n = n_nodes as usize;
    let d = max_degree as u64;
    let ghost nn = n as int;
    let ghost dd = d as int;
    let mut neighbors_left: Vec<u64> = vec![n_nodes - 1; n];
    let mut ready: u128 = if n_nodes - 1 <= d {
        n as u128
    } else {
        0
    };
    let mut active: usize = n - 1;
    let mut noise: u64 = seed;
    let ghost mut removed: Set<(int, int)> = Set::empty();
    let ghost init = gen_init(nn, dd, seed);
    let mut steps: u64 = 0;
    proof {
        assert(neighbors_left@.map_values(|x: u64| x as int) =~= init.left);
        assert(complete_minus(adjm, nn, removed));
    }
    while ready < n as u128 && steps < max_steps
        invariant
            nn == n,
            n == n_nodes,
            1 <= n <= u32::MAX + 1,
            dd == d,
            init == gen_init(nn, dd, seed),
            neighbors_left@.len() == n,
            ready <= n + 2 * steps,
            active < n,
            steps <= max_steps,
            complete_minus(adjm, nn, removed),
            gen_run(init, nn, dd, max_steps as nat) == gen_run(
                GenState {
                    left: neighbors_left@.map_values(|x: u64| x as int),
                    ready: ready as int,
                    active: active as int,
                    noise,
                    removed,
                },
                nn,
                dd,
                (max_steps - steps) as nat,
            ),
            forall|v: int| 0 <= v < n ==> #[trigger] neighbors_left@[v] <= n - 1,
        decreases max_steps - steps,
    {
        let ghost s = GenState {
            left: neighbors_left@.map_values(|x: u64| x as int),
            ready: ready as int,
            active: active as int,
            noise,
            removed,
        };
        let ghost next = gen_step(s, nn, dd);
        proof {
            assert(gen_run(s, nn, dd, (max_steps - steps) as nat) == gen_run(
                next,
                nn,
                dd,
                (max_steps - steps - 1) as nat,
            ));
        }
        active = active + 1;
        if active == n {
            active = 0;
        }
        steps = steps + 1;
        if neighbors_left[active] <= d {
            proof {
                assert(next == GenState { active: active as int, ..s });
            }
            continue;
        }
        noise = noise.wrapping_mul(NOISE_MUL).wrapping_add(NOISE_ADD);
        let other = (noise % (n as u64)) as usize;
        if active == other || neighbors_left[other] <= 1 {
            proof {
                assert(next == GenState { active: active as int, noise, ..s });
            }
            continue;
        }
        let linked = match adjm.is_edge(active as u32, other as u32) {
            Ok(e) => e,
            Err(_) => false,
        };
        if !linked {
            proof {
                assert(s.removed.contains(pair_key(active as int, other as int)));
                assert(next == GenState { active: active as int, noise, ..s });
            }
            continue;
        }
        let ghost before = adjm;
        let ghost old_removed = removed;
        let _ = adjm.set(active as u32, other as u32, false);
        let la = neighbors_left[active] - 1;
        neighbors_left[active] = la;
        let lo = neighbors_left[other] - 1;
        neighbors_left[other] = lo;
        if neighbors_left[active] == d {
            ready = ready + 1;
        }
        if neighbors_left[other] == d {
            ready = ready + 1;
        }
        proof {
            removed = removed.insert(pair_key(active as int, other as int));
            assert(neighbors_left@.map_values(|x: u64| x as int) =~= next.left);
            assert forall|a: int, b: int| adjm.valid_pair(a, b) implies #[trigger] adjm.edge(a, b)
                == !removed.contains(pair_key(a, b)) by {
                assert(before.valid_pair(a, b));
                if crate::graph::same_pair(a, b, active as int, other as int) {
                    assert(pair_key(a, b) == pair_key(active as int, other as int));
                } else {
                    assert(pair_key(a, b) != pair_key(active as int, other as int));
                    assert(before.edge(a, b) == !old_removed.contains(pair_key(a, b)));
                }
            }
        }
    }
    if ready < n as u128 {
        return Err(GraphError::StepLimit);
    }
    Ok(adjm)
}

/// Two runs of the generator on the same inputs give the same outcome: the same
/// error, or graphs with the same nodes and the same edges.
pub proof fn lemma_generate_deterministic(
    n_nodes: u64,
    max_degree: u32,
    seed: u64,
    max_steps: u64,
    r1: Result<AdjMatrix, GraphError>,
    r2: Result<AdjMatrix, GraphError>,
)
    requires
        generated(n_nodes, max_degree, seed, max_steps, r1),
        generated(n_nodes, max_degree, seed, max_steps, r2),
    ensures
        r1 is Err ==> r1 == r2,
        r1 is Ok ==> r2 is Ok && r1.unwrap().node_count() == r2.unwrap().node_count() && forall|
            a: int,
            b: int,
        | r1.unwrap().valid_pair(a, b) ==> #[trigger] r1.unwrap().edge(a, b) == r2.unwrap().edge(
            a,
            b,
        ),
{
}

/// The search counters: graphs generated, unique graphs seen, integral graphs found.
#[derive(Clone, Copy, Debug, PartialEq, Eq, Structural)]
pub struct SearchStats {
    pub generated: u128,
    pub unique: u128,
    pub integral: u128,
}

impl SearchStats {
    /// Integral graphs are among the unique ones, which are among those generated.
    pub open spec fn wf(self) -> bool {
        self.integral <= self.unique <= self.generated
    }

    /// All counters at zero.
    pub fn new() -> (r: Self)
        ensures
            r.wf(),
            r.generated == 0 && r.unique == 0 && r.integral == 0,
    {
        SearchStats { generated: 0, unique: 0, integral: 0 }
    }
}

/// The outcome of recording one generated graph under canonical key `key`: a
/// key already stored counts as generated only; a new key is stored with its
/// result and counts as generated, unique and, when integral, integral.
pub open spec fn record_spec(
    db: Map<Seq<char>, bool>,
    stats: SearchStats,
    key: Seq<char>,
    integral: bool,
    db2: Map<Seq<char>, bool>,
    stats2: SearchStats,
) -> bool {
    if db.contains_key(key) {
        db2 == db && stats2 == SearchStats { generated: (stats.generated + 1) as u128, ..stats }
    } else {
        db2 == db.insert(key, integral) && stats2 == SearchStats {
            generated: (stats.generated + 1) as u128,
            unique: (stats.unique + 1) as u128,
            integral: (stats.integral + if integral { 1int } else { 0 }) as u128,
        }
    }
}

/// Records one classified graph: a lookup and, for a new key, an insert, with
/// the three counters updated together. Returns whether the key was new.
pub fn record_result(db: &mut Database, stats: &mut SearchStats, key: String, integral: bool) -> (r: bool)
    requires
        old(db).wf(),
        old(stats).wf(),
        old(stats).generated < u128::MAX,
    ensures
        final(db).wf(),
        final(stats).wf(),
        r == !old(db)@.contains_key(key@),
        record_spec(old(db)@, *old(stats), key@, integral, final(db)@, *final(stats)),
{
    stats.generated = stats.generated + 1;
    if db.get(key.as_str()).is_some() {
        return false;
    }
    db.insert(key, integral);
    stats.unique = stats.unique + 1;
    if integral {
        stats.integral = stats.integral + 1;
    }
    true
}

/// Recording the same key twice: the second time the unique count stays as it
/// was while the generated count still grows by one.
pub proof fn lemma_record_twice(
    db0: Map<Seq<char>, bool>,
    s0: SearchStats,
    key: Seq<char>,
    first: bool,
    second: bool,
    db1: Map<Seq<char>, bool>,
    s1: SearchStats,
    db2: Map<Seq<char>, bool>,
    s2: SearchStats,
)
    requires
        s0.wf(),
        s0.generated < u128::MAX - 1,
        record_spec(db0, s0, key, first, db1, s1),
        record_spec(db1, s1, key, second, db2, s2),
    ensures
        s2.unique == s1.unique,
        s2.integral == s1.integral,
        s2.generated == s1.generated + 1,
        db2 == db1,
{
}

} // verus!
