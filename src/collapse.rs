//! The solver: fills the undetermined cells of a working grid, one at a
//! time, from a model's adjacency counts and a seeded generator.

use vstd::prelude::*;

use crate::error::WfcError;
use crate::grid::{
    Data,
    Image,
    Matrix,
    lemma_cell_coords,
    lemma_has_neighbor,
    lemma_index_coords,
    lemma_neighbor_symmetric,
    neighbor_cell,
    offset,
};
use crate::rng::{SeededRng, mix, next_state};
use crate::rules::{Rules, RulesView, learned_from, observation, observed, saturating, view_wf};

verus! {

/// Tile `b` may stand next to a committed `a`: it was seen there.
pub open spec fn compatible(m: RulesView, a: u64, b: u64) -> bool {
    m.weight[(a, b)] > 0
}

/// Tile of the `k`-th neighbour of cell `c`, where that neighbour lies in
/// the grid and is committed.
pub open spec fn committed_neighbor(n: int, g: Seq<Option<u64>>, c: int, k: int) -> Option<u64> {
    match neighbor_cell(n, c, k) {
        Some(q) => g[q],
        None => None,
    }
}

/// Tile `t` agrees with every committed neighbour of cell `c`.
pub open spec fn allowed(m: RulesView, n: int, g: Seq<Option<u64>>, c: int, t: u64) -> bool {
    forall|k: int|
        0 <= k < 8 ==> match #[trigger] committed_neighbor(n, g, c, k) {
            Some(u) => compatible(m, u, t),
            None => true,
        }
}

/// The first `i` tiles of the model, in order, that cell `c` allows.
pub open spec fn candidates_upto(
    m: RulesView,
    n: int,
    g: Seq<Option<u64>>,
    c: int,
    i: nat,
) -> Seq<u64>
    decreases i,
{
    if i == 0 {
        Seq::empty()
    } else {
        let rest = candidates_upto(m, n, g, c, (i - 1) as nat);
        let t = m.tiles[i - 1];
        if allowed(m, n, g, c, t) {
            rest.push(t)
        } else {
            rest
        }
    }
}

/// The candidate set of cell `c`: every tile of the model, in increasing
/// order, that agrees with all committed neighbours of `c`. A cell with no
/// committed neighbour may take any tile the model knows.
pub open spec fn candidates(m: RulesView, n: int, g: Seq<Option<u64>>, c: int) -> Seq<u64> {
    candidates_upto(m, n, g, c, m.tiles.len())
}

pub open spec fn has_committed_neighbor(n: int, g: Seq<Option<u64>>, c: int) -> bool {
    exists|k: int| 0 <= k < 8 && (#[trigger] committed_neighbor(n, g, c, k)) is Some
}

/// Saturating sum, over the first `k` neighbours of `c` that are
/// committed, of how often `t` was seen next to the neighbour's tile.
pub open spec fn support(m: RulesView, n: int, g: Seq<Option<u64>>, c: int, t: u64, k: nat) -> nat
    decreases k,
{
    if k == 0 {
        0
    } else {
        saturating(
            support(m, n, g, c, t, (k - 1) as nat) + match committed_neighbor(n, g, c, k - 1) {
                Some(u) => m.weight[(u, t)],
                None => 0,
            },
        )
    }
}

/// Weight of tile `t` in the draw for cell `c`: its support from the
/// committed neighbours, or 1 for every tile where there is none.
pub open spec fn draw_weight(m: RulesView, n: int, g: Seq<Option<u64>>, c: int, t: u64) -> nat {
    if has_committed_neighbor(n, g, c) {
        support(m, n, g, c, t, 8)
    } else {
        1
    }
}

/// Saturating sum of the draw weights of the first `i` tiles of `cs`.
pub open spec fn weight_total(
    m: RulesView,
    n: int,
    g: Seq<Option<u64>>,
    c: int,
    cs: Seq<u64>,
    i: nat,
) -> nat
    decreases i,
{
    if i == 0 {
        0
    } else {
        saturating(weight_total(m, n, g, c, cs, (i - 1) as nat) + draw_weight(m, n, g, c, cs[i - 1]))
    }
}

/// The tile of `cs`, from position `i` on, onto which the number `r` falls
/// when each tile covers as many numbers as its draw weight, in order. The
/// last tile takes whatever is left.
pub open spec fn pick_from(
    m: RulesView,
    n: int,
    g: Seq<Option<u64>>,
    c: int,
    cs: Seq<u64>,
    i: nat,
    r: nat,
) -> u64
    decreases cs.len() - i,
{
    if i + 1 >= cs.len() || r < draw_weight(m, n, g, c, cs[i as int]) {
        cs[i as int]
    } else {
        pick_from(m, n, g, c, cs, i + 1, (r - draw_weight(m, n, g, c, cs[i as int])) as nat)
    }
}

/// The drawn tile is one of the tiles from position `i` on.
pub proof fn lemma_pick_from_in(
    m: RulesView,
    n: int,
    g: Seq<Option<u64>>,
    c: int,
    cs: Seq<u64>,
    i: nat,
    r: nat,
)
    requires
        i < cs.len(),
    ensures
        exists|j: int| i <= j < cs.len() && cs[j] == pick_from(m, n, g, c, cs, i, r),
        0 <= pick_from(m, n, g, c, cs, i, r) <= u64::MAX,
    decreases cs.len() - i,
{
    if !(i + 1 >= cs.len() || r < draw_weight(m, n, g, c, cs[i as int])) {
        lemma_pick_from_in(m, n, g, c, cs, i + 1, (r - draw_weight(m, n, g, c, cs[i as int])) as nat);
    } else {
        assert(cs[i as int] == pick_from(m, n, g, c, cs, i, r));
    }
}

/// Some undetermined cell has an empty candidate set.
pub open spec fn stuck(m: RulesView, n: int, g: Seq<Option<u64>>) -> bool {
    exists|c: int|
        0 <= c < g.len() && g[c] is None && (#[trigger] candidates(m, n, g, c)).len() == 0
}

/// Among the first `i` cells, the undetermined one with the fewest (but
/// some) candidates, the earliest in row-major order on a tie; -1 where
/// there is none.
pub open spec fn best_upto(m: RulesView, n: int, g: Seq<Option<u64>>, i: nat) -> int
    decreases i,
{
    if i == 0 {
        -1
    } else {
        let b = best_upto(m, n, g, (i - 1) as nat);
        let c = i - 1;
        let size = candidates(m, n, g, c).len();
        if g[c] is None && size > 0 && (b < 0 || size < candidates(m, n, g, b).len()) {
            c
        } else {
            b
        }
    }
}

/// The cell to commit next, or -1 where every cell is committed.
pub open spec fn chosen_cell(m: RulesView, n: int, g: Seq<Option<u64>>) -> int {
    best_upto(m, n, g, g.len())
}

/// Number of undetermined cells.
pub open spec fn open_cells(g: Seq<Option<u64>>) -> nat
    decreases g.len(),
{
    if g.len() == 0 {
        0
    } else {
        open_cells(g.drop_last()) + if g.last() is None {
            1nat
        } else {
            0nat
        }
    }
}

/// The tiles of a grid whose cells are all committed.
pub open spec fn committed_tiles(g: Seq<Option<u64>>) -> Seq<u64> {
    g.map_values(
        |o: Option<u64>|
            match o {
                Some(t) => t,
                None => 0,
            },
    )
}

pub proof fn lemma_open_cells_fill(g: Seq<Option<u64>>, c: int, t: u64)
    requires
        0 <= c < g.len(),
        g[c] is None,
    ensures
        open_cells(g.update(c, Some(t))) + 1 == open_cells(g),
    decreases g.len(),
{
    let h = g.update(c, Some(t));
    if c < g.len() - 1 {
        assert(h.drop_last() =~= g.drop_last().update(c, Some(t)));
        lemma_open_cells_fill(g.drop_last(), c, t);
    } else {
        assert(h.drop_last() =~= g.drop_last());
    }
}

pub proof fn lemma_best_upto(m: RulesView, n: int, g: Seq<Option<u64>>, i: nat)
    requires
        i <= g.len(),
    ensures
        best_upto(m, n, g, i) == -1 <==> forall|j: int|
            0 <= j < i ==> !(g[j] is None && (#[trigger] candidates(m, n, g, j)).len() > 0),
        best_upto(m, n, g, i) != -1 ==> {
            let b = best_upto(m, n, g, i);
            &&& 0 <= b < i
            &&& g[b] is None
            &&& candidates(m, n, g, b).len() > 0
        },
    decreases i,
{
    if i > 0 {
        lemma_best_upto(m, n, g, (i - 1) as nat);
    }
}

/// One run of the solver from the working grid `g`, with the generator in
/// state `s`: the result, and the generator's state at the end.
///
/// Where some undetermined cell has no candidate, the run fails with
/// `Contradiction`; where every cell is committed, it returns the grid.
/// Otherwise it commits, in the chosen cell, the candidate that the next
/// number of the generator falls on (its remainder by the total weight),
/// and goes on.
pub open spec fn run(m: RulesView, n: int, g: Seq<Option<u64>>, s: u64) -> (
    Result<Seq<u64>, WfcError>,
    u64,
)
    decreases open_cells(g),
{
    if stuck(m, n, g) {
        (Err(WfcError::Contradiction), s)
    } else {
        let c = chosen_cell(m, n, g);
        if c < 0 {
            (Ok(committed_tiles(g)), s)
        } else {
            let cs = candidates(m, n, g, c);
            let s2 = next_state(s);
            let total = weight_total(m, n, g, c, cs, cs.len());
            let t = pick_from(m, n, g, c, cs, 0, (mix(s2) as nat) % total);
            proof {
                lemma_best_upto(m, n, g, g.len());
                lemma_pick_from_in(m, n, g, c, cs, 0, (mix(s2) as nat) % total);
                lemma_open_cells_fill(g, c, t);
            }
            run(m, n, g.update(c, Some(t)), s2)
        }
    }
}

/// Every committed cell holds a tile the model knows.
pub open spec fn seeds_known(m: RulesView, g: Seq<Option<u64>>) -> bool {
    forall|c: int| 0 <= c < g.len() && g[c] is Some ==> m.tiles.contains(#[trigger] g[c]->0)
}

/// Every two committed cells side by side are compatible.
pub open spec fn seeds_consistent(m: RulesView, n: int, g: Seq<Option<u64>>) -> bool {
    forall|c: int, k: int|
        0 <= c < g.len() && 0 <= k < 8 && g[c] is Some && (#[trigger] committed_neighbor(
            n,
            g,
            c,
            k,
        )) is Some ==> compatible(m, g[c]->0, committed_neighbor(n, g, c, k)->0)
}

/// What collapsing the working grid `g` of side `n` with the model `m` and
/// the generator in state `s` gives, and the generator's state after it.
/// A degenerate side or a seed tile that the model never saw is invalid
/// input; seeds that disagree with each other are a contradiction.
pub open spec fn collapse_outcome(m: RulesView, n: int, g: Seq<Option<u64>>, s: u64) -> (
    Result<Seq<u64>, WfcError>,
    u64,
) {
    if n <= 0 || !seeds_known(m, g) {
        (Err(WfcError::InvalidInput), s)
    } else if !seeds_consistent(m, n, g) {
        (Err(WfcError::Contradiction), s)
    } else {
        run(m, n, g, s)
    }
}

/// `out` completes the working grid `g` of side `n`: every cell holds a
/// tile the model knows, every seed is kept, and every two cells side by
/// side (diagonals included) were seen next to each other, both ways.
pub open spec fn solution(m: RulesView, n: int, g: Seq<Option<u64>>, out: Seq<u64>) -> bool {
    &&& out.len() == g.len()
    &&& forall|c: int| 0 <= c < out.len() ==> m.tiles.contains(#[trigger] out[c])
    &&& forall|c: int| 0 <= c < g.len() && g[c] is Some ==> out[c] == (#[trigger] g[c])->0
    &&& forall|c: int, k: int|
        0 <= c < out.len() && 0 <= k < 8 && (#[trigger] neighbor_cell(n, c, k)) is Some ==> {
            let q = neighbor_cell(n, c, k)->0;
            m.weight[(out[c], out[q])] > 0 && m.weight[(out[q], out[c])] > 0
        }
}

/// What holds of the working grid throughout a run started from the
/// seeds `g0`: the seeds stay, committed tiles are known to the model, and
/// committed neighbours are compatible.
pub open spec fn run_inv(m: RulesView, n: int, g0: Seq<Option<u64>>, g: Seq<Option<u64>>) -> bool {
    &&& n > 0
    &&& g.len() == n * n
    &&& g0.len() == g.len()
    &&& seeds_known(m, g)
    &&& forall|c: int| 0 <= c < g.len() && g0[c] is Some ==> g[c] == #[trigger] g0[c]
    &&& seeds_consistent(m, n, g)
}

proof fn lemma_fill_keeps_inv(
    m: RulesView,
    n: int,
    g0: Seq<Option<u64>>,
    g: Seq<Option<u64>>,
    c: int,
    t: u64,
)
    requires
        view_wf(m),
        run_inv(m, n, g0, g),
        0 <= c < g.len(),
        g[c] is None,
        m.tiles.contains(t),
        allowed(m, n, g, c, t),
    ensures
        run_inv(m, n, g0, g.update(c, Some(t))),
{
    let g2 = g.update(c, Some(t));
    assert forall|p: int| 0 <= p < g2.len() && g2[p] is Some implies m.tiles.contains(
        #[trigger] g2[p]->0,
    ) by {
        if p != c {
            assert(g[p] is Some);
        }
    }
    assert forall|p: int| 0 <= p < g2.len() && g0[p] is Some implies g2[p] == #[trigger] g0[p] by {
        assert(g[p] == g0[p]);
    }
    assert forall|p: int, k: int|
        0 <= p < g2.len() && 0 <= k < 8 && g2[p] is Some && (#[trigger] committed_neighbor(
            n,
            g2,
            p,
            k,
        )) is Some implies compatible(m, g2[p]->0, committed_neighbor(n, g2, p, k)->0) by {
        lemma_neighbor_symmetric(n, p, k);
        let q = neighbor_cell(n, p, k)->0;
        if p == c {
            assert(committed_neighbor(n, g, c, k) == g[q]);
            assert(m.weight[(g[q]->0, t)] == m.weight[(t, g[q]->0)]);
        } else if q == c {
            assert(committed_neighbor(n, g, c, 7 - k) == g[p]);
        } else {
            assert(committed_neighbor(n, g, p, k) == g[q]);
        }
    }
}

proof fn lemma_run_sound(m: RulesView, n: int, g0: Seq<Option<u64>>, g: Seq<Option<u64>>, s: u64)
    requires
        view_wf(m),
        run_inv(m, n, g0, g),
    ensures
        run(m, n, g, s).0 matches Ok(out) ==> solution(m, n, g0, out),
        run(m, n, g, s).0 matches Err(e) ==> e == WfcError::Contradiction,
    decreases open_cells(g),
{
    if !stuck(m, n, g) {
        let c = chosen_cell(m, n, g);
        lemma_best_upto(m, n, g, g.len());
        if c < 0 {
            let out = committed_tiles(g);
            assert forall|j: int| 0 <= j < g.len() implies g[j] is Some by {
                let _ = candidates(m, n, g, j).len();
            }
            assert forall|j: int| 0 <= j < out.len() implies m.tiles.contains(#[trigger] out[j]) by {
                assert(g[j] is Some);
            }
            assert forall|j: int, k: int|
                0 <= j < out.len() && 0 <= k < 8 && (#[trigger] neighbor_cell(n, j, k)) is Some implies {
                let q = neighbor_cell(n, j, k)->0;
                m.weight[(out[j], out[q])] > 0 && m.weight[(out[q], out[j])] > 0
            } by {
                lemma_neighbor_symmetric(n, j, k);
                let q = neighbor_cell(n, j, k)->0;
                assert(committed_neighbor(n, g, j, k) == g[q]);
            }
        } else {
            let cs = candidates(m, n, g, c);
            let s2 = next_state(s);
            let total = weight_total(m, n, g, c, cs, cs.len());
            let r = (mix(s2) as nat) % total;
            let t = pick_from(m, n, g, c, cs, 0, r);
            lemma_pick_from_in(m, n, g, c, cs, 0, r);
            lemma_candidates_upto(m, n, g, c, m.tiles.len());
            let j = choose|j: int| 0 <= j < cs.len() && cs[j] == t;
            assert(cs[j] == t);
            lemma_fill_keeps_inv(m, n, g0, g, c, t);
            lemma_open_cells_fill(g, c, t);
            lemma_run_sound(m, n, g0, g.update(c, Some(t)), s2);
        }
    }
}

/// A collapse always ends, and never with a partial grid: it gives either
/// a grid in which every cell holds a known tile, every seed is kept and
/// every two neighbouring tiles were seen next to each other both ways, or
/// an error, which is `InvalidInput` exactly on a grid of side 0 or a seed
/// tile the model never saw, and `Contradiction` otherwise.
pub proof fn lemma_collapse_sound(m: RulesView, n: int, g: Seq<Option<u64>>, s: u64)
    requires
        view_wf(m),
        n >= 0,
        g.len() == n * n,
    ensures
        collapse_outcome(m, n, g, s).0 matches Ok(out) ==> solution(m, n, g, out),
        collapse_outcome(m, n, g, s).0 matches Err(e) ==> (e == WfcError::InvalidInput <==> (n == 0
            || !seeds_known(m, g))),
{
    if n > 0 && seeds_known(m, g) && seeds_consistent(m, n, g) {
        lemma_run_sound(m, n, g, g, s);
    }
}

/// Collapsing is deterministic: equal models, equal working grids and
/// generators in the same state give the same result and leave the
/// generators in the same state.
pub proof fn lemma_collapse_deterministic(
    m1: RulesView,
    m2: RulesView,
    n: int,
    g1: Seq<Option<u64>>,
    g2: Seq<Option<u64>>,
    s1: u64,
    s2: u64,
)
    requires
        m1 == m2,
        g1 == g2,
        s1 == s2,
    ensures
        collapse_outcome(m1, n, g1, s1) == collapse_outcome(m2, n, g2, s2),
{
}

proof fn lemma_single_cell_unobserved(g: Seq<u64>, v: nat, a: u64, b: u64)
    requires
        v <= 8,
    ensures
        observed(1, g, v, a, b) == 0,
    decreases v,
{
    if v > 0 {
        lemma_single_cell_unobserved(g, (v - 1) as nat, a, b);
        let w = v - 1;
        assert(w / 8 == 0);
        assert(observation(1, g, w) is None);
    }
}

/// Where no pair was ever seen, an undetermined cell next to a committed
/// one has no candidate.
proof fn lemma_isolated_stuck(m: RulesView, n: int, g: Seq<Option<u64>>, c: int, k: int)
    requires
        forall|a: u64, b: u64| #[trigger] m.weight[(a, b)] == 0,
        n > 0,
        g.len() == n * n,
        0 <= c < g.len(),
        0 <= k < 8,
        g[c] is Some,
        neighbor_cell(n, c, k) is Some,
        g[neighbor_cell(n, c, k)->0] is None,
    ensures
        stuck(m, n, g),
{
    lemma_neighbor_symmetric(n, c, k);
    let q = neighbor_cell(n, c, k)->0;
    assert(committed_neighbor(n, g, q, 7 - k) == g[c]);
    lemma_candidates_upto(m, n, g, q, m.tiles.len());
    assert forall|j: int| 0 <= j < m.tiles.len() implies !allowed(
        m,
        n,
        g,
        q,
        #[trigger] m.tiles[j],
    ) by {
        assert(committed_neighbor(n, g, q, 7 - k) == g[c]);
    }
    assert(candidates(m, n, g, q).len() == 0);
}

/// A model learned from a one-cell sample has no pair at all, and a
/// collapse of any grid of side 2 or more, with seeds it knows, fails with
/// `Contradiction`: no second cell can be placed.
pub proof fn lemma_single_cell_model(
    sample: Seq<u64>,
    m: RulesView,
    n: int,
    g: Seq<Option<u64>>,
    s: u64,
)
    requires
        view_wf(m),
        sample.len() == 1,
        learned_from(m, 1, sample),
        n > 1,
        g.len() == n * n,
        seeds_known(m, g),
    ensures
        forall|a: u64, b: u64| #[trigger] m.weight[(a, b)] == 0,
        collapse_outcome(m, n, g, s).0 == Err::<Seq<u64>, WfcError>(WfcError::Contradiction),
{
    assert forall|a: u64, b: u64| #[trigger] m.weight[(a, b)] == 0 by {
        lemma_single_cell_unobserved(sample, 8, a, b);
    }
    if seeds_consistent(m, n, g) {
        if exists|c: int| 0 <= c < g.len() && g[c] is Some {
            let c = choose|c: int| 0 <= c < g.len() && g[c] is Some;
            lemma_has_neighbor(n, c);
            let k = choose|k: int| 0 <= k < 8 && (#[trigger] neighbor_cell(n, c, k)) is Some;
            lemma_neighbor_symmetric(n, c, k);
            assert(committed_neighbor(n, g, c, k) is None);
            lemma_isolated_stuck(m, n, g, c, k);
        } else if !stuck(m, n, g) {
            lemma_best_upto(m, n, g, g.len());
            assert(n * n > 0) by (nonlinear_arith)
                requires
                    n > 1,
            ;
            assert(g[0] is None);
            assert(candidates(m, n, g, 0).len() > 0);
            let c = chosen_cell(m, n, g);
            let cs = candidates(m, n, g, c);
            let s2 = next_state(s);
            let total = weight_total(m, n, g, c, cs, cs.len());
            let t = pick_from(m, n, g, c, cs, 0, (mix(s2) as nat) % total);
            lemma_pick_from_in(m, n, g, c, cs, 0, (mix(s2) as nat) % total);
            let g2 = g.update(c, Some(t));
            lemma_has_neighbor(n, c);
            let k = choose|k: int| 0 <= k < 8 && (#[trigger] neighbor_cell(n, c, k)) is Some;
            lemma_neighbor_symmetric(n, c, k);
            let q = neighbor_cell(n, c, k)->0;
            assert(g[q] is None);
            assert(g2[q] is None);
            lemma_isolated_stuck(m, n, g2, c, k);
            assert(run(m, n, g2, s2).0 == Err::<Seq<u64>, WfcError>(WfcError::Contradiction));
            assert(run(m, n, g, s) == run(m, n, g2, s2));
        }
    }
}

/// Tiles of a candidate list are known to the model and allowed in cell
/// `c`, and the list is empty only where no known tile is allowed.
pub proof fn lemma_candidates_upto(m: RulesView, n: int, g: Seq<Option<u64>>, c: int, i: nat)
    requires
        i <= m.tiles.len(),
    ensures
        forall|j: int|
            0 <= j < candidates_upto(m, n, g, c, i).len() ==> {
                let t = #[trigger] candidates_upto(m, n, g, c, i)[j];
                &&& m.tiles.contains(t)
                &&& allowed(m, n, g, c, t)
            },
        candidates_upto(m, n, g, c, i).len() > 0 <==> exists|j: int|
            0 <= j < i && allowed(m, n, g, c, #[trigger] m.tiles[j]),
    decreases i,
{
    if i > 0 {
        lemma_candidates_upto(m, n, g, c, (i - 1) as nat);
        let rest = candidates_upto(m, n, g, c, (i - 1) as nat);
        let t = m.tiles[i - 1];
        assert(m.tiles.contains(t));
        if exists|j: int| 0 <= j < i && allowed(m, n, g, c, #[trigger] m.tiles[j]) {
            let j = choose|j: int| 0 <= j < i && allowed(m, n, g, c, #[trigger] m.tiles[j]);
            if j < i - 1 {
                assert(rest.len() > 0);
            }
        }
    }
}

/// One committed neighbour among the first `k`, compatible with `t`, makes
/// the support of `t` positive.
proof fn lemma_support_positive(
    m: RulesView,
    n: int,
    g: Seq<Option<u64>>,
    c: int,
    t: u64,
    k: nat,
    k0: int,
)
    requires
        view_wf(m),
        0 <= k0 < k <= 8,
        committed_neighbor(n, g, c, k0) is Some,
        allowed(m, n, g, c, t),
    ensures
        support(m, n, g, c, t, k) >= 1,
    decreases k,
{
    let u = committed_neighbor(n, g, c, k0)->0;
    assert(compatible(m, u, t));
    if k0 < k - 1 {
        lemma_support_positive(m, n, g, c, t, (k - 1) as nat, k0);
    }
}

proof fn lemma_support_bounded(m: RulesView, n: int, g: Seq<Option<u64>>, c: int, t: u64, k: nat)
    ensures
        support(m, n, g, c, t, k) <= u64::MAX,
    decreases k,
{
    if k > 0 {
        lemma_support_bounded(m, n, g, c, t, (k - 1) as nat);
    }
}

/// A candidate of a cell has a positive draw weight.
pub proof fn lemma_draw_weight_positive(m: RulesView, n: int, g: Seq<Option<u64>>, c: int, t: u64)
    requires
        view_wf(m),
        allowed(m, n, g, c, t),
    ensures
        1 <= draw_weight(m, n, g, c, t) <= u64::MAX,
{
    lemma_support_bounded(m, n, g, c, t, 8);
    if has_committed_neighbor(n, g, c) {
        let k0 = choose|k: int| 0 <= k < 8 && (#[trigger] committed_neighbor(n, g, c, k)) is Some;
        lemma_support_positive(m, n, g, c, t, 8, k0);
    }
}

/// The flat index of the `k`-th neighbour of cell `c`, where it lies in
/// the grid.
fn neighbor_index(n: usize, c: usize, k: usize) -> (r: Option<usize>)
    requires
        n * n <= usize::MAX,
        n <= isize::MAX,
        c < n * n,
        k < 8,
    ensures
        r matches Some(q) ==> neighbor_cell(n as int, c as int, k as int) == Some(q as int) && q < n
            * n,
        r is None ==> neighbor_cell(n as int, c as int, k as int) is None,
{
    proof {
        lemma_index_coords(n as int, c as int);
    }
    let x = c % n;
    let y = c / n;
    let (dx, dy) = offset(k);
    let nx = x as isize + dx;
    let ny = y as isize + dy;
    if nx < 0 || ny < 0 || nx as usize >= n || ny as usize >= n {
        None
    } else {
        proof {
            lemma_cell_coords(n as int, nx as int, ny as int);
        }
        Some(nx as usize + ny as usize * n)
    }
}

/// Tile of the `k`-th neighbour of cell `c`, where it is committed.
fn neighbor_tile(n: usize, g: &Vec<Option<u64>>, c: usize, k: usize) -> (r: Option<u64>)
    requires
        g@.len() == n * n,
        n * n <= usize::MAX,
        n <= isize::MAX,
        c < g@.len(),
        k < 8,
    ensures
        r == committed_neighbor(n as int, g@, c as int, k as int),
{
    match neighbor_index(n, c, k) {
        Some(q) => g[q],
        None => None,
    }
}

/// The working grid as the solver holds it: side `n`, one entry per cell.
pub open spec fn grid_ok(n: usize, g: Seq<Option<u64>>) -> bool {
    &&& g.len() == n * n
    &&& n * n <= usize::MAX
    &&& n <= isize::MAX
}

/// What the solver does next.
enum Selection {
    /// Some undetermined cell has no candidate.
    Stuck,
    /// Every cell is committed.
    Complete,
    /// Commit a tile in this cell, drawn from these candidates.
    Cell(usize, Vec<u64>),
}

impl Rules {
    fn compatible_tiles(&self, a: u64, b: u64) -> (r: bool)
        requires
            self.wf(),
        ensures
            r == compatible(self@, a, b),
    {
        self.neighbor_weight(a, b) > 0
    }

    fn is_allowed(&self, n: usize, g: &Vec<Option<u64>>, c: usize, t: u64) -> (r: bool)
        requires
            self.wf(),
            grid_ok(n, g@),
            c < g@.len(),
        ensures
            r == allowed(self@, n as int, g@, c as int, t),
    {
        let mut k: usize = 0;
        while k < 8
            invariant
                self.wf(),
                grid_ok(n, g@),
                c < g@.len(),
                k <= 8,
                forall|j: int|
                    0 <= j < k ==> match #[trigger] committed_neighbor(n as int, g@, c as int, j) {
                        Some(u) => compatible(self@, u, t),
                        None => true,
                    },
            decreases 8 - k,
        {
            match neighbor_tile(n, g, c, k) {
                Some(u) => {
                    if !self.compatible_tiles(u, t) {
                        assert(!match committed_neighbor(n as int, g@, c as int, k as int) {
                            Some(u) => compatible(self@, u, t),
                            None => true,
                        });
                        return false;
                    }
                },
                None => {},
            }
            k = k + 1;
        }
        true
    }

    fn cell_candidates(&self, n: usize, g: &Vec<Option<u64>>, c: usize) -> (r: Vec<u64>)
        requires
            self.wf(),
            grid_ok(n, g@),
            c < g@.len(),
        ensures
            r@ == candidates(self@, n as int, g@, c as int),
    {
        let tiles = self.tiles();
        let mut r: Vec<u64> = Vec::new();
        let mut i: usize = 0;
        while i < tiles.len()
            invariant
                self.wf(),
                grid_ok(n, g@),
                c < g@.len(),
                tiles@ == self@.tiles,
                i <= tiles@.len(),
                r@ == candidates_upto(self@, n as int, g@, c as int, i as nat),
            decreases tiles@.len() - i,
        {
            let t = tiles[i];
            if self.is_allowed(n, g, c, t) {
                r.push(t);
            }
            i = i + 1;
        }
        r
    }

    fn select(&self, n: usize, g: &Vec<Option<u64>>) -> (r: Selection)
        requires
            self.wf(),
            grid_ok(n, g@),
        ensures
            r is Stuck ==> stuck(self@, n as int, g@),
            r is Complete ==> !stuck(self@, n as int, g@) && chosen_cell(self@, n as int, g@) < 0,
            r matches Selection::Cell(c, cs) ==> {
                &&& !stuck(self@, n as int, g@)
                &&& chosen_cell(self@, n as int, g@) == c
                &&& cs@ == candidates(self@, n as int, g@, c as int)
            },
    {
        let len = g.len();
        let mut found = false;
        let mut best: usize = 0;
        let mut best_cands: Vec<u64> = Vec::new();
        let mut i: usize = 0;
        while i < len
            invariant
                self.wf(),
                grid_ok(n, g@),
                len == g@.len(),
                i <= len,
                forall|j: int|
                    0 <= j < i ==> !(g@[j] is None && (#[trigger] candidates(
                        self@,
                        n as int,
                        g@,
                        j,
                    )).len() == 0),
                found ==> best_upto(self@, n as int, g@, i as nat) == best as int,
                found ==> best_cands@ == candidates(self@, n as int, g@, best as int),
                !found ==> best_upto(self@, n as int, g@, i as nat) == -1,
            decreases len - i,
        {
            if g[i].is_none() {
                let cs = self.cell_candidates(n, g, i);
                if cs.len() == 0 {
                    return Selection::Stuck;
                }
                if !found || cs.len() < best_cands.len() {
                    best = i;
                    best_cands = cs;
                    found = true;
                }
            }
            i = i + 1;
        }
        if found {
            Selection::Cell(best, best_cands)
        } else {
            Selection::Complete
        }
    }

    fn tile_weight(&self, n: usize, g: &Vec<Option<u64>>, c: usize, t: u64) -> (r: u64)
        requires
            self.wf(),
            grid_ok(n, g@),
            c < g@.len(),
        ensures
            r == draw_weight(self@, n as int, g@, c as int, t),
    {
        let mut sum: u64 = 0;
        let mut any = false;
        let mut k: usize = 0;
        while k < 8
            invariant
                self.wf(),
                grid_ok(n, g@),
                c < g@.len(),
                k <= 8,
                sum == support(self@, n as int, g@, c as int, t, k as nat),
                any <==> exists|j: int|
                    0 <= j < k && (#[trigger] committed_neighbor(n as int, g@, c as int, j)) is Some,
            decreases 8 - k,
        {
            match neighbor_tile(n, g, c, k) {
                Some(u) => {
                    let w = self.neighbor_weight(u, t);
                    sum = sum.saturating_add(w);
                    any = true;
                },
                None => {},
            }
            k = k + 1;
        }
        if any {
            sum
        } else {
            1
        }
    }

    fn draw(&self, n: usize, g: &Vec<Option<u64>>, c: usize, cs: &Vec<u64>, rng: &mut SeededRng) -> (t: u64)
        requires
            self.wf(),
            grid_ok(n, g@),
            c < g@.len(),
            cs@ == candidates(self@, n as int, g@, c as int),
            cs@.len() > 0,
        ensures
            final(rng)@ == next_state(old(rng)@),
            t == pick_from(
                self@,
                n as int,
                g@,
                c as int,
                cs@,
                0,
                (mix(next_state(old(rng)@)) as nat) % weight_total(
                    self@,
                    n as int,
                    g@,
                    c as int,
                    cs@,
                    cs@.len(),
                ),
            ),
    {
        let ghost m = self@;
        proof {
            lemma_candidates_upto(m, n as int, g@, c as int, m.tiles.len());
        }
        let mut weights: Vec<u64> = Vec::new();
        let mut total: u64 = 0;
        let mut i: usize = 0;
        while i < cs.len()
            invariant
                self.wf(),
                m == self@,
                grid_ok(n, g@),
                c < g@.len(),
                cs@ == candidates(m, n as int, g@, c as int),
                forall|j: int| 0 <= j < cs@.len() ==> allowed(m, n as int, g@, c as int, #[trigger] cs@[j]),
                i <= cs@.len(),
                weights@.len() == i,
                forall|j: int|
                    0 <= j < i ==> weights@[j] == draw_weight(m, n as int, g@, c as int, #[trigger] cs@[j]),
                total == weight_total(m, n as int, g@, c as int, cs@, i as nat),
                i > 0 ==> total >= 1,
            decreases cs@.len() - i,
        {
            let w = self.tile_weight(n, g, c, cs[i]);
            proof {
                lemma_draw_weight_positive(m, n as int, g@, c as int, cs@[i as int]);
            }
            weights.push(w);
            total = total.saturating_add(w);
            i = i + 1;
        }
        let x = rng.next_u64();
        let mut rem = x % total;
        let mut j: usize = 0;
        while j < cs.len() - 1 && rem >= weights[j]
            invariant
                j < cs@.len(),
                weights@.len() == cs@.len(),
                forall|k: int|
                    0 <= k < cs@.len() ==> weights@[k] == draw_weight(m, n as int, g@, c as int, #[trigger] cs@[k]),
                pick_from(m, n as int, g@, c as int, cs@, 0, (x as nat) % (total as nat))
                    == pick_from(m, n as int, g@, c as int, cs@, j as nat, rem as nat),
            decreases cs@.len() - j,
        {
            rem = rem - weights[j];
            j = j + 1;
        }
        cs[j]
    }

    /// Fills every undetermined cell of `data`, one cell at a time: the cell
    /// with the fewest candidates (the first in row-major order on a tie)
    /// takes a candidate drawn from `rng` with a chance proportional to how
    /// often it was seen next to the cell's committed neighbours. Fails with
    /// `Contradiction` where two seeds side by side were never seen together
    /// or some cell is left without a candidate, and with `InvalidInput` on a
    /// grid of side 0 or a seed tile the model never saw.
    /// `data` is left as it was; `rng` advances by one draw per commit.
    pub fn collapse(&self, data: &Data, rng: &mut SeededRng) -> (r: Result<Image, WfcError>)
        requires
            self.wf(),
            data.wf(),
        ensures
            final(rng)@ == collapse_outcome(self@, data.dim() as int, data@, old(rng)@).1,
            r matches Ok(img) ==> {
                &&& collapse_outcome(self@, data.dim() as int, data@, old(rng)@).0 == Ok::<
                    Seq<u64>,
                    WfcError,
                >(img@)
                &&& img.wf()
                &&& img.dim() == data.dim()
            },
            r matches Err(e) ==> collapse_outcome(self@, data.dim() as int, data@, old(rng)@).0
                == Err::<Seq<u64>, WfcError>(e),
            r matches Ok(img) ==> solution(self@, data.dim() as int, data@, img@),
            r matches Err(e) ==> (e == WfcError::InvalidInput <==> (data.dim() == 0 || !seeds_known(
                self@,
                data@,
            ))),
    {
        let ghost m = self@;
        proof {
            lemma_collapse_sound(m, data.dim() as int, data@, rng@);
        }
        let n = data.size();
        if n == 0 {
            return Err(WfcError::InvalidInput);
        }
        proof {
            data.lemma_dim_fits();
        }
        let cells = data.cells();
        if !self.seeds_known(cells) {
            return Err(WfcError::InvalidInput);
        }
        if !self.seeds_consistent(n, cells) {
            return Err(WfcError::Contradiction);
        }
        let mut g = cells.clone();
        assert(g@ =~= data@) by {
            assert forall|i: int| 0 <= i < g@.len() implies g@[i] == data@[i] by {
                assert(vstd::std_specs::vec::vec_clone_trigger(*cells, g));
            }
        }
        loop
            invariant
                self.wf(),
                m == self@,
                grid_ok(n, g@),
                data.dim() == n,
                collapse_outcome(m, n as int, data@, old(rng)@) == run(m, n as int, g@, rng@),
                collapse_outcome(m, n as int, data@, old(rng)@).0 matches Ok(out) ==> solution(
                    m,
                    n as int,
                    data@,
                    out,
                ),
            decreases open_cells(g@),
        {
            match self.select(n, &g) {
                Selection::Stuck => {
                    assert(run(m, n as int, g@, rng@) == (
                        Err::<Seq<u64>, WfcError>(WfcError::Contradiction),
                        rng@,
                    ));
                    return Err(WfcError::Contradiction);
                },
                Selection::Complete => {
                    let out = committed_grid(&g, Ghost(m), Ghost(n));
                    assert(run(m, n as int, g@, rng@) == (Ok::<Seq<u64>, WfcError>(out@), rng@));
                    let img = Matrix::from_parts(n, out);
                    return Ok(img);
                },
                Selection::Cell(c, cs) => {
                    proof {
                        lemma_best_upto(m, n as int, g@, g@.len());
                    }
                    let ghost before = g@;
                    let ghost s = rng@;
                    let t = self.draw(n, &g, c, &cs, rng);
                    proof {
                        let total = weight_total(m, n as int, before, c as int, cs@, cs@.len());
                        lemma_pick_from_in(
                            m,
                            n as int,
                            before,
                            c as int,
                            cs@,
                            0,
                            (mix(next_state(s)) as nat) % total,
                        );
                        lemma_open_cells_fill(before, c as int, t);
                    }
                    g.set(c, Some(t));
                },
            }
        }
    }

    fn seeds_known(&self, cells: &Vec<Option<u64>>) -> (r: bool)
        ensures
            r == seeds_known(self@, cells@),
    {
        let mut i: usize = 0;
        while i < cells.len()
            invariant
                i <= cells@.len(),
                forall|c: int|
                    0 <= c < i && cells@[c] is Some ==> self@.tiles.contains(#[trigger] cells@[c]->0),
            decreases cells@.len() - i,
        {
            match cells[i] {
                Some(t) => {
                    if !self.knows(t) {
                        assert(cells@[i as int]->0 == t);
                        return false;
                    }
                },
                None => {},
            }
            i = i + 1;
        }
        true
    }

    fn seeds_consistent(&self, n: usize, cells: &Vec<Option<u64>>) -> (r: bool)
        requires
            self.wf(),
            grid_ok(n, cells@),
        ensures
            r == seeds_consistent(self@, n as int, cells@),
    {
        let ghost m = self@;
        let len = cells.len();
        let mut c: usize = 0;
        while c < len
            invariant
                self.wf(),
                m == self@,
                grid_ok(n, cells@),
                len == cells@.len(),
                c <= len,
                forall|p: int, k: int|
                    0 <= p < c && 0 <= k < 8 && cells@[p] is Some && (#[trigger] committed_neighbor(
                        n as int,
                        cells@,
                        p,
                        k,
                    )) is Some ==> compatible(
                        m,
                        cells@[p]->0,
                        committed_neighbor(n as int, cells@, p, k)->0,
                    ),
            decreases len - c,
        {
            match cells[c] {
                Some(a) => {
                    let mut k: usize = 0;
                    while k < 8
                        invariant
                            self.wf(),
                            m == self@,
                            grid_ok(n, cells@),
                            len == cells@.len(),
                            c < len,
                            k <= 8,
                            cells@[c as int] == Some(a),
                            forall|j: int|
                                0 <= j < k && (#[trigger] committed_neighbor(
                                    n as int,
                                    cells@,
                                    c as int,
                                    j,
                                )) is Some ==> compatible(
                                    m,
                                    a,
                                    committed_neighbor(n as int, cells@, c as int, j)->0,
                                ),
                        decreases 8 - k,
                    {
                        match neighbor_tile(n, cells, c, k) {
                            Some(b) => {
                                if !self.compatible_tiles(a, b) {
                                    assert(committed_neighbor(n as int, cells@, c as int, k as int)
                                        is Some);
                                    return false;
                                }
                            },
                            None => {},
                        }
                        k = k + 1;
                    }
                },
                None => {},
            }
            c = c + 1;
        }
        true
    }
}

/// The tiles of a working grid in which no cell is left undetermined.
fn committed_grid(g: &Vec<Option<u64>>, m: Ghost<RulesView>, n: Ghost<usize>) -> (r: Vec<u64>)
    requires
        !stuck(m@, n@ as int, g@),
        chosen_cell(m@, n@ as int, g@) < 0,
    ensures
        r@ == committed_tiles(g@),
{
    proof {
        lemma_best_upto(m@, n@ as int, g@, g@.len());
    }
    let mut out: Vec<u64> = Vec::new();
    let mut i: usize = 0;
    while i < g.len()
        invariant
            forall|j: int|
                0 <= j < g@.len() ==> !(g@[j] is None && (#[trigger] candidates(
                    m@,
                    n@ as int,
                    g@,
                    j,
                )).len() > 0),
            !stuck(m@, n@ as int, g@),
            i <= g@.len(),
            out@ == committed_tiles(g@).take(i as int),
        decreases g@.len() - i,
    {
        assert(g@[i as int] is Some) by {
            let _ = candidates(m@, n@ as int, g@, i as int).len();
        }
        let t = g[i].unwrap();
        out.push(t);
        i = i + 1;
        assert(out@ =~= committed_tiles(g@).take(i as int));
    }
    assert(out@ =~= committed_tiles(g@));
    out
}

} // verus!
