//! The adjacency model: how often each tile was seen next to each other
//! tile in the samples it learned from.

use vstd::prelude::*;

use crate::error::WfcError;
use crate::grid::{Image, lemma_neighbor_symmetric, neighbor_cell, offset};
use vstd::relations::injective_on;
use vstd::set_lib::{lemma_len_subset, lemma_map_size, set_int_range, lemma_int_range};

verus! {

/// An entry of the table: centre tile, neighbour tile, count.
pub type Chance = (u64, u64, u64);

/// The adjacency model as the contracts see it: the tiles it has seen, in
/// increasing order, and how often each ordered pair was seen side by side.
pub struct RulesView {
    pub tiles: Seq<u64>,
    pub weight: Map<(u64, u64), nat>,
}

pub open spec fn strictly_increasing(s: Seq<u64>) -> bool {
    forall|i: int, j: int| 0 <= i < j < s.len() ==> s[i] < s[j]
}

/// What every model satisfies: tiles are positive and listed once, in
/// order; every pair has a count that fits in a `u64`; a pair with a
/// positive count is made of known tiles; `b` counts next to `a` as often
/// as `a` next to `b`.
pub open spec fn view_wf(v: RulesView) -> bool {
    &&& strictly_increasing(v.tiles)
    &&& forall|i: int| 0 <= i < v.tiles.len() ==> v.tiles[i] != 0
    &&& forall|k: (u64, u64)| v.weight.dom().contains(k)
    &&& forall|a: u64, b: u64| #[trigger] v.weight[(a, b)] <= u64::MAX
    &&& forall|a: u64, b: u64|
        #[trigger] v.weight[(a, b)] > 0 ==> v.tiles.contains(a) && v.tiles.contains(b)
    &&& forall|a: u64, b: u64| #[trigger] v.weight[(a, b)] == v.weight[(b, a)]
}

/// Count of the pair (a, b) among the entries; 0 where it is absent.
pub open spec fn lookup(s: Seq<Chance>, a: u64, b: u64) -> nat
    decreases s.len(),
{
    if s.len() == 0 {
        0
    } else if s.last().0 == a && s.last().1 == b {
        s.last().2 as nat
    } else {
        lookup(s.drop_last(), a, b)
    }
}

pub open spec fn keys_unique(s: Seq<Chance>) -> bool {
    forall|i: int, j: int|
        0 <= i < j < s.len() ==> !(s[i].0 == s[j].0 && s[i].1 == s[j].1)
}

pub open spec fn view_of(tiles: Seq<u64>, chances: Seq<Chance>) -> RulesView {
    RulesView {
        tiles,
        weight: Map::new(|k: (u64, u64)| true, |k: (u64, u64)| lookup(chances, k.0, k.1)),
    }
}

/// Sum of the counts of (a, b) for every b of `keys`.
pub open spec fn row_total(v: RulesView, a: u64, keys: Seq<u64>) -> nat
    decreases keys.len(),
{
    if keys.len() == 0 {
        0
    } else {
        row_total(v, a, keys.drop_last()) + v.weight[(a, keys.last())]
    }
}

/// Sum of the rows of every a of `keys`, each over all tiles of the model.
pub open spec fn table_total(v: RulesView, keys: Seq<u64>) -> nat
    decreases keys.len(),
{
    if keys.len() == 0 {
        0
    } else {
        table_total(v, keys.drop_last()) + row_total(v, keys.last(), v.tiles)
    }
}

/// Sum of all counts of the model.
pub open spec fn total_weight(v: RulesView) -> nat {
    table_total(v, v.tiles)
}

/// Centre and neighbour tile of visit `v` of the sample `g` of side `n`:
/// visit `v` looks from cell `v / 8` toward neighbour `v % 8`, and sees
/// nothing where that neighbour lies beyond an edge.
pub open spec fn observation(n: int, g: Seq<u64>, v: int) -> Option<(u64, u64)> {
    match neighbor_cell(n, v / 8, v % 8) {
        Some(q) => Some((g[v / 8], g[q])),
        None => None,
    }
}

/// How many of the first `v` visits saw `b` next to `a`.
pub open spec fn observed(n: int, g: Seq<u64>, v: nat, a: u64, b: u64) -> nat
    decreases v,
{
    if v == 0 {
        0
    } else {
        observed(n, g, (v - 1) as nat, a, b) + if observation(n, g, v - 1) == Some((a, b)) {
            1nat
        } else {
            0nat
        }
    }
}

/// How many of the first `v` visits saw any neighbour at all.
pub open spec fn observation_count(n: int, g: Seq<u64>, v: nat) -> nat
    decreases v,
{
    if v == 0 {
        0
    } else {
        observation_count(n, g, (v - 1) as nat) + if observation(n, g, v - 1) is Some {
            1nat
        } else {
            0nat
        }
    }
}

/// The model holds exactly what sample `g` of side `n` shows: its tiles
/// are those of the sample, and each pair counts the in-bounds neighbour
/// observations of that pair over all cells.
pub open spec fn learned_from(v: RulesView, n: nat, g: Seq<u64>) -> bool {
    &&& forall|t: u64| v.tiles.contains(t) <==> g.contains(t)
    &&& forall|a: u64, b: u64| #[trigger] v.weight[(a, b)] == observed(n as int, g, 8 * g.len(), a, b)
}

/// `x` capped at the largest `u64`.
pub open spec fn saturating(x: nat) -> nat {
    if x > u64::MAX {
        u64::MAX as nat
    } else {
        x
    }
}

/// `r` is the merge of `a` and `b`: it knows the tiles of both, and each
/// pair counts the sum of both counts, capped at the largest `u64`.
pub open spec fn merged_from(r: RulesView, a: RulesView, b: RulesView) -> bool {
    &&& forall|t: u64| r.tiles.contains(t) <==> (a.tiles.contains(t) || b.tiles.contains(t))
    &&& forall|x: u64, y: u64| #[trigger]
        r.weight[(x, y)] == saturating(a.weight[(x, y)] + b.weight[(x, y)])
}

/// The tiles of `keys` seen next to `a`, in the order of `keys`, each with
/// its count.
pub open spec fn candidate_list(v: RulesView, a: u64, keys: Seq<u64>) -> Seq<(u64, u64)>
    decreases keys.len(),
{
    if keys.len() == 0 {
        Seq::empty()
    } else {
        let rest = candidate_list(v, a, keys.drop_last());
        let w = v.weight[(a, keys.last())];
        if w > 0 {
            rest.push((keys.last(), w as u64))
        } else {
            rest
        }
    }
}

proof fn lemma_lookup_at(s: Seq<Chance>, i: int)
    requires
        keys_unique(s),
        0 <= i < s.len(),
    ensures
        lookup(s, s[i].0, s[i].1) == s[i].2,
    decreases s.len(),
{
    if i < s.len() - 1 {
        lemma_lookup_at(s.drop_last(), i);
    }
}

proof fn lemma_lookup_missing(s: Seq<Chance>, a: u64, b: u64)
    requires
        forall|i: int| 0 <= i < s.len() ==> !(s[i].0 == a && s[i].1 == b),
    ensures
        lookup(s, a, b) == 0,
    decreases s.len(),
{
    if s.len() > 0 {
        lemma_lookup_missing(s.drop_last(), a, b);
    }
}

/// Every count of a well-kept table fits in a `u64`, and a positive one
/// belongs to an entry.
proof fn lemma_lookup_entry(s: Seq<Chance>, a: u64, b: u64)
    requires
        keys_unique(s),
    ensures
        lookup(s, a, b) <= u64::MAX,
        lookup(s, a, b) > 0 ==> exists|i: int| 0 <= i < s.len() && s[i].0 == a && s[i].1 == b,
{
    if exists|i: int| 0 <= i < s.len() && s[i].0 == a && s[i].1 == b {
        let i = choose|i: int| 0 <= i < s.len() && s[i].0 == a && s[i].1 == b;
        lemma_lookup_at(s, i);
    } else {
        lemma_lookup_missing(s, a, b);
    }
}

/// Replacing the count of entry `i` changes that pair alone.
proof fn lemma_lookup_update(s: Seq<Chance>, i: int, c: u64, a: u64, b: u64)
    requires
        keys_unique(s),
        0 <= i < s.len(),
    ensures
        keys_unique(s.update(i, (s[i].0, s[i].1, c))),
        lookup(s.update(i, (s[i].0, s[i].1, c)), a, b) == if s[i].0 == a && s[i].1 == b {
            c as nat
        } else {
            lookup(s, a, b)
        },
{
    let t = s.update(i, (s[i].0, s[i].1, c));
    assert(keys_unique(t));
    if s[i].0 == a && s[i].1 == b {
        lemma_lookup_at(t, i);
    } else if exists|j: int| 0 <= j < s.len() && s[j].0 == a && s[j].1 == b {
        let j = choose|j: int| 0 <= j < s.len() && s[j].0 == a && s[j].1 == b;
        lemma_lookup_at(t, j);
        lemma_lookup_at(s, j);
    } else {
        lemma_lookup_missing(t, a, b);
        lemma_lookup_missing(s, a, b);
    }
}

/// Appending an entry for a new pair changes that pair alone.
proof fn lemma_lookup_push(s: Seq<Chance>, e: Chance, a: u64, b: u64)
    requires
        keys_unique(s),
        forall|i: int| 0 <= i < s.len() ==> !(s[i].0 == e.0 && s[i].1 == e.1),
    ensures
        keys_unique(s.push(e)),
        lookup(s.push(e), a, b) == if e.0 == a && e.1 == b {
            e.2 as nat
        } else {
            lookup(s, a, b)
        },
{
    assert(s.push(e).drop_last() =~= s);
}

/// Raising the count of one pair (a, b) of known tiles by one raises the
/// table's total by one.
proof fn lemma_row_bump(v1: RulesView, v2: RulesView, x: u64, keys: Seq<u64>, a: u64, b: u64)
    requires
        strictly_increasing(keys),
        forall|p: u64, q: u64|
            #[trigger] v2.weight[(p, q)] == v1.weight[(p, q)] + if p == a && q == b {
                1nat
            } else {
                0nat
            },
    ensures
        row_total(v2, x, keys) == row_total(v1, x, keys) + if x == a && keys.contains(b) {
            1nat
        } else {
            0nat
        },
    decreases keys.len(),
{
    if keys.len() > 0 {
        let rest = keys.drop_last();
        assert(strictly_increasing(rest));
        lemma_row_bump(v1, v2, x, rest, a, b);
        assert(v2.weight[(x, keys.last())] == v1.weight[(x, keys.last())] + if x == a && keys.last()
            == b {
            1nat
        } else {
            0nat
        });
        if keys.contains(b) {
            let j = choose|j: int| 0 <= j < keys.len() && keys[j] == b;
            if keys.last() == b {
                assert(!rest.contains(b));
            } else {
                assert(rest[j] == b);
            }
        } else {
            assert(!rest.contains(b));
        }
    }
}

proof fn lemma_table_bump(v1: RulesView, v2: RulesView, keys: Seq<u64>, a: u64, b: u64)
    requires
        strictly_increasing(keys),
        strictly_increasing(v1.tiles),
        v1.tiles == v2.tiles,
        v1.tiles.contains(b),
        forall|p: u64, q: u64|
            #[trigger] v2.weight[(p, q)] == v1.weight[(p, q)] + if p == a && q == b {
                1nat
            } else {
                0nat
            },
    ensures
        table_total(v2, keys) == table_total(v1, keys) + if keys.contains(a) {
            1nat
        } else {
            0nat
        },
    decreases keys.len(),
{
    if keys.len() > 0 {
        let rest = keys.drop_last();
        assert(strictly_increasing(rest));
        lemma_table_bump(v1, v2, rest, a, b);
        lemma_row_bump(v1, v2, keys.last(), v1.tiles, a, b);
        if keys.contains(a) {
            let j = choose|j: int| 0 <= j < keys.len() && keys[j] == a;
            if keys.last() == a {
                assert(!rest.contains(a));
            } else {
                assert(rest[j] == a);
            }
        } else {
            assert(!rest.contains(a));
        }
    }
}

/// A table with no counts totals zero.
proof fn lemma_table_empty(v: RulesView, keys: Seq<u64>)
    requires
        forall|p: u64, q: u64| #[trigger] v.weight[(p, q)] == 0,
    ensures
        table_total(v, keys) == 0,
    decreases keys.len(),
{
    if keys.len() > 0 {
        lemma_table_empty(v, keys.drop_last());
        lemma_row_empty(v, keys.last(), v.tiles);
    }
}

proof fn lemma_row_empty(v: RulesView, a: u64, keys: Seq<u64>)
    requires
        forall|p: u64, q: u64| #[trigger] v.weight[(p, q)] == 0,
    ensures
        row_total(v, a, keys) == 0,
    decreases keys.len(),
{
    if keys.len() > 0 {
        lemma_row_empty(v, a, keys.drop_last());
    }
}

proof fn lemma_observed_bounded(n: int, g: Seq<u64>, v: nat, a: u64, b: u64)
    ensures
        observed(n, g, v, a, b) <= observation_count(n, g, v) <= v,
    decreases v,
{
    if v > 0 {
        lemma_observed_bounded(n, g, (v - 1) as nat, a, b);
    }
}

/// Adds `t` to an increasing list of tiles, where it is not there yet.
fn insert_tile(tiles: &mut Vec<u64>, t: u64)
    requires
        strictly_increasing(old(tiles)@),
    ensures
        strictly_increasing(final(tiles)@),
        forall|x: u64| final(tiles)@.contains(x) <==> (old(tiles)@.contains(x) || x == t),
{
    let mut p: usize = 0;
    while p < tiles.len() && tiles[p] < t
        invariant
            tiles@ == old(tiles)@,
            p <= tiles@.len(),
            forall|j: int| 0 <= j < p ==> tiles@[j] < t,
        decreases tiles@.len() - p,
    {
        p = p + 1;
    }
    if p < tiles.len() && tiles[p] == t {
        assert(tiles@[p as int] == t);
        return;
    }
    let ghost before = tiles@;
    assert(before == old(tiles)@);
    tiles.insert(p, t);
    assert(tiles@ =~= before.take(p as int).push(t) + before.skip(p as int));
    assert forall|x: u64| #[trigger] tiles@.contains(x) <==> (old(tiles)@.contains(x) || x == t) by {
        if tiles@.contains(x) {
            let j = choose|j: int| 0 <= j < tiles@.len() && tiles@[j] == x;
            if j < p {
                assert(before[j] == x);
            } else if j > p {
                assert(before[j - 1] == x);
            }
        }
        if before.contains(x) {
            let j = choose|j: int| 0 <= j < before.len() && before[j] == x;
            if j < p {
                assert(tiles@[j] == x);
            } else {
                assert(tiles@[j + 1] == x);
            }
        }
        if x == t {
            assert(tiles@[p as int] == t);
        }
    }
}

/// Two increasing lists with the same tiles are the same list.
pub proof fn lemma_increasing_unique(s1: Seq<u64>, s2: Seq<u64>)
    requires
        strictly_increasing(s1),
        strictly_increasing(s2),
        forall|t: u64| s1.contains(t) <==> s2.contains(t),
    ensures
        s1 == s2,
    decreases s1.len(),
{
    if s1.len() == 0 {
        if s2.len() > 0 {
            assert(s2.contains(s2[0]));
        }
        assert(s1 =~= s2);
    } else {
        if s2.len() == 0 {
            assert(s1.contains(s1[0]));
        }
        let a = s1.last();
        let b = s2.last();
        assert(s1.contains(a));
        assert(s2.contains(b));
        assert(a == b);
        let r1 = s1.drop_last();
        let r2 = s2.drop_last();
        assert(strictly_increasing(r1));
        assert(strictly_increasing(r2));
        assert forall|t: u64| r1.contains(t) <==> r2.contains(t) by {
            if r1.contains(t) {
                let j = choose|j: int| 0 <= j < r1.len() && r1[j] == t;
                assert(s1[j] == t);
                assert(s2.contains(t));
                let i = choose|i: int| 0 <= i < s2.len() && s2[i] == t;
                assert(i != s2.len() - 1);
                assert(r2[i] == t);
            }
            if r2.contains(t) {
                let j = choose|j: int| 0 <= j < r2.len() && r2[j] == t;
                assert(s2[j] == t);
                assert(s1.contains(t));
                let i = choose|i: int| 0 <= i < s1.len() && s1[i] == t;
                assert(i != s1.len() - 1);
                assert(r1[i] == t);
            }
        }
        lemma_increasing_unique(r1, r2);
        assert(s1 =~= r1.push(a));
        assert(s2 =~= r2.push(b));
    }
}

fn copy_vec<T: Copy>(v: &Vec<T>) -> (r: Vec<T>)
    ensures
        r@ == v@,
{
    let mut r: Vec<T> = Vec::new();
    let mut i: usize = 0;
    while i < v.len()
        invariant
            i <= v@.len(),
            r@ == v@.take(i as int),
        decreases v@.len() - i,
    {
        r.push(v[i]);
        i = i + 1;
        assert(r@ =~= v@.take(i as int));
    }
    assert(v@.take(i as int) =~= v@);
    r
}

/// The visits among the first `v` that saw `b` next to `a`.
pub open spec fn sightings(n: int, g: Seq<u64>, v: int, a: u64, b: u64) -> Set<int> {
    Set::new(|w: int| 0 <= w < v && observation(n, g, w) == Some((a, b)))
}

/// The visit that looks back: from the neighbour seen at visit `v`, toward
/// the cell of `v`.
pub open spec fn mirror_visit(n: int, v: int) -> int {
    8 * neighbor_cell(n, v / 8, v % 8)->0 + (7 - v % 8)
}

proof fn lemma_sightings_counted(n: int, g: Seq<u64>, v: nat, a: u64, b: u64)
    ensures
        sightings(n, g, v as int, a, b).finite(),
        sightings(n, g, v as int, a, b).len() == observed(n, g, v, a, b),
    decreases v,
{
    if v == 0 {
        assert(sightings(n, g, 0, a, b) =~= Set::empty());
    } else {
        let w = (v - 1) as nat;
        lemma_sightings_counted(n, g, w, a, b);
        if observation(n, g, w as int) == Some((a, b)) {
            assert(sightings(n, g, v as int, a, b) =~= sightings(n, g, w as int, a, b).insert(w as int));
        } else {
            assert(sightings(n, g, v as int, a, b) =~= sightings(n, g, w as int, a, b));
        }
    }
}

pub open spec fn swapped(o: Option<(u64, u64)>) -> Option<(u64, u64)> {
    match o {
        Some((a, b)) => Some((b, a)),
        None => None,
    }
}

/// Looking back from a sighting of `b` next to `a` sees `a` next to `b`,
/// and looking back twice returns to the first visit.
proof fn lemma_mirror_visit(n: int, g: Seq<u64>, v: int)
    requires
        n >= 0,
        g.len() == n * n,
        0 <= v < 8 * g.len(),
        observation(n, g, v) is Some,
    ensures
        0 <= mirror_visit(n, v) < 8 * g.len(),
        observation(n, g, mirror_visit(n, v)) == swapped(observation(n, g, v)),
        mirror_visit(n, mirror_visit(n, v)) == v,
{
    let c = v / 8;
    let k = v % 8;
    lemma_neighbor_symmetric(n, c, k);
    let q = neighbor_cell(n, c, k)->0;
    let w = 8 * q + (7 - k);
    vstd::arithmetic::div_mod::lemma_fundamental_div_mod_converse(w, 8, q, 7 - k);
    vstd::arithmetic::div_mod::lemma_fundamental_div_mod_converse(v, 8, c, k);
}

/// A learned table is symmetric: `b` was seen next to `a` exactly as often
/// as `a` next to `b`.
pub proof fn lemma_observed_symmetric(n: int, g: Seq<u64>, a: u64, b: u64)
    requires
        n >= 0,
        g.len() == n * n,
    ensures
        observed(n, g, 8 * g.len(), a, b) == observed(n, g, 8 * g.len(), b, a),
{
    let top = 8 * g.len();
    let x = sightings(n, g, top as int, a, b);
    let y = sightings(n, g, top as int, b, a);
    lemma_sightings_counted(n, g, top, a, b);
    lemma_sightings_counted(n, g, top, b, a);
    let f = |v: int| mirror_visit(n, v);
    assert forall|v1: int, v2: int|
        x.contains(v1) && x.contains(v2) && #[trigger] f(v1) == #[trigger] f(v2) implies v1 == v2 by {
        lemma_mirror_visit(n, g, v1);
        lemma_mirror_visit(n, g, v2);
    }
    assert(injective_on(f, x));
    assert forall|w: int| #[trigger] y.contains(w) <==> x.map(f).contains(w) by {
        if y.contains(w) {
            lemma_mirror_visit(n, g, w);
            let v = mirror_visit(n, w);
            assert(x.contains(v));
            assert(f(v) == w);
        }
        if x.map(f).contains(w) {
            let v = choose|v: int| x.contains(v) && f(v) == w;
            lemma_mirror_visit(n, g, v);
        }
    }
    assert(x.map(f) =~= y);
    lemma_map_size(x, y, f);
}

/// Index of the entry of pair (a, b), if there is one.
fn find_chance(chances: &Vec<Chance>, a: u64, b: u64) -> (r: Option<usize>)
    ensures
        r matches Some(i) ==> i < chances@.len() && chances@[i as int].0 == a && chances@[i as int].1
            == b,
        r is None ==> forall|i: int|
            0 <= i < chances@.len() ==> !(chances@[i].0 == a && chances@[i].1 == b),
{
    let mut i: usize = 0;
    while i < chances.len()
        invariant
            i <= chances@.len(),
            forall|j: int| 0 <= j < i ==> !(chances@[j].0 == a && chances@[j].1 == b),
        decreases chances@.len() - i,
    {
        if chances[i].0 == a && chances[i].1 == b {
            return Some(i);
        }
        i = i + 1;
    }
    None
}

/// The table's entries are well kept: one per pair, each count positive,
/// each pair made of known tiles.
pub open spec fn entries_ok(tiles: Seq<u64>, s: Seq<Chance>) -> bool {
    &&& keys_unique(s)
    &&& forall|i: int| 0 <= i < s.len() ==> s[i].2 > 0
    &&& forall|i: int| 0 <= i < s.len() ==> tiles.contains(s[i].0) && tiles.contains(s[i].1)
}

/// Counts one more sighting of `b` next to `a`.
fn bump(chances: &mut Vec<Chance>, tiles: &Vec<u64>, a: u64, b: u64)
    requires
        entries_ok(tiles@, old(chances)@),
        tiles@.contains(a),
        tiles@.contains(b),
        lookup(old(chances)@, a, b) < u64::MAX,
    ensures
        entries_ok(tiles@, final(chances)@),
        forall|p: u64, q: u64|
            lookup(final(chances)@, p, q) == lookup(old(chances)@, p, q) + if p == a && q == b {
                1nat
            } else {
                0nat
            },
{
    match find_chance(chances, a, b) {
        Some(i) => {
            let e = chances[i];
            proof {
                lemma_lookup_at(chances@, i as int);
            }
            let ghost before = chances@;
            chances.set(i, (a, b, e.2 + 1));
            assert forall|p: u64, q: u64|
                lookup(chances@, p, q) == lookup(before, p, q) + if p == a && q == b {
                    1nat
                } else {
                    0nat
                } by {
                lemma_lookup_update(before, i as int, (e.2 + 1) as u64, p, q);
            }
            proof {
                lemma_lookup_update(before, i as int, (e.2 + 1) as u64, a, b);
            }
        },
        None => {
            let ghost before = chances@;
            chances.push((a, b, 1));
            assert forall|p: u64, q: u64|
                lookup(chances@, p, q) == lookup(before, p, q) + if p == a && q == b {
                    1nat
                } else {
                    0nat
                } by {
                lemma_lookup_push(before, (a, b, 1u64), p, q);
                if p == a && q == b {
                    lemma_lookup_missing(before, a, b);
                }
            }
            proof {
                lemma_lookup_push(before, (a, b, 1u64), a, b);
            }
        },
    }
}

/// A learned adjacency table: for each ordered pair of tiles, how often
/// the second was seen in the Moore neighbourhood of the first.
#[derive(Debug, Clone)]
pub struct Rules {
    tiles: Vec<u64>,
    chances: Vec<Chance>,
}

impl View for Rules {
    type V = RulesView;

    closed spec fn view(&self) -> RulesView {
        view_of(self.tiles@, self.chances@)
    }
}

impl Rules {
    /// The stored entries agree with the view.
    pub closed spec fn entries_wf(&self) -> bool {
        entries_ok(self.tiles@, self.chances@)
    }

    pub open spec fn wf(&self) -> bool {
        &&& self.entries_wf()
        &&& view_wf(self@)
    }

    proof fn lemma_view_wf(tiles: Seq<u64>, chances: Seq<Chance>)
        requires
            entries_ok(tiles, chances),
            strictly_increasing(tiles),
            forall|i: int| 0 <= i < tiles.len() ==> tiles[i] != 0,
            forall|a: u64, b: u64| lookup(chances, a, b) == lookup(chances, b, a),
        ensures
            view_wf(view_of(tiles, chances)),
    {
        let v = view_of(tiles, chances);
        assert forall|a: u64, b: u64| #[trigger] v.weight[(a, b)] <= u64::MAX by {
            lemma_lookup_entry(chances, a, b);
        }
        assert forall|a: u64, b: u64| #[trigger]
            v.weight[(a, b)] > 0 implies v.tiles.contains(a) && v.tiles.contains(b) by {
            lemma_lookup_entry(chances, a, b);
        }
    }

    /// Learns a model from a sample: for every cell and each of its in-bounds
    /// Moore neighbours, counts the neighbour's tile next to the cell's own.
    /// Tile 0 is no tile: a sample holding it is refused.
    pub fn from_data(data: Image) -> (r: Result<Rules, WfcError>)
        requires
            data.wf(),
            8 * data@.len() <= u64::MAX,
        ensures
            r is Err <==> data@.contains(0u64),
            r matches Err(e) ==> e == WfcError::InvalidInput,
            r matches Ok(m) ==> {
                &&& m.wf()
                &&& learned_from(m@, data.dim(), data@)
                &&& total_weight(m@) == observation_count(data.dim() as int, data@, 8 * data@.len())
            },
    {
        let n = data.size();
        let cells = data.cells();
        let len = cells.len();
        let mut tiles: Vec<u64> = Vec::new();
        let mut i: usize = 0;
        while i < len
            invariant
                cells@ == data@,
                len == data@.len(),
                i <= len,
                strictly_increasing(tiles@),
                forall|j: int| 0 <= j < i ==> data@[j] != 0,
                forall|t: u64| tiles@.contains(t) <==> exists|j: int| 0 <= j < i && data@[j] == t,
            decreases len - i,
        {
            let t = cells[i];
            if t == 0 {
                return Err(WfcError::InvalidInput);
            }
            insert_tile(&mut tiles, t);
            proof {
                assert forall|x: u64| tiles@.contains(x) <==> exists|j: int|
                    0 <= j < i + 1 && data@[j] == x by {
                    if x == t {
                        assert(data@[i as int] == x);
                    }
                }
            }
            i = i + 1;
        }
        assert(!data@.contains(0u64));
        assert forall|j: int| 0 <= j < tiles@.len() implies tiles@[j] != 0 by {
            assert(tiles@.contains(tiles@[j]));
        }
        proof {
            data.lemma_dim_fits();
        }

        let mut chances: Vec<Chance> = Vec::new();
        proof {
            lemma_table_empty(view_of(tiles@, chances@), tiles@);
        }
        let mut c: usize = 0;
        while c < len
            invariant
                cells@ == data@,
                len == data@.len(),
                data.wf(),
                n == data.dim(),
                n <= isize::MAX,
                8 * len <= u64::MAX,
                c <= len,
                strictly_increasing(tiles@),
                forall|t: u64| tiles@.contains(t) <==> data@.contains(t),
                entries_ok(tiles@, chances@),
                forall|a: u64, b: u64|
                    lookup(chances@, a, b) == observed(n as int, data@, 8 * c as nat, a, b),
                table_total(view_of(tiles@, chances@), tiles@) == observation_count(
                    n as int,
                    data@,
                    8 * c as nat,
                ),
            decreases len - c,
        {
            let a = cells[c];
            proof {
                crate::grid::lemma_index_coords(n as int, c as int);
            }
            let x = c % n;
            let y = c / n;
            let mut k: usize = 0;
            while k < 8
                invariant
                    cells@ == data@,
                    len == data@.len(),
                    data.wf(),
                    n == data.dim(),
                    n <= isize::MAX,
                    8 * len <= u64::MAX,
                    c < len,
                    k <= 8,
                    a == data@[c as int],
                    x == c % n,
                    y == c / n,
                    x < n,
                    y < n,
                    strictly_increasing(tiles@),
                    forall|t: u64| tiles@.contains(t) <==> data@.contains(t),
                    entries_ok(tiles@, chances@),
                    forall|p: u64, q: u64|
                        lookup(chances@, p, q) == observed(n as int, data@, (8 * c + k) as nat, p, q),
                    table_total(view_of(tiles@, chances@), tiles@) == observation_count(
                        n as int,
                        data@,
                        (8 * c + k) as nat,
                    ),
                decreases 8 - k,
            {
                let (dx, dy) = offset(k);
                let v: Ghost<int> = Ghost(8 * c + k);
                proof {
                    vstd::arithmetic::div_mod::lemma_fundamental_div_mod_converse(
                        v@,
                        8,
                        c as int,
                        k as int,
                    );
                }
                match data.get_isize(x as isize + dx, y as isize + dy) {
                    Some(b) => {
                        let b = *b;
                        assert(observation(n as int, data@, v@) == Some((a, b)));
                        assert(data@.contains(a));
                        assert(data@.contains(b)) by {
                            crate::grid::lemma_cell_coords(
                                n as int,
                                x + dx,
                                y + dy,
                            );
                        }
                        proof {
                            lemma_observed_bounded(n as int, data@, (v@ + 1) as nat, a, b);
                        }
                        let ghost old_view = view_of(tiles@, chances@);
                        bump(&mut chances, &tiles, a, b);
                        proof {
                            let new_view = view_of(tiles@, chances@);
                            lemma_table_bump(old_view, new_view, tiles@, a, b);
                        }
                    },
                    None => {
                        assert(observation(n as int, data@, v@) is None);
                    },
                }
                k = k + 1;
            }
            c = c + 1;
        }
        assert forall|a: u64, b: u64| lookup(chances@, a, b) == lookup(chances@, b, a) by {
            lemma_observed_symmetric(n as int, data@, a, b);
        }
        proof {
            Rules::lemma_view_wf(tiles@, chances@);
        }
        Ok(Rules { tiles, chances })
    }

    /// A model that knows the tiles of both and sums their counts, capped
    /// at the largest `u64`; learning from several samples.
    pub fn merge(&self, other: &Rules) -> (r: Rules)
        requires
            self.wf(),
            other.wf(),
        ensures
            r.wf(),
            merged_from(r@, self@, other@),
    {
        let mut tiles = copy_vec(&self.tiles);
        let mut i: usize = 0;
        while i < other.tiles.len()
            invariant
                i <= other.tiles@.len(),
                strictly_increasing(tiles@),
                forall|t: u64|
                    tiles@.contains(t) <==> (self.tiles@.contains(t) || exists|j: int|
                        0 <= j < i && other.tiles@[j] == t),
            decreases other.tiles@.len() - i,
        {
            let t = other.tiles[i];
            insert_tile(&mut tiles, t);
            assert forall|x: u64| tiles@.contains(x) <==> (self.tiles@.contains(x) || exists|j: int|
                0 <= j < i + 1 && other.tiles@[j] == x) by {
                if x == t {
                    assert(other.tiles@[i as int] == x);
                }
            }
            i = i + 1;
        }
        assert forall|t: u64| tiles@.contains(t) <==> (self.tiles@.contains(t) || other.tiles@.contains(t)) by {
            if other.tiles@.contains(t) {
                let j = choose|j: int| 0 <= j < other.tiles@.len() && other.tiles@[j] == t;
                assert(exists|j: int| 0 <= j < i && other.tiles@[j] == t);
            }
        }

        assert forall|k: int| 0 <= k < tiles@.len() implies tiles@[k] != 0 by {
            assert(tiles@.contains(tiles@[k]));
            if self.tiles@.contains(tiles@[k]) {
                let j = choose|j: int| 0 <= j < self.tiles@.len() && self.tiles@[j] == tiles@[k];
            } else {
                let j = choose|j: int| 0 <= j < other.tiles@.len() && other.tiles@[j] == tiles@[k];
            }
        }

        let mut chances = copy_vec(&self.chances);
        let ghost theirs = other.chances@;
        assert forall|x: u64, y: u64|
            lookup(chances@, x, y) == saturating(
                lookup(self.chances@, x, y) + lookup(theirs.take(0), x, y),
            ) by {
            lemma_lookup_entry(self.chances@, x, y);
        }
        let mut j: usize = 0;
        while j < other.chances.len()
            invariant
                j <= theirs.len(),
                theirs == other.chances@,
                entries_ok(other.tiles@, theirs),
                entries_ok(self.tiles@, self.chances@),
                forall|t: u64| tiles@.contains(t) <==> (self.tiles@.contains(t) || other.tiles@.contains(t)),
                entries_ok(tiles@, chances@),
                forall|k: int| 0 <= k < tiles@.len() ==> tiles@[k] != 0,
                forall|x: u64, y: u64|
                    lookup(chances@, x, y) == saturating(
                        lookup(self.chances@, x, y) + lookup(theirs.take(j as int), x, y),
                    ),
            decreases theirs.len() - j,
        {
            let (a, b, w) = other.chances[j];
            let ghost before = chances@;
            let ghost seen = theirs.take(j as int);
            assert(theirs.take(j + 1) =~= seen.push((a, b, w)));
            assert(keys_unique(seen));
            assert forall|i: int| 0 <= i < seen.len() implies !(seen[i].0 == a && seen[i].1 == b) by {
                assert(seen[i] == theirs[i]);
            }
            proof {
                lemma_lookup_missing(seen, a, b);
                lemma_lookup_entry(self.chances@, a, b);
            }
            match find_chance(&chances, a, b) {
                Some(k) => {
                    let e = chances[k];
                    proof {
                        lemma_lookup_at(before, k as int);
                    }
                    chances.set(k, (a, b, e.2.saturating_add(w)));
                    assert forall|x: u64, y: u64|
                        lookup(chances@, x, y) == saturating(
                            lookup(self.chances@, x, y) + lookup(theirs.take(j + 1), x, y),
                        ) by {
                        lemma_lookup_update(before, k as int, e.2.saturating_add(w), x, y);
                        lemma_lookup_push(seen, (a, b, w), x, y);
                        lemma_lookup_entry(self.chances@, x, y);
                        lemma_lookup_entry(seen, x, y);
                    }
                    proof {
                        lemma_lookup_update(before, k as int, e.2.saturating_add(w), a, b);
                    }
                },
                None => {
                    chances.push((a, b, w));
                    assert forall|x: u64, y: u64|
                        lookup(chances@, x, y) == saturating(
                            lookup(self.chances@, x, y) + lookup(theirs.take(j + 1), x, y),
                        ) by {
                        lemma_lookup_push(before, (a, b, w), x, y);
                        lemma_lookup_push(seen, (a, b, w), x, y);
                        lemma_lookup_entry(self.chances@, x, y);
                        lemma_lookup_entry(seen, x, y);
                        if x == a && y == b {
                            lemma_lookup_missing(before, a, b);
                        }
                    }
                    proof {
                        lemma_lookup_push(before, (a, b, w), a, b);
                    }
                },
            }
            j = j + 1;
        }
        assert(theirs.take(j as int) =~= theirs);
        assert forall|a: u64, b: u64| lookup(chances@, a, b) == lookup(chances@, b, a) by {
            assert(self@.weight[(a, b)] == self@.weight[(b, a)]);
            assert(other@.weight[(a, b)] == other@.weight[(b, a)]);
        }
        proof {
            Rules::lemma_view_wf(tiles@, chances@);
        }
        let r = Rules { tiles, chances };
        assert forall|x: u64, y: u64| #[trigger]
            r@.weight[(x, y)] == saturating(self@.weight[(x, y)] + other@.weight[(x, y)]) by {}
        r
    }

    /// How often `candidate` was seen next to `center`; 0 for a pair never
    /// seen.
    pub fn neighbor_weight(&self, center: u64, candidate: u64) -> (r: u64)
        requires
            self.wf(),
        ensures
            r == self@.weight[(center, candidate)],
    {
        match find_chance(&self.chances, center, candidate) {
            Some(i) => {
                proof {
                    lemma_lookup_at(self.chances@, i as int);
                }
                self.chances[i].2
            },
            None => {
                proof {
                    lemma_lookup_missing(self.chances@, center, candidate);
                }
                0
            },
        }
    }

    /// Whether the model has seen tile `t`.
    pub fn knows(&self, t: u64) -> (r: bool)
        ensures
            r == self@.tiles.contains(t),
    {
        let mut i: usize = 0;
        while i < self.tiles.len()
            invariant
                i <= self.tiles@.len(),
                forall|j: int| 0 <= j < i ==> self.tiles@[j] != t,
            decreases self.tiles@.len() - i,
        {
            if self.tiles[i] == t {
                assert(self.tiles@[i as int] == t);
                return true;
            }
            i = i + 1;
        }
        false
    }

    /// The tiles the model has seen, in increasing order.
    pub fn tiles(&self) -> (r: Vec<u64>)
        ensures
            r@ == self@.tiles,
    {
        copy_vec(&self.tiles)
    }

    /// Every tile seen next to `center`, in increasing order, with its count.
    pub fn candidates_for(&self, center: u64) -> (r: Vec<(u64, u64)>)
        requires
            self.wf(),
        ensures
            r@ == candidate_list(self@, center, self@.tiles),
    {
        let mut r: Vec<(u64, u64)> = Vec::new();
        let mut i: usize = 0;
        while i < self.tiles.len()
            invariant
                self.wf(),
                i <= self@.tiles.len(),
                r@ == candidate_list(self@, center, self@.tiles.take(i as int)),
            decreases self@.tiles.len() - i,
        {
            let b = self.tiles[i];
            let w = self.neighbor_weight(center, b);
            assert(self@.tiles.take(i + 1).drop_last() =~= self@.tiles.take(i as int));
            if w > 0 {
                r.push((b, w));
            }
            i = i + 1;
        }
        assert(self@.tiles.take(i as int) =~= self@.tiles);
        r
    }

    /// The whole table: each tile the model has seen, in increasing order,
    /// with the tiles seen next to it and their counts.
    pub fn chances(&self) -> (r: Vec<(u64, Vec<(u64, u64)>)>)
        requires
            self.wf(),
        ensures
            r@.len() == self@.tiles.len(),
            forall|i: int|
                0 <= i < r@.len() ==> r@[i].0 == self@.tiles[i] && r@[i].1@ == candidate_list(
                    self@,
                    self@.tiles[i],
                    self@.tiles,
                ),
    {
        let mut r: Vec<(u64, Vec<(u64, u64)>)> = Vec::new();
        let mut i: usize = 0;
        while i < self.tiles.len()
            invariant
                self.wf(),
                i <= self@.tiles.len(),
                r@.len() == i,
                forall|j: int|
                    0 <= j < i ==> r@[j].0 == self@.tiles[j] && r@[j].1@ == candidate_list(
                        self@,
                        self@.tiles[j],
                        self@.tiles,
                    ),
            decreases self@.tiles.len() - i,
        {
            let a = self.tiles[i];
            let row = self.candidates_for(a);
            r.push((a, row));
            i = i + 1;
        }
        r
    }
}

/// Merging the model learned from a sample with itself gives that sample's
/// model with every count doubled, where doubling stays within a `u64`.
pub proof fn lemma_merge_with_itself(n: nat, g: Seq<u64>, m: RulesView, r: RulesView)
    requires
        view_wf(m),
        view_wf(r),
        learned_from(m, n, g),
        merged_from(r, m, m),
        forall|a: u64, b: u64| 2 * #[trigger] observed(n as int, g, 8 * g.len(), a, b) <= u64::MAX,
    ensures
        r.tiles == m.tiles,
        forall|a: u64, b: u64| #[trigger]
            r.weight[(a, b)] == 2 * observed(n as int, g, 8 * g.len(), a, b),
{
    lemma_increasing_unique(r.tiles, m.tiles);
    assert forall|a: u64, b: u64| #[trigger]
        r.weight[(a, b)] == 2 * observed(n as int, g, 8 * g.len(), a, b) by {
        assert(m.weight[(a, b)] == observed(n as int, g, 8 * g.len(), a, b));
    }
}

} // verus!
