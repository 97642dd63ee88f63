//! Flow-field routing on a rectangular cell grid.
//!
//! Cells are numbered row by row: cell `(x, y)` of a grid `w` cells wide has
//! index `y * w + x`. A distance field gives every cell its number of grid
//! steps to the nearest source cell; the flow of a cell points at the
//! neighbor that is closest to a source.
use vstd::prelude::*;
use vstd::arithmetic::div_mod::{lemma_fundamental_div_mod, lemma_fundamental_div_mod_converse, lemma_mod_bound};
use vstd::arithmetic::mul::lemma_mul_is_commutative;

verus! {

/// One of the four grid steps a flow cell can point along, or no step at all.
#[derive(Clone, Copy, Debug, PartialEq, Eq)]
pub enum Step {
    PlusX,
    MinusX,
    PlusY,
    MinusY,
    Stay,
}

/// The x offset of neighbor direction `k` (in the order +x, -x, +y, -y).
pub open spec fn dir_dx(k: int) -> int {
    if k == 0 { 1 } else if k == 1 { -1 } else { 0 }
}

/// The y offset of neighbor direction `k`.
pub open spec fn dir_dy(k: int) -> int {
    if k == 2 { 1 } else if k == 3 { -1 } else { 0 }
}

/// The direction opposite to direction `k`.
pub open spec fn opposite(k: int) -> int {
    if k == 0 { 1 } else if k == 1 { 0 } else if k == 2 { 3 } else { 2 }
}

/// The step that direction `k` stands for.
pub open spec fn step_of(k: int) -> Step {
    if k == 0 { Step::PlusX } else if k == 1 { Step::MinusX } else if k == 2 { Step::PlusY } else { Step::MinusY }
}

fn step_for(k: usize) -> (s: Step)
    requires k < 4,
    ensures s == step_of(k as int),
{
    if k == 0 { Step::PlusX } else if k == 1 { Step::MinusX } else if k == 2 { Step::PlusY } else { Step::MinusY }
}

/// The neighbor of cell `i` in direction `k`, if it lies inside the `w` x `h` grid.
pub open spec fn neighbor(w: int, h: int, i: int, k: int) -> Option<int> {
    let x = i % w + dir_dx(k);
    let y = i / w + dir_dy(k);
    if 0 <= x < w && 0 <= y < h { Some(y * w + x) } else { None }
}

/// Cell `(x, y)` inside the grid has an index below `w * h` that gives back `x` and `y`.
pub proof fn lemma_index_decode(w: int, h: int, x: int, y: int)
    requires
        0 <= x < w,
        0 <= y < h,
    ensures
        0 <= y * w + x < w * h,
        (y * w + x) % w == x,
        (y * w + x) / w == y,
{
    lemma_fundamental_div_mod_converse(y * w + x, w, y, x);
    assert(0 <= y * w) by (nonlinear_arith) requires 0 <= y, 0 < w;
    assert(y * w + x < w * h) by (nonlinear_arith) requires 0 <= x < w, 0 <= y < h;
}

/// Every index below `w * h` is the index of the cell `(i % w, i / w)` inside the grid.
pub proof fn lemma_index_encode(w: int, h: int, i: int)
    requires
        0 < w,
        0 <= i < w * h,
    ensures
        0 <= i % w < w,
        0 <= i / w < h,
        i == (i / w) * w + i % w,
{
    lemma_mod_bound(i, w);
    lemma_fundamental_div_mod(i, w);
    lemma_mul_is_commutative(w, i / w);
    let q = i / w;
    let r = i % w;
    assert(0 <= q) by (nonlinear_arith) requires i == q * w + r, 0 <= r < w, 0 <= i;
    assert(q < h) by (nonlinear_arith) requires i == q * w + r, 0 <= r < w, i < w * h;
}

/// Neighborhood is symmetric: if `j` is the neighbor of `i` in direction `k`, then
/// `i` is the neighbor of `j` in the opposite direction.
pub proof fn lemma_neighbor_symmetric(w: int, h: int, i: int, k: int)
    requires
        0 < w,
        0 <= i < w * h,
        0 <= k < 4,
        neighbor(w, h, i, k) is Some,
    ensures
        0 <= neighbor(w, h, i, k)->0 < w * h,
        neighbor(w, h, neighbor(w, h, i, k)->0, opposite(k)) == Some(i),
{
    lemma_index_encode(w, h, i);
    let x = i % w + dir_dx(k);
    let y = i / w + dir_dy(k);
    lemma_index_decode(w, h, x, y);
}

/// The index of the neighbor of cell `i` in direction `k`, or `None` at the grid's edge.
fn neighbor_cell(w: usize, h: usize, i: usize, k: usize) -> (r: Option<usize>)
    requires
        0 < w,
        i < w * h,
        w * h <= usize::MAX,
        k < 4,
    ensures
        r matches Some(j) ==> neighbor(w as int, h as int, i as int, k as int) == Some(j as int),
        r is None ==> neighbor(w as int, h as int, i as int, k as int) is None,
        r matches Some(j) ==> j < w * h,
{
    let x = i % w;
    let y = i / w;
    proof {
        lemma_index_encode(w as int, h as int, i as int);
    }
    let nx: usize;
    let ny: usize;
    if k == 0 {
        if x + 1 >= w { return None; }
        nx = x + 1; ny = y;
    } else if k == 1 {
        if x == 0 { return None; }
        nx = x - 1; ny = y;
    } else if k == 2 {
        if y + 1 >= h { return None; }
        nx = x; ny = y + 1;
    } else {
        if y == 0 { return None; }
        nx = x; ny = y - 1;
    }
    proof {
        lemma_index_decode(w as int, h as int, nx as int, ny as int);
        assert(ny * w <= ny * w + nx);
    }
    Some(ny * w + nx)
}


/// Ordering key of a distance: an absent distance ranks above every present one.
pub open spec fn dist_key(d: Option<u32>) -> int {
    match d {
        Some(v) => v as int,
        None => absent_key(),
    }
}

/// The key of an absent distance.
pub open spec fn absent_key() -> int {
    0x1_0000_0000
}

/// The distance key of the neighbor of cell `i` in direction `k`; off the grid counts as absent.
pub open spec fn neighbor_key(w: int, h: int, dist: Seq<Option<u32>>, i: int, k: int) -> int {
    match neighbor(w, h, i, k) {
        Some(j) => dist_key(dist[j]),
        None => absent_key(),
    }
}

pub open spec fn min2(a: int, b: int) -> int {
    if a <= b { a } else { b }
}

/// The smallest distance key among the four neighbors of cell `i`.
pub open spec fn min_neighbor_key(w: int, h: int, dist: Seq<Option<u32>>, i: int) -> int {
    min2(
        min2(neighbor_key(w, h, dist, i, 0), neighbor_key(w, h, dist, i, 1)),
        min2(neighbor_key(w, h, dist, i, 2), neighbor_key(w, h, dist, i, 3)),
    )
}

/// Cell `i` holds the distance that its neighbors call for: a source is at distance 0,
/// a blocked cell that is no source is never reached, and any other cell lies one step
/// beyond its nearest neighbor (unreached when no neighbor is reached).
pub open spec fn settled(
    w: int,
    h: int,
    passable: Seq<bool>,
    sources: Seq<bool>,
    dist: Seq<Option<u32>>,
    i: int,
) -> bool {
    if sources[i] {
        dist[i] == Some(0u32)
    } else if !passable[i] {
        dist[i] is None
    } else if min_neighbor_key(w, h, dist, i) >= absent_key() {
        dist[i] is None
    } else {
        dist_key(dist[i]) == min_neighbor_key(w, h, dist, i) + 1
    }
}

/// `dist` gives every cell of the grid its number of steps to the nearest source,
/// walking through passable cells only (a source may itself be blocked).
pub open spec fn is_distance_field(
    w: int,
    h: int,
    passable: Seq<bool>,
    sources: Seq<bool>,
    dist: Seq<Option<u32>>,
) -> bool {
    &&& dist.len() == w * h
    &&& forall|i: int| 0 <= i < w * h ==> #[trigger] settled(w, h, passable, sources, dist, i)
}

/// The number of present distances.
pub open spec fn count_some(s: Seq<Option<u32>>) -> nat
    decreases s.len(),
{
    if s.len() == 0 {
        0
    } else {
        count_some(s.drop_last()) + if s.last() is Some { 1nat } else { 0nat }
    }
}

proof fn lemma_count_some_bound(s: Seq<Option<u32>>)
    ensures
        count_some(s) <= s.len(),
    decreases s.len(),
{
    if s.len() > 0 {
        lemma_count_some_bound(s.drop_last());
    }
}

proof fn lemma_count_some_update(s: Seq<Option<u32>>, j: int, v: u32)
    requires
        0 <= j < s.len(),
        s[j] is None,
    ensures
        count_some(s.update(j, Some(v))) == count_some(s) + 1,
    decreases s.len(),
{
    let t = s.update(j, Some(v));
    if j == s.len() - 1 {
        assert(t.drop_last() =~= s.drop_last());
    } else {
        lemma_count_some_update(s.drop_last(), j, v);
        assert(t.drop_last() =~= s.drop_last().update(j, Some(v)));
    }
}

/// Every neighbor that can be entered from cell `i` in the first `kmax` directions is at
/// most one step further from a source than `i`.
spec fn expanded_upto(w: int, h: int, passable: Seq<bool>, dist: Seq<Option<u32>>, i: int, kmax: int) -> bool {
    forall|k: int|
        0 <= k < kmax ==> match #[trigger] neighbor(w, h, i, k) {
            Some(j) => passable[j] ==> dist_key(dist[j]) <= dist_key(dist[i]) + 1,
            None => true,
        }
}

spec fn expanded(w: int, h: int, passable: Seq<bool>, dist: Seq<Option<u32>>, i: int) -> bool {
    expanded_upto(w, h, passable, dist, i, 4)
}

/// The shape that a partly computed distance field keeps: present distances are at most
/// `top`, exactly the sources are at 0, and every other reached cell is passable and
/// next to a cell one step closer.
spec fn ranked(
    w: int,
    h: int,
    passable: Seq<bool>,
    sources: Seq<bool>,
    dist: Seq<Option<u32>>,
    top: int,
) -> bool {
    &&& dist.len() == w * h
    &&& forall|i: int| 0 <= i < w * h ==> dist_key(#[trigger] dist[i]) <= top || dist[i] is None
    &&& forall|i: int| 0 <= i < w * h ==> (sources[i] <==> #[trigger] dist[i] == Some(0u32))
    &&& forall|i: int|
        0 <= i < w * h && #[trigger] dist[i] is Some && dist[i]->0 > 0 ==> passable[i] && exists|k: int|
            0 <= k < 4 && #[trigger] neighbor(w, h, i, k) is Some && dist_key(dist[neighbor(w, h, i, k)->0])
                == dist_key(dist[i]) - 1
}

/// Every cell closer than `bound` has been expanded.
spec fn closed_below(w: int, h: int, passable: Seq<bool>, dist: Seq<Option<u32>>, bound: int) -> bool {
    forall|i: int| 0 <= i < w * h && dist_key(dist[i]) < bound ==> #[trigger] expanded(w, h, passable, dist, i)
}


/// A neighbor of `i` that is reached and has been expanded limits the distance of `i`.
proof fn lemma_neighbor_limits(
    w: int,
    h: int,
    passable: Seq<bool>,
    dist: Seq<Option<u32>>,
    i: int,
    k: int,
)
    requires
        0 < w,
        0 <= i < w * h,
        0 <= k < 4,
        passable[i],
        neighbor(w, h, i, k) is Some,
        expanded(w, h, passable, dist, neighbor(w, h, i, k)->0),
    ensures
        dist_key(dist[i]) <= neighbor_key(w, h, dist, i, k) + 1,
{
    lemma_neighbor_symmetric(w, h, i, k);
    let j = neighbor(w, h, i, k)->0;
    assert(neighbor(w, h, j, opposite(k)) == Some(i));
    assert(0 <= opposite(k) < 4);
}

/// When no distance equals `top` and every nearer cell has been expanded, the ranked
/// field is a distance field.
proof fn lemma_ranked_closed_is_field(
    w: int,
    h: int,
    passable: Seq<bool>,
    sources: Seq<bool>,
    dist: Seq<Option<u32>>,
    top: int,
)
    requires
        0 < w,
        0 <= h,
        top < absent_key(),
        passable.len() == w * h,
        sources.len() == w * h,
        ranked(w, h, passable, sources, dist, top),
        closed_below(w, h, passable, dist, top),
        forall|i: int| 0 <= i < w * h ==> dist_key(#[trigger] dist[i]) != top,
    ensures
        is_distance_field(w, h, passable, sources, dist),
{
    assert forall|i: int| 0 <= i < w * h implies #[trigger] settled(w, h, passable, sources, dist, i) by {
        if !sources[i] && passable[i] {
            // every reached neighbor is nearer than `top`, hence expanded
            assert forall|k: int| 0 <= k < 4 && neighbor(w, h, i, k) is Some
                && neighbor_key(w, h, dist, i, k) < absent_key() implies
                dist_key(dist[i]) <= neighbor_key(w, h, dist, i, k) + 1 by {
                lemma_neighbor_symmetric(w, h, i, k);
                let j = neighbor(w, h, i, k)->0;
                assert(dist[j] is Some);
                assert(dist_key(dist[j]) <= top);
                assert(dist_key(dist[j]) != top);
                assert(expanded(w, h, passable, dist, j));
                lemma_neighbor_limits(w, h, passable, dist, i, k);
            }
            if dist[i] is Some {
                assert(dist[i] != Some(0u32));
                let k = choose|k: int|
                    0 <= k < 4 && #[trigger] neighbor(w, h, i, k) is Some && dist_key(
                        dist[neighbor(w, h, i, k)->0],
                    ) == dist_key(dist[i]) - 1;
                assert(neighbor_key(w, h, dist, i, k) == dist_key(dist[i]) - 1);
                assert(min_neighbor_key(w, h, dist, i) <= dist_key(dist[i]) - 1);
                assert forall|kk: int| 0 <= kk < 4 implies neighbor_key(w, h, dist, i, kk) >= dist_key(dist[i]) - 1 by {
                    if neighbor(w, h, i, kk) is Some && neighbor_key(w, h, dist, i, kk) < absent_key() {
                    }
                }
                assert(neighbor_key(w, h, dist, i, 0) >= dist_key(dist[i]) - 1);
                assert(neighbor_key(w, h, dist, i, 1) >= dist_key(dist[i]) - 1);
                assert(neighbor_key(w, h, dist, i, 2) >= dist_key(dist[i]) - 1);
                assert(neighbor_key(w, h, dist, i, 3) >= dist_key(dist[i]) - 1);
            } else {
                assert forall|kk: int| 0 <= kk < 4 implies neighbor_key(w, h, dist, i, kk) >= absent_key() by {
                    if neighbor(w, h, i, kk) is Some && neighbor_key(w, h, dist, i, kk) < absent_key() {
                        lemma_neighbor_symmetric(w, h, i, kk);
                        let j = neighbor(w, h, i, kk)->0;
                        assert(dist[j] is Some);
                        assert(dist_key(dist[j]) <= top);
                        assert(dist_key(dist[j]) != top);
                    }
                }
                assert(neighbor_key(w, h, dist, i, 0) >= absent_key());
                assert(neighbor_key(w, h, dist, i, 1) >= absent_key());
                assert(neighbor_key(w, h, dist, i, 2) >= absent_key());
                assert(neighbor_key(w, h, dist, i, 3) >= absent_key());
            }
        } else if !sources[i] {
            assert(dist[i] != Some(0u32));
        }
    }
}


/// Lowering distances elsewhere keeps a cell expanded.
proof fn lemma_expanded_kept(
    w: int,
    h: int,
    passable: Seq<bool>,
    dist: Seq<Option<u32>>,
    dist2: Seq<Option<u32>>,
    i: int,
    kmax: int,
)
    requires
        0 < w,
        0 <= i < w * h,
        dist.len() == w * h,
        dist2.len() == w * h,
        dist2[i] == dist[i],
        0 <= kmax <= 4,
        forall|x: int| 0 <= x < w * h ==> dist_key(#[trigger] dist2[x]) <= dist_key(dist[x]),
        expanded_upto(w, h, passable, dist, i, kmax),
    ensures
        expanded_upto(w, h, passable, dist2, i, kmax),
{
    assert forall|k: int| 0 <= k < kmax implies match #[trigger] neighbor(w, h, i, k) {
        Some(j) => passable[j] ==> dist_key(dist2[j]) <= dist_key(dist2[i]) + 1,
        None => true,
    } by {
        if neighbor(w, h, i, k) is Some {
            lemma_neighbor_symmetric(w, h, i, k);
            let j = neighbor(w, h, i, k)->0;
            assert(dist_key(dist2[j]) <= dist_key(dist[j]));
        }
    }
}

/// Reaching a new cell `j` from its neighbor `f` at distance `level` keeps the field ranked
/// (with `level + 1` as top) and keeps every expanded cell below `bound` expanded.
proof fn lemma_reach(
    w: int,
    h: int,
    passable: Seq<bool>,
    sources: Seq<bool>,
    dist: Seq<Option<u32>>,
    j: int,
    k: int,
    level: u32,
    bound: int,
)
    requires
        0 < w,
        passable.len() == w * h,
        sources.len() == w * h,
        ranked(w, h, passable, sources, dist, level + 1),
        closed_below(w, h, passable, dist, bound),
        bound <= level + 1,
        0 <= j < w * h,
        dist[j] is None,
        passable[j],
        0 <= k < 4,
        neighbor(w, h, j, k) is Some,
        dist[neighbor(w, h, j, k)->0] == Some(level),
        level + 1 <= u32::MAX,
    ensures
        ranked(w, h, passable, sources, dist.update(j, Some((level + 1) as u32)), level + 1),
        closed_below(w, h, passable, dist.update(j, Some((level + 1) as u32)), bound),
        forall|x: int| 0 <= x < w * h ==> dist_key(#[trigger] dist.update(j, Some((level + 1) as u32))[x]) <= dist_key(dist[x]),
{
    let d2 = dist.update(j, Some((level + 1) as u32));
    assert forall|x: int| 0 <= x < w * h ==> dist_key(#[trigger] d2[x]) <= dist_key(dist[x]) by {}
    assert forall|i: int|
        0 <= i < w * h && #[trigger] d2[i] is Some && d2[i]->0 > 0 implies passable[i] && exists|kk: int|
            0 <= kk < 4 && #[trigger] neighbor(w, h, i, kk) is Some && dist_key(d2[neighbor(w, h, i, kk)->0])
                == dist_key(d2[i]) - 1 by {
        if i == j {
            lemma_neighbor_symmetric(w, h, j, k);
            let f = neighbor(w, h, j, k)->0;
            assert(f != j);
            assert(d2[f] == dist[f]);
            assert(0 <= k < 4 && neighbor(w, h, i, k) is Some && dist_key(d2[neighbor(w, h, i, k)->0])
                == dist_key(d2[i]) - 1);
        } else {
            assert(dist[i] is Some && dist[i]->0 > 0);
            let kk = choose|kk: int|
                0 <= kk < 4 && #[trigger] neighbor(w, h, i, kk) is Some && dist_key(dist[neighbor(w, h, i, kk)->0])
                    == dist_key(dist[i]) - 1;
            lemma_neighbor_symmetric(w, h, i, kk);
            let m = neighbor(w, h, i, kk)->0;
            assert(dist[m] is Some);
            assert(m != j);
            assert(d2[m] == dist[m]);
            assert(0 <= kk < 4 && neighbor(w, h, i, kk) is Some && dist_key(d2[neighbor(w, h, i, kk)->0])
                == dist_key(d2[i]) - 1);
        }
    }
    assert forall|i: int| 0 <= i < w * h && dist_key(d2[i]) < bound implies #[trigger] expanded(w, h, passable, d2, i) by {
        assert(i != j);
        assert(expanded(w, h, passable, dist, i));
        lemma_expanded_kept(w, h, passable, dist, d2, i, 4);
    }
}

/// The number of grid steps from every cell to the nearest source cell, walking only
/// through passable cells: sources are at 0, cells that no walk reaches have no distance.
pub fn grid_distances(w: usize, h: usize, passable: &Vec<bool>, sources: &Vec<bool>) -> (dist: Vec<Option<u32>>)
    requires
        0 < w,
        w * h <= u32::MAX,
        passable@.len() == w * h,
        sources@.len() == w * h,
    ensures
        is_distance_field(w as int, h as int, passable@, sources@, dist@),
{
    let n = w * h;
    let mut dist: Vec<Option<u32>> = Vec::new();
    let mut frontier: Vec<usize> = Vec::new();
    for i in 0..n
        invariant
            n == w * h,
            sources@.len() == n,
            dist@.len() == i,
            forall|t: int| 0 <= t < i ==> #[trigger] dist@[t] == if sources@[t] { Some(0u32) } else { None },
            forall|t: int| 0 <= t < frontier@.len() ==> #[trigger] frontier@[t] < i && sources@[frontier@[t] as int],
            forall|t: int| 0 <= t < i && sources@[t] ==> frontier@.contains(t as usize),
            count_some(dist@) == frontier@.len(),
    {
        let ghost before = dist@;
        let ghost fr0 = frontier@;
        if sources[i] {
            dist.push(Some(0));
            frontier.push(i);
        } else {
            dist.push(None);
        }
        assert(dist@.drop_last() =~= before);
        assert forall|tt: int| 0 <= tt <= i && sources@[tt] implies frontier@.contains(tt as usize) by {
            if tt == i {
                assert(frontier@[frontier@.len() - 1] == i);
            } else {
                assert(fr0.contains(tt as usize));
                let q = choose|q: int| 0 <= q < fr0.len() && fr0[q] == tt as usize;
                assert(frontier@[q] == tt as usize);
            }
        }
    }
    proof {
        lemma_count_some_bound(dist@);
    }
    let mut level: u32 = 0;
    while frontier.len() > 0
        invariant
            0 < w,
            n == w * h,
            n <= u32::MAX,
            passable@.len() == n,
            sources@.len() == n,
            ranked(w as int, h as int, passable@, sources@, dist@, level as int),
            closed_below(w as int, h as int, passable@, dist@, level as int),
            forall|t: int| 0 <= t < frontier@.len() ==> #[trigger] frontier@[t] < n && dist@[frontier@[t] as int] == Some(level),
            forall|i: int| 0 <= i < n && #[trigger] dist@[i] == Some(level) ==> frontier@.contains(i as usize),
            frontier@.len() > 0 ==> level < count_some(dist@),
            count_some(dist@) <= n,
        decreases 2 * (n - count_some(dist@)) + if frontier@.len() > 0 { 1int } else { 0int },
    {
        let ghost c0 = count_some(dist@);
        let mut next: Vec<usize> = Vec::new();
        for t in 0..frontier.len()
            invariant
                0 < w,
                n == w * h,
                n <= u32::MAX,
                passable@.len() == n,
                sources@.len() == n,
                level < c0,
                c0 <= n,
                ranked(w as int, h as int, passable@, sources@, dist@, level + 1),
                closed_below(w as int, h as int, passable@, dist@, level as int),
                forall|tt: int| 0 <= tt < frontier@.len() ==> #[trigger] frontier@[tt] < n && dist@[frontier@[tt] as int] == Some(level),
                forall|i: int| 0 <= i < n && #[trigger] dist@[i] == Some(level) ==> frontier@.contains(i as usize),
                forall|tt: int| 0 <= tt < t ==> #[trigger] expanded(w as int, h as int, passable@, dist@, frontier@[tt] as int),
                forall|s: int| 0 <= s < next@.len() ==> #[trigger] next@[s] < n && dist@[next@[s] as int] == Some((level + 1) as u32),
                forall|i: int| 0 <= i < n && #[trigger] dist@[i] == Some((level + 1) as u32) ==> next@.contains(i as usize),
                count_some(dist@) == c0 + next@.len(),
        {
            let f = frontier[t];
            for k in 0..4
                invariant
                    0 < w,
                    n == w * h,
                    n <= u32::MAX,
                    passable@.len() == n,
                    sources@.len() == n,
                    level < c0,
                    c0 <= n,
                    f < n,
                    f == frontier@[t as int],
                    0 <= t < frontier@.len(),
                    ranked(w as int, h as int, passable@, sources@, dist@, level + 1),
                    closed_below(w as int, h as int, passable@, dist@, level as int),
                    forall|tt: int| 0 <= tt < frontier@.len() ==> #[trigger] frontier@[tt] < n && dist@[frontier@[tt] as int] == Some(level),
                    forall|i: int| 0 <= i < n && #[trigger] dist@[i] == Some(level) ==> frontier@.contains(i as usize),
                    forall|tt: int| 0 <= tt < t ==> #[trigger] expanded(w as int, h as int, passable@, dist@, frontier@[tt] as int),
                    expanded_upto(w as int, h as int, passable@, dist@, f as int, k as int),
                    forall|s: int| 0 <= s < next@.len() ==> #[trigger] next@[s] < n && dist@[next@[s] as int] == Some((level + 1) as u32),
                    forall|i: int| 0 <= i < n && #[trigger] dist@[i] == Some((level + 1) as u32) ==> next@.contains(i as usize),
                    count_some(dist@) == c0 + next@.len(),
            {
                match neighbor_cell(w, h, f, k) {
                    Some(j) => {
                        if passable[j] && dist[j].is_none() {
                            let ghost d0 = dist@;
                            let ghost next0 = next@;
                            proof {
                                lemma_neighbor_symmetric(w as int, h as int, f as int, k as int);
                                lemma_count_some_update(d0, j as int, (level + 1) as u32);
                                lemma_count_some_bound(d0.update(j as int, Some((level + 1) as u32)));
                                lemma_reach(w as int, h as int, passable@, sources@, d0, j as int, opposite(k as int), level, level as int);
                            }
                            dist.set(j, Some(level + 1));
                            next.push(j);
                            proof {
                                assert forall|tt: int| 0 <= tt < t implies #[trigger] expanded(w as int, h as int, passable@, dist@, frontier@[tt] as int) by {
                                    assert(expanded(w as int, h as int, passable@, d0, frontier@[tt] as int));
                                    lemma_expanded_kept(w as int, h as int, passable@, d0, dist@, frontier@[tt] as int, 4);
                                }
                                lemma_expanded_kept(w as int, h as int, passable@, d0, dist@, f as int, k as int);
                                assert forall|i: int| 0 <= i < n && #[trigger] dist@[i] == Some((level + 1) as u32) implies next@.contains(i as usize) by {
                                    if i != j {
                                        assert(next0.contains(i as usize));
                                        let s = choose|s: int| 0 <= s < next0.len() && next0[s] == i as usize;
                                        assert(next@[s] == i as usize);
                                    } else {
                                        assert(next@[next0.len() as int] == j);
                                    }
                                }
                                assert forall|i: int| 0 <= i < n && #[trigger] dist@[i] == Some(level) implies frontier@.contains(i as usize) by {
                                    assert(d0[i] == Some(level));
                                }
                            }
                        }
                    },
                    None => {},
                }
            }
        }
        proof {
            assert forall|i: int| 0 <= i < n && dist_key(dist@[i]) < level + 1 implies #[trigger] expanded(w as int, h as int, passable@, dist@, i) by {
                if dist_key(dist@[i]) == level {
                    assert(dist@[i] == Some(level));
                    assert(frontier@.contains(i as usize));
                    let tt = choose|tt: int| 0 <= tt < frontier@.len() && frontier@[tt] == i as usize;
                    assert(expanded(w as int, h as int, passable@, dist@, frontier@[tt] as int));
                }
            }
            lemma_count_some_bound(dist@);
        }
        frontier = next;
        level = level + 1;
    }
    proof {
        assert forall|i: int| 0 <= i < n implies dist_key(#[trigger] dist@[i]) != level by {
            if dist_key(dist@[i]) == level {
                assert(dist@[i] == Some(level));
                assert(frontier@.contains(i as usize));
            }
        }
        lemma_ranked_closed_is_field(w as int, h as int, passable@, sources@, dist@, level as int);
    }
    dist
}


/// Two distance fields that agree on every cell nearer than `v` also agree on which cells
/// lie at distance `v`.
proof fn lemma_level_step(
    w: int,
    h: int,
    passable: Seq<bool>,
    sources: Seq<bool>,
    d1: Seq<Option<u32>>,
    d2: Seq<Option<u32>>,
    v: int,
    i: int,
)
    requires
        0 < w,
        0 <= v < absent_key(),
        0 <= i < w * h,
        is_distance_field(w, h, passable, sources, d1),
        is_distance_field(w, h, passable, sources, d2),
        forall|j: int|
            0 <= j < w * h && (dist_key(#[trigger] d1[j]) < v || dist_key(d2[j]) < v) ==> dist_key(d1[j])
                == dist_key(d2[j]),
        dist_key(d1[i]) == v,
    ensures
        dist_key(d2[i]) == v,
{
    assert(settled(w, h, passable, sources, d1, i));
    assert(settled(w, h, passable, sources, d2, i));
    if !sources[i] {
        assert(passable[i]);
        let m = min_neighbor_key(w, h, d1, i);
        assert(m == v - 1);
        // neighbor keys below `v` agree between the two fields
        assert forall|k: int| 0 <= k < 4 implies (neighbor_key(w, h, d1, i, k) < v <==> neighbor_key(w, h, d2, i, k) < v)
            && (neighbor_key(w, h, d1, i, k) < v ==> neighbor_key(w, h, d1, i, k) == neighbor_key(w, h, d2, i, k)) by {
            if neighbor(w, h, i, k) is Some {
                lemma_neighbor_symmetric(w, h, i, k);
                let j = neighbor(w, h, i, k)->0;
                assert(dist_key(d1[j]) < v || dist_key(d2[j]) < v ==> dist_key(d1[j]) == dist_key(d2[j]));
            }
        }
        assert(neighbor_key(w, h, d1, i, 0) >= v - 1);
        assert(min_neighbor_key(w, h, d2, i) == v - 1);
    }
}

/// The distances of a grid are fully determined: two fields that both satisfy
/// `is_distance_field` for the same grid are equal.
pub proof fn law_distance_field_unique(
    w: int,
    h: int,
    passable: Seq<bool>,
    sources: Seq<bool>,
    d1: Seq<Option<u32>>,
    d2: Seq<Option<u32>>,
)
    requires
        0 < w,
        0 <= h,
        is_distance_field(w, h, passable, sources, d1),
        is_distance_field(w, h, passable, sources, d2),
    ensures
        d1 == d2,
{
    lemma_levels_agree(w, h, passable, sources, d1, d2, absent_key() - 1);
    assert forall|i: int| 0 <= i < w * h implies d1[i] == d2[i] by {
        assert(dist_key(d1[i]) < absent_key() || dist_key(d2[i]) < absent_key() ==> dist_key(d1[i]) == dist_key(d2[i]));
    }
    assert(d1 =~= d2);
}

proof fn lemma_levels_agree(
    w: int,
    h: int,
    passable: Seq<bool>,
    sources: Seq<bool>,
    d1: Seq<Option<u32>>,
    d2: Seq<Option<u32>>,
    v: int,
)
    requires
        0 < w,
        0 <= h,
        v < absent_key(),
        is_distance_field(w, h, passable, sources, d1),
        is_distance_field(w, h, passable, sources, d2),
    ensures
        forall|j: int|
            0 <= j < w * h && (dist_key(#[trigger] d1[j]) <= v || dist_key(d2[j]) <= v) ==> dist_key(d1[j])
                == dist_key(d2[j]),
    decreases v + 1,
{
    if v >= 0 {
        lemma_levels_agree(w, h, passable, sources, d1, d2, v - 1);
        assert forall|j: int| 0 <= j < w * h && (dist_key(#[trigger] d1[j]) <= v || dist_key(d2[j]) <= v) implies dist_key(d1[j])
            == dist_key(d2[j]) by {
            if dist_key(d1[j]) == v {
                lemma_level_step(w, h, passable, sources, d1, d2, v, j);
            } else if dist_key(d2[j]) == v {
                lemma_level_step(w, h, passable, sources, d2, d1, v, j);
            }
        }
    } else {
        assert forall|j: int| 0 <= j < w * h && (dist_key(#[trigger] d1[j]) <= v || dist_key(d2[j]) <= v) implies dist_key(d1[j])
            == dist_key(d2[j]) by {
        }
    }
}

/// Stepping from passable cell `i` into its neighbor in direction `k` enters a passable
/// cell that is strictly closer to a source.
pub open spec fn improves(w: int, h: int, passable: Seq<bool>, dist: Seq<Option<u32>>, i: int, k: int) -> bool {
    &&& neighbor(w, h, i, k) is Some
    &&& passable[neighbor(w, h, i, k)->0]
    &&& neighbor_key(w, h, dist, i, k) < dist_key(dist[i])
}

/// The flow of cell `i` is `s`: a blocked cell does not move; a passable cell steps to the
/// nearest improving neighbor, the first one in direction order among equally near ones,
/// and steps along +x when no neighbor improves.
pub open spec fn flow_is(w: int, h: int, passable: Seq<bool>, dist: Seq<Option<u32>>, i: int, s: Step) -> bool {
    if !passable[i] {
        s == Step::Stay
    } else if forall|k: int| 0 <= k < 4 ==> !#[trigger] improves(w, h, passable, dist, i, k) {
        s == Step::PlusX
    } else {
        exists|k0: int|
            0 <= k0 < 4 && #[trigger] improves(w, h, passable, dist, i, k0) && s == step_of(k0) && (forall|k: int|
                0 <= k < 4 && #[trigger] improves(w, h, passable, dist, i, k) ==> neighbor_key(w, h, dist, i, k0)
                    <= neighbor_key(w, h, dist, i, k)) && (forall|k: int|
                0 <= k < k0 && #[trigger] improves(w, h, passable, dist, i, k) ==> neighbor_key(w, h, dist, i, k)
                    > neighbor_key(w, h, dist, i, k0))
    }
}

/// `flow` gives every cell of the grid the step that `flow_is` calls for.
pub open spec fn is_flow_field(w: int, h: int, passable: Seq<bool>, dist: Seq<Option<u32>>, flow: Seq<Step>) -> bool {
    &&& flow.len() == w * h
    &&& forall|i: int| 0 <= i < w * h ==> #[trigger] flow_is(w, h, passable, dist, i, flow[i])
}

fn key_of(d: Option<u32>) -> (r: u64)
    ensures
        r == dist_key(d),
{
    match d {
        Some(v) => v as u64,
        None => 0x1_0000_0000,
    }
}

/// The step of every cell toward its nearest source, given the distance field.
pub fn flow_directions(w: usize, h: usize, passable: &Vec<bool>, dist: &Vec<Option<u32>>) -> (flow: Vec<Step>)
    requires
        0 < w,
        w * h <= u32::MAX,
        passable@.len() == w * h,
        dist@.len() == w * h,
    ensures
        is_flow_field(w as int, h as int, passable@, dist@, flow@),
{
    let n = w * h;
    let mut flow: Vec<Step> = Vec::new();
    for i in 0..n
        invariant
            n == w * h,
            0 < w,
            n <= u32::MAX,
            passable@.len() == n,
            dist@.len() == n,
            flow@.len() == i,
            forall|t: int| 0 <= t < i ==> #[trigger] flow_is(w as int, h as int, passable@, dist@, t, flow@[t]),
    {
        let ghost gw = w as int;
        let ghost gh = h as int;
        if !passable[i] {
            flow.push(Step::Stay);
        } else {
            let mut best = key_of(dist[i]);
            let mut dir = Step::PlusX;
            let ghost mut chosen: int = -1;
            for k in 0..4
                invariant
                    n == w * h,
                    0 < w,
                    n <= u32::MAX,
                    i < n,
                    passable@.len() == n,
                    dist@.len() == n,
                    gw == w,
                    gh == h,
                    chosen == -1 ==> best == dist_key(dist@[i as int]) && dir == Step::PlusX && forall|kk: int|
                        0 <= kk < k ==> !#[trigger] improves(gw, gh, passable@, dist@, i as int, kk),
                    chosen != -1 ==> 0 <= chosen < k && improves(gw, gh, passable@, dist@, i as int, chosen) && dir
                        == step_of(chosen) && best == neighbor_key(gw, gh, dist@, i as int, chosen) && (forall|kk: int|
                        0 <= kk < k && #[trigger] improves(gw, gh, passable@, dist@, i as int, kk) ==> best
                            <= neighbor_key(gw, gh, dist@, i as int, kk)) && (forall|kk: int|
                        0 <= kk < chosen && #[trigger] improves(gw, gh, passable@, dist@, i as int, kk) ==> neighbor_key(
                            gw,
                            gh,
                            dist@,
                            i as int,
                            kk,
                        ) > best),
                    best <= dist_key(dist@[i as int]),
            {
                match neighbor_cell(w, h, i, k) {
                    Some(j) => {
                        if passable[j] {
                            let nd = key_of(dist[j]);
                            if nd < best {
                                best = nd;
                                dir = step_for(k);
                                proof {
                                    chosen = k as int;
                                }
                            }
                        }
                    },
                    None => {},
                }
            }
            flow.push(dir);
            proof {
                if chosen != -1 {
                    assert(improves(gw, gh, passable@, dist@, i as int, chosen));
                }
            }
        }
    }
    flow
}

/// A flow field over a `w` x `h` grid, with the distance field it was built from.
pub struct FlowGrid {
    pub w: usize,
    pub h: usize,
    pub dist: Vec<Option<u32>>,
    pub flow: Vec<Step>,
}

/// The step stored for cell `(cx, cy)`, with coordinates beyond the grid pulled onto its
/// last column or row.
pub open spec fn stored_step(w: int, h: int, flow: Seq<Step>, cx: int, cy: int) -> Step {
    let x = if cx < w - 1 { cx } else { w - 1 };
    let y = if cy < h - 1 { cy } else { h - 1 };
    flow[y * w + x]
}

impl FlowGrid {
    /// The grid has at least one cell and one distance and one step per cell.
    pub open spec fn wf(&self) -> bool {
        &&& 0 < self.w
        &&& 0 < self.h
        &&& self.w * self.h <= u32::MAX
        &&& self.dist@.len() == self.w * self.h
        &&& self.flow@.len() == self.w * self.h
    }

    /// The direction to walk from cell `(cx, cy)`: its stored step, or +x where the cell
    /// has none (a blocked cell).
    pub fn direction_at(&self, cx: usize, cy: usize) -> (s: Step)
        requires
            self.wf(),
        ensures
            s == if stored_step(self.w as int, self.h as int, self.flow@, cx as int, cy as int) == Step::Stay {
                Step::PlusX
            } else {
                stored_step(self.w as int, self.h as int, self.flow@, cx as int, cy as int)
            },
    {
        let x = if cx < self.w - 1 { cx } else { self.w - 1 };
        let y = if cy < self.h - 1 { cy } else { self.h - 1 };
        proof {
            lemma_index_decode(self.w as int, self.h as int, x as int, y as int);
            assert(y * self.w <= y * self.w + x);
        }
        let d = self.flow[y * self.w + x];
        match d {
            Step::Stay => Step::PlusX,
            _ => d,
        }
    }
}

/// Build the flow field of a grid: the distances from every cell to the nearest source
/// and the step of every cell toward it.
pub fn build_flow_grid(w: usize, h: usize, passable: &Vec<bool>, sources: &Vec<bool>) -> (g: FlowGrid)
    requires
        0 < w,
        0 < h,
        w * h <= u32::MAX,
        passable@.len() == w * h,
        sources@.len() == w * h,
    ensures
        g.wf(),
        g.w == w,
        g.h == h,
        is_distance_field(w as int, h as int, passable@, sources@, g.dist@),
        is_flow_field(w as int, h as int, passable@, g.dist@, g.flow@),
{
    let dist = grid_distances(w, h, passable, sources);
    let flow = flow_directions(w, h, passable, &dist);
    FlowGrid { w, h, dist, flow }
}


/// Following the flow leads to the base: from a cell `v >= 1` steps away, next to a
/// passable cell `v - 1` steps away (always so when `v >= 2`), the flow steps to a
/// passable neighbor exactly `v - 1` steps away.
pub proof fn law_flow_descends(
    w: int,
    h: int,
    passable: Seq<bool>,
    sources: Seq<bool>,
    dist: Seq<Option<u32>>,
    flow: Seq<Step>,
    i: int,
)
    requires
        0 < w,
        0 <= h,
        passable.len() == w * h,
        sources.len() == w * h,
        is_distance_field(w, h, passable, sources, dist),
        is_flow_field(w, h, passable, dist, flow),
        0 <= i < w * h,
        dist[i] is Some,
        dist[i]->0 >= 1,
        dist[i]->0 >= 2 || exists|k: int|
            0 <= k < 4 && #[trigger] neighbor(w, h, i, k) is Some && passable[neighbor(w, h, i, k)->0]
                && neighbor_key(w, h, dist, i, k) == dist[i]->0 - 1,
    ensures
        exists|k: int|
            0 <= k < 4 && flow[i] == step_of(k) && #[trigger] neighbor(w, h, i, k) is Some && passable[neighbor(
                w,
                h,
                i,
                k,
            )->0] && dist[neighbor(w, h, i, k)->0] == Some((dist[i]->0 - 1) as u32),
{
    let v = dist[i]->0 as int;
    assert(settled(w, h, passable, sources, dist, i));
    assert(!sources[i]);
    assert(passable[i]);
    assert(min_neighbor_key(w, h, dist, i) == v - 1);
    // some neighbor one step nearer is passable
    let kc = if v >= 2 {
        let k = choose|k: int| 0 <= k < 4 && #[trigger] neighbor_key(w, h, dist, i, k) == v - 1;
        assert(0 <= k < 4 && neighbor_key(w, h, dist, i, k) == v - 1) by {
            if neighbor_key(w, h, dist, i, 0) == v - 1 {
            } else if neighbor_key(w, h, dist, i, 1) == v - 1 {
            } else if neighbor_key(w, h, dist, i, 2) == v - 1 {
            } else {
                assert(neighbor_key(w, h, dist, i, 3) == v - 1);
            }
        }
        lemma_neighbor_symmetric(w, h, i, k);
        let j = neighbor(w, h, i, k)->0;
        assert(settled(w, h, passable, sources, dist, j));
        assert(dist[j] != Some(0u32));
        k
    } else {
        choose|k: int|
            0 <= k < 4 && #[trigger] neighbor(w, h, i, k) is Some && passable[neighbor(w, h, i, k)->0]
                && neighbor_key(w, h, dist, i, k) == v - 1
    };
    assert(improves(w, h, passable, dist, i, kc));
    assert(flow_is(w, h, passable, dist, i, flow[i]));
    let k0 = choose|k0: int|
        0 <= k0 < 4 && #[trigger] improves(w, h, passable, dist, i, k0) && flow[i] == step_of(k0) && (forall|k: int|
            0 <= k < 4 && #[trigger] improves(w, h, passable, dist, i, k) ==> neighbor_key(w, h, dist, i, k0)
                <= neighbor_key(w, h, dist, i, k)) && (forall|k: int|
            0 <= k < k0 && #[trigger] improves(w, h, passable, dist, i, k) ==> neighbor_key(w, h, dist, i, k)
                > neighbor_key(w, h, dist, i, k0));
    assert(neighbor_key(w, h, dist, i, k0) >= v - 1) by {
        assert(min_neighbor_key(w, h, dist, i) <= neighbor_key(w, h, dist, i, k0));
    }
    assert(neighbor_key(w, h, dist, i, k0) == v - 1);
    lemma_neighbor_symmetric(w, h, i, k0);
}

/// A passable cell with nothing to descend to rests on the default step, +x: a source,
/// and a cell that no walk reaches (on a grid of at most `u32::MAX` cells).
pub proof fn law_flow_rests_east(
    w: int,
    h: int,
    passable: Seq<bool>,
    sources: Seq<bool>,
    dist: Seq<Option<u32>>,
    flow: Seq<Step>,
    i: int,
)
    requires
        0 < w,
        0 <= h,
        passable.len() == w * h,
        sources.len() == w * h,
        is_distance_field(w, h, passable, sources, dist),
        is_flow_field(w, h, passable, dist, flow),
        w * h <= u32::MAX,
        0 <= i < w * h,
        passable[i],
        sources[i] || dist[i] is None,
    ensures
        flow[i] == Step::PlusX,
{
    law_distance_bounded(w, h, passable, sources, dist);
    assert(settled(w, h, passable, sources, dist, i));
    assert(flow_is(w, h, passable, dist, i, flow[i]));
    assert forall|k: int| 0 <= k < 4 implies !#[trigger] improves(w, h, passable, dist, i, k) by {
        if improves(w, h, passable, dist, i, k) {
            lemma_neighbor_symmetric(w, h, i, k);
            let j = neighbor(w, h, i, k)->0;
            if !sources[i] {
                assert(dist[j] is Some);
                assert(min_neighbor_key(w, h, dist, i) <= neighbor_key(w, h, dist, i, k));
            }
        }
    }
}

/// The distances present among the first `n` cells.
pub open spec fn levels_upto(dist: Seq<Option<u32>>, n: int) -> Set<int>
    decreases n,
{
    if n <= 0 {
        Set::empty()
    } else {
        let rest = levels_upto(dist, n - 1);
        match dist[n - 1] {
            Some(v) => rest.insert(v as int),
            None => rest,
        }
    }
}

proof fn lemma_levels_upto(dist: Seq<Option<u32>>, n: int)
    requires
        0 <= n,
    ensures
        levels_upto(dist, n).finite(),
        levels_upto(dist, n).len() <= n,
        forall|i: int| 0 <= i < n && #[trigger] dist[i] is Some ==> levels_upto(dist, n).contains(dist[i]->0 as int),
    decreases n,
{
    if n > 0 {
        lemma_levels_upto(dist, n - 1);
    }
}

/// Every distance below one that is present is present too: a cell `d` steps away has
/// a neighbor `d - 1` steps away, and so on down to a source.
proof fn lemma_levels_below(
    w: int,
    h: int,
    passable: Seq<bool>,
    sources: Seq<bool>,
    dist: Seq<Option<u32>>,
    i: int,
    k: int,
)
    requires
        0 < w,
        0 <= h,
        is_distance_field(w, h, passable, sources, dist),
        0 <= i < w * h,
        dist[i] is Some,
        0 <= k <= dist[i]->0,
    ensures
        levels_upto(dist, w * h).contains(k),
    decreases dist[i]->0,
{
    lemma_levels_upto(dist, w * h);
    let d = dist[i]->0 as int;
    if k < d {
        assert(settled(w, h, passable, sources, dist, i));
        assert(dist[i] != Some(0u32));
        assert(min_neighbor_key(w, h, dist, i) == d - 1);
        let kk = if neighbor_key(w, h, dist, i, 0) == d - 1 {
            0
        } else if neighbor_key(w, h, dist, i, 1) == d - 1 {
            1
        } else if neighbor_key(w, h, dist, i, 2) == d - 1 {
            2
        } else {
            3
        };
        assert(neighbor_key(w, h, dist, i, kk) == d - 1);
        lemma_neighbor_symmetric(w, h, i, kk);
        let j = neighbor(w, h, i, kk)->0;
        assert(dist[j] is Some);
        lemma_levels_below(w, h, passable, sources, dist, j, k);
    }
}

/// No distance reaches the number of cells: a cell `d` steps from a source lies at the
/// end of a walk through cells at every distance `0..=d`, and those are `d + 1` cells.
pub proof fn law_distance_bounded(
    w: int,
    h: int,
    passable: Seq<bool>,
    sources: Seq<bool>,
    dist: Seq<Option<u32>>,
)
    requires
        0 < w,
        0 <= h,
        is_distance_field(w, h, passable, sources, dist),
    ensures
        forall|j: int| 0 <= j < w * h && #[trigger] dist[j] is Some ==> dist[j]->0 < w * h,
{
    assert forall|j: int| 0 <= j < w * h && #[trigger] dist[j] is Some implies dist[j]->0 < w * h by {
        let d = dist[j]->0 as int;
        lemma_levels_upto(dist, w * h);
        vstd::set_lib::lemma_int_range(0, d + 1);
        assert forall|k: int| #[trigger] vstd::set_lib::set_int_range(0, d + 1).contains(k) implies levels_upto(
            dist,
            w * h,
        ).contains(k) by {
            lemma_levels_below(w, h, passable, sources, dist, j, k);
        }
        vstd::set_lib::lemma_len_subset(vstd::set_lib::set_int_range(0, d + 1), levels_upto(dist, w * h));
    }
}

/// Following the flow leads to the base, on a grid whose sources are passable: from a
/// cell `v >= 1` steps away, the flow steps to a passable neighbor `v - 1` steps away.
pub proof fn law_flow_descends_to_base(
    w: int,
    h: int,
    passable: Seq<bool>,
    sources: Seq<bool>,
    dist: Seq<Option<u32>>,
    flow: Seq<Step>,
    i: int,
)
    requires
        0 < w,
        0 <= h,
        passable.len() == w * h,
        sources.len() == w * h,
        forall|j: int| 0 <= j < w * h && #[trigger] sources[j] ==> passable[j],
        is_distance_field(w, h, passable, sources, dist),
        is_flow_field(w, h, passable, dist, flow),
        0 <= i < w * h,
        dist[i] is Some,
        dist[i]->0 >= 1,
    ensures
        exists|k: int|
            0 <= k < 4 && flow[i] == step_of(k) && #[trigger] neighbor(w, h, i, k) is Some && passable[neighbor(
                w,
                h,
                i,
                k,
            )->0] && dist[neighbor(w, h, i, k)->0] == Some((dist[i]->0 - 1) as u32),
{
    if dist[i]->0 == 1 {
        assert(settled(w, h, passable, sources, dist, i));
        assert(min_neighbor_key(w, h, dist, i) == 0);
        let k = if neighbor_key(w, h, dist, i, 0) == 0 {
            0
        } else if neighbor_key(w, h, dist, i, 1) == 0 {
            1
        } else if neighbor_key(w, h, dist, i, 2) == 0 {
            2
        } else {
            3
        };
        assert(neighbor_key(w, h, dist, i, k) == 0);
        lemma_neighbor_symmetric(w, h, i, k);
        let j = neighbor(w, h, i, k)->0;
        assert(settled(w, h, passable, sources, dist, j));
        assert(sources[j]);
        assert(0 <= k < 4 && neighbor(w, h, i, k) is Some && passable[neighbor(w, h, i, k)->0]
            && neighbor_key(w, h, dist, i, k) == dist[i]->0 - 1);
    }
    law_flow_descends(w, h, passable, sources, dist, flow, i);
}

} // verus!
