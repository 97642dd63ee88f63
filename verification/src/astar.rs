//! Single-query A* routing across the probe sector: the per-orc search that the flow
//! field is weighed against. The search walks the four grid directions from a start
//! cell to any open cell of the right-most column, guided by the column distance to it.
use vstd::prelude::*;
use vstd::multiset::Multiset;

use crate::flow::{
    absent_key, dir_dx, dir_dy, dist_key, is_distance_field, lemma_index_decode, law_distance_field_unique,
    min_neighbor_key, neighbor, neighbor_key, settled,
};
use crate::queue::{entry_before, Entry, EntryHeap};
use crate::spike::{cell_count, cell_open, cell_passable, goal_cells, obstacles_computable, open_cells, GRID_H, GRID_W};

verus! {

broadcast use vstd::multiset::group_multiset_axioms;

/// The search's estimate of the steps left from cell `v`: its column distance to the
/// right-most column.
pub open spec fn column_gap(v: int) -> int {
    GRID_W - 1 - v % (GRID_W as int)
}

/// `passable` and `goals` describe one probe grid: the goals are exactly the passable
/// cells of the right-most column.
spec fn route_grid(passable: Seq<bool>, goals: Seq<bool>) -> bool {
    &&& passable.len() == cell_count()
    &&& goals.len() == cell_count()
    &&& forall|i: int| 0 <= i < cell_count() ==> #[trigger] goals[i] == (passable[i] && i % (GRID_W as int) == GRID_W - 1)
}

/// The open and goal cells of any walls and crater describe one probe grid.
proof fn lemma_route_grid(rects: Seq<(i32, i32, i32, i32)>, blob: (i32, i32, i32))
    ensures
        route_grid(open_cells(rects, blob), goal_cells(rects, blob)),
{
}

/// In a distance field toward the goals, exactly the goals are at distance 0.
proof fn lemma_zero_is_goal(passable: Seq<bool>, goals: Seq<bool>, dist: Seq<Option<u32>>, v: int)
    requires
        route_grid(passable, goals),
        is_distance_field(GRID_W as int, GRID_H as int, passable, goals, dist),
        0 <= v < cell_count(),
    ensures
        dist[v] == Some(0u32) <==> goals[v],
{
    assert(settled(GRID_W as int, GRID_H as int, passable, goals, dist, v));
}

/// A cell `d >= 1` steps from the goals has an open neighbor `d - 1` steps from them.
proof fn lemma_nearer_neighbor(passable: Seq<bool>, goals: Seq<bool>, dist: Seq<Option<u32>>, v: int) -> (k: int)
    requires
        route_grid(passable, goals),
        is_distance_field(GRID_W as int, GRID_H as int, passable, goals, dist),
        0 <= v < cell_count(),
        dist[v] is Some,
        dist[v]->0 > 0,
    ensures
        0 <= k < 4,
        neighbor(GRID_W as int, GRID_H as int, v, k) is Some,
        passable[neighbor(GRID_W as int, GRID_H as int, v, k)->0],
        dist[neighbor(GRID_W as int, GRID_H as int, v, k)->0] == Some((dist[v]->0 - 1) as u32),
{
    let w = GRID_W as int;
    let h = GRID_H as int;
    assert(settled(w, h, passable, goals, dist, v));
    let d = dist[v]->0 as int;
    assert(min_neighbor_key(w, h, dist, v) == d - 1);
    let k = if neighbor_key(w, h, dist, v, 0) == d - 1 {
        0
    } else if neighbor_key(w, h, dist, v, 1) == d - 1 {
        1
    } else if neighbor_key(w, h, dist, v, 2) == d - 1 {
        2
    } else {
        3
    };
    assert(neighbor_key(w, h, dist, v, k) == d - 1);
    let n = neighbor(w, h, v, k)->0;
    assert(neighbor(w, h, v, k) is Some);
    crate::flow::lemma_neighbor_symmetric(w, h, v, k);
    assert(settled(w, h, passable, goals, dist, n));
    assert(dist[n] is Some);
    k
}

/// A reached neighbor bounds the distance of an open cell: one step more at most.
proof fn lemma_edge(passable: Seq<bool>, goals: Seq<bool>, dist: Seq<Option<u32>>, x: int, k: int)
    requires
        route_grid(passable, goals),
        is_distance_field(GRID_W as int, GRID_H as int, passable, goals, dist),
        0 <= x < cell_count(),
        passable[x],
        0 <= k < 4,
        neighbor(GRID_W as int, GRID_H as int, x, k) is Some,
    ensures
        dist_key(dist[x]) <= dist_key(dist[neighbor(GRID_W as int, GRID_H as int, x, k)->0]) + 1,
{
    let w = GRID_W as int;
    let h = GRID_H as int;
    let n = neighbor(w, h, x, k)->0;
    assert(settled(w, h, passable, goals, dist, x));
    assert(neighbor_key(w, h, dist, x, k) == dist_key(dist[n]));
    assert(min_neighbor_key(w, h, dist, x) <= neighbor_key(w, h, dist, x, k));
}

/// The column gap never overestimates: a cell `d` steps from the goals is at most `d`
/// columns left of the right-most one.
proof fn lemma_gap_admissible(passable: Seq<bool>, goals: Seq<bool>, dist: Seq<Option<u32>>, v: int)
    requires
        route_grid(passable, goals),
        is_distance_field(GRID_W as int, GRID_H as int, passable, goals, dist),
        0 <= v < cell_count(),
        dist[v] is Some,
    ensures
        column_gap(v) <= dist[v]->0,
    decreases dist[v]->0,
{
    let w = GRID_W as int;
    let h = GRID_H as int;
    if dist[v]->0 == 0 {
        lemma_zero_is_goal(passable, goals, dist, v);
    } else {
        let k = lemma_nearer_neighbor(passable, goals, dist, v);
        let n = neighbor(w, h, v, k)->0;
        crate::flow::lemma_neighbor_symmetric(w, h, v, k);
        lemma_gap_admissible(passable, goals, dist, n);
        crate::flow::lemma_index_encode(w, h, v);
        lemma_index_decode(w, h, v % w + dir_dx(k), v / w + dir_dy(k));
    }
}

/// The cell index of an entry.
spec fn cell_of(e: Entry) -> int {
    e.2 * GRID_W + e.1
}

/// The entry that the search files for cell `v` at its current step count.
spec fn entry_for(g: Seq<u32>, v: int) -> Entry {
    ((g[v] + column_gap(v)) as u32, (v % (GRID_W as int)) as i32, (v / (GRID_W as int)) as i32)
}

/// Cell `v` still waits on the open list with its current step count.
spec fn live(g: Seq<u32>, open: Multiset<Entry>, v: int) -> bool {
    open.count(entry_for(g, v)) > 0
}

/// Stepping from cell `v` in direction `k` cannot improve an open neighbor.
spec fn closes(passable: Seq<bool>, g: Seq<u32>, v: int, k: int) -> bool {
    match neighbor(GRID_W as int, GRID_H as int, v, k) {
        Some(n) => passable[n] ==> g[n] <= g[v] + 1,
        None => true,
    }
}

/// Cell `v` has been expanded: no step from it improves an open neighbor.
spec fn closed(passable: Seq<bool>, g: Seq<u32>, v: int) -> bool {
    forall|k: int| 0 <= k < 4 ==> #[trigger] closes(passable, g, v, k)
}

/// An entry names a cell of the grid that has been reached, and its estimate is at
/// least the cell's step count plus its column gap.
spec fn entry_ok(g: Seq<u32>, e: Entry) -> bool {
    &&& 0 <= e.1 < GRID_W
    &&& 0 <= e.2 < GRID_H
    &&& g[cell_of(e)] != u32::MAX
    &&& e.0 >= g[cell_of(e)] + column_gap(cell_of(e))
}

/// The number of reached cells.
spec fn count_reached(g: Seq<u32>) -> nat
    decreases g.len(),
{
    if g.len() == 0 {
        0
    } else {
        count_reached(g.drop_last()) + if g.last() != u32::MAX { 1nat } else { 0nat }
    }
}

/// The weight of one step count in the termination measure: unreached cells weigh
/// the whole grid.
spec fn weight(x: u32) -> nat {
    if x == u32::MAX { cell_count() as nat } else { x as nat }
}

/// The termination measure: every relaxation lowers it.
spec fn total_weight(g: Seq<u32>) -> nat
    decreases g.len(),
{
    if g.len() == 0 {
        0
    } else {
        total_weight(g.drop_last()) + weight(g.last())
    }
}

proof fn lemma_count_bound(g: Seq<u32>)
    ensures
        count_reached(g) <= g.len(),
    decreases g.len(),
{
    if g.len() > 0 {
        lemma_count_bound(g.drop_last());
    }
}

proof fn lemma_count_update(g: Seq<u32>, j: int, a: u32)
    requires
        0 <= j < g.len(),
        a != u32::MAX,
    ensures
        count_reached(g.update(j, a)) == count_reached(g) + if g[j] == u32::MAX { 1int } else { 0int },
    decreases g.len(),
{
    let t = g.update(j, a);
    if j == g.len() - 1 {
        assert(t.drop_last() =~= g.drop_last());
    } else {
        lemma_count_update(g.drop_last(), j, a);
        assert(t.drop_last() =~= g.drop_last().update(j, a));
    }
}

proof fn lemma_weight_update(g: Seq<u32>, j: int, a: u32)
    requires
        0 <= j < g.len(),
    ensures
        total_weight(g.update(j, a)) + weight(g[j]) == total_weight(g) + weight(a),
    decreases g.len(),
{
    let t = g.update(j, a);
    if j == g.len() - 1 {
        assert(t.drop_last() =~= g.drop_last());
    } else {
        lemma_weight_update(g.drop_last(), j, a);
        assert(t.drop_last() =~= g.drop_last().update(j, a));
    }
}

/// Cell `v` waits on the open list with its current step count or, away from the
/// goal column, has been expanded.
spec fn covered(passable: Seq<bool>, g: Seq<u32>, open: Multiset<Entry>, v: int) -> bool {
    live(g, open, v) || (v % (GRID_W as int) != GRID_W - 1 && closed(passable, g, v))
}

/// Everything that holds between the steps of the search from cell `s` but the
/// coverage of reached cells: step counts stay below the number of reached cells, every open
/// entry is sound and, against a distance field toward the goals, no reached cell
/// promises a route shorter than the start's distance.
spec fn core_inv(
    passable: Seq<bool>,
    goals: Seq<bool>,
    dist: Seq<Option<u32>>,
    g: Seq<u32>,
    open: Multiset<Entry>,
    s: int,
) -> bool {
    &&& route_grid(passable, goals)
    &&& g.len() == cell_count()
    &&& 0 <= s < cell_count()
    &&& g[s] == 0
    &&& forall|v: int| 0 <= v < cell_count() && #[trigger] g[v] != u32::MAX ==> passable[v] && g[v] < count_reached(g)
    &&& forall|e: Entry| #[trigger] open.count(e) > 0 ==> entry_ok(g, e)
    &&& is_distance_field(GRID_W as int, GRID_H as int, passable, goals, dist) ==> forall|v: int|
        0 <= v < cell_count() && #[trigger] g[v] != u32::MAX ==> dist_key(dist[s]) <= g[v] + dist_key(dist[v])
}

/// What holds between the steps of the search from cell `s`: the core invariant, and
/// every reached cell is covered.
spec fn search_inv(
    passable: Seq<bool>,
    goals: Seq<bool>,
    dist: Seq<Option<u32>>,
    g: Seq<u32>,
    open: Multiset<Entry>,
    s: int,
) -> bool {
    &&& core_inv(passable, goals, dist, g, open, s)
    &&& forall|v: int| 0 <= v < cell_count() && #[trigger] g[v] != u32::MAX ==> covered(passable, g, open, v)
}

/// What holds while cell `x` is being expanded, its first `kdone` directions done:
/// the core invariant, every other reached cell is covered, and those directions close.
spec fn expand_inv(
    passable: Seq<bool>,
    goals: Seq<bool>,
    dist: Seq<Option<u32>>,
    g: Seq<u32>,
    open: Multiset<Entry>,
    s: int,
    x: int,
    kdone: int,
) -> bool {
    &&& core_inv(passable, goals, dist, g, open, s)
    &&& 0 <= x < cell_count()
    &&& g[x] != u32::MAX
    &&& x % (GRID_W as int) != GRID_W - 1
    &&& forall|v: int| 0 <= v < cell_count() && v != x && #[trigger] g[v] != u32::MAX ==> covered(passable, g, open, v)
    &&& forall|k: int| 0 <= k < kdone ==> #[trigger] closes(passable, g, x, k)
}

/// While the start can reach the goals, some reached cell on a shortest route still
/// waits on the open list.
proof fn lemma_frontier(
    passable: Seq<bool>,
    goals: Seq<bool>,
    dist: Seq<Option<u32>>,
    g: Seq<u32>,
    open: Multiset<Entry>,
    s: int,
    v: int,
) -> (u: int)
    requires
        search_inv(passable, goals, dist, g, open, s),
        is_distance_field(GRID_W as int, GRID_H as int, passable, goals, dist),
        dist[s] is Some,
        0 <= v < cell_count(),
        g[v] != u32::MAX,
        g[v] + dist_key(dist[v]) == dist_key(dist[s]),
    ensures
        0 <= u < cell_count(),
        g[u] != u32::MAX,
        live(g, open, u),
        dist[u] is Some,
        g[u] + dist[u]->0 == dist[s]->0,
    decreases dist_key(dist[v]),
{
    let w = GRID_W as int;
    let h = GRID_H as int;
    assert(dist[v] is Some);
    assert(covered(passable, g, open, v));
    if live(g, open, v) {
        v
    } else {
        lemma_zero_is_goal(passable, goals, dist, v);
        assert(dist[v]->0 > 0);
        let k = lemma_nearer_neighbor(passable, goals, dist, v);
        let n = neighbor(w, h, v, k)->0;
        crate::flow::lemma_neighbor_symmetric(w, h, v, k);
        assert(closes(passable, g, v, k));
        lemma_count_bound(g);
        assert(g[v] < count_reached(g));
        assert(g[n] <= g[v] + 1);
        assert(g[n] != u32::MAX);
        assert(dist_key(dist[s]) <= g[n] + dist_key(dist[n]));
        lemma_frontier(passable, goals, dist, g, open, s, n)
    }
}

/// The cell of an entry lies in the grid and gives back the entry's column and row.
proof fn lemma_cell_of(e: Entry)
    requires
        0 <= e.1 < GRID_W,
        0 <= e.2 < GRID_H,
    ensures
        0 <= cell_of(e) < cell_count(),
        cell_of(e) % (GRID_W as int) == e.1,
        cell_of(e) / (GRID_W as int) == e.2,
{
    lemma_index_decode(GRID_W as int, GRID_H as int, e.1 as int, e.2 as int);
}

/// When the first goal-column entry `e` leaves the open list, its cell's step count is
/// the start's distance to the goals.
proof fn lemma_goal_reached(
    passable: Seq<bool>,
    goals: Seq<bool>,
    dist: Seq<Option<u32>>,
    g: Seq<u32>,
    open: Multiset<Entry>,
    s: int,
    e: Entry,
)
    requires
        search_inv(passable, goals, dist, g, open, s),
        is_distance_field(GRID_W as int, GRID_H as int, passable, goals, dist),
        open.count(e) > 0,
        forall|x: Entry| #[trigger] open.count(x) > 0 ==> !entry_before(x, e),
        e.1 == GRID_W - 1,
    ensures
        0 <= cell_of(e) < cell_count(),
        dist[s] == Some(g[cell_of(e)]),
{
    assert(entry_ok(g, e));
    lemma_cell_of(e);
    let x = cell_of(e);
    assert(passable[x] && g[x] < count_reached(g));
    lemma_count_bound(g);
    assert(goals[x]);
    lemma_zero_is_goal(passable, goals, dist, s);
    lemma_zero_is_goal(passable, goals, dist, x);
    assert(dist_key(dist[s]) <= g[x] + dist_key(dist[x]));
    assert(dist[s] is Some);
    let u = lemma_frontier(passable, goals, dist, g, open, s, s);
    let t = entry_for(g, u);
    assert(open.count(t) > 0);
    lemma_gap_admissible(passable, goals, dist, u);
    assert(g[u] < count_reached(g));
    assert(0 <= column_gap(u) < GRID_W) by {
        crate::flow::lemma_index_encode(GRID_W as int, GRID_H as int, u);
    }
    assert(t.0 == g[u] + column_gap(u));
    assert(!entry_before(t, e));
    assert(e.0 <= t.0);
}

/// With the open list empty, the start cannot reach the goals.
proof fn lemma_exhausted(
    passable: Seq<bool>,
    goals: Seq<bool>,
    dist: Seq<Option<u32>>,
    g: Seq<u32>,
    open: Multiset<Entry>,
    s: int,
)
    requires
        search_inv(passable, goals, dist, g, open, s),
        is_distance_field(GRID_W as int, GRID_H as int, passable, goals, dist),
        open.len() == 0,
    ensures
        dist[s] is None,
{
    if dist[s] is Some {
        let u = lemma_frontier(passable, goals, dist, g, open, s, s);
        assert(open.count(entry_for(g, u)) > 0);
        assert(open.len() > 0);
    }
}

/// Taking entry `e` off the open list starts the expansion of its cell, when that cell
/// lies off the goal column.
proof fn lemma_take(
    passable: Seq<bool>,
    goals: Seq<bool>,
    dist: Seq<Option<u32>>,
    g: Seq<u32>,
    open: Multiset<Entry>,
    s: int,
    e: Entry,
)
    requires
        search_inv(passable, goals, dist, g, open, s),
        open.count(e) > 0,
        e.1 != GRID_W - 1,
    ensures
        expand_inv(passable, goals, dist, g, open.remove(e), s, cell_of(e), 0),
{
    let x = cell_of(e);
    let o2 = open.remove(e);
    assert(entry_ok(g, e));
    lemma_cell_of(e);
    assert forall|t: Entry| #[trigger] o2.count(t) > 0 implies entry_ok(g, t) by {
        assert(open.count(t) > 0);
    }
    assert forall|v: int| 0 <= v < cell_count() && v != x && #[trigger] g[v] != u32::MAX implies covered(
        passable,
        g,
        o2,
        v,
    ) by {
        assert(covered(passable, g, open, v));
        let t = entry_for(g, v);
        if open.count(t) > 0 {
            crate::flow::lemma_index_encode(GRID_W as int, GRID_H as int, v);
            assert(t != e);
            assert(o2.count(t) == open.count(t));
        }
    }
}

/// Finishing the expansion of `x` after all four directions covers every reached cell.
proof fn lemma_expanded(
    passable: Seq<bool>,
    goals: Seq<bool>,
    dist: Seq<Option<u32>>,
    g: Seq<u32>,
    open: Multiset<Entry>,
    s: int,
    x: int,
)
    requires
        expand_inv(passable, goals, dist, g, open, s, x, 4),
    ensures
        search_inv(passable, goals, dist, g, open, s),
{
    assert forall|v: int| 0 <= v < cell_count() && #[trigger] g[v] != u32::MAX implies covered(passable, g, open, v) by {
        if v == x {
            assert(closed(passable, g, x));
        }
    }
}

/// Reaching neighbor `n` of `x` (direction `k`) in one step more than `x`, where that
/// improves on `n`'s step count, keeps the expansion going with direction `k` done and
/// lowers the termination measure.
proof fn lemma_relax(
    passable: Seq<bool>,
    goals: Seq<bool>,
    dist: Seq<Option<u32>>,
    g: Seq<u32>,
    open: Multiset<Entry>,
    s: int,
    x: int,
    k: int,
)
    requires
        expand_inv(passable, goals, dist, g, open, s, x, k),
        0 <= k < 4,
        neighbor(GRID_W as int, GRID_H as int, x, k) is Some,
        passable[neighbor(GRID_W as int, GRID_H as int, x, k)->0],
        g[x] + 1 < g[neighbor(GRID_W as int, GRID_H as int, x, k)->0],
    ensures
        ({
            let n = neighbor(GRID_W as int, GRID_H as int, x, k)->0;
            let g2 = g.update(n, (g[x] + 1) as u32);
            &&& expand_inv(passable, goals, dist, g2, open.insert(entry_for(g2, n)), s, x, k + 1)
            &&& total_weight(g2) < total_weight(g)
        }),
{
    let w = GRID_W as int;
    let h = GRID_H as int;
    let n = neighbor(w, h, x, k)->0;
    crate::flow::lemma_neighbor_symmetric(w, h, x, k);
    crate::flow::lemma_index_encode(w, h, x);
    crate::flow::lemma_index_encode(w, h, n);
    lemma_index_decode(w, h, x % w + dir_dx(k), x / w + dir_dy(k));
    assert(n != x);
    let a = (g[x] + 1) as u32;
    let g2 = g.update(n, a);
    let t = entry_for(g2, n);
    let o2 = open.insert(t);
    assert(passable[x] && g[x] < count_reached(g));
    lemma_count_bound(g);
    lemma_count_update(g, n, a);
    lemma_count_update(g, n, 0u32);
    lemma_count_bound(g.update(n, 0u32));
    lemma_count_bound(g2);
    assert(g[n] == u32::MAX ==> count_reached(g) < cell_count());
    assert(n != s);
    // step counts stay below the number of reached cells
    assert forall|v: int| 0 <= v < cell_count() && #[trigger] g2[v] != u32::MAX implies passable[v] && g2[v]
        < count_reached(g2) by {
        if v != n {
            assert(g[v] != u32::MAX);
        }
    }
    // every entry stays sound
    assert forall|e: Entry| #[trigger] o2.count(e) > 0 implies entry_ok(g2, e) by {
        if e != t {
            assert(open.count(e) > 0);
            assert(entry_ok(g, e));
        } else {
            assert(cell_of(t) == n);
        }
    }
    // no reached cell promises too short a route
    if is_distance_field(w, h, passable, goals, dist) {
        assert forall|v: int| 0 <= v < cell_count() && #[trigger] g2[v] != u32::MAX implies dist_key(dist[s]) <= g2[v]
            + dist_key(dist[v]) by {
            if v == n {
                lemma_edge(passable, goals, dist, x, k);
                assert(g[x] != u32::MAX);
            } else {
                assert(g[v] != u32::MAX);
            }
        }
    }
    // every other reached cell stays covered
    assert forall|v: int| 0 <= v < cell_count() && v != x && #[trigger] g2[v] != u32::MAX implies covered(
        passable,
        g2,
        o2,
        v,
    ) by {
        if v == n {
            assert(o2.count(t) > 0);
        } else {
            assert(g[v] != u32::MAX);
            assert(covered(passable, g, open, v));
            if live(g, open, v) {
                assert(entry_for(g2, v) == entry_for(g, v));
                assert(o2.count(entry_for(g2, v)) >= open.count(entry_for(g, v)));
            } else {
                assert forall|kk: int| 0 <= kk < 4 implies #[trigger] closes(passable, g2, v, kk) by {
                    assert(closes(passable, g, v, kk));
                }
            }
        }
    }
    assert forall|kk: int| 0 <= kk < k + 1 implies #[trigger] closes(passable, g2, x, kk) by {
        if kk < k {
            assert(closes(passable, g, x, kk));
        }
    }
    lemma_weight_update(g, n, a);
}

/// The number of steps of a shortest four-directional walk through open cells from
/// `(sx, sy)` to the right-most column of the probe grid, found by A* with the column
/// gap as its estimate. `None` when the start is blocked or no walk exists.
pub fn astar_cost(sx: i32, sy: i32, rects: &[(i32, i32, i32, i32)], blob: &(i32, i32, i32)) -> (r: Option<u32>)
    requires
        obstacles_computable(GRID_W, GRID_H, rects@, *blob),
    ensures
        !cell_open(GRID_W, GRID_H, sx as int, sy as int, rects@, *blob) ==> r is None,
        cell_open(GRID_W, GRID_H, sx as int, sy as int, rects@, *blob) ==> forall|dist: Seq<Option<u32>>|
            #[trigger] is_distance_field(
                GRID_W as int,
                GRID_H as int,
                open_cells(rects@, *blob),
                goal_cells(rects@, *blob),
                dist,
            ) ==> r == dist[sy * GRID_W + sx],
{
    let w: i32 = 100;
    if !cell_passable(GRID_W, GRID_H, sx, sy, rects, blob) {
        return None;
    }
    let goal_x = w - 1;
    let ghost passable = open_cells(rects@, *blob);
    let ghost goals = goal_cells(rects@, *blob);
    let ghost dist = choose|d: Seq<Option<u32>>| is_distance_field(GRID_W as int, GRID_H as int, passable, goals, d);
    let n: usize = GRID_W * GRID_H;
    let mut g: Vec<u32> = Vec::new();
    for i in 0..n
        invariant
            n == cell_count(),
            g@.len() == i,
            forall|t: int| 0 <= t < i ==> #[trigger] g@[t] == u32::MAX,
    {
        g.push(u32::MAX);
    }
    let start = (sy * w + sx) as usize;
    let ghost s = start as int;
    proof {
        lemma_index_decode(GRID_W as int, GRID_H as int, sx as int, sy as int);
    }
    g.set(start, 0);
    let mut open = EntryHeap::new();
    open.push(((goal_x - sx) as u32, sx, sy));
    proof {
        lemma_route_grid(rects@, *blob);
        let g0 = Seq::new(cell_count() as nat, |t: int| u32::MAX);
        assert(g@ =~= g0.update(s, 0u32));
        lemma_count_update(g0, s, 0u32);
        assert(count_reached(g0) == 0) by {
            lemma_none_reached(cell_count() as nat);
        }
        assert(open@.count(entry_for(g@, s)) > 0);
        assert forall|v: int| 0 <= v < cell_count() && #[trigger] g@[v] != u32::MAX implies v == s by {}
    }
    while open.len() > 0
        invariant
            search_inv(passable, goals, dist, g@, open@, s),
            open.wf(),
            passable == open_cells(rects@, *blob),
            goals == goal_cells(rects@, *blob),
            dist == choose|d: Seq<Option<u32>>| is_distance_field(GRID_W as int, GRID_H as int, passable, goals, d),
            cell_open(GRID_W, GRID_H, sx as int, sy as int, rects@, *blob),
            s == sy * GRID_W + sx,
            obstacles_computable(GRID_W, GRID_H, rects@, *blob),
            w == GRID_W,
            goal_x == GRID_W - 1,
        decreases total_weight(g@), open@.len(),
    {
        let ghost open0 = open@;
        let ghost tw0 = total_weight(g@);
        let (est, x, y) = open.pop();
        proof {
            let e = (est, x, y);
            if x == GRID_W - 1 && is_distance_field(GRID_W as int, GRID_H as int, passable, goals, dist) {
                lemma_goal_reached(passable, goals, dist, g@, open0, s, e);
            }
            assert(entry_ok(g@, e));
            lemma_cell_of(e);
        }
        let xi = (y * w + x) as usize;
        if x == goal_x {
            let c = g[xi];
            proof {
                assert forall|d: Seq<Option<u32>>|
                    #[trigger] is_distance_field(GRID_W as int, GRID_H as int, passable, goals, d) implies Some(c)
                    == d[s] by {
                    assert(is_distance_field(GRID_W as int, GRID_H as int, passable, goals, dist));
                    law_distance_field_unique(GRID_W as int, GRID_H as int, passable, goals, d, dist);
                }
            }
            return Some(c);
        }
        proof {
            lemma_take(passable, goals, dist, g@, open0, s, (est, x, y));
        }
        let cur = g[xi];
        let mut k: usize = 0;
        while k < 4
            invariant
                expand_inv(passable, goals, dist, g@, open@, s, xi as int, k as int),
                open.wf(),
                k <= 4,
                cur == g@[xi as int],
                x as int == xi as int % (GRID_W as int),
                y as int == xi as int / (GRID_W as int),
                0 <= x < GRID_W,
                0 <= y < GRID_H,
                passable == open_cells(rects@, *blob),
                goals == goal_cells(rects@, *blob),
                obstacles_computable(GRID_W, GRID_H, rects@, *blob),
                w == GRID_W,
                goal_x == GRID_W - 1,
                total_weight(g@) < tw0 || (total_weight(g@) == tw0 && open@.len() == open0.len() - 1),
                open0.len() > 0,
            decreases 4 - k,
        {
            let dx: i32 = if k == 0 {
                1
            } else if k == 1 {
                -1
            } else {
                0
            };
            let dy: i32 = if k == 2 {
                1
            } else if k == 3 {
                -1
            } else {
                0
            };
            let nx = x + dx;
            let ny = y + dy;
            let ghost nb = neighbor(GRID_W as int, GRID_H as int, xi as int, k as int);
            proof {
                assert(dx == dir_dx(k as int) && dy == dir_dy(k as int));
                if 0 <= nx < GRID_W && 0 <= ny < GRID_H {
                    lemma_index_decode(GRID_W as int, GRID_H as int, nx as int, ny as int);
                    assert(nb == Some(ny * GRID_W + nx));
                } else {
                    assert(nb is None);
                }
                assert(g@[xi as int] < count_reached(g@));
                lemma_count_bound(g@);
            }
            if cell_passable(GRID_W, GRID_H, nx, ny, rects, blob) {
                let ni = (ny * w + nx) as usize;
                assert(passable[ni as int]);
                if cur + 1 < g[ni] {
                    proof {
                        lemma_relax(passable, goals, dist, g@, open@, s, xi as int, k as int);
                    }
                    g.set(ni, cur + 1);
                    let t = (cur + 1 + (goal_x - nx) as u32, nx, ny);
                    proof {
                        assert(t == entry_for(g@, ni as int));
                    }
                    open.push(t);
                }
            }
            k += 1;
        }
        proof {
            lemma_expanded(passable, goals, dist, g@, open@, s, xi as int);
        }
    }
    proof {
        assert forall|d: Seq<Option<u32>>|
            #[trigger] is_distance_field(GRID_W as int, GRID_H as int, passable, goals, d) implies d[s] is None by {
            assert(is_distance_field(GRID_W as int, GRID_H as int, passable, goals, dist));
            lemma_exhausted(passable, goals, dist, g@, open@, s);
            law_distance_field_unique(GRID_W as int, GRID_H as int, passable, goals, d, dist);
        }
    }
    None
}

/// A grid where no cell has been reached counts none.
proof fn lemma_none_reached(len: nat)
    ensures
        count_reached(Seq::new(len, |t: int| u32::MAX)) == 0,
    decreases len,
{
    if len > 0 {
        assert(Seq::new(len, |t: int| u32::MAX).drop_last() =~= Seq::new((len - 1) as nat, |t: int| u32::MAX));
        lemma_none_reached((len - 1) as nat);
    }
}

} // verus!
