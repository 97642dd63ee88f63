//! The performance probe: its run modes, the crater sector it routes through, and the
//! pseudo-random stream that picks its query cells.
use vstd::prelude::*;

use crate::flow::{build_flow_grid as build_grid, is_distance_field, is_flow_field, FlowGrid};

verus! {

/// What a probe run measures.
#[derive(Debug, Clone, Copy, PartialEq, Eq, Structural)]
pub enum Mode {
    Sim,
    Sprites,
    Flow,
    FlowSprites,
    Instanced,
    FlowInstanced,
}

/// The command-line name of each mode.
pub open spec fn mode_name(m: Mode) -> Seq<char> {
    match m {
        Mode::Sim => "sim"@,
        Mode::Sprites => "sprites"@,
        Mode::Flow => "flow"@,
        Mode::FlowSprites => "flow-sprites"@,
        Mode::Instanced => "instanced"@,
        Mode::FlowInstanced => "flow-instanced"@,
    }
}

/// The mode a command-line argument names: sprites when there is none, `None` when the
/// name is unknown.
pub open spec fn arg_mode(arg: Option<Seq<char>>) -> Option<Mode> {
    match arg {
        None => Some(Mode::Sprites),
        Some(a) => if a == "sim"@ {
            Some(Mode::Sim)
        } else if a == "sprites"@ {
            Some(Mode::Sprites)
        } else if a == "flow"@ {
            Some(Mode::Flow)
        } else if a == "flow-sprites"@ {
            Some(Mode::FlowSprites)
        } else if a == "instanced"@ {
            Some(Mode::Instanced)
        } else if a == "flow-instanced"@ {
            Some(Mode::FlowInstanced)
        } else {
            None
        },
    }
}

/// Every mode's name selects that mode again.
pub proof fn law_mode_name_round_trip(m: Mode)
    ensures
        arg_mode(Some(mode_name(m))) == Some(m),
{
    reveal_strlit("sim");
    reveal_strlit("sprites");
    reveal_strlit("flow");
    reveal_strlit("flow-sprites");
    reveal_strlit("instanced");
    reveal_strlit("flow-instanced");
    // the six names differ in length
    assert("sim"@.len() == 3 && "flow"@.len() == 4 && "sprites"@.len() == 7);
    assert("instanced"@.len() == 9 && "flow-sprites"@.len() == 12 && "flow-instanced"@.len() == 14);
}

/// Each mode is named by the word that the probe's usage line gives it, and that word
/// selects it.
pub proof fn law_mode_names()
    ensures
        mode_name(Mode::Sim) == "sim"@,
        mode_name(Mode::Sprites) == "sprites"@,
        mode_name(Mode::Flow) == "flow"@,
        mode_name(Mode::FlowSprites) == "flow-sprites"@,
        mode_name(Mode::Instanced) == "instanced"@,
        mode_name(Mode::FlowInstanced) == "flow-instanced"@,
        arg_mode(Some("sim"@)) == Some(Mode::Sim),
        arg_mode(Some("sprites"@)) == Some(Mode::Sprites),
        arg_mode(Some("flow"@)) == Some(Mode::Flow),
        arg_mode(Some("flow-sprites"@)) == Some(Mode::FlowSprites),
        arg_mode(Some("instanced"@)) == Some(Mode::Instanced),
        arg_mode(Some("flow-instanced"@)) == Some(Mode::FlowInstanced),
        arg_mode(None) == Some(Mode::Sprites),
{
    law_mode_name_round_trip(Mode::Sim);
    law_mode_name_round_trip(Mode::Sprites);
    law_mode_name_round_trip(Mode::Flow);
    law_mode_name_round_trip(Mode::FlowSprites);
    law_mode_name_round_trip(Mode::Instanced);
    law_mode_name_round_trip(Mode::FlowInstanced);
}

/// An argument selects a mode exactly when it is that mode's name: parsing gives back
/// the mode that the argument names, and no other word selects anything.
pub proof fn law_arg_selects_named_mode(a: Seq<char>, m: Mode)
    ensures
        arg_mode(Some(a)) == Some(m) <==> a == mode_name(m),
{
    law_mode_name_round_trip(m);
    reveal_strlit("sim");
    reveal_strlit("sprites");
    reveal_strlit("flow");
    reveal_strlit("flow-sprites");
    reveal_strlit("instanced");
    reveal_strlit("flow-instanced");
}

impl Mode {
    /// The mode's command-line name.
    pub fn name(&self) -> (s: &'static str)
        ensures
            s@ == mode_name(*self),
    {
        match self {
            Mode::Sim => "sim",
            Mode::Sprites => "sprites",
            Mode::Flow => "flow",
            Mode::FlowSprites => "flow-sprites",
            Mode::Instanced => "instanced",
            Mode::FlowInstanced => "flow-instanced",
        }
    }

    /// The mode a command-line argument selects: its name, or sprites when no argument
    /// is given; `None` for an unknown name.
    pub fn from_arg(arg: Option<&str>) -> (m: Option<Mode>)
        ensures
            m == arg_mode(
                match arg {
                    None => None,
                    Some(a) => Some(a@),
                },
            ),
    {
        match arg {
            None => Some(Mode::Sprites),
            Some(a) => {
                let a = a.to_owned();
                if a == "sim".to_owned() {
                    Some(Mode::Sim)
                } else if a == "sprites".to_owned() {
                    Some(Mode::Sprites)
                } else if a == "flow".to_owned() {
                    Some(Mode::Flow)
                } else if a == "flow-sprites".to_owned() {
                    Some(Mode::FlowSprites)
                } else if a == "instanced".to_owned() {
                    Some(Mode::Instanced)
                } else if a == "flow-instanced".to_owned() {
                    Some(Mode::FlowInstanced)
                } else {
                    None
                }
            },
        }
    }
}

/// Grid width of the probe sector, in cells.
pub const GRID_W: usize = 100;

/// Grid height of the probe sector, in cells.
pub const GRID_H: usize = 57;

/// The crater walls of the probe sector, as cell rectangles `(x0, y0, x1, y1)` with
/// exclusive upper corners.
pub open spec fn wall_rects() -> Seq<(i32, i32, i32, i32)> {
    seq![(25i32, 0i32, 27i32, 19i32), (25, 38, 27, 57), (50, 6, 52, 16), (50, 36, 52, 57)]
}

/// The crater of the probe sector: center cell and radius in cells.
pub open spec fn crater() -> (i32, i32, i32) {
    (70, 28, 7)
}

/// The obstacles that force a serpentine route through the probe sector: four walls
/// and one round crater.
pub fn obstacle_cells() -> (r: (Vec<(i32, i32, i32, i32)>, (i32, i32, i32)))
    ensures
        r.0@ == wall_rects(),
        r.1 == crater(),
{
    let rects = vec![(25, 0, 27, 19), (25, 38, 27, 57), (50, 6, 52, 16), (50, 36, 52, 57)];
    assert(rects@ =~= wall_rects());
    (rects, (70, 28, 7))
}

/// Cell `(cx, cy)` lies in rectangle `r`.
pub open spec fn in_rect(r: (i32, i32, i32, i32), cx: int, cy: int) -> bool {
    cx >= r.0 && cx < r.2 && cy >= r.1 && cy < r.3
}

/// Cell `(cx, cy)` lies in the grid and outside every wall.
pub open spec fn clear_of_walls(w: usize, h: usize, cx: int, cy: int, rects: Seq<(i32, i32, i32, i32)>) -> bool {
    &&& 0 <= cx && 0 <= cy && cx < (w as i32) && cy < (h as i32)
    &&& forall|i: int| 0 <= i < rects.len() ==> !in_rect(#[trigger] rects[i], cx, cy)
}

/// Cell `(cx, cy)` can be walked: it lies in the grid (of the given width and height,
/// taken as `i32`), outside every wall, and not strictly inside the crater.
pub open spec fn cell_open(
    w: usize,
    h: usize,
    cx: int,
    cy: int,
    rects: Seq<(i32, i32, i32, i32)>,
    blob: (i32, i32, i32),
) -> bool {
    &&& clear_of_walls(w, h, cx, cy, rects)
    &&& (cx - blob.0) * (cx - blob.0) + (cy - blob.1) * (cy - blob.1) >= blob.2 * blob.2
}

/// The crater test of cell `(cx, cy)` stays within `i32`: the offsets to the crater's
/// center, the sum of their squares and the squared radius all fit.
pub open spec fn blob_fits(cx: int, cy: int, blob: (i32, i32, i32)) -> bool {
    let dx = cx - blob.0;
    let dy = cy - blob.1;
    &&& i32::MIN <= dx <= i32::MAX
    &&& i32::MIN <= dy <= i32::MAX
    &&& dx * dx + dy * dy <= i32::MAX
    &&& blob.2 * blob.2 <= i32::MAX
}

/// The crater test stays within `i32` on every cell of the `w` x `h` grid that is clear
/// of the walls.
pub open spec fn obstacles_computable(
    w: usize,
    h: usize,
    rects: Seq<(i32, i32, i32, i32)>,
    blob: (i32, i32, i32),
) -> bool {
    forall|cx: int, cy: int| #[trigger] clear_of_walls(w, h, cx, cy, rects) ==> blob_fits(cx, cy, blob)
}

/// Whether cell `(cx, cy)` can be walked.
pub fn cell_passable(
    w: usize,
    h: usize,
    cx: i32,
    cy: i32,
    rects: &[(i32, i32, i32, i32)],
    blob: &(i32, i32, i32),
) -> (r: bool)
    requires
        clear_of_walls(w, h, cx as int, cy as int, rects@) ==> blob_fits(cx as int, cy as int, *blob),
    ensures
        r == cell_open(w, h, cx as int, cy as int, rects@, *blob),
{
    if cx < 0 || cy < 0 || cx >= w as i32 || cy >= h as i32 {
        return false;
    }
    for i in 0..rects.len()
        invariant
            0 <= cx && 0 <= cy && cx < (w as i32) && cy < (h as i32),
            forall|j: int| 0 <= j < i ==> !in_rect(#[trigger] rects@[j], cx as int, cy as int),
    {
        let (x0, y0, x1, y1) = rects[i];
        if cx >= x0 && cx < x1 && cy >= y0 && cy < y1 {
            assert(in_rect(rects@[i as int], cx as int, cy as int));
            return false;
        }
    }
    let (bx, by, br) = *blob;
    let dx = cx - bx;
    let dy = cy - by;
    assert(0 <= dx * dx && 0 <= dy * dy && 0 <= br * br) by (nonlinear_arith);
    if dx * dx + dy * dy < br * br {
        return false;
    }
    true
}

/// The number of cells of the probe grid.
pub open spec fn cell_count() -> int {
    (GRID_W * GRID_H) as int
}

/// The open cells of the probe grid under the given walls and crater, by cell index.
pub open spec fn open_cells(rects: Seq<(i32, i32, i32, i32)>, blob: (i32, i32, i32)) -> Seq<bool> {
    Seq::new(
        cell_count() as nat,
        |i: int| cell_open(GRID_W, GRID_H, i % (GRID_W as int), i / (GRID_W as int), rects, blob),
    )
}

/// The goal cells of a route: the open cells of the right-most column.
pub open spec fn goal_cells(rects: Seq<(i32, i32, i32, i32)>, blob: (i32, i32, i32)) -> Seq<bool> {
    Seq::new(
        cell_count() as nat,
        |i: int|
            cell_open(GRID_W, GRID_H, i % (GRID_W as int), i / (GRID_W as int), rects, blob) && i % (GRID_W as int)
                == GRID_W - 1,
    )
}

/// The probe grid's passable cells.
pub open spec fn probe_passable() -> Seq<bool> {
    open_cells(wall_rects(), crater())
}

/// The probe grid's base: every passable cell of its right edge.
pub open spec fn probe_sources() -> Seq<bool> {
    goal_cells(wall_rects(), crater())
}

/// The flow field of the probe sector, routing from the left edge around the crater
/// walls to every passable cell of the right edge.
pub fn build_flow_grid() -> (g: FlowGrid)
    ensures
        g.wf(),
        g.w == GRID_W,
        g.h == GRID_H,
        is_distance_field(GRID_W as int, GRID_H as int, probe_passable(), probe_sources(), g.dist@),
        is_flow_field(GRID_W as int, GRID_H as int, probe_passable(), g.dist@, g.flow@),
{
    let (rects, blob) = obstacle_cells();
    let w = GRID_W;
    let h = GRID_H;
    let n = w * h;
    let mut passable: Vec<bool> = Vec::new();
    let mut sources: Vec<bool> = Vec::new();
    for i in 0..n
        invariant
            n == GRID_W * GRID_H,
            w == GRID_W,
            h == GRID_H,
            rects@ == wall_rects(),
            blob == crater(),
            passable@.len() == i,
            sources@.len() == i,
            forall|j: int| 0 <= j < i ==> #[trigger] passable@[j] == cell_open(GRID_W, GRID_H, j % (GRID_W as int), j / (GRID_W as int), wall_rects(), crater()),
            forall|j: int| 0 <= j < i ==> #[trigger] sources@[j] == (cell_open(GRID_W, GRID_H, j % (GRID_W as int), j / (GRID_W as int), wall_rects(), crater()) && j % (GRID_W as int) == GRID_W - 1),
    {
        let x = i % w;
        let y = i / w;
        assert(0 <= x < 100 && 0 <= y < 57);
        assert(-70 <= x - 70 < 30 && -28 <= y - 28 < 29);
        assert((x - 70) * (x - 70) <= 4900 && (y - 28) * (y - 28) <= 841) by (nonlinear_arith)
            requires -70 <= x - 70 < 30, -28 <= y - 28 < 29;
        let open = cell_passable(w, h, x as i32, y as i32, rects.as_slice(), &blob);
        passable.push(open);
        sources.push(open && x == w - 1);
    }
    assert(passable@ =~= probe_passable());
    assert(sources@ =~= probe_sources());
    build_grid(w, h, &passable, &sources)
}

/// One step of the xorshift stream: shift left by 13, right by 7, left by 17, each time
/// folding the shifted state back in with exclusive or.
pub open spec fn xorshift_step(s: u64) -> u64 {
    let a = s ^ (s << 13u64);
    let b = a ^ (a >> 7u64);
    b ^ (b << 17u64)
}

/// Advance the xorshift stream and return its new state.
pub fn xorshift_next(state: &mut u64) -> (r: u64)
    ensures
        r == xorshift_step(*old(state)),
        *final(state) == r,
{
    let s = *state;
    let a = s ^ (s << 13u64);
    let b = a ^ (a >> 7u64);
    let c = b ^ (b << 17u64);
    *state = c;
    c
}

/// Draw the next query cell of the A* benchmark from the xorshift stream: two draws,
/// the first picking a column in the left half of the grid and the second a row.
/// `None` when the drawn cell is blocked; the benchmark then draws again.
pub fn draw_query(state: &mut u64, rects: &[(i32, i32, i32, i32)], blob: &(i32, i32, i32)) -> (q: Option<(i32, i32)>)
    requires
        obstacles_computable(GRID_W, GRID_H, rects@, *blob),
    ensures
        ({
            let a = xorshift_step(*old(state));
            let b = xorshift_step(a);
            let cx = (a % 50) as int;
            let cy = (b % 57) as int;
            &&& *final(state) == b
            &&& q == if cell_open(GRID_W, GRID_H, cx, cy, rects@, *blob) {
                Some((cx as i32, cy as i32))
            } else {
                None
            }
        }),
{
    let a = xorshift_next(state);
    let b = xorshift_next(state);
    let sx = (a % 50) as i32;
    let sy = (b % 57) as i32;
    if cell_passable(GRID_W, GRID_H, sx, sy, rects, blob) {
        Some((sx, sy))
    } else {
        None
    }
}

} // verus!
