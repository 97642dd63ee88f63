use moonshell::astar::astar_cost;
use moonshell::spike::{build_flow_grid, cell_passable, draw_query, obstacle_cells, xorshift_next, Mode, GRID_H, GRID_W};

#[test]
fn mode_names_round_trip() {
    let modes = [Mode::Sim, Mode::Sprites, Mode::Flow, Mode::FlowSprites, Mode::Instanced, Mode::FlowInstanced];
    for m in modes {
        assert_eq!(Mode::from_arg(Some(m.name())), Some(m));
    }
    assert_eq!(Mode::FlowSprites.name(), "flow-sprites");
    assert_eq!(Mode::from_arg(None), Some(Mode::Sprites));
    assert_eq!(Mode::from_arg(Some("turbo")), None);
}

#[test]
fn obstacle_layout() {
    let (rects, blob) = obstacle_cells();
    assert_eq!(rects, vec![(25, 0, 27, 19), (25, 38, 27, 57), (50, 6, 52, 16), (50, 36, 52, 57)]);
    assert_eq!(blob, (70, 28, 7));
}

#[test]
fn passability_of_probe_cells() {
    let (rects, blob) = obstacle_cells();
    let p = |x: i32, y: i32| cell_passable(GRID_W, GRID_H, x, y, &rects, &blob);
    assert!(p(0, 0));
    assert!(!p(-1, 0));
    assert!(!p(100, 0));
    assert!(!p(0, 57));
    assert!(!p(25, 0));
    assert!(!p(26, 18));
    assert!(p(26, 19));
    assert!(p(27, 0));
    // crater: strictly inside the radius is blocked, on the rim is open
    assert!(!p(70, 28));
    assert!(!p(76, 28));
    assert!(p(77, 28));
    assert!(p(70, 35));
}

#[test]
fn xorshift_stream() {
    let mut s: u64 = 0x9E37_79B9_7F4A_7C15;
    assert_eq!(xorshift_next(&mut s), 0xdc1b77ae0bf34dad);
    assert_eq!(s, 0xdc1b77ae0bf34dad);
    assert_eq!(xorshift_next(&mut s), 0x64f0eeb9026e6076);
}

#[test]
fn astar_route_costs() {
    let (rects, blob) = obstacle_cells();
    assert_eq!(astar_cost(0, 0, &rects, &blob), Some(118));
    assert_eq!(astar_cost(0, 28, &rects, &blob), Some(106));
    assert_eq!(astar_cost(26, 25, &rects, &blob), Some(77));
    assert_eq!(astar_cost(60, 30, &rects, &blob), Some(44));
    assert_eq!(astar_cost(27, 0, &rects, &blob), Some(72));
    assert_eq!(astar_cost(0, 56, &rects, &blob), Some(120));
    assert_eq!(astar_cost(99, 0, &rects, &blob), Some(0));
}

#[test]
fn astar_blocked_start() {
    let (rects, blob) = obstacle_cells();
    assert_eq!(astar_cost(25, 5, &rects, &blob), None);
    assert_eq!(astar_cost(70, 28, &rects, &blob), None);
    assert_eq!(astar_cost(-1, 0, &rects, &blob), None);
    assert_eq!(astar_cost(0, 57, &rects, &blob), None);
}

#[test]
fn astar_unreachable_goal() {
    // a wall across the whole grid cuts every start left of it off from the right edge
    let rects = vec![(10, 0, 11, 57)];
    let blob = (200, 200, 1);
    assert_eq!(astar_cost(0, 0, &rects, &blob), None);
    assert_eq!(astar_cost(11, 0, &rects, &blob), Some(88));
}

#[test]
fn astar_agrees_with_flow_field() {
    let (rects, blob) = obstacle_cells();
    let grid = build_flow_grid();
    for y in (0..GRID_H as i32).step_by(4) {
        for x in (0..GRID_W as i32).step_by(7) {
            let d = grid.dist[(y as usize) * GRID_W + x as usize];
            let open = cell_passable(GRID_W, GRID_H, x, y, &rects, &blob);
            let expected = if open { d } else { None };
            assert_eq!(astar_cost(x, y, &rects, &blob), expected, "cell ({}, {})", x, y);
        }
    }
}

#[test]
fn benchmark_query_draws() {
    let (rects, blob) = obstacle_cells();
    let mut s: u64 = 0x9E37_79B9_7F4A_7C15;
    assert_eq!(draw_query(&mut s, &rects, &blob), Some((39, 42)));
    assert_eq!(s, 0x64f0eeb9026e6076);
    assert_eq!(draw_query(&mut s, &rects, &blob), Some((30, 54)));
    // a draw that lands in the upper-left wall
    let mut t: u64 = 16;
    assert_eq!(draw_query(&mut t, &rects, &blob), None);
    assert_eq!(t, 0x41060c0014418);
}
