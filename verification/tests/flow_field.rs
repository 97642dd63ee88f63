use moonshell::flow::{build_flow_grid, flow_directions, grid_distances, Step};
use moonshell::graph::reaches_itself;
use moonshell::spike;

fn grid(rows: &[&str]) -> (usize, usize, Vec<bool>, Vec<bool>) {
    // '#' blocked, 'S' source, '.' open, 'X' blocked source
    let h = rows.len();
    let w = rows[0].len();
    let mut passable = Vec::new();
    let mut sources = Vec::new();
    for r in rows {
        for c in r.chars() {
            passable.push(c == '.' || c == 'S');
            sources.push(c == 'S' || c == 'X');
        }
    }
    (w, h, passable, sources)
}

#[test]
fn distances_count_steps_around_walls() {
    let (w, h, p, s) = grid(&[
        "...S",
        ".##.",
        "....",
    ]);
    let d = grid_distances(w, h, &p, &s);
    assert_eq!(d[3], Some(0));
    assert_eq!(d[2], Some(1));
    assert_eq!(d[0], Some(3));
    assert_eq!(d[7], Some(1));
    assert_eq!(d[11], Some(2));
    assert_eq!(d[8], Some(5));
    assert_eq!(d[5], None);
    assert_eq!(d[6], None);
}

#[test]
fn unreachable_pocket_has_no_distance() {
    let (w, h, p, s) = grid(&[
        ".#S",
        ".#.",
    ]);
    let d = grid_distances(w, h, &p, &s);
    assert_eq!(d, vec![None, None, Some(0), None, None, Some(1)]);
}

#[test]
fn blocked_source_still_seeds_its_neighbors() {
    let (w, h, p, s) = grid(&["X.."]);
    let d = grid_distances(w, h, &p, &s);
    assert_eq!(d, vec![Some(0), Some(1), Some(2)]);
    let f = flow_directions(w, h, &p, &d);
    // the blocked source does not move; its neighbor cannot step into it
    assert_eq!(f, vec![Step::Stay, Step::PlusX, Step::MinusX]);
}

#[test]
fn no_sources_means_no_distances() {
    let (w, h, p, s) = grid(&["...", "..."]);
    let d = grid_distances(w, h, &p, &s);
    assert!(d.iter().all(|x| x.is_none()));
    let f = flow_directions(w, h, &p, &d);
    assert!(f.iter().all(|x| *x == Step::PlusX));
}

#[test]
fn flow_points_to_nearest_neighbor_first_direction_on_ties() {
    let (w, h, p, s) = grid(&[
        "S..",
        "...",
        "..S",
    ]);
    let g = build_flow_grid(w, h, &p, &s);
    // center cell: +x neighbor (1 step) vs -x neighbor (1 step): first in order is +x
    assert_eq!(g.dist[4], Some(2));
    assert_eq!(g.flow[4], Step::PlusX);
    // cell (1,0): -x leads to the source
    assert_eq!(g.flow[1], Step::MinusX);
    // cell (2,1): +y leads to the source
    assert_eq!(g.flow[5], Step::PlusY);
    // cell (0,1): -y leads to the source
    assert_eq!(g.flow[3], Step::MinusY);
    // sources keep the default step
    assert_eq!(g.flow[0], Step::PlusX);
}

#[test]
fn following_the_flow_reaches_a_source() {
    let (w, h, p, s) = grid(&[
        "S.#....",
        "..#.##.",
        "....#..",
    ]);
    let g = build_flow_grid(w, h, &p, &s);
    let mut x = 6usize;
    let mut y = 0usize;
    let mut steps = 0;
    while g.dist[y * w + x] != Some(0) {
        let before = g.dist[y * w + x].unwrap();
        match g.direction_at(x, y) {
            Step::PlusX => x += 1,
            Step::MinusX => x -= 1,
            Step::PlusY => y += 1,
            Step::MinusY => y -= 1,
            Step::Stay => panic!("direction_at never stays"),
        }
        assert_eq!(g.dist[y * w + x], Some(before - 1));
        steps += 1;
    }
    assert_eq!((x, y), (0, 0));
    assert_eq!(steps, 10);
}

#[test]
fn direction_at_clamps_and_never_stays() {
    let (w, h, p, s) = grid(&["S.#"]);
    let g = build_flow_grid(w, h, &p, &s);
    assert_eq!(g.direction_at(1, 0), Step::MinusX);
    // blocked cell: +x
    assert_eq!(g.direction_at(2, 0), Step::PlusX);
    // far outside: clamped onto the last cell
    assert_eq!(g.direction_at(50, 9), Step::PlusX);
    assert_eq!(g.direction_at(1, 9), Step::MinusX);
}

#[test]
fn cycle_detection_in_adjacency_matrix() {
    let adj = vec![
        vec![false, true, false],
        vec![false, false, true],
        vec![true, false, false],
    ];
    assert!(reaches_itself(&adj, 0));
    assert!(reaches_itself(&adj, 2));
    let dag = vec![
        vec![false, true, true],
        vec![false, false, true],
        vec![false, false, false],
    ];
    assert!(!reaches_itself(&dag, 0));
    assert!(!reaches_itself(&dag, 2));
    let self_loop = vec![vec![true]];
    assert!(reaches_itself(&self_loop, 0));
}

#[test]
fn probe_sector_flow_field() {
    let g = spike::build_flow_grid();
    assert_eq!((g.w, g.h), (100, 57));
    let at = |x: usize, y: usize| y * 100 + x;
    assert_eq!(g.dist[at(99, 0)], Some(0));
    assert_eq!(g.dist[at(0, 0)], Some(118));
    assert_eq!(g.dist[at(0, 28)], Some(106));
    assert_eq!(g.dist[at(26, 25)], Some(77));
    assert_eq!(g.dist[at(60, 30)], Some(44));
    assert_eq!(g.dist[at(26, 10)], None);
    assert_eq!(g.flow[at(26, 10)], Step::Stay);
    assert_eq!(g.dist[at(70, 28)], None);
    assert_eq!(g.flow[at(24, 5)], Step::PlusY);
    assert_eq!(g.flow[at(49, 6)], Step::MinusY);
    assert_eq!(g.flow[at(0, 0)], Step::PlusX);
    assert_eq!(g.dist.iter().filter(|d| d.is_some()).count(), 5417);
}

#[test]
fn sources_and_unreached_cells_rest_east() {
    let (w, h, p, s) = grid(&[
        ".#S",
        ".#.",
    ]);
    let d = grid_distances(w, h, &p, &s);
    let f = flow_directions(w, h, &p, &d);
    // the source and the unreachable pocket on the left step +x; the blocked wall stays
    assert_eq!(f[2], Step::PlusX);
    assert_eq!(f[0], Step::PlusX);
    assert_eq!(f[3], Step::PlusX);
    assert_eq!(f[1], Step::Stay);
    assert_eq!(f[5], Step::MinusY);
}

#[test]
fn distances_stay_below_the_cell_count() {
    // a serpentine corridor: the far end is as far as a walk can get
    let (w, h, p, s) = grid(&[
        "S....",
        "####.",
        ".....",
        ".####",
        ".....",
    ]);
    let d = grid_distances(w, h, &p, &s);
    assert_eq!(d[24], Some(16));
    assert!(d.iter().flatten().all(|&v| (v as usize) < w * h));
}
