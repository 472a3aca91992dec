use rts_server::bytegrid::{direction_from_points, ByteGrid as ByteTiles};
use rts_server::jps::{JumpGrid, Point};
use rts_server::libs::bitvec::{trace, BitGrid, LOS};
use rts_server::libs::bytegrid::ByteGrid;
use rts_server::libs::fine_grid::{max_i16, min_i16, Quadrant, Square};
use rts_server::pathing::direction::Direction;

#[test]
fn packed_grid_starts_open_and_closes() {
    let mut g = ByteGrid::new(4, 3);
    assert_eq!(g.width_and_height(), (4, 3));
    assert!(g.is_open((3, 2)));
    assert!(!g.is_open((4, 2)));
    assert!(!g.is_open((-1, 0)));
    g.set_point(false, (1, 1));
    assert!(!g.is_open((1, 1)));
    assert!(!g.get_point((1, 1)));
    assert!(g.get_point((2, 1)));
}

#[test]
fn last_open_reaches_the_end_over_open_tiles() {
    let g = ByteGrid::new(5, 5);
    assert_eq!(g.last_open((0, 0), (4, 2)), (4, 2));
    assert_eq!(g.last_open((2, 2), (2, 2)), (2, 2));
}

#[test]
fn last_open_stops_before_a_wall() {
    let mut g = ByteGrid::new(6, 1);
    g.set_point(false, (3, 0));
    assert_eq!(g.last_open((0, 0), (5, 0)), (2, 0));
}

#[test]
fn last_open_stops_at_a_diagonal_squeeze() {
    let mut g = ByteGrid::new(3, 3);
    g.set_point(false, (1, 0));
    g.set_point(false, (0, 1));
    assert_eq!(g.last_open((0, 0), (2, 2)), (0, 0));
}

#[test]
fn last_open_from_a_closed_start_answers_the_start() {
    let mut g = ByteGrid::new(3, 3);
    g.set_point(false, (0, 0));
    assert_eq!(g.last_open((0, 0), (2, 0)), (0, 0));
}

#[test]
fn byte_tiles_hold_bytes() {
    let mut g = ByteTiles::new(3, 2);
    assert!(g.is_open((2, 1)));
    g.set_point(7, (2, 1));
    assert_eq!(g.get_point((2, 1)), 7);
    assert!(!g.is_open((2, 1)));
    assert_eq!(g.last_open((0, 1), (2, 1)), (1, 1));
}

#[test]
fn direction_between_points() {
    assert_eq!(direction_from_points((0, 0), (0, 0)), None);
    assert_eq!(direction_from_points((0, 0), (3, 3)), Some(Direction(1)));
    assert_eq!(direction_from_points((0, 0), (0, -2)), Some(Direction(4)));
    assert_eq!(direction_from_points((5, 5), (1, 5)), Some(Direction(6)));
}

#[test]
fn bitgrid_logic() {
    let mut a = BitGrid::new(3, 3);
    let mut b = BitGrid::new(3, 3);
    a.set((1, 1), true);
    b.set((2, 2), true);
    assert!(a.get((1, 1)));
    assert!(!a.get((5, 5)));
    a.bitwise_or(&b);
    assert!(a.get((2, 2)));
    a.bitwise_and(&b);
    assert!(!a.get((1, 1)));
    assert!(a.get((2, 2)));
}

#[test]
fn trace_walks_a_line() {
    assert_eq!(trace((0, 0), (3, 1)), vec![(0, 0), (1, 0), (2, 1), (3, 1)]);
    assert_eq!(trace((2, 2), (2, 2)), vec![(2, 2)]);
}

#[test]
fn los_grid_of_an_empty_map_sees_nothing_blocked() {
    let los = LOS::new(5, 5);
    let state = BitGrid::new(5, 5);
    let seen = los.los_grid(&state);
    assert!(!seen.get((4, 4)));
}

#[test]
fn line_of_sight_tables_for_fields_that_are_not_square() {
    // Two columns, three rows: lines run from (1, 0) and (1, 1) only.
    let los = LOS::new(2, 3);
    let mut state = BitGrid::new(2, 3);
    state.set((0, 0), true);
    let hidden = los.los_grid(&state);
    assert!(hidden.get((0, 0)));
    assert!(hidden.get((1, 0)));
    assert!(hidden.get((1, 1)));
    assert!(!hidden.get((0, 1)));
    assert!(!hidden.get((1, 2)));
    // Three columns, two rows: lines run from (0, 1) and (1, 1).
    let los = LOS::new(3, 2);
    let mut state = BitGrid::new(3, 2);
    state.set((0, 0), true);
    let hidden = los.los_grid(&state);
    assert!(hidden.get((0, 1)));
    assert!(hidden.get((1, 1)));
    assert!(!hidden.get((1, 0)));
    assert!(!hidden.get((2, 1)));
}

#[test]
fn a_blocker_hides_the_cells_behind_it() {
    let los = LOS::new(3, 3);
    let mut state = BitGrid::new(3, 3);
    state.set((1, 0), true);
    let hidden = los.los_grid(&state);
    assert!(hidden.get((1, 0)));
    assert!(hidden.get((2, 0)));
    assert!(!hidden.get((0, 0)));
    assert!(!hidden.get((0, 1)));
    // The line traced from (2, 2) to the origin runs (2, 2), (2, 1), (1, 1),
    // (1, 0), (0, 0): a blocker at (1, 0) hides the cells before it.
    assert!(hidden.get((2, 1)));
    assert!(hidden.get((2, 2)));
    let mut state = BitGrid::new(3, 3);
    state.set((1, 1), true);
    let hidden = los.los_grid(&state);
    assert!(hidden.get((1, 1)));
    assert!(hidden.get((2, 2)));
    assert!(hidden.get((1, 2)));
    assert!(!hidden.get((2, 0)));
    assert!(!hidden.get((0, 2)));
}

#[test]
fn squares_split_into_quarters() {
    let s = Square::new(0, 0, 8);
    assert_eq!(s.sw(), Square::new(0, 0, 4));
    assert_eq!(s.se(), Square::new(4, 0, 4));
    assert_eq!(s.nw(), Square::new(0, 4, 4));
    assert_eq!(s.ne(), Square::new(4, 4, 4));
    assert_eq!(s.quadrant(4, 4), Quadrant::NE);
    assert_eq!(s.quadrant(3, 4), Quadrant::NW);
    assert_eq!(s.quadrant(5, 0), Quadrant::SE);
    assert_eq!(s.quadrant(0, 0), Quadrant::SW);
    assert_eq!(min_i16(3, -2), -2);
    assert_eq!(max_i16(3, -2), 3);
}

#[test]
fn jump_grid_starts_open() {
    let g = JumpGrid::make(4, 4);
    assert!(g.is_open(Point(3, 3)));
    assert!(!g.is_open(Point(4, 0)));
    assert_eq!(g.get_jump(Direction(0), Point(1, 1)), None);
    assert!(g.lines_up(Point(0, 0), Point(0, 3)));
    assert!(!g.lines_up(Point(0, 0), Point(1, 3)));
}

#[test]
fn jump_grid_closing_a_wall() {
    let mut g = JumpGrid::make(5, 5);
    g.open_or_close_point(1, Point(2, 0), Point(2, 2));
    assert!(!g.is_open(Point(2, 1)));
    assert!(g.is_open(Point(2, 3)));
    assert!(!g.lines_up(Point(0, 1), Point(4, 1)));
    assert!(g.lines_up(Point(0, 3), Point(4, 3)));
    // Closed tiles keep no jump distances.
    assert_eq!(g.get_jump_dist(Direction(0), Point(2, 2)), 0);
    // The tile past the end of the wall is a jump point heading north: a wall
    // beside it ends just before an open diagonal.
    assert!(g.is_axis_jump(Direction(0), Point(1, 2)));
    g.open_or_close_point(0, Point(2, 0), Point(2, 2));
    assert!(g.is_open(Point(2, 1)));
}

#[test]
fn jump_grid_changes_stay_on_the_rows_and_columns_of_the_area() {
    let mut g = JumpGrid::make(9, 9);
    g.set_jump_dist(Direction(2), Point(0, 8), 5);
    g.set_jump_dist(Direction(0), Point(8, 0), 3);
    g.open_or_close_point(1, Point(3, 3), Point(4, 4));
    // (0, 8) and (8, 0) share no row or column with the area or its ring.
    assert_eq!(g.get_jump_dist(Direction(2), Point(0, 8)), 5);
    assert_eq!(g.get_jump_dist(Direction(0), Point(8, 0)), 3);
    g.open_or_close_point(0, Point(3, 3), Point(4, 4));
    assert_eq!(g.get_jump_dist(Direction(2), Point(0, 8)), 5);
    assert_eq!(g.get_jump_dist(Direction(0), Point(8, 0)), 3);
}

#[test]
fn jump_grid_search_starts_on_the_open_neighbours() {
    let mut g = JumpGrid::make(5, 5);
    assert_eq!(
        g.init_open(Point(2, 2)),
        vec![
            (Point(2, 3), Direction(0)),
            (Point(2, 1), Direction(4)),
            (Point(3, 2), Direction(2)),
            (Point(1, 2), Direction(6)),
            (Point(3, 3), Direction(1)),
            (Point(1, 3), Direction(7)),
            (Point(3, 1), Direction(3)),
            (Point(1, 1), Direction(5)),
        ]
    );
    // With north and east closed, the north-east diagonal is not tried.
    g.open_or_close_point(1, Point(2, 3), Point(2, 3));
    g.open_or_close_point(1, Point(3, 2), Point(3, 2));
    let first = g.init_open(Point(2, 2));
    assert!(!first.contains(&(Point(3, 3), Direction(1))));
    assert!(first.contains(&(Point(1, 3), Direction(7))));
}

#[test]
fn jump_grid_expansion_follows_jumps_and_lines_up() {
    let mut g = JumpGrid::make(5, 5);
    g.set_jump_dist(Direction(0), Point(2, 2), 2);
    assert_eq!(
        g.expand_node(Point(2, 2), Point(4, 0), Direction(0)),
        vec![(Point(2, 2), Point(2, 4), Direction(0), false)]
    );
    // A diagonal walk from the corner stops where it lines up with the goal.
    assert_eq!(
        g.expand_node(Point(0, 0), Point(2, 4), Direction(1)),
        vec![(Point(2, 2), Point(2, 2), Direction(1), true)]
    );
}

#[test]
fn jump_grid_reopening_keeps_a_stale_distance() {
    let mut g = JumpGrid::make(5, 8);
    g.open_or_close_point(1, Point(0, 2), Point(0, 2));
    assert_eq!(g.get_jump(Direction(0), Point(1, 0)), Some(Point(1, 2)));
    g.open_or_close_point(1, Point(0, 5), Point(0, 5));
    assert_eq!(g.get_jump_dist(Direction(0), Point(1, 2)), 3);
    g.open_or_close_point(0, Point(0, 2), Point(0, 2));
    // (1, 2) is no jump point any more, yet (1, 0) still points at it: the
    // first jump point ahead of (1, 0) is (1, 5).
    assert!(!g.is_axis_jump(Direction(0), Point(1, 2)));
    assert!(g.is_axis_jump(Direction(0), Point(1, 5)));
    assert_eq!(g.get_jump(Direction(0), Point(1, 0)), Some(Point(1, 2)));
}

#[test]
fn jump_grid_second_close_misses_a_new_jump_point() {
    let mut g = JumpGrid::make(4, 4);
    g.open_or_close_point(1, Point(0, 0), Point(0, 0));
    g.open_or_close_point(1, Point(1, 0), Point(1, 0));
    // With (1, 0) closed and (2, 0) open, (1, 1) is a jump point heading
    // east, yet (0, 1) keeps no distance east.
    assert!(g.is_open(Point(0, 1)));
    assert!(g.is_axis_jump(Direction(2), Point(1, 1)));
    assert_eq!(g.get_jump_dist(Direction(2), Point(0, 1)), 0);
}

#[test]
fn jump_distances_point_into_the_grid() {
    let mut g = JumpGrid::make(3, 3);
    g.set_jump_dist(Direction(2), Point(0, 1), 2);
    assert_eq!(g.get_jump(Direction(2), Point(0, 1)), Some(Point(2, 1)));
    assert_eq!(g.get_jump_dist(Direction(2), Point(0, 1)), 2);
}

use rts_server::pathing::path_grid::PathGrid;

#[test]
fn path_grid_opens_and_closes_tiles() {
    let mut g = PathGrid::new(4, 3);
    assert_eq!(g.width_and_height(), (4, 3));
    assert!(g.is_open((3, 2)));
    assert!(!g.is_open((4, 0)));
    g.close_point((1, 1));
    assert!(!g.is_open((1, 1)));
    assert_eq!(g.get_jump_dist(Direction(0), (1, 1)), 0);
    g.open_point((1, 1));
    assert!(g.is_open((1, 1)));
    g.close_area((0, 0, 2, 2));
    assert!(!g.is_open((1, 1)) && !g.is_open((0, 0)) && g.is_open((2, 0)));
    g.open_area((0, 0, 2, 2));
    assert!(g.is_open((0, 1)));
}

#[test]
fn path_grid_straight_lines() {
    let mut g = PathGrid::new(4, 4);
    assert!(g.is_line_open((0, 0), (3, 2)));
    g.close_point((2, 0));
    assert!(!g.is_line_open((0, 0), (3, 0)));
    assert!(g.lines_up((0, 1), (3, 1)));
    assert!(!g.lines_up((0, 0), (3, 0)));
}

#[test]
fn path_grid_line_cannot_squeeze_between_closed_tiles() {
    let mut g = PathGrid::new(3, 3);
    g.close_point((1, 0));
    g.close_point((0, 1));
    assert!(!g.is_line_open((0, 0), (1, 1)));
}

#[test]
fn nearest_open_tile() {
    let mut g = PathGrid::new(5, 5);
    assert_eq!(g.nearest_open((0, 0)), Some((0, 0)));
    g.close_point((2, 2));
    let p = g.nearest_open((2, 2)).unwrap();
    assert!(g.is_open(p));
    assert_eq!((p.0 - 2).abs() + (p.1 - 2).abs(), 1);
    let mut full = PathGrid::new(3, 3);
    full.close_area((0, 0, 3, 3));
    assert_eq!(full.nearest_open((1, 1)), None);
}

#[test]
fn nearest_open_runs_past_closed_tiles() {
    let mut g = PathGrid::new(1, 5);
    g.close_area((0, 0, 1, 4));
    assert_eq!(g.nearest_open((0, 0)), Some((0, 4)));
}

#[test]
fn nearest_open_finds_the_closest_off_axis_tile() {
    let mut g = PathGrid::new(7, 7);
    g.close_area((0, 0, 7, 7));
    g.open_point((0, 0));
    g.open_point((3, 6));
    g.open_point((5, 4));
    assert_eq!(g.nearest_open((3, 3)), Some((5, 4)));
    g.close_point((5, 4));
    assert_eq!(g.nearest_open((3, 3)), Some((3, 6)));
    g.close_point((3, 6));
    assert_eq!(g.nearest_open((3, 3)), Some((0, 0)));
}

#[test]
fn nearest_open_from_outside_the_grid() {
    let mut g = PathGrid::new(5, 5);
    g.close_area((0, 0, 5, 5));
    g.open_point((2, 4));
    g.open_point((4, 0));
    // From the ring around the grid every tile is searched.
    assert_eq!(g.nearest_open((-1, 3)), Some((2, 4)));
    assert_eq!(g.nearest_open((5, -1)), Some((4, 0)));
    // From farther out no search starts.
    assert_eq!(g.nearest_open((-2, 3)), None);
    assert_eq!(g.nearest_open((2, 6)), None);
}

#[test]
fn closed_list_rounds() {
    let mut g = PathGrid::new(3, 3);
    g.add_to_closed_list((1, 1));
    assert!(g.is_in_closed_list((1, 1)));
    assert!(!g.is_in_closed_list((0, 1)));
    g.reset();
    assert!(!g.is_in_closed_list((1, 1)));
}

#[test]
fn diagonal_expansion_stops_where_the_goal_lines_up() {
    let mut g = PathGrid::new(5, 5);
    g.expand_node((2, 2), (4, 3), Direction(1));
    assert_eq!(g.expansion().clone(), vec![((3, 3), Direction(1))]);
    assert_eq!(g.search_diag((3, 3), (4, 3), Direction(1)), Some(((3, 3), Direction(1))));
}

#[test]
fn search_start_finds_the_diagonal_stop_in_line_with_the_goal() {
    let mut g = PathGrid::new(5, 5);
    g.init_expansion((0, 0), (4, 2));
    assert_eq!(g.expansion().clone(), vec![((2, 2), Direction(1))]);
    g.init_expansion((2, 2), (3, 4));
    assert_eq!(
        g.expansion().clone(),
        vec![((3, 3), Direction(1)), ((3, 1), Direction(3))]
    );
}

#[test]
fn path_grid_jump_distances_follow_the_walls() {
    let mut g = PathGrid::new(5, 8);
    g.close_point((0, 2));
    g.close_point((0, 5));
    assert!(g.is_axis_jump(Direction(0), (1, 2)));
    assert!(g.is_axis_jump(Direction(0), (1, 5)));
    assert_eq!(g.get_jump(Direction(0), (1, 0)), Some((1, 2)));
    assert_eq!(g.get_jump(Direction(0), (1, 1)), Some((1, 2)));
    assert_eq!(g.get_jump(Direction(0), (1, 2)), Some((1, 5)));
    assert_eq!(g.get_jump(Direction(0), (1, 6)), None);
    g.open_point((0, 2));
    assert!(!g.is_axis_jump(Direction(0), (1, 2)));
    assert_eq!(g.get_jump(Direction(0), (1, 0)), Some((1, 5)));
    assert_eq!(g.get_jump(Direction(0), (1, 3)), Some((1, 5)));
    g.open_point((0, 5));
    assert_eq!(g.get_jump(Direction(0), (1, 0)), None);
    assert_eq!(g.get_jump_dist(Direction(0), (1, 4)), 0);
}


#[test]
fn path_grid_check_finds_nothing_after_changes() {
    let mut g = PathGrid::new(12, 12);
    g.close_area((3, 3, 2, 2));
    g.close_point((7, 5));
    g.close_area((0, 9, 4, 1));
    assert_eq!(g.verify_grid(), None);
    g.open_area((3, 3, 1, 1));
    g.open_point((7, 5));
    assert_eq!(g.verify_grid(), None);
    assert_eq!(g.verify_jump((1, 0), Direction(0)), None);
}

#[test]
fn path_grid_check_finds_a_wrong_distance() {
    let mut g = PathGrid::new(5, 8);
    g.close_point((0, 2));
    assert_eq!(g.get_jump(Direction(0), (1, 0)), Some((1, 2)));
    g.set_jump_dist(Direction(0), (1, 0), 1);
    assert_eq!(g.verify_jump((1, 0), Direction(0)), Some((1, 1)));
    assert_eq!(g.verify_grid(), Some(((1, 0), (1, 1))));
    g.set_jump_dist(Direction(0), (1, 0), 0);
    assert_eq!(g.verify_jump((1, 0), Direction(0)), Some((1, 2)));
}

#[test]
fn bit_grid_reads_the_last_write() {
    let mut g = BitGrid::new(3, 2);
    g.set((1, 1), true);
    g.set((2, 0), true);
    g.set((1, 1), false);
    g.set((0, 0), true);
    g.set((0, 0), true);
    assert!(!g.get((1, 1)));
    assert!(g.get((2, 0)));
    assert!(g.get((0, 0)));
    assert!(!g.get((1, 0)));
    assert!(!g.get((2, 1)));
    assert!(!g.get((-1, 0)));
    assert!(!g.get((3, 0)));
    assert!(!g.get((0, 2)));
}

#[test]
fn path_grid_expansions_list_only_open_tiles() {
    let mut g = PathGrid::new(9, 9);
    g.close_area((3, 3, 2, 2));
    g.close_point((6, 1));
    g.close_point((1, 6));
    g.init_expansion((1, 1), (8, 8));
    let start = g.expansion().clone();
    assert!(!start.is_empty());
    for &(p, _) in &start {
        assert!(g.is_open(p));
    }
    for d in 0..8isize {
        g.expand_node((2, 4), (8, 8), Direction(d));
        for &(p, _) in g.expansion() {
            assert!(g.is_open(p));
        }
    }
}
