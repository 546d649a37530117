use astar::{AStar, PathGenerator};
use std::cell::RefCell;

/// A bounded grid with walls; steps go to the four adjacent cells and cost one.
struct Room {
    rows: usize,
    columns: usize,
    walls: Vec<(usize, usize)>,
    estimate: bool,
}

fn distance(a: usize, b: usize) -> usize {
    if a > b {
        a - b
    } else {
        b - a
    }
}

impl PathGenerator for Room {
    fn generate_paths(&self, from_position: (usize, usize)) -> Vec<(usize, usize)> {
        let (row, column) = from_position;
        let mut out = Vec::new();
        if row > 0 {
            out.push((row - 1, column));
        }
        if column > 0 {
            out.push((row, column - 1));
        }
        if row + 1 < self.rows {
            out.push((row + 1, column));
        }
        if column + 1 < self.columns {
            out.push((row, column + 1));
        }
        out.retain(|cell| !self.walls.contains(cell));
        out
    }

    fn calculate_heuristic_cost(
        &self,
        position: (usize, usize),
        target: (Option<usize>, Option<usize>),
    ) -> usize {
        if !self.estimate {
            return 0;
        }
        let rows = target.0.map_or(0, |row| distance(row, position.0));
        let columns = target.1.map_or(0, |column| distance(column, position.1));
        let both = rows + columns;
        if both == 0 {
            0
        } else {
            both - 1
        }
    }

    fn calculate_cost(&self, _current_position: (usize, usize), _next_position: (usize, usize)) -> usize {
        1
    }
}

/// A search space given as a table of arcs, which also records every
/// position whose neighbours were asked for.
struct Chart {
    arcs: Vec<((usize, usize), (usize, usize), usize)>,
    estimates: Vec<((usize, usize), usize)>,
    asked: RefCell<Vec<(usize, usize)>>,
}

impl Chart {
    fn new(arcs: Vec<((usize, usize), (usize, usize), usize)>) -> Self {
        Chart { arcs, estimates: Vec::new(), asked: RefCell::new(Vec::new()) }
    }

    fn times_asked(&self, position: (usize, usize)) -> usize {
        self.asked.borrow().iter().filter(|asked| **asked == position).count()
    }
}

impl PathGenerator for Chart {
    fn generate_paths(&self, from_position: (usize, usize)) -> Vec<(usize, usize)> {
        self.asked.borrow_mut().push(from_position);
        self.arcs.iter().filter(|arc| arc.0 == from_position).map(|arc| arc.1).collect()
    }

    fn calculate_heuristic_cost(
        &self,
        position: (usize, usize),
        _target: (Option<usize>, Option<usize>),
    ) -> usize {
        self.estimates.iter().find(|entry| entry.0 == position).map_or(0, |entry| entry.1)
    }

    fn calculate_cost(&self, current_position: (usize, usize), next_position: (usize, usize)) -> usize {
        self.arcs
            .iter()
            .find(|arc| arc.0 == current_position && arc.1 == next_position)
            .map_or(0, |arc| arc.2)
    }
}

fn is_walk<T: PathGenerator>(generator: &T, path: &[(usize, usize)]) -> bool {
    (1..path.len()).all(|i| generator.generate_paths(path[i]).contains(&path[i - 1]))
}

#[test]
fn open_room_gives_a_shortest_walk() {
    let room = Room { rows: 5, columns: 5, walls: vec![], estimate: false };
    let path = AStar::run(&room, (0, 0), (Some(3), Some(2))).unwrap();
    assert_eq!(path.len(), 6);
    assert_eq!(path[0], (3, 2));
    assert_eq!(path[5], (0, 0));
    assert!(is_walk(&room, &path));
}

#[test]
fn estimate_does_not_lengthen_the_walk() {
    let room = Room { rows: 6, columns: 6, walls: vec![(1, 0), (1, 1), (1, 2), (1, 3)], estimate: true };
    let path = AStar::run(&room, (0, 0), (Some(2), Some(0))).unwrap();
    assert_eq!(path.len(), 11);
    assert_eq!(path[0], (2, 0));
    assert_eq!(*path.last().unwrap(), (0, 0));
    assert!(is_walk(&room, &path));
    let blind = Room { rows: 6, columns: 6, walls: vec![(1, 0), (1, 1), (1, 2), (1, 3)], estimate: false };
    assert_eq!(AStar::run(&blind, (0, 0), (Some(2), Some(0))).unwrap().len(), 11);
}

#[test]
fn walled_in_target_gives_no_path() {
    let room = Room { rows: 4, columns: 4, walls: vec![(2, 3), (3, 2)], estimate: false };
    assert_eq!(AStar::run(&room, (0, 0), (Some(3), Some(3))), None);
}

#[test]
fn target_outside_the_room_gives_no_path() {
    let room = Room { rows: 3, columns: 3, walls: vec![], estimate: false };
    assert_eq!(AStar::run(&room, (1, 1), (Some(7), None)), None);
}

#[test]
fn every_step_of_the_result_is_a_step_of_the_generator() {
    let room = Room { rows: 7, columns: 7, walls: vec![(3, 3), (3, 4), (4, 3), (2, 5)], estimate: true };
    let path = AStar::run(&room, (6, 0), (Some(0), Some(6))).unwrap();
    assert!(is_walk(&room, &path));
    assert_eq!(path[0], (0, 6));
    assert_eq!(*path.last().unwrap(), (6, 0));
    assert_eq!(path.len(), 13);
}

#[test]
fn row_target_accepts_any_column() {
    let room = Room { rows: 6, columns: 4, walls: vec![], estimate: true };
    let path = AStar::run(&room, (0, 1), (Some(3), None)).unwrap();
    assert_eq!(path[0].0, 3);
    assert_eq!(path, vec![(3, 1), (2, 1), (1, 1), (0, 1)]);
}

#[test]
fn column_target_accepts_any_row() {
    let room = Room { rows: 4, columns: 6, walls: vec![], estimate: true };
    let path = AStar::run(&room, (2, 5), (None, Some(3))).unwrap();
    assert_eq!(path[0].1, 3);
    assert_eq!(path, vec![(2, 3), (2, 4), (2, 5)]);
}

#[test]
fn target_without_constraint_is_met_by_the_first_neighbour() {
    let room = Room { rows: 3, columns: 3, walls: vec![], estimate: false };
    let path = AStar::run(&room, (1, 1), (None, None)).unwrap();
    assert_eq!(path, vec![(0, 1), (1, 1)]);
}

#[test]
fn no_neighbours_give_no_path() {
    let chart = Chart::new(vec![]);
    assert_eq!(AStar::run(&chart, (0, 0), (Some(1), Some(1))), None);
    assert_eq!(AStar::run(&chart, (0, 0), (None, Some(4))), None);
    assert_eq!(chart.times_asked((0, 0)), 2);
}

#[test]
fn start_at_target_still_takes_a_step() {
    let room = Room { rows: 3, columns: 3, walls: vec![], estimate: false };
    let path = AStar::run(&room, (2, 1), (Some(2), None)).unwrap();
    assert_eq!(path, vec![(2, 0), (2, 1)]);
}

#[test]
fn start_at_target_without_neighbours_gives_no_path() {
    let chart = Chart::new(vec![]);
    assert_eq!(AStar::run(&chart, (4, 4), (Some(4), Some(4))), None);
}

#[test]
fn start_at_target_is_not_found_again_through_a_loop() {
    let chart = Chart::new(vec![((0, 0), (0, 1), 1), ((0, 1), (0, 0), 1)]);
    assert_eq!(AStar::run(&chart, (0, 0), (Some(0), Some(0))), None);
}

#[test]
fn start_that_offers_itself_is_found_at_once() {
    let chart = Chart::new(vec![((0, 0), (0, 0), 1)]);
    assert_eq!(AStar::run(&chart, (0, 0), (Some(0), Some(0))), Some(vec![(0, 0), (0, 0)]));
}

#[test]
fn cheaper_detour_is_taken() {
    let chart = Chart::new(vec![
        ((0, 0), (0, 1), 10),
        ((0, 0), (1, 0), 1),
        ((1, 0), (1, 1), 1),
        ((1, 1), (0, 1), 1),
        ((0, 1), (0, 2), 1),
    ]);
    let path = AStar::run(&chart, (0, 0), (Some(0), Some(2))).unwrap();
    assert_eq!(path, vec![(0, 2), (0, 1), (1, 1), (1, 0), (0, 0)]);
}

#[test]
fn oldest_of_equal_nodes_is_expanded_first() {
    let chart = Chart::new(vec![
        ((0, 0), (1, 0), 1),
        ((0, 0), (2, 0), 1),
        ((1, 0), (9, 9), 1),
        ((2, 0), (9, 9), 1),
    ]);
    let path = AStar::run(&chart, (0, 0), (Some(9), Some(9))).unwrap();
    assert_eq!(path, vec![(9, 9), (1, 0), (0, 0)]);
}

#[test]
fn search_stops_at_the_first_arrival_it_generates() {
    let mut chart = Chart::new(vec![
        ((0, 0), (1, 1), 1),
        ((0, 0), (2, 1), 1),
        ((1, 1), (1, 2), 1),
        ((1, 2), (1, 3), 1),
        ((1, 3), (9, 9), 1),
        ((2, 1), (2, 2), 1),
        ((2, 2), (9, 9), 1),
    ]);
    chart.estimates = vec![((2, 1), 2), ((2, 2), 1)];
    let path = AStar::run(&chart, (0, 0), (Some(9), Some(9))).unwrap();
    assert_eq!(path, vec![(9, 9), (1, 3), (1, 2), (1, 1), (0, 0)]);
}

#[test]
fn tree_positions_are_expanded_once() {
    let chart = Chart::new(vec![
        ((0, 0), (1, 0), 1),
        ((0, 0), (1, 1), 1),
        ((1, 0), (2, 0), 1),
        ((1, 0), (2, 1), 1),
        ((1, 1), (2, 2), 1),
        ((1, 1), (2, 3), 1),
    ]);
    assert_eq!(AStar::run(&chart, (0, 0), (Some(7), None)), None);
    for position in [(0, 0), (1, 0), (1, 1), (2, 0), (2, 1), (2, 2), (2, 3)] {
        assert_eq!(chart.times_asked(position), 1);
    }
}

#[test]
fn closed_position_is_not_entered_again() {
    let chart = Chart::new(vec![
        ((0, 0), (0, 1), 1),
        ((0, 1), (0, 0), 1),
        ((0, 1), (0, 2), 1),
        ((0, 2), (0, 1), 1),
        ((0, 2), (0, 0), 1),
    ]);
    assert_eq!(AStar::run(&chart, (0, 0), (Some(5), Some(5))), None);
    assert_eq!(chart.times_asked((0, 0)), 1);
    assert_eq!(chart.times_asked((0, 1)), 1);
    assert_eq!(chart.times_asked((0, 2)), 1);
}

#[test]
fn position_waiting_twice_is_expanded_twice() {
    let chart = Chart::new(vec![
        ((0, 0), (1, 0), 1),
        ((0, 0), (1, 1), 1),
        ((1, 0), (2, 0), 1),
        ((1, 1), (2, 0), 1),
    ]);
    assert_eq!(AStar::run(&chart, (0, 0), (Some(5), Some(5))), None);
    assert_eq!(chart.times_asked((0, 0)), 1);
    assert_eq!(chart.times_asked((1, 0)), 1);
    assert_eq!(chart.times_asked((1, 1)), 1);
    assert_eq!(chart.times_asked((2, 0)), 2);
}

#[test]
fn costs_that_do_not_fit_are_held_at_the_largest() {
    let chart = Chart::new(vec![
        ((0, 0), (0, 1), usize::MAX),
        ((0, 1), (0, 2), usize::MAX),
        ((0, 2), (0, 3), 7),
    ]);
    let path = AStar::run(&chart, (0, 0), (None, Some(3))).unwrap();
    assert_eq!(path, vec![(0, 3), (0, 2), (0, 1), (0, 0)]);
}

#[test]
fn estimate_orders_the_frontier() {
    let mut chart = Chart::new(vec![
        ((0, 0), (1, 0), 1),
        ((0, 0), (2, 0), 1),
        ((1, 0), (9, 1), 1),
        ((2, 0), (9, 2), 1),
    ]);
    chart.estimates = vec![((1, 0), 5), ((2, 0), 0)];
    let path = AStar::run(&chart, (0, 0), (Some(9), None)).unwrap();
    assert_eq!(path, vec![(9, 2), (2, 0), (0, 0)]);
}

#[test]
fn walk_of_unit_steps_costs_its_length_less_one() {
    let room = Room { rows: 4, columns: 4, walls: vec![(1, 1), (2, 1)], estimate: true };
    let path = AStar::run(&room, (1, 0), (Some(1), Some(2))).unwrap();
    let cost: usize = (1..path.len()).map(|i| room.calculate_cost(path[i], path[i - 1])).sum();
    assert_eq!(cost, 4);
    assert_eq!(path.len(), cost + 1);
    assert!(is_walk(&room, &path));
}

#[test]
fn result_ends_at_start_and_begins_at_target() {
    let chart = Chart::new(vec![
        ((3, 3), (3, 4), 2),
        ((3, 4), (4, 4), 2),
        ((4, 4), (5, 5), 2),
        ((3, 3), (5, 5), 20),
    ]);
    let path = AStar::run(&chart, (3, 3), (Some(5), Some(5))).unwrap();
    assert_eq!(path, vec![(5, 5), (3, 3)]);
    let path = AStar::run(&chart, (3, 3), (Some(4), None)).unwrap();
    assert_eq!(path, vec![(4, 4), (3, 4), (3, 3)]);
}
