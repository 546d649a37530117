use astar::{AStar, PathGenerator};

fn calc_usize_diff(x: usize, y: usize) -> usize {
    if x > y {
        return x - y;
    }
    y - x
}

struct GridMap {
    blocks: Vec<(usize, usize)>,
}

impl GridMap {
    fn path_is_possible(&self, possible_path: (usize, usize)) -> Option<(usize, usize)> {
        if self.blocks.contains(&possible_path) {
            return None;
        }
        Some(possible_path)
    }
}

impl PathGenerator for GridMap {
    fn generate_paths(&self, from_position: (usize, usize)) -> Vec<(usize, usize)> {
        let mut possible_paths: Vec<(usize, usize)> = Vec::new();

        if from_position.0 != 0 && from_position.1 != 0 {
            for possible_path in [
                (from_position.0 - 1, from_position.1 - 1),
                (from_position.0, from_position.1 - 1),
                (from_position.0 - 1, from_position.1),
            ] {
                if let Some(path_) = self.path_is_possible(possible_path) {
                    possible_paths.push(path_)
                }
            }
        };
        for possible_path in [
            (from_position.0 + 1, from_position.1 + 1),
            (from_position.0, from_position.1 + 1),
            (from_position.0 + 1, from_position.1),
        ] {
            if let Some(path_) = self.path_is_possible(possible_path) {
                possible_paths.push(path_)
            }
        }
        possible_paths
    }

    #[allow(unused_variables)]
    fn calculate_cost(
        &self,
        current_position: (usize, usize),
        next_position: (usize, usize),
    ) -> usize {
        1
    }

    fn calculate_heuristic_cost(
        &self,
        position: (usize, usize),
        target: (Option<usize>, Option<usize>),
    ) -> usize {
        if target.0.is_none() && target.1.is_none() {
            return 0;
        }
        if target.0.is_none() {
            return calc_usize_diff(target.1.unwrap(), position.1);
        }
        if target.1.is_none() {
            return calc_usize_diff(target.0.unwrap(), position.0);
        }
        f64::sqrt(
            ((calc_usize_diff(target.0.unwrap(), position.0) ^ 2)
                + (calc_usize_diff(target.1.unwrap(), position.1) ^ 2)) as f64,
        ) as usize
    }
}

#[test]
fn testrun() {
    let map_fixture = GridMap {
        blocks: vec![(2, 2)],
    };
    let path = AStar::run(&map_fixture, (0, 0), (Some(3), Some(3)));
    assert_eq!(path.unwrap(), vec![(3, 3), (2, 3), (1, 2), (1, 1), (0, 0)])
}

#[test]
fn scenario_takes_four_steps() {
    let map_fixture = GridMap {
        blocks: vec![(2, 2)],
    };
    let path = AStar::run(&map_fixture, (0, 0), (Some(3), Some(3))).unwrap();
    let cost: usize = (1..path.len())
        .map(|i| map_fixture.calculate_cost(path[i], path[i - 1]))
        .sum();
    assert_eq!(cost, 4);
    assert!(!path.contains(&(2, 2)));
}
