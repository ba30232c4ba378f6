use itertools::Itertools;
use lem_in::map::{Farm, Room};
use lem_in::solver::{repeated_bfs, Path};
use std::collections::HashSet;
use std::iter::zip;

type Solver = fn(&Farm) -> Vec<Path>;

fn map_subject_1() -> Farm {
    Farm {
        ants: 3,
        rooms: vec![
            Room::new("0", 1, 0),
            Room::new("1", 5, 0),
            Room::new("2", 9, 0),
            Room::new("3", 13, 0),
        ],
        links: vec![vec![2], vec![3], vec![0, 3], vec![1, 2]],
        start: 0,
        end: 1,
    }
}

fn map_subject_2(ants: u32) -> Farm {
    Farm {
        ants,
        rooms: vec![
            Room::new("1", 0, 2),
            Room::new("0", 2, 0),
            Room::new("4", 2, 6),
            Room::new("2", 4, 2),
            Room::new("3", 4, 4),
        ],
        links: vec![vec![1, 2], vec![0, 3], vec![0, 4], vec![1, 4], vec![2, 3]],
        start: 1,
        end: 2,
    }
}

fn map_subject_3() -> Farm {
    Farm {
        ants: 4,
        rooms: vec![
            Room::new("3", 2, 2),
            Room::new("start", 4, 0),
            Room::new("end", 4, 6),
            Room::new("4", 0, 4),
            Room::new("1", 4, 2),
            Room::new("2", 4, 4),
            Room::new("5", 8, 2),
            Room::new("6", 8, 4),
        ],
        links: vec![
            vec![1, 3],
            vec![0, 4],
            vec![5, 7],
            vec![0, 5],
            vec![1, 5, 6],
            vec![2, 3, 4],
            vec![4, 7],
            vec![2, 6],
        ],
        start: 1,
        end: 2,
    }
}

fn valid_next_rooms(next_rooms: &[usize], map: &Farm) -> bool {
    let mut seen = HashSet::new();

    for next_room in next_rooms {
        if seen.contains(next_room) {
            return false;
        }
        if *next_room != map.end && *next_room != map.start {
            seen.insert(next_room);
        }
    }

    true
}

fn dfs(map: &Farm, paths: &mut [Path], depth: u32) -> bool {
    if depth == 0 {
        return paths.iter().all(|path| path[path.len() - 1] == map.end);
    }

    let (remaining_ants, remaining_rooms): (Vec<_>, Vec<_>) = paths
        .iter()
        .enumerate()
        .map(|(ant, path)| (ant, path[path.len() - 1]))
        .filter(|(_, room)| *room != map.end)
        .unzip();

    for next_rooms in remaining_rooms
        .iter()
        .map(|&room| {
            let mut next_rooms = map.links[room].clone();
            next_rooms.push(room);
            next_rooms
        })
        .multi_cartesian_product()
        .filter(|next_rooms| valid_next_rooms(next_rooms, map))
    {
        for (&ant, next_room) in zip(&remaining_ants, next_rooms) {
            paths[ant].push(next_room);
        }

        if dfs(map, paths, depth - 1) {
            return true;
        }

        for &ant in &remaining_ants {
            paths[ant].pop();
        }
    }

    false
}

/// Exponential but provably optimal solver to compare against faster solvers.
fn iterative_deepening_search(map: &Farm) -> Vec<Path> {
    for max_depth in 1.. {
        let mut paths = vec![vec![map.start]; map.ants as usize];
        if dfs(map, &mut paths, max_depth) {
            return paths;
        }
    }

    unreachable!()
}

fn solves(map: &Farm, paths: &[Path]) -> bool {
    let max_path = paths.iter().map(Vec::len).max().unwrap();
    let mut ants = vec![map.start; map.ants as usize];
    for time in 1..max_path {
        let mut seen = HashSet::new();
        for (ant, path) in paths.iter().enumerate() {
            let Some(&room) = path.get(time) else {
                continue;
            };
            if seen.contains(&room) {
                return false;
            }
            if room != ants[ant] && !map.links[ants[ant]].contains(&room) {
                return false;
            }
            if room != map.end && room != map.start {
                seen.insert(room);
            }
            ants[ant] = room;
        }
    }
    true
}

/// The routing of the library; every subject map is routed well within the turn limit.
fn routed_ants(map: &Farm) -> Vec<Path> {
    repeated_bfs(map).unwrap()
}

fn check_map_with_solver(solver: Solver, map: &Farm, expected_time: usize) {
    let paths = solver(map);
    assert_eq!(paths.len(), map.ants as usize);
    assert!(solves(map, &paths));
    let max_path = paths.iter().map(Vec::len).max().unwrap();
    assert_eq!(max_path - 1, expected_time);
}

#[test]
fn subject_1() {
    check_map_with_solver(routed_ants, &map_subject_1(), 5);
    check_map_with_solver(iterative_deepening_search, &map_subject_1(), 5);
}

#[test]
fn subject_2_2() {
    check_map_with_solver(routed_ants, &map_subject_2(2), 3);
    check_map_with_solver(iterative_deepening_search, &map_subject_2(2), 3);
}

#[test]
fn subject_2_3() {
    check_map_with_solver(routed_ants, &map_subject_2(3), 3);
    check_map_with_solver(iterative_deepening_search, &map_subject_2(3), 3);
}

#[test]
fn subject_3() {
    check_map_with_solver(routed_ants, &map_subject_3(), 5);
    check_map_with_solver(iterative_deepening_search, &map_subject_3(), 5);
}
