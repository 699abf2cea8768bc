use wfc::cell::Cell;
use wfc::tile_map::{MapStatus, Position, TileMap};
use wfc::tile_rules::{AdjacencyRule, Direction, TileRules};

fn names(list: &[&str]) -> Vec<String> {
    list.iter().map(|name| name.to_string()).collect()
}

/// A table in which every type accepts the same types on all four sides.
fn uniform_rules(types: &[(&str, i32, &[&str])]) -> TileRules {
    let mut rules = TileRules::empty();
    for (name, weight, beside) in types {
        let beside = names(beside);
        rules.add_tile_type(name.to_string());
        rules.set_weight(name.to_string(), *weight);
        rules.set_indexes(name.to_string(), vec![0]);
        rules.set_adjacency(
            name.to_string(),
            AdjacencyRule::new(&beside, &beside, &beside, &beside),
        );
    }
    rules
}

fn two_islands() -> TileRules {
    uniform_rules(&[("A", 1, &["A"]), ("B", 1, &["B"])])
}

fn landscape() -> TileRules {
    uniform_rules(&[
        ("grass", 5, &["grass", "trees", "sand", "stone"]),
        ("water", 1, &["water", "sand"]),
        ("sand", 1, &["sand", "water", "grass"]),
        ("trees", 3, &["trees", "grass"]),
        ("stone", 3, &["grass", "stone"]),
    ])
}

fn collapsed_type(map: &TileMap, x: i32, y: i32) -> String {
    match map.cell_at(&Position { x, y }) {
        Some(Cell::Collapsed(name)) => name.clone(),
        other => panic!("cell at ({}, {}) is not collapsed: {:?}", x, y, other),
    }
}

fn step(position: &Position, direction: &Direction) -> Position {
    match direction {
        Direction::North => Position { x: position.x, y: position.y - 1 },
        Direction::East => Position { x: position.x + 1, y: position.y },
        Direction::South => Position { x: position.x, y: position.y + 1 },
        Direction::West => Position { x: position.x - 1, y: position.y },
    }
}

#[test]
fn three_by_three_of_two_closed_types_is_uniform() {
    for _ in 0..50 {
        let rules = two_islands();
        assert!(rules.is_well_formed());
        let mut map = TileMap::new(3, 3, rules);
        map.generate();
        assert!(!map.contradiction);
        assert_eq!(map.cells().len(), 9);
        let first = collapsed_type(&map, 0, 0);
        assert!(first == "A" || first == "B");
        for x in 0..3 {
            for y in 0..3 {
                assert_eq!(collapsed_type(&map, x, y), first);
            }
        }
    }
}

#[test]
fn generate_decides_every_cell() {
    let rules = landscape();
    assert!(rules.is_well_formed());
    let mut map = TileMap::new(16, 12, rules);
    map.generate();
    assert_eq!(map.cells().len(), 16 * 12);
    for x in 0..16 {
        for y in 0..12 {
            collapsed_type(&map, x, y);
        }
    }
    assert!(matches!(map.update_and_propagate(), MapStatus::Finished));
}

#[test]
fn collapsed_neighbours_fit_unless_contradicted() {
    let directions = [Direction::North, Direction::East, Direction::South, Direction::West];
    let mut clean_runs = 0;
    for _ in 0..20 {
        let mut map = TileMap::new(8, 8, landscape());
        map.clear();
        map.collapse_all();
        if map.contradiction {
            continue;
        }
        clean_runs += 1;
        for (position, cell) in map.cells() {
            let here = match cell {
                Cell::Collapsed(name) => name,
                Cell::Superposition(_) => panic!("undecided cell"),
            };
            for direction in directions.iter() {
                let place = step(&position, direction);
                if let Some(Cell::Collapsed(there)) = map.cell_at(&place) {
                    assert!(map.rules.valid_neighbour(&here, there, direction));
                }
            }
        }
    }
    assert!(clean_runs > 0);
}

#[test]
fn generate_on_large_grid_terminates() {
    let mut map = TileMap::new(64, 64, landscape());
    map.generate();
    assert_eq!(map.cells().len(), 64 * 64);
}
