use wfc::cell::Cell;
use wfc::tile_map::{MapStatus, Position, TileMap, BEACH_TILE, LAND_TILE, LIQUID_TILE};
use wfc::tile_rules::{AdjacencyRule, Direction, TileRules, Validity};
use wfc::type_set::TypeSet;

fn names(list: &[&str]) -> Vec<String> {
    list.iter().map(|name| name.to_string()).collect()
}

fn at(x: i32, y: i32) -> Position {
    Position { x, y }
}

fn fixed(name: &str) -> Cell {
    Cell::Collapsed(name.to_string())
}

fn open(list: &[&str]) -> Cell {
    Cell::new(&names(list))
}

/// A table in which every type accepts the same types on all four sides.
fn uniform_rules(types: &[(&str, i32, &[&str])]) -> TileRules {
    let mut rules = TileRules::empty();
    for (name, weight, beside) in types {
        let beside = names(beside);
        rules.add_tile_type(name.to_string());
        rules.set_weight(name.to_string(), *weight);
        rules.set_indexes(name.to_string(), vec![0]);
        rules.set_adjacency(
            name.to_string(),
            AdjacencyRule::new(&beside, &beside, &beside, &beside),
        );
    }
    rules
}

/// `a` and `b` accept themselves and each other, `c` accepts itself only.
fn abc() -> TileRules {
    uniform_rules(&[("a", 1, &["a", "b"]), ("b", 2, &["a", "b"]), ("c", 4, &["c"])])
}

fn is_exactly(cell: Option<&Cell>, list: &[&str]) -> bool {
    match cell {
        Some(cell @ Cell::Superposition(_)) => {
            cell.count() == list.len() && list.iter().all(|name| cell.allows(name))
        }
        _ => false,
    }
}

fn is_fixed(cell: Option<&Cell>, name: &str) -> bool {
    matches!(cell, Some(Cell::Collapsed(found)) if found == name)
}

#[test]
fn a_new_map_has_no_cells() {
    let map = TileMap::new(4, 3, abc());
    assert_eq!(map.width, 4);
    assert_eq!(map.height, 3);
    assert!(!map.contradiction);
    assert!(map.cells().is_empty());
    assert!(map.cell_at(&at(0, 0)).is_none());
    assert_eq!(map.rules.tile_types, names(&["a", "b", "c"]));
}

#[test]
fn clear_opens_every_cell_to_every_type() {
    let mut map = TileMap::new(4, 3, abc());
    map.clear();
    assert_eq!(map.cells().len(), 12);
    for x in 0..4 {
        for y in 0..3 {
            assert!(is_exactly(map.cell_at(&at(x, y)), &["a", "b", "c"]));
        }
    }
    assert!(map.cell_at(&at(4, 0)).is_none());
    assert!(map.cell_at(&at(0, 3)).is_none());
    assert!(map.cell_at(&at(-1, 0)).is_none());
}

#[test]
fn clear_twice_is_clear_once() {
    let mut map = TileMap::new(3, 3, abc());
    map.clear();
    map.clear();
    assert_eq!(map.cells().len(), 9);
    for (_, cell) in map.cells() {
        assert!(is_exactly(Some(&cell), &["a", "b", "c"]));
    }
}

#[test]
fn clear_forgets_what_was_decided() {
    let mut map = TileMap::new(2, 2, abc());
    map.generate();
    map.set_cell(at(7, 7), fixed("a"));
    map.contradiction = true;
    map.clear();
    assert!(!map.contradiction);
    assert_eq!(map.cells().len(), 4);
    assert!(map.cell_at(&at(7, 7)).is_none());
    for (_, cell) in map.cells() {
        assert!(is_exactly(Some(&cell), &["a", "b", "c"]));
    }
    assert_eq!(map.rules.tile_types, names(&["a", "b", "c"]));
}

#[test]
fn clear_of_a_map_without_size_leaves_no_cells() {
    let mut map = TileMap::new(0, 5, abc());
    map.clear();
    assert!(map.cells().is_empty());
    let mut map = TileMap::new(3, -1, abc());
    map.generate();
    assert!(map.cells().is_empty());
}

#[test]
fn set_cell_replaces_one_cell() {
    let mut map = TileMap::new(2, 1, abc());
    map.clear();
    map.set_cell(at(1, 0), fixed("b"));
    assert!(is_fixed(map.cell_at(&at(1, 0)), "b"));
    assert!(is_exactly(map.cell_at(&at(0, 0)), &["a", "b", "c"]));
    assert_eq!(map.cells().len(), 2);
}

#[test]
fn cells_lists_every_cell_once() {
    let mut map = TileMap::new(3, 2, abc());
    map.clear();
    map.set_cell(at(2, 1), fixed("c"));
    let mut listed: Vec<(i32, i32, bool)> = map
        .cells()
        .iter()
        .map(|(position, cell)| (position.x, position.y, matches!(cell, Cell::Collapsed(_))))
        .collect();
    listed.sort();
    assert_eq!(
        listed,
        vec![
            (0, 0, false),
            (0, 1, false),
            (1, 0, false),
            (1, 1, false),
            (2, 0, false),
            (2, 1, true),
        ]
    );
}

#[test]
fn neighbour_in_each_direction() {
    let mut map = TileMap::new(3, 3, abc());
    map.clear();
    map.set_cell(at(1, 0), fixed("a"));
    let centre = at(1, 1);
    let (place, cell) = map.get_neighbour(&centre, &Direction::North).unwrap();
    assert_eq!(place, at(1, 0));
    assert!(is_fixed(Some(&cell), "a"));
    assert_eq!(map.get_neighbour(&centre, &Direction::East).unwrap().0, at(2, 1));
    assert_eq!(map.get_neighbour(&centre, &Direction::South).unwrap().0, at(1, 2));
    assert_eq!(map.get_neighbour(&centre, &Direction::West).unwrap().0, at(0, 1));
}

#[test]
fn no_neighbour_beyond_the_edge() {
    let mut map = TileMap::new(2, 2, abc());
    map.clear();
    assert!(map.get_neighbour(&at(0, 0), &Direction::North).is_none());
    assert!(map.get_neighbour(&at(0, 0), &Direction::West).is_none());
    assert!(map.get_neighbour(&at(1, 1), &Direction::East).is_none());
    assert!(map.get_neighbour(&at(1, 1), &Direction::South).is_none());
    map.set_cell(at(2, 1), fixed("a"));
    assert!(map.get_neighbour(&at(1, 1), &Direction::East).is_none());
    assert!(map.get_neighbour(&at(i32::MAX, 0), &Direction::East).is_none());
    assert!(map.get_neighbour(&at(0, i32::MIN), &Direction::North).is_none());
    assert!(map.get_neighbour(&at(i32::MIN, 0), &Direction::West).is_none());
    assert!(map.get_neighbour(&at(0, i32::MAX), &Direction::South).is_none());
}

#[test]
fn no_neighbour_where_no_cell_is() {
    let map = TileMap::new(3, 3, abc());
    assert!(map.get_neighbour(&at(1, 1), &Direction::North).is_none());
    assert!(map.get_all_neighbours(&at(1, 1)).is_empty());
}

#[test]
fn neighbours_come_north_east_south_west() {
    let mut map = TileMap::new(3, 3, abc());
    map.clear();
    let around: Vec<(Direction, Position)> = map
        .get_all_neighbours(&at(1, 1))
        .into_iter()
        .map(|(direction, place, _)| (direction, place))
        .collect();
    assert_eq!(
        around,
        vec![
            (Direction::North, at(1, 0)),
            (Direction::East, at(2, 1)),
            (Direction::South, at(1, 2)),
            (Direction::West, at(0, 1)),
        ]
    );
}

#[test]
fn a_corner_has_two_neighbours() {
    let mut map = TileMap::new(3, 3, abc());
    map.clear();
    let around: Vec<(Direction, Position)> = map
        .get_all_neighbours(&at(0, 0))
        .into_iter()
        .map(|(direction, place, _)| (direction, place))
        .collect();
    assert_eq!(around, vec![(Direction::East, at(1, 0)), (Direction::South, at(0, 1))]);
    let around: Vec<(Direction, Position)> = map
        .get_all_neighbours(&at(2, 2))
        .into_iter()
        .map(|(direction, place, _)| (direction, place))
        .collect();
    assert_eq!(around, vec![(Direction::North, at(2, 1)), (Direction::West, at(1, 2))]);
}

#[test]
fn a_decided_neighbour_accepts_or_forbids() {
    let map = TileMap::new(1, 1, abc());
    assert_eq!(map.valid_neighbour("a", &fixed("b"), &Direction::North), Validity::Valid);
    assert_eq!(map.valid_neighbour("a", &fixed("c"), &Direction::North), Validity::Impossible);
    assert_eq!(map.valid_neighbour("a", &fixed("nothing"), &Direction::East), Validity::Impossible);
}

#[test]
fn an_undecided_neighbour_confirms_or_withholds() {
    let map = TileMap::new(1, 1, abc());
    assert_eq!(map.valid_neighbour("a", &open(&["c", "b"]), &Direction::West), Validity::Valid);
    assert_eq!(map.valid_neighbour("a", &open(&["c"]), &Direction::West), Validity::Invalid);
    assert_eq!(map.valid_neighbour("a", &open(&[]), &Direction::South), Validity::Invalid);
}

#[test]
fn update_leaves_a_decided_cell() {
    let mut map = TileMap::new(2, 1, abc());
    map.clear();
    map.set_cell(at(0, 0), fixed("c"));
    map.set_cell(at(1, 0), fixed("a"));
    assert!(map.update_cell(at(0, 0)).is_none());
    assert!(is_fixed(map.cell_at(&at(0, 0)), "c"));
    assert!(!map.contradiction);
}

#[test]
fn update_where_no_cell_is_does_nothing() {
    let mut map = TileMap::new(2, 1, abc());
    assert!(map.update_cell(at(0, 0)).is_none());
    assert!(map.cells().is_empty());
}

#[test]
fn update_without_loss_reports_no_change() {
    let mut map = TileMap::new(3, 1, abc());
    map.clear();
    assert!(map.update_cell(at(1, 0)).is_none());
    assert!(is_exactly(map.cell_at(&at(1, 0)), &["a", "b", "c"]));
}

#[test]
fn update_narrows_to_what_the_decided_neighbour_accepts() {
    let mut map = TileMap::new(3, 1, abc());
    map.clear();
    map.set_cell(at(0, 0), fixed("a"));
    let changed = map.update_cell(at(1, 0));
    assert_eq!(changed, Some(vec![at(2, 0), at(0, 0)]));
    assert!(is_exactly(map.cell_at(&at(1, 0)), &["a", "b"]));
    assert!(!map.contradiction);
}

#[test]
fn update_collapses_to_a_single_survivor() {
    let mut map = TileMap::new(2, 2, abc());
    map.clear();
    map.set_cell(at(1, 0), fixed("c"));
    let changed = map.update_cell(at(0, 0));
    assert_eq!(changed, Some(vec![at(1, 0), at(0, 1)]));
    assert!(is_fixed(map.cell_at(&at(0, 0)), "c"));
    assert!(!map.contradiction);
}

#[test]
fn one_forbidding_neighbour_outweighs_the_others() {
    let mut map = TileMap::new(3, 1, abc());
    map.clear();
    // To the west `c` forbids `a` and `b`, to the east `a` forbids `c`.
    map.set_cell(at(0, 0), fixed("c"));
    map.set_cell(at(2, 0), fixed("a"));
    let changed = map.update_cell(at(1, 0));
    assert_eq!(changed, Some(vec![at(2, 0), at(0, 0)]));
    assert!(is_exactly(map.cell_at(&at(1, 0)), &[]));
    assert!(map.contradiction);
}

#[test]
fn a_candidate_that_no_neighbour_confirms_is_dropped() {
    let mut map = TileMap::new(2, 1, abc());
    map.clear();
    map.set_cell(at(1, 0), open(&["a", "b"]));
    // `c` is not forbidden by the undecided neighbour, but not confirmed.
    let changed = map.update_cell(at(0, 0));
    assert_eq!(changed, Some(vec![at(1, 0)]));
    assert!(is_exactly(map.cell_at(&at(0, 0)), &["a", "b"]));
}

#[test]
fn an_undecided_neighbour_does_not_forbid() {
    let mut map = TileMap::new(3, 1, abc());
    map.clear();
    map.set_cell(at(0, 0), open(&["a"]));
    map.set_cell(at(2, 0), fixed("c"));
    // The neighbour to the west confirms nothing of `c`, the one to the
    // east confirms it and forbids `a` and `b`.
    map.update_cell(at(1, 0));
    assert!(is_fixed(map.cell_at(&at(1, 0)), "c"));
    assert!(!map.contradiction);
}

#[test]
fn a_cell_without_neighbours_keeps_no_candidate() {
    let mut map = TileMap::new(1, 1, abc());
    map.clear();
    assert_eq!(map.update_cell(at(0, 0)), Some(vec![]));
    assert!(is_exactly(map.cell_at(&at(0, 0)), &[]));
    assert!(map.contradiction);
}

#[test]
fn a_single_candidate_that_stays_is_decided_silently() {
    let mut map = TileMap::new(2, 1, uniform_rules(&[("a", 1, &["a"])]));
    map.clear();
    assert!(map.update_cell(at(0, 0)).is_none());
    assert!(is_fixed(map.cell_at(&at(0, 0)), "a"));
}

#[test]
fn update_uses_the_side_that_faces_the_cell() {
    // `b` accepts `x` on its west side only.
    let mut rules = TileRules::empty();
    for name in ["b", "x"] {
        rules.add_tile_type(name.to_string());
        rules.set_weight(name.to_string(), 1);
        rules.set_indexes(name.to_string(), vec![0]);
    }
    let none = names(&[]);
    rules.set_adjacency("b".to_string(), AdjacencyRule::new(&none, &none, &none, &names(&["x"])));
    rules.set_adjacency("x".to_string(), AdjacencyRule::new(&none, &none, &none, &none));
    let mut west_of_b = TileMap::new(2, 1, rules);
    west_of_b.clear();
    west_of_b.set_cell(at(1, 0), fixed("b"));
    west_of_b.update_cell(at(0, 0));
    assert!(is_fixed(west_of_b.cell_at(&at(0, 0)), "x"));

    let mut east_of_b = TileMap::new(2, 1, TileRules::empty());
    std::mem::swap(&mut east_of_b.rules, &mut west_of_b.rules);
    east_of_b.clear();
    east_of_b.set_cell(at(0, 0), fixed("b"));
    east_of_b.update_cell(at(1, 0));
    assert!(is_exactly(east_of_b.cell_at(&at(1, 0)), &[]));
}

#[test]
fn entropy_of_every_type_is_the_largest_number() {
    let map = TileMap::new(1, 1, abc());
    assert_eq!(map.calculate_entropy(&TypeSet::from_names(&names(&["a", "b", "c"]))), i32::MAX);
}

#[test]
fn entropy_is_the_sum_of_the_weights() {
    let map = TileMap::new(1, 1, abc());
    assert_eq!(map.calculate_entropy(&TypeSet::from_names(&names(&["a", "c"]))), 5);
    assert_eq!(map.calculate_entropy(&TypeSet::from_names(&names(&["b"]))), 2);
    assert_eq!(map.calculate_entropy(&TypeSet::from_names(&names(&[]))), 0);
}

#[test]
fn lowest_entropy_is_found() {
    let mut map = TileMap::new(3, 1, abc());
    map.clear();
    map.set_cell(at(0, 0), open(&["b", "c"]));
    map.set_cell(at(1, 0), open(&["a", "b"]));
    assert_eq!(map.lowest_entropy_positions(), vec![at(1, 0)]);
    for _ in 0..20 {
        assert_eq!(map.find_lowest_entropy(), Some(at(1, 0)));
    }
}

#[test]
fn decided_cells_have_no_entropy() {
    let mut map = TileMap::new(2, 1, abc());
    map.clear();
    map.set_cell(at(0, 0), fixed("a"));
    assert_eq!(map.lowest_entropy_positions(), vec![at(1, 0)]);
    map.set_cell(at(1, 0), fixed("b"));
    assert!(map.lowest_entropy_positions().is_empty());
    assert_eq!(map.find_lowest_entropy(), None);
}

#[test]
fn ties_of_lowest_entropy_are_all_listed() {
    let mut map = TileMap::new(2, 2, abc());
    map.clear();
    map.set_cell(at(0, 0), open(&["a", "b"]));
    map.set_cell(at(1, 1), open(&["a", "b"]));
    map.set_cell(at(1, 0), open(&["a", "c"]));
    let mut lowest = map.lowest_entropy_positions();
    lowest.sort_by_key(|position| (position.x, position.y));
    assert_eq!(lowest, vec![at(0, 0), at(1, 1)]);
}

#[test]
fn ties_of_lowest_entropy_are_broken_evenly() {
    let mut map = TileMap::new(3, 1, abc());
    map.clear();
    map.set_cell(at(0, 0), open(&["a", "b"]));
    map.set_cell(at(2, 0), open(&["a", "b"]));
    let mut first = 0;
    let mut last = 0;
    for _ in 0..2000 {
        match map.find_lowest_entropy() {
            Some(position) if position == at(0, 0) => first += 1,
            Some(position) if position == at(2, 0) => last += 1,
            other => panic!("found {:?}", other),
        }
    }
    assert!(first > 800 && last > 800, "{} against {}", first, last);
}

#[test]
fn collapse_decides_a_cell_of_lowest_entropy() {
    for _ in 0..20 {
        let mut map = TileMap::new(3, 1, abc());
        map.clear();
        map.set_cell(at(1, 0), open(&["a", "b"]));
        assert_eq!(map.collapse_to_random_type(), Some(at(1, 0)));
        assert!(is_fixed(map.cell_at(&at(1, 0)), "a") || is_fixed(map.cell_at(&at(1, 0)), "b"));
        assert!(is_exactly(map.cell_at(&at(0, 0)), &["a", "b", "c"]));
        assert!(!map.contradiction);
    }
}

#[test]
fn collapse_of_a_cell_without_candidates_takes_the_default() {
    let mut map = TileMap::new(2, 1, abc());
    map.clear();
    map.set_cell(at(0, 0), open(&[]));
    assert_eq!(map.collapse_to_random_type(), Some(at(0, 0)));
    assert!(is_fixed(map.cell_at(&at(0, 0)), "grass"));
    assert!(map.contradiction);
}

#[test]
fn collapse_of_a_decided_map_does_nothing() {
    let mut map = TileMap::new(1, 1, abc());
    map.set_cell(at(0, 0), fixed("a"));
    assert_eq!(map.collapse_to_random_type(), None);
    assert!(is_fixed(map.cell_at(&at(0, 0)), "a"));
}

#[test]
fn a_step_on_a_decided_map_is_finished() {
    let mut map = TileMap::new(2, 2, abc());
    assert!(matches!(map.update_and_propagate(), MapStatus::Finished));
    map.generate();
    let before: Vec<String> = (0..4)
        .map(|i| format!("{:?}", map.cell_at(&at(i % 2, i / 2))))
        .collect();
    assert!(matches!(map.update_and_propagate(), MapStatus::Finished));
    let after: Vec<String> = (0..4)
        .map(|i| format!("{:?}", map.cell_at(&at(i % 2, i / 2))))
        .collect();
    assert_eq!(before, after);
}

#[test]
fn a_step_decides_a_cell_and_narrows_around_it() {
    for _ in 0..20 {
        let mut map = TileMap::new(3, 1, abc());
        map.clear();
        map.set_cell(at(1, 0), open(&["c"]));
        // The middle cell has the lowest entropy and becomes `c`, which
        // leaves `c` alone to both cells beside it.
        assert!(matches!(map.update_and_propagate(), MapStatus::Generating));
        for x in 0..3 {
            assert!(is_fixed(map.cell_at(&at(x, 0)), "c"));
        }
        assert!(matches!(map.update_and_propagate(), MapStatus::Finished));
    }
}

#[test]
fn generation_with_rules_that_clash_records_a_contradiction() {
    let rules = uniform_rules(&[("a", 1, &[]), ("b", 1, &[])]);
    assert!(rules.is_well_formed());
    let mut map = TileMap::new(2, 1, rules);
    map.generate();
    assert!(map.contradiction);
    let decided: Vec<Position> = map
        .cells()
        .into_iter()
        .filter(|(_, cell)| matches!(cell, Cell::Collapsed(_)))
        .map(|(position, _)| position)
        .collect();
    assert_eq!(decided.len(), 2);
    let defaults = (0..2).filter(|x| is_fixed(map.cell_at(&at(*x, 0)), "grass")).count();
    assert_eq!(defaults, 1);
}

#[test]
fn generate_again_starts_afresh() {
    let mut map = TileMap::new(4, 4, abc());
    map.generate();
    map.contradiction = true;
    map.generate();
    assert!(!map.contradiction);
    assert_eq!(map.cells().len(), 16);
    for (_, cell) in map.cells() {
        assert!(matches!(cell, Cell::Collapsed(_)));
    }
}

#[test]
fn the_designated_types_are_named() {
    assert_eq!(BEACH_TILE, "sand");
    assert_eq!(LAND_TILE, "grass");
    assert_eq!(LIQUID_TILE, "water");
}

fn sea_with_beach() -> TileMap {
    let mut map = TileMap::new(3, 3, TileRules::empty());
    for x in 0..3 {
        for y in 0..3 {
            map.set_cell(at(x, y), fixed("water"));
        }
    }
    map.set_cell(at(1, 1), fixed("sand"));
    map
}

#[test]
fn a_beach_in_the_sea_becomes_liquid() {
    let mut map = sea_with_beach();
    assert!(map.should_remove_sand(&at(1, 1)));
    map.remove_sand_islands();
    for x in 0..3 {
        for y in 0..3 {
            assert!(is_fixed(map.cell_at(&at(x, y)), "water"));
        }
    }
}

#[test]
fn a_beach_beside_land_stays() {
    for (x, y) in [(0, 0), (1, 0), (2, 0), (0, 1), (2, 1), (0, 2), (1, 2), (2, 2)] {
        let mut map = sea_with_beach();
        map.set_cell(at(x, y), fixed("grass"));
        assert!(!map.should_remove_sand(&at(1, 1)));
        map.remove_sand_islands();
        assert!(is_fixed(map.cell_at(&at(1, 1)), "sand"));
        assert!(is_fixed(map.cell_at(&at(x, y)), "grass"));
        assert_eq!(
            map.cells().iter().filter(|(_, cell)| is_fixed(Some(cell), "water")).count(),
            7
        );
    }
}

#[test]
fn land_two_cells_away_does_not_keep_a_beach() {
    let mut map = TileMap::new(4, 1, TileRules::empty());
    map.set_cell(at(0, 0), fixed("sand"));
    map.set_cell(at(1, 0), fixed("water"));
    map.set_cell(at(2, 0), fixed("grass"));
    map.set_cell(at(3, 0), fixed("sand"));
    map.remove_sand_islands();
    assert!(is_fixed(map.cell_at(&at(0, 0)), "water"));
    assert!(is_fixed(map.cell_at(&at(3, 0)), "sand"));
}

#[test]
fn beaches_do_not_keep_each_other() {
    let mut map = TileMap::new(2, 1, TileRules::empty());
    map.set_cell(at(0, 0), fixed("sand"));
    map.set_cell(at(1, 0), fixed("sand"));
    map.remove_sand_islands();
    assert!(is_fixed(map.cell_at(&at(0, 0)), "water"));
    assert!(is_fixed(map.cell_at(&at(1, 0)), "water"));
}

#[test]
fn undecided_land_does_not_keep_a_beach() {
    let mut map = sea_with_beach();
    map.set_cell(at(0, 0), open(&["grass"]));
    assert!(map.should_remove_sand(&at(1, 1)));
    map.remove_sand_islands();
    assert!(is_fixed(map.cell_at(&at(1, 1)), "water"));
    assert!(is_exactly(map.cell_at(&at(0, 0)), &["grass"]));
}

#[test]
fn a_beach_in_the_corner_looks_at_the_cells_there_are() {
    let mut map = TileMap::new(2, 2, TileRules::empty());
    map.set_cell(at(0, 0), fixed("sand"));
    map.set_cell(at(1, 0), fixed("water"));
    map.set_cell(at(0, 1), fixed("water"));
    map.set_cell(at(1, 1), fixed("grass"));
    assert!(!map.should_remove_sand(&at(0, 0)));
    map.set_cell(at(1, 1), fixed("trees"));
    assert!(map.should_remove_sand(&at(0, 0)));
    assert!(map.should_remove_sand(&at(i32::MAX, i32::MIN)));
}

#[test]
fn only_beaches_are_turned() {
    let mut map = TileMap::new(2, 1, TileRules::empty());
    map.set_cell(at(0, 0), fixed("trees"));
    map.set_cell(at(1, 0), open(&["sand"]));
    map.remove_sand_islands();
    assert!(is_fixed(map.cell_at(&at(0, 0)), "trees"));
    assert!(is_exactly(map.cell_at(&at(1, 0)), &["sand"]));
}

#[test]
fn cells_with_a_type_are_found() {
    let mut map = TileMap::new(2, 2, abc());
    map.clear();
    map.set_cell(at(0, 0), fixed("a"));
    map.set_cell(at(1, 0), fixed("b"));
    map.set_cell(at(0, 1), open(&["b", "c"]));
    let mut with_a = map.get_cells_with_type("a");
    with_a.sort_by_key(|position| (position.x, position.y));
    assert_eq!(with_a, vec![at(0, 0), at(1, 1)]);
    let mut with_b = map.get_cells_with_type("b");
    with_b.sort_by_key(|position| (position.x, position.y));
    assert_eq!(with_b, vec![at(0, 1), at(1, 0), at(1, 1)]);
    assert!(map.get_cells_with_type("z").is_empty());
}
