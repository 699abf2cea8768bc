use wfc::cell::Cell;
use wfc::tile_rules::{AdjacencyRule, Direction, TileRules, DEFAULT_TILE, WEIGHT_BIAS};
use wfc::type_set::TypeSet;

fn names(list: &[&str]) -> Vec<String> {
    list.iter().map(|name| name.to_string()).collect()
}

fn set(list: &[&str]) -> TypeSet {
    TypeSet::from_names(&names(list))
}

/// A table of the given types, each accepting every type on every side.
fn open_rules(types: &[(&str, i32)]) -> TileRules {
    let all: Vec<String> = types.iter().map(|(name, _)| name.to_string()).collect();
    let mut rules = TileRules::empty();
    for (name, weight) in types {
        rules.add_tile_type(name.to_string());
        rules.set_weight(name.to_string(), *weight);
        rules.set_indexes(name.to_string(), vec![0]);
        rules.set_adjacency(name.to_string(), AdjacencyRule::new(&all, &all, &all, &all));
    }
    rules
}

/// A table whose type `b` accepts a type of its own on each side.
fn compass_rules() -> TileRules {
    let mut rules = TileRules::empty();
    for name in ["b", "n", "e", "s", "w"] {
        rules.add_tile_type(name.to_string());
    }
    rules.set_adjacency(
        "b".to_string(),
        AdjacencyRule::new(&names(&["n"]), &names(&["e"]), &names(&["s"]), &names(&["w"])),
    );
    rules
}

#[test]
fn empty_rules_hold_nothing() {
    let rules = TileRules::empty();
    assert!(rules.tile_types.is_empty());
    assert!(rules.is_well_formed());
    assert_eq!(rules.weight_of("grass"), None);
    assert!(rules.indexes_of("grass").is_none());
    assert!(!rules.valid_neighbour("grass", "grass", &Direction::North));
}

#[test]
fn step_north_asks_the_north_set() {
    let rules = compass_rules();
    assert!(rules.valid_neighbour("n", "b", &Direction::North));
    assert!(!rules.valid_neighbour("e", "b", &Direction::North));
    assert!(!rules.valid_neighbour("s", "b", &Direction::North));
    assert!(!rules.valid_neighbour("w", "b", &Direction::North));
}

#[test]
fn step_east_asks_the_west_set() {
    let rules = compass_rules();
    assert!(rules.valid_neighbour("w", "b", &Direction::East));
    assert!(!rules.valid_neighbour("n", "b", &Direction::East));
    assert!(!rules.valid_neighbour("e", "b", &Direction::East));
    assert!(!rules.valid_neighbour("s", "b", &Direction::East));
}

#[test]
fn step_south_asks_the_south_set() {
    let rules = compass_rules();
    assert!(rules.valid_neighbour("s", "b", &Direction::South));
    assert!(!rules.valid_neighbour("n", "b", &Direction::South));
    assert!(!rules.valid_neighbour("e", "b", &Direction::South));
    assert!(!rules.valid_neighbour("w", "b", &Direction::South));
}

#[test]
fn step_west_asks_the_east_set() {
    let rules = compass_rules();
    assert!(rules.valid_neighbour("e", "b", &Direction::West));
    assert!(!rules.valid_neighbour("n", "b", &Direction::West));
    assert!(!rules.valid_neighbour("s", "b", &Direction::West));
    assert!(!rules.valid_neighbour("w", "b", &Direction::West));
}

#[test]
fn facing_picks_the_set_of_the_direction() {
    let rule = AdjacencyRule::new(&names(&["n"]), &names(&["e"]), &names(&["s"]), &names(&["w"]));
    assert!(rule.facing(&Direction::North).is_subset_of(&set(&["n"])));
    assert!(rule.facing(&Direction::East).is_subset_of(&set(&["w"])));
    assert!(rule.facing(&Direction::South).is_subset_of(&set(&["s"])));
    assert!(rule.facing(&Direction::West).is_subset_of(&set(&["e"])));
    assert!(set(&["n"]).is_subset_of(rule.facing(&Direction::North)));
    assert!(set(&["w"]).is_subset_of(rule.facing(&Direction::East)));
}

#[test]
fn a_type_without_a_rule_accepts_nothing() {
    let rules = compass_rules();
    assert!(!rules.valid_neighbour("b", "n", &Direction::North));
    assert!(!rules.valid_neighbour("b", "unknown", &Direction::South));
}

#[test]
fn rules_need_not_be_symmetric() {
    let mut rules = TileRules::empty();
    rules.add_tile_type("a".to_string());
    rules.add_tile_type("b".to_string());
    let none = names(&[]);
    rules.set_adjacency("a".to_string(), AdjacencyRule::new(&names(&["b"]), &none, &none, &none));
    rules.set_adjacency("b".to_string(), AdjacencyRule::new(&none, &none, &none, &none));
    assert!(rules.valid_neighbour("b", "a", &Direction::North));
    assert!(!rules.valid_neighbour("a", "b", &Direction::South));
    assert!(!rules.valid_neighbour("a", "b", &Direction::North));
}

#[test]
fn a_later_rule_replaces_an_earlier_one() {
    let mut rules = compass_rules();
    let all = names(&["x"]);
    rules.set_adjacency("b".to_string(), AdjacencyRule::new(&all, &all, &all, &all));
    assert!(rules.valid_neighbour("x", "b", &Direction::North));
    assert!(!rules.valid_neighbour("n", "b", &Direction::North));
    rules.set_weight("b".to_string(), 4);
    rules.set_weight("b".to_string(), 9);
    assert_eq!(rules.get_weight_of_type("b"), 9);
}

#[test]
fn weight_of_a_known_type() {
    let rules = open_rules(&[("a", 2), ("b", 7)]);
    assert_eq!(rules.get_weight_of_type("a"), 2);
    assert_eq!(rules.get_weight_of_type("b"), 7);
    assert_eq!(rules.weight_of("b"), Some(7));
}

#[test]
fn weight_of_an_unknown_type_is_flagged() {
    let rules = open_rules(&[("a", 2)]);
    assert_eq!(rules.weight_of("z"), None);
    assert_eq!(rules.get_weight_of_type("z"), 0);
}

#[test]
fn bias_and_default_are_as_documented() {
    assert_eq!(WEIGHT_BIAS, 0);
    assert_eq!(DEFAULT_TILE, "grass");
}

#[test]
fn tickets_follow_the_weights() {
    let rules = open_rules(&[("a", 2), ("b", 0), ("c", 3)]);
    let all = set(&["a", "b", "c"]);
    assert_eq!(rules.ticket_count(&all), 5);
    assert_eq!(rules.draw(&all, 0), "a");
    assert_eq!(rules.draw(&all, 1), "a");
    assert_eq!(rules.draw(&all, 2), "c");
    assert_eq!(rules.draw(&all, 3), "c");
    assert_eq!(rules.draw(&all, 4), "c");
}

#[test]
fn tickets_go_to_the_types_of_the_set_only() {
    let rules = open_rules(&[("a", 2), ("b", 4), ("c", 3)]);
    let some = set(&["c", "a"]);
    assert_eq!(rules.ticket_count(&some), 5);
    assert_eq!(rules.draw(&some, 1), "a");
    assert_eq!(rules.draw(&some, 2), "c");
    assert_eq!(rules.ticket_count(&set(&["b"])), 4);
    assert_eq!(rules.draw(&set(&["b"]), 3), "b");
    assert_eq!(rules.ticket_count(&set(&[])), 0);
    assert_eq!(rules.ticket_count(&set(&["unknown"])), 0);
}

#[test]
fn random_tile_comes_from_the_set() {
    let rules = open_rules(&[("a", 2), ("b", 0), ("c", 3), ("d", 5)]);
    let some = set(&["a", "b", "c"]);
    let mut seen_a = 0;
    let mut seen_c = 0;
    for _ in 0..2000 {
        let tile = rules.random_tile_from_set(&some);
        match tile.as_str() {
            "a" => seen_a += 1,
            "c" => seen_c += 1,
            other => panic!("drew {}", other),
        }
    }
    // Two tickets against three: about 800 against 1200 draws.
    assert!(seen_a > 600 && seen_a < 1000, "a was drawn {} times", seen_a);
    assert!(seen_c > 1000 && seen_c < 1400, "c was drawn {} times", seen_c);
}

#[test]
fn random_tile_of_a_single_candidate() {
    let rules = open_rules(&[("a", 1), ("b", 1)]);
    for _ in 0..20 {
        assert_eq!(rules.random_tile_from_set(&set(&["b"])), "b");
    }
}

#[test]
fn random_tile_falls_back_to_the_default() {
    let rules = open_rules(&[("a", 0), ("b", 0)]);
    assert_eq!(rules.random_tile_from_set(&set(&["a", "b"])), DEFAULT_TILE);
    let rules = open_rules(&[("a", 3)]);
    assert_eq!(rules.random_tile_from_set(&set(&[])), "grass");
}

#[test]
fn tile_index_is_one_of_the_list() {
    let mut rules = open_rules(&[("a", 1), ("b", 1)]);
    rules.set_indexes("a".to_string(), vec![7]);
    rules.set_indexes("b".to_string(), vec![3, 4, 5]);
    assert_eq!(rules.indexes_of("b"), Some(&vec![3, 4, 5]));
    let mut seen = [false; 3];
    for _ in 0..200 {
        assert_eq!(rules.get_tile_index("a"), 7);
        let index = rules.get_tile_index("b");
        assert!((3..=5).contains(&index));
        seen[(index - 3) as usize] = true;
    }
    assert_eq!(seen, [true, true, true]);
}

#[test]
fn a_complete_table_is_well_formed() {
    assert!(open_rules(&[("a", 0), ("b", 5), ("c", i32::MAX - 5)]).is_well_formed());
}

#[test]
fn a_type_listed_twice_is_not_well_formed() {
    let mut rules = open_rules(&[("a", 1), ("b", 1)]);
    rules.add_tile_type("a".to_string());
    assert!(!rules.is_well_formed());
}

#[test]
fn a_type_without_weight_is_not_well_formed() {
    let mut rules = open_rules(&[("a", 1)]);
    rules.add_tile_type("b".to_string());
    let all = names(&["a", "b"]);
    rules.set_adjacency("b".to_string(), AdjacencyRule::new(&all, &all, &all, &all));
    rules.set_indexes("b".to_string(), vec![1]);
    assert!(!rules.is_well_formed());
    rules.set_weight("b".to_string(), 1);
    assert!(rules.is_well_formed());
}

#[test]
fn a_negative_weight_is_not_well_formed() {
    assert!(!open_rules(&[("a", 1), ("b", -1)]).is_well_formed());
}

#[test]
fn weights_beyond_i32_are_not_well_formed() {
    assert!(!open_rules(&[("a", 1), ("b", i32::MAX)]).is_well_formed());
    assert!(open_rules(&[("a", 0), ("b", i32::MAX)]).is_well_formed());
}

#[test]
fn a_type_without_adjacency_is_not_well_formed() {
    let mut rules = open_rules(&[("a", 1)]);
    rules.add_tile_type("b".to_string());
    rules.set_weight("b".to_string(), 1);
    rules.set_indexes("b".to_string(), vec![1]);
    assert!(!rules.is_well_formed());
}

#[test]
fn an_unknown_neighbour_is_not_well_formed() {
    let all = names(&["a"]);
    for side in 0..4 {
        let mut sides = vec![all.clone(), all.clone(), all.clone(), all.clone()];
        sides[side] = names(&["a", "z"]);
        let mut rules = open_rules(&[("a", 1)]);
        rules.set_adjacency(
            "a".to_string(),
            AdjacencyRule::new(&sides[0], &sides[1], &sides[2], &sides[3]),
        );
        assert!(!rules.is_well_formed());
    }
}

#[test]
fn texture_indexes_are_not_needed_to_be_well_formed() {
    let mut rules = TileRules::empty();
    rules.add_tile_type("a".to_string());
    rules.set_weight("a".to_string(), 1);
    let all = names(&["a"]);
    rules.set_adjacency("a".to_string(), AdjacencyRule::new(&all, &all, &all, &all));
    assert!(rules.is_well_formed());
    assert!(rules.indexes_of("a").is_none());
    rules.set_indexes("a".to_string(), vec![]);
    assert!(rules.is_well_formed());
    assert_eq!(rules.indexes_of("a"), Some(&vec![]));
}

#[test]
fn a_set_holds_each_name_once() {
    let cell = Cell::new(&names(&["a", "b", "a"]));
    assert_eq!(cell.count(), 2);
    assert!(cell.allows("a"));
    assert!(cell.allows("b"));
    assert!(!cell.allows("c"));
}

#[test]
fn subsets_are_told_apart() {
    assert!(set(&[]).is_subset_of(&set(&[])));
    assert!(set(&[]).is_subset_of(&set(&["a"])));
    assert!(set(&["a"]).is_subset_of(&set(&["b", "a"])));
    assert!(!set(&["a", "c"]).is_subset_of(&set(&["b", "a"])));
    assert!(!set(&["a"]).is_subset_of(&set(&[])));
}

#[test]
fn a_collapsed_cell_allows_its_type_only() {
    let cell = Cell::Collapsed("sand".to_string());
    assert_eq!(cell.count(), 1);
    assert!(cell.allows("sand"));
    assert!(!cell.allows("water"));
}

#[test]
fn a_cloned_cell_holds_the_same() {
    let cell = Cell::new(&names(&["a", "b"]));
    let copy = cell.clone();
    assert_eq!(copy.count(), 2);
    assert!(copy.allows("a") && copy.allows("b") && !copy.allows("c"));
    let fixed = Cell::Collapsed("a".to_string()).clone();
    assert!(matches!(fixed, Cell::Collapsed(name) if name == "a"));
}
