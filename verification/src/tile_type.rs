//! The tile types of the built-in rule set, and that rule set.

use crate::random::random_below;
use crate::tile_rules::{
    opposite, AdjacencyRule, AdjacencyView, Direction, RulesView, TileRules,
};
use crate::type_set::names_of;
use vstd::prelude::*;

verus! {

/// The texture files of a tile type, in the order in which they are numbered.
pub open spec fn textures_of(tile_type: TileType) -> Seq<Seq<char>> {
    match tile_type {
        TileType::Grass => seq!["tiles/Grass.png"@],
        TileType::Water => seq!["tiles/Water.png"@],
        TileType::Sand => seq!["tiles/Sand.png"@],
        TileType::Trees => seq!["tiles/Trees01.png"@, "tiles/Trees02.png"@],
        TileType::Stone => seq!["tiles/Rock.png"@],
    }
}

/// A tile type of the built-in rule set.
#[derive(Clone, Copy, PartialEq, Eq, Hash, Debug, Structural)]
pub enum TileType {
    Grass,
    Water,
    Sand,
    Trees,
    Stone,
}

impl TileType {
    /// Every tile type, once.
    pub fn all_types() -> (types: Vec<TileType>)
        ensures
            types@ == seq![
                TileType::Grass,
                TileType::Water,
                TileType::Sand,
                TileType::Trees,
                TileType::Stone,
            ],
    {
        let mut types: Vec<TileType> = Vec::new();
        types.push(TileType::Grass);
        types.push(TileType::Water);
        types.push(TileType::Sand);
        types.push(TileType::Trees);
        types.push(TileType::Stone);
        types
    }

    /// The texture file of `tile_type` with the number `pick`.
    pub fn texture_at(tile_type: &TileType, pick: usize) -> (path: String)
        requires
            pick < textures_of(*tile_type).len(),
        ensures
            path@ == textures_of(*tile_type)[pick as int],
    {
        match tile_type {
            TileType::Grass => "tiles/Grass.png".to_owned(),
            TileType::Water => "tiles/Water.png".to_owned(),
            TileType::Sand => "tiles/Sand.png".to_owned(),
            TileType::Trees => if pick == 0 {
                "tiles/Trees01.png".to_owned()
            } else {
                "tiles/Trees02.png".to_owned()
            },
            TileType::Stone => "tiles/Rock.png".to_owned(),
        }
    }

    /// A texture file of `tile_type`; where the type has several, one of
    /// them is chosen at random.
    pub fn get_texture(tile_type: &TileType) -> (path: String)
        ensures
            textures_of(*tile_type).contains(path@),
    {
        let pick = match tile_type {
            TileType::Trees => random_below(2),
            _ => 0,
        };
        let path = Self::texture_at(tile_type, pick);
        assert(textures_of(*tile_type)[pick as int] == path@);
        path
    }

    /// The name of the type in a rule table.
    pub open spec fn name_of(self) -> Seq<char> {
        match self {
            TileType::Grass => "grass"@,
            TileType::Water => "water"@,
            TileType::Sand => "sand"@,
            TileType::Trees => "trees"@,
            TileType::Stone => "stone"@,
        }
    }

    /// The weight of the type in the built-in rule set.
    pub open spec fn weight_of(self) -> i32 {
        match self {
            TileType::Grass => 5,
            TileType::Water => 1,
            TileType::Sand => 1,
            TileType::Trees => 3,
            TileType::Stone => 3,
        }
    }

    /// The types that the built-in rule set accepts beside the type, on
    /// whichever side.
    pub open spec fn beside(self) -> Seq<TileType> {
        match self {
            TileType::Grass => seq![
                TileType::Grass,
                TileType::Trees,
                TileType::Sand,
                TileType::Stone,
            ],
            TileType::Water => seq![TileType::Water, TileType::Sand],
            TileType::Sand => seq![TileType::Sand, TileType::Water, TileType::Grass],
            TileType::Trees => seq![TileType::Trees, TileType::Grass],
            TileType::Stone => seq![TileType::Grass],
        }
    }

    /// The adjacency rule of the type in the built-in rule set.
    pub open spec fn rule_of(self) -> AdjacencyView {
        let names = self.beside().map_values(|other: TileType| other.name_of()).to_set();
        AdjacencyView { north: names, east: names, south: names, west: names }
    }

    /// The rule table `rules` with the type added to it as the built-in
    /// rule set describes it.
    pub open spec fn described_in(self, rules: RulesView) -> RulesView {
        RulesView {
            tile_types: rules.tile_types.push(self.name_of()),
            adjacency: rules.adjacency.insert(self.name_of(), self.rule_of()),
            weights: rules.weights.insert(self.name_of(), self.weight_of()),
            indexes: rules.indexes,
        }
    }

    /// The built-in rule set as plain values.
    pub open spec fn default_view() -> RulesView {
        let none = RulesView {
            tile_types: Seq::empty(),
            adjacency: Map::empty(),
            weights: Map::empty(),
            indexes: Map::empty(),
        };
        TileType::Stone.described_in(
            TileType::Trees.described_in(
                TileType::Sand.described_in(
                    TileType::Water.described_in(TileType::Grass.described_in(none)),
                ),
            ),
        )
    }

    /// No two types have the same name.
    pub proof fn lemma_names_differ(self, other: TileType)
        ensures
            self.name_of() == other.name_of() ==> self == other,
    {
        reveal_strlit("grass");
        reveal_strlit("water");
        reveal_strlit("sand");
        reveal_strlit("trees");
        reveal_strlit("stone");
        if self != other && self.name_of() == other.name_of() {
            assert(self.name_of().len() == other.name_of().len());
            assert(self.name_of()[0] == other.name_of()[0]);
        }
    }

    /// Whether `name` is the name of a type that the built-in rule set
    /// accepts beside the type.
    pub open spec fn accepts(self, name: Seq<char>) -> bool {
        exists|index: int|
            0 <= index < self.beside().len() && (#[trigger] self.beside()[index]).name_of()
                == name
    }

    /// The built-in rule set is well formed and treats both cells of a pair
    /// alike.
    pub proof fn lemma_default_rules()
        ensures
            Self::default_view().well_formed(),
            Self::default_view().symmetric(),
    {
        let rules = Self::default_view();
        let all = seq![
            TileType::Grass,
            TileType::Water,
            TileType::Sand,
            TileType::Trees,
            TileType::Stone,
        ];
        assert forall|one: TileType, other: TileType|
            one.name_of() == other.name_of() implies one == other by {
            one.lemma_names_differ(other);
        }
        assert(rules.tile_types =~= all.map_values(|one: TileType| one.name_of()));
        assert forall|one: TileType| #[trigger]
            rules.tile_types.to_set().contains(one.name_of()) && rules.adjacency.contains_key(
                one.name_of(),
            ) && rules.adjacency[one.name_of()] == one.rule_of() && rules.weights.contains_key(
                one.name_of(),
            ) && rules.weights[one.name_of()] == one.weight_of() by {
            let index = match one {
                TileType::Grass => 0int,
                TileType::Water => 1,
                TileType::Sand => 2,
                TileType::Trees => 3,
                TileType::Stone => 4,
            };
            assert(rules.tile_types[index] == one.name_of());
        }
        assert forall|name: Seq<char>| rules.adjacency.contains_key(name) implies exists|
            one: TileType,
        |
            one.name_of() == name by {
            if name == TileType::Grass.name_of() {
            } else if name == TileType::Water.name_of() {
            } else if name == TileType::Sand.name_of() {
            } else if name == TileType::Trees.name_of() {
            } else {
                assert(name == TileType::Stone.name_of());
            }
        }
        assert forall|one: TileType, name: Seq<char>|
            one.rule_of().north.contains(name) == #[trigger] one.accepts(name) by {
            let names = one.beside().map_values(|other: TileType| other.name_of());
            if names.to_set().contains(name) {
                let index = choose|index: int| 0 <= index < names.len() && names[index] == name;
                assert(one.beside()[index].name_of() == name);
            }
            if one.accepts(name) {
                let index = choose|index: int|
                    0 <= index < one.beside().len() && (#[trigger] one.beside()[index]).name_of()
                        == name;
                assert(names[index] == name);
            }
        }
        // Well formed.
        assert forall|i: int, j: int|
            0 <= i < rules.tile_types.len() && 0 <= j < rules.tile_types.len() && i
                != j implies rules.tile_types[i] != rules.tile_types[j] by {
            assert(all[i] != all[j]);
        }
        assert forall|index: int| 0 <= index < rules.tile_types.len() implies #[trigger]
            rules.describes(index) by {
            let one = all[index];
            assert(rules.tile_types[index] == one.name_of());
            assert forall|name: Seq<char>| one.rule_of().north.contains(name)
                implies rules.tile_types.to_set().contains(name) by {
                assert(one.accepts(name));
                let k = choose|k: int|
                    0 <= k < one.beside().len() && (#[trigger] one.beside()[k]).name_of() == name;
                assert(rules.tile_types.to_set().contains(one.beside()[k].name_of()));
            }
        }
        assert(rules.weight_sum(Set::full(), 5) == 13) by {
            reveal_with_fuel(RulesView::weight_sum, 6);
            assert(rules.tile_types[0] == TileType::Grass.name_of());
            assert(rules.tile_types[1] == TileType::Water.name_of());
            assert(rules.tile_types[2] == TileType::Sand.name_of());
            assert(rules.tile_types[3] == TileType::Trees.name_of());
            assert(rules.tile_types[4] == TileType::Stone.name_of());
        }
        // Alike for both cells of a pair.
        assert forall|a: Seq<char>, b: Seq<char>, direction: Direction|
            #[trigger] rules.permits(a, b, direction) == rules.permits(
                b,
                a,
                opposite(direction),
            ) by {
            assert forall|x: Seq<char>, y: Seq<char>, d: Direction|
                rules.permits(x, y, d) implies rules.permits(
                y,
                x,
                opposite(d),
            ) by {
                let one = choose|one: TileType| one.name_of() == y;
                assert(one.rule_of().facing(d) == one.rule_of().north);
                assert(one.accepts(x));
                let k = choose|k: int|
                    0 <= k < one.beside().len() && (#[trigger] one.beside()[k]).name_of() == x;
                let other = one.beside()[k];
                assert(other.rule_of().facing(opposite(d))
                    == other.rule_of().north);
                // The built-in rule set lists every pair from both sides.
                let back = match (other, one) {
                    (TileType::Grass, TileType::Grass) => 0int,
                    (TileType::Grass, TileType::Trees) => 1,
                    (TileType::Grass, TileType::Sand) => 2,
                    (TileType::Grass, TileType::Stone) => 3,
                    (TileType::Water, TileType::Water) => 0,
                    (TileType::Water, TileType::Sand) => 1,
                    (TileType::Sand, TileType::Sand) => 0,
                    (TileType::Sand, TileType::Water) => 1,
                    (TileType::Sand, TileType::Grass) => 2,
                    (TileType::Trees, TileType::Trees) => 0,
                    (TileType::Trees, TileType::Grass) => 1,
                    _ => 0,
                };
                assert(other.beside()[back] == one);
                assert(other.accepts(y));
            }
            if rules.permits(b, a, opposite(direction)) {
                assert(opposite(opposite(direction))
                    == direction);
            }
        }
    }

    /// The name of the type in a rule table.
    pub fn name(&self) -> (name: String)
        ensures
            name@ == self.name_of(),
    {
        match self {
            TileType::Grass => "grass".to_owned(),
            TileType::Water => "water".to_owned(),
            TileType::Sand => "sand".to_owned(),
            TileType::Trees => "trees".to_owned(),
            TileType::Stone => "stone".to_owned(),
        }
    }

    /// The names of the types that the built-in rule set accepts beside the
    /// type.
    fn names_beside(&self) -> (names: Vec<String>)
        ensures
            names_of(names@) == self.beside().map_values(|other: TileType| other.name_of()),
    {
        let names = match self {
            TileType::Grass => vec![
                TileType::Grass.name(),
                TileType::Trees.name(),
                TileType::Sand.name(),
                TileType::Stone.name(),
            ],
            TileType::Water => vec![TileType::Water.name(), TileType::Sand.name()],
            TileType::Sand => vec![
                TileType::Sand.name(),
                TileType::Water.name(),
                TileType::Grass.name(),
            ],
            TileType::Trees => vec![TileType::Trees.name(), TileType::Grass.name()],
            TileType::Stone => vec![TileType::Grass.name()],
        };
        assert(names_of(names@) =~= self.beside().map_values(|other: TileType| other.name_of()));
        names
    }

    /// Adds the type to `rules` as the built-in rule set describes it.
    fn describe(&self, weight: i32, rules: &mut TileRules)
        requires
            weight == self.weight_of(),
        ensures
            final(rules)@ == self.described_in(old(rules)@),
    {
        let beside = self.names_beside();
        rules.add_tile_type(self.name());
        rules.set_adjacency(self.name(), AdjacencyRule::new(&beside, &beside, &beside, &beside));
        rules.set_weight(self.name(), weight);
    }

    /// The built-in rule set: grass lies beside everything but water, sand
    /// between grass and water, trees and stone beside grass.
    pub fn default_rules() -> (rules: TileRules)
        ensures
            rules@ == Self::default_view(),
            rules@.well_formed(),
            rules@.symmetric(),
    {
        proof {
            Self::lemma_default_rules();
        }
        let mut rules = TileRules::empty();
        TileType::Grass.describe(5, &mut rules);
        TileType::Water.describe(1, &mut rules);
        TileType::Sand.describe(1, &mut rules);
        TileType::Trees.describe(3, &mut rules);
        TileType::Stone.describe(3, &mut rules);
        rules
    }
}

} // verus!
