//! The rule table: which tile types exist, how likely each is, and which
//! types may lie side by side.

use crate::cell::CellView;
use crate::random::random_below;
use crate::type_set::{names_of, TypeSet};
use bevy::utils::HashMap;
use vstd::prelude::*;

verus! {

/// A step from a cell to one of the four cells around it.
///
/// `North` leads to the cell with `y - 1`, `East` to `x + 1`, `South` to
/// `y + 1` and `West` to `x - 1`.
#[derive(Clone, Copy, Debug, PartialEq, Eq, Structural)]
pub enum Direction {
    North,
    East,
    South,
    West,
}

/// What a neighbouring cell says of a candidate type.
#[derive(Clone, Copy, Debug, PartialEq, Eq, Structural)]
pub enum Validity {
    /// The neighbour holds a type that the candidate may lie beside.
    Valid,
    /// The neighbour is undecided and none of its types accepts the
    /// candidate.
    Invalid,
    /// The neighbour is decided and its type does not accept the candidate.
    Impossible,
}

/// For one tile type, the types that may lie on each of its sides.
///
/// The sides are named as the map is drawn, with `x` growing to the east and
/// `y` growing to the north.
#[derive(Debug)]
pub struct AdjacencyRule {
    pub north: TypeSet,
    pub east: TypeSet,
    pub south: TypeSet,
    pub west: TypeSet,
}

/// An `AdjacencyRule` with its four sets as sets of names.
pub struct AdjacencyView {
    pub north: Set<Seq<char>>,
    pub east: Set<Seq<char>>,
    pub south: Set<Seq<char>>,
    pub west: Set<Seq<char>>,
}

impl View for AdjacencyRule {
    type V = AdjacencyView;

    open spec fn view(&self) -> AdjacencyView {
        AdjacencyView {
            north: self.north@,
            east: self.east@,
            south: self.south@,
            west: self.west@,
        }
    }
}

impl AdjacencyView {
    /// The set that decides whether a type may lie where a cell of this
    /// rule's type is reached by a step in `direction`.
    ///
    /// Seen from the cell that is reached, the cell that the step started
    /// from lies on the opposite side along `x`, so a step to the east asks
    /// the west set. Along `y` the sides are named with `y` growing to the
    /// north while `North` steps to `y - 1`, so a step to the north asks the
    /// north set.
    pub open spec fn facing(self, direction: Direction) -> Set<Seq<char>> {
        match direction {
            Direction::North => self.north,
            Direction::East => self.west,
            Direction::South => self.south,
            Direction::West => self.east,
        }
    }
}

impl Clone for AdjacencyRule {
    fn clone(&self) -> (rule: AdjacencyRule)
        ensures
            rule@ == self@,
    {
        AdjacencyRule {
            north: self.north.clone(),
            east: self.east.clone(),
            south: self.south.clone(),
            west: self.west.clone(),
        }
    }
}

impl AdjacencyRule {
    /// The rule whose sides allow the types listed for them.
    pub fn new(
        north: &Vec<String>,
        east: &Vec<String>,
        south: &Vec<String>,
        west: &Vec<String>,
    ) -> (rule: AdjacencyRule)
        ensures
            rule@ == (AdjacencyView {
                north: names_of(north@).to_set(),
                east: names_of(east@).to_set(),
                south: names_of(south@).to_set(),
                west: names_of(west@).to_set(),
            }),
    {
        AdjacencyRule {
            north: TypeSet::from_names(north),
            east: TypeSet::from_names(east),
            south: TypeSet::from_names(south),
            west: TypeSet::from_names(west),
        }
    }

    /// The set that `AdjacencyView::facing` names.
    pub fn facing(&self, direction: &Direction) -> (set: &TypeSet)
        ensures
            set@ == self@.facing(*direction),
    {
        match direction {
            Direction::North => &self.north,
            Direction::East => &self.west,
            Direction::South => &self.south,
            Direction::West => &self.east,
        }
    }
}

/// The adjacency rules of a table, found by the name of the type.
///
/// They are held in a `bevy::utils::HashMap`, which is hashbrown's `HashMap`
/// with the hasher of ahash. What the functions of that map do is taken on
/// trust, here as in `WeightTable` and `IndexTable`: each function that calls
/// one says in its contract what is believed of the call.
#[verifier::external_body]
#[derive(Debug)]
pub struct AdjacencyTable {
    rules: HashMap<String, AdjacencyRule>,
}

/// The rules that the hash map of an `AdjacencyTable` holds, by the name of
/// the type.
pub uninterp spec fn adjacency_entries(table: AdjacencyTable) -> Map<Seq<char>, AdjacencyView>;

impl AdjacencyTable {
    /// Calls `HashMap::default`: the result is a table without entries.
    #[verifier::external_body]
    fn empty() -> (table: AdjacencyTable)
        ensures
            adjacency_entries(table) == (Map::<Seq<char>, AdjacencyView>::empty()),
    {
        AdjacencyTable { rules: HashMap::default() }
    }

    /// Calls `HashMap::insert`: afterwards `name` leads to `rule`, and every
    /// other name to what it led to before.
    #[verifier::external_body]
    fn put(&mut self, name: String, rule: AdjacencyRule)
        ensures
            adjacency_entries(*final(self)) == adjacency_entries(*old(self)).insert(name@, rule@),
    {
        self.rules.insert(name, rule);
    }

    /// Calls `HashMap::get`: the result is the rule that `name` leads to, if
    /// there is one.
    #[verifier::external_body]
    fn get(&self, name: &str) -> (rule: Option<&AdjacencyRule>)
        ensures
            rule.is_some() == adjacency_entries(*self).contains_key(name@),
            rule matches Some(found) ==> found@ == adjacency_entries(*self)[name@],
    {
        self.rules.get(name)
    }
}

/// The weights of a table, found by the name of the type, held in a
/// `bevy::utils::HashMap`.
#[verifier::external_body]
#[derive(Debug)]
pub struct WeightTable {
    weights: HashMap<String, i32>,
}

/// The weights that the hash map of a `WeightTable` holds, by the name of
/// the type.
pub uninterp spec fn weight_entries(table: WeightTable) -> Map<Seq<char>, i32>;

impl WeightTable {
    /// Calls `HashMap::default`: the result is a table without entries.
    #[verifier::external_body]
    fn empty() -> (table: WeightTable)
        ensures
            weight_entries(table) == (Map::<Seq<char>, i32>::empty()),
    {
        WeightTable { weights: HashMap::default() }
    }

    /// Calls `HashMap::insert`: afterwards `name` leads to `weight`, and every
    /// other name to what it led to before.
    #[verifier::external_body]
    fn put(&mut self, name: String, weight: i32)
        ensures
            weight_entries(*final(self)) == weight_entries(*old(self)).insert(name@, weight),
    {
        self.weights.insert(name, weight);
    }

    /// Calls `HashMap::get`: the result is the weight that `name` leads to, if
    /// there is one.
    #[verifier::external_body]
    fn get(&self, name: &str) -> (weight: Option<i32>)
        ensures
            weight.is_some() == weight_entries(*self).contains_key(name@),
            weight matches Some(found) ==> found == weight_entries(*self)[name@],
    {
        self.weights.get(name).copied()
    }
}

/// The texture indices of a table, found by the name of the type, held in a
/// `bevy::utils::HashMap`.
#[verifier::external_body]
#[derive(Debug)]
pub struct IndexTable {
    indexes: HashMap<String, Vec<i32>>,
}

/// The lists that the hash map of an `IndexTable` holds, by the name of the
/// type.
pub uninterp spec fn index_entries(table: IndexTable) -> Map<Seq<char>, Seq<i32>>;

impl IndexTable {
    /// Calls `HashMap::default`: the result is a table without entries.
    #[verifier::external_body]
    fn empty() -> (table: IndexTable)
        ensures
            index_entries(table) == (Map::<Seq<char>, Seq<i32>>::empty()),
    {
        IndexTable { indexes: HashMap::default() }
    }

    /// Calls `HashMap::insert`: afterwards `name` leads to `indexes`, and every
    /// other name to what it led to before.
    #[verifier::external_body]
    fn put(&mut self, name: String, indexes: Vec<i32>)
        ensures
            index_entries(*final(self)) == index_entries(*old(self)).insert(name@, indexes@),
    {
        self.indexes.insert(name, indexes);
    }

    /// Calls `HashMap::get`: the result is the list that `name` leads to, if
    /// there is one.
    #[verifier::external_body]
    fn get(&self, name: &str) -> (indexes: Option<&Vec<i32>>)
        ensures
            indexes.is_some() == index_entries(*self).contains_key(name@),
            indexes matches Some(found) ==> found@ == index_entries(*self)[name@],
    {
        self.indexes.get(name)
    }
}

/// What is added to the weight of a type when one is drawn at random.
pub const WEIGHT_BIAS: i32 = 0;

/// The type that a cell is given when none of its candidates can be drawn.
pub const DEFAULT_TILE: &'static str = "grass";

/// The rule table of one generation.
#[derive(Debug)]
pub struct TileRules {
    pub tile_types: Vec<String>,
    pub adjacency: AdjacencyTable,
    pub weights: WeightTable,
    pub indexes: IndexTable,
}

/// A rule table as plain values: the tile types in their order, and for the
/// name of a type its adjacency rule, its weight and its texture indices.
pub struct RulesView {
    pub tile_types: Seq<Seq<char>>,
    pub adjacency: Map<Seq<char>, AdjacencyView>,
    pub weights: Map<Seq<char>, i32>,
    pub indexes: Map<Seq<char>, Seq<i32>>,
}

impl View for TileRules {
    type V = RulesView;

    open spec fn view(&self) -> RulesView {
        RulesView {
            tile_types: names_of(self.tile_types@),
            adjacency: adjacency_entries(self.adjacency),
            weights: weight_entries(self.weights),
            indexes: index_entries(self.indexes),
        }
    }
}

impl RulesView {
    /// Whether `candidate` may be placed where a step in `direction` leads
    /// to a cell of type `neighbour`: the rule of `neighbour` decides, and a
    /// type without a rule accepts nothing beside it.
    pub open spec fn permits(
        self,
        candidate: Seq<char>,
        neighbour: Seq<char>,
        direction: Direction,
    ) -> bool {
        self.adjacency.contains_key(neighbour) && self.adjacency[neighbour].facing(
            direction,
        ).contains(candidate)
    }

    /// What a neighbour reached by a step in `direction` says of
    /// `candidate`. A decided neighbour accepts or forbids it. An undecided
    /// one confirms it if one of its types accepts it, and else withholds
    /// its word.
    pub open spec fn verdict(
        self,
        candidate: Seq<char>,
        neighbour: CellView,
        direction: Direction,
    ) -> Validity {
        match neighbour {
            CellView::Collapsed(name) => if self.permits(candidate, name, direction) {
                Validity::Valid
            } else {
                Validity::Impossible
            },
            CellView::Superposition(names) => if exists|name: Seq<char>|
                names.contains(name) && #[trigger] self.permits(candidate, name, direction) {
                Validity::Valid
            } else {
                Validity::Invalid
            },
        }
    }

    /// The weight of a type; a type without an entry weighs nothing.
    pub open spec fn weight(self, name: Seq<char>) -> int {
        if self.weights.contains_key(name) {
            self.weights[name] as int
        } else {
            0
        }
    }

    /// What the type at `index` adds to the entropy of `set`.
    pub open spec fn weight_in(self, set: Set<Seq<char>>, index: int) -> int {
        if set.contains(self.tile_types[index]) {
            self.weight(self.tile_types[index])
        } else {
            0
        }
    }

    /// The weights of those of the first `count` tile types that `set`
    /// holds, added up.
    pub open spec fn weight_sum(self, set: Set<Seq<char>>, count: int) -> int
        decreases count,
    {
        if count <= 0 {
            0
        } else {
            self.weight_sum(set, count - 1) + self.weight_in(set, count - 1)
        }
    }

    /// The entropy of a cell that may still become each type of `set`: the
    /// sum of their weights, but the largest number there is for a set as
    /// large as the whole list of tile types.
    pub open spec fn entropy(self, set: Set<Seq<char>>) -> int {
        if set.len() == self.tile_types.len() {
            i32::MAX as int
        } else {
            self.weight_sum(set, self.tile_types.len() as int)
        }
    }

    /// How many tickets the type at `index` holds in a draw from `set`: its
    /// weight and the bias, if `set` holds the type and that sum is positive.
    pub open spec fn share(self, set: Set<Seq<char>>, index: int) -> nat {
        let name = self.tile_types[index];
        if set.contains(name) && self.weight(name) + WEIGHT_BIAS > 0 {
            (self.weight(name) + WEIGHT_BIAS) as nat
        } else {
            0
        }
    }

    /// The tickets of the first `count` tile types in a draw from `set`:
    /// type after type, each named once for every ticket it holds.
    pub open spec fn tickets(self, set: Set<Seq<char>>, count: int) -> Seq<Seq<char>>
        decreases count,
    {
        if count <= 0 {
            Seq::empty()
        } else {
            self.tickets(set, count - 1) + Seq::new(
                self.share(set, count - 1),
                |k: int| self.tile_types[count - 1],
            )
        }
    }

    /// All tickets of a draw from `set`. A type is drawn by drawing a ticket,
    /// each ticket being as likely as any other.
    pub open spec fn lottery(self, set: Set<Seq<char>>) -> Seq<Seq<char>> {
        self.tickets(set, self.tile_types.len() as int)
    }

    /// Whether the type at `index` is described: it has a weight that is
    /// not negative, and an adjacency rule that names tile types only.
    pub open spec fn describes(self, index: int) -> bool {
        let name = self.tile_types[index];
        &&& self.weights.contains_key(name)
        &&& self.weights[name] >= 0
        &&& self.adjacency.contains_key(name)
        &&& self.adjacency[name].north.subset_of(self.tile_types.to_set())
        &&& self.adjacency[name].east.subset_of(self.tile_types.to_set())
        &&& self.adjacency[name].south.subset_of(self.tile_types.to_set())
        &&& self.adjacency[name].west.subset_of(self.tile_types.to_set())
    }

    /// What generation relies on: no tile type is listed twice, each is
    /// described, and the weights of all of them together fit in an `i32`.
    /// Texture indices are not asked for: they only pass through the table
    /// to whoever draws the grid.
    pub open spec fn well_formed(self) -> bool {
        &&& self.tile_types.no_duplicates()
        &&& forall|index: int|
            0 <= index < self.tile_types.len() ==> #[trigger] self.describes(index)
        &&& self.weight_sum(Set::full(), self.tile_types.len() as int) <= i32::MAX
    }

    /// Whether the table treats both cells of a pair alike: a type may lie
    /// beside another exactly if the other may lie beside it, seen from the
    /// far side of the same step.
    pub open spec fn symmetric(self) -> bool {
        forall|a: Seq<char>, b: Seq<char>, direction: Direction|
            #[trigger] self.permits(a, b, direction) == self.permits(b, a, opposite(direction))
    }
}

impl RulesView {
    /// Whether each of the first `count` tile types has a weight that is
    /// not negative.
    pub open spec fn weighs(self, count: int) -> bool {
        forall|index: int|
            0 <= index < count ==> 0 <= #[trigger] self.weight(self.tile_types[index])
    }

    /// With weights that are not negative, a set weighs no more than all
    /// types together, and more types weigh no less than fewer.
    pub proof fn lemma_weight_sum_bounds(self, set: Set<Seq<char>>, count: int, limit: int)
        requires
            0 <= count <= limit,
            self.weighs(limit),
        ensures
            0 <= self.weight_sum(set, count) <= self.weight_sum(Set::full(), count),
            self.weight_sum(Set::full(), count) <= self.weight_sum(Set::full(), limit),
        decreases limit,
    {
        if count < limit {
            self.lemma_weight_sum_bounds(set, count, limit - 1);
            assert(0 <= self.weight(self.tile_types[limit - 1]));
        } else if count > 0 {
            self.lemma_weight_sum_bounds(set, count - 1, limit - 1);
            assert(0 <= self.weight(self.tile_types[count - 1]));
        }
    }

    /// With weights that are not negative, the first `count` types hold as
    /// many tickets as the types of `set` among them weigh.
    pub proof fn lemma_tickets_len(self, set: Set<Seq<char>>, count: int)
        requires
            0 <= count,
            self.weighs(count),
        ensures
            self.tickets(set, count).len() == self.weight_sum(set, count),
        decreases count,
    {
        if count > 0 {
            self.lemma_tickets_len(set, count - 1);
            assert(0 <= self.weight(self.tile_types[count - 1]));
        }
    }

    /// The tickets of fewer types open the tickets of more types.
    pub proof fn lemma_tickets_prefix(self, set: Set<Seq<char>>, count: int, limit: int)
        requires
            0 <= count <= limit,
        ensures
            self.tickets(set, count).len() <= self.tickets(set, limit).len(),
            forall|ticket: int|
                0 <= ticket < self.tickets(set, count).len() ==> self.tickets(set, limit)[ticket]
                    == self.tickets(set, count)[ticket],
        decreases limit,
    {
        if count < limit {
            self.lemma_tickets_prefix(set, count, limit - 1);
        }
    }

    /// Every ticket of a draw from `set` names a tile type that `set` holds
    /// and whose weight, with the bias, is positive.
    pub proof fn lemma_ticket_names_candidate(self, set: Set<Seq<char>>, count: int, ticket: int)
        requires
            0 <= count <= self.tile_types.len(),
            0 <= ticket < self.tickets(set, count).len(),
        ensures
            set.contains(self.tickets(set, count)[ticket]),
            self.tile_types.contains(self.tickets(set, count)[ticket]),
            self.weight(self.tickets(set, count)[ticket]) + WEIGHT_BIAS > 0,
        decreases count,
    {
        if ticket < self.tickets(set, count - 1).len() {
            self.lemma_ticket_names_candidate(set, count - 1, ticket);
        } else {
            assert(self.tickets(set, count)[ticket] == self.tile_types[count - 1]);
        }
    }
}

/// The step that undoes a step in `direction`.
pub open spec fn opposite(direction: Direction) -> Direction {
    match direction {
        Direction::North => Direction::South,
        Direction::East => Direction::West,
        Direction::South => Direction::North,
        Direction::West => Direction::East,
    }
}

impl TileRules {
    /// A table without tile types.
    pub fn empty() -> (rules: TileRules)
        ensures
            rules@.tile_types == Seq::<Seq<char>>::empty(),
            rules@.adjacency == Map::<Seq<char>, AdjacencyView>::empty(),
            rules@.weights == Map::<Seq<char>, i32>::empty(),
            rules@.indexes == Map::<Seq<char>, Seq<i32>>::empty(),
            rules@.well_formed(),
    {
        let rules = TileRules {
            tile_types: Vec::new(),
            adjacency: AdjacencyTable::empty(),
            weights: WeightTable::empty(),
            indexes: IndexTable::empty(),
        };
        assert(rules@.tile_types =~= Seq::<Seq<char>>::empty());
        rules
    }

    /// Appends a tile type to the list.
    pub fn add_tile_type(&mut self, name: String)
        ensures
            final(self)@ == (RulesView {
                tile_types: old(self)@.tile_types.push(name@),
                ..old(self)@
            }),
    {
        self.tile_types.push(name);
        assert(names_of(self.tile_types@) =~= names_of(old(self).tile_types@).push(name@));
    }

    /// Sets the adjacency rule of the type called `name`.
    pub fn set_adjacency(&mut self, name: String, rule: AdjacencyRule)
        ensures
            final(self)@ == (RulesView {
                adjacency: old(self)@.adjacency.insert(name@, rule@),
                ..old(self)@
            }),
    {
        self.adjacency.put(name, rule);
    }

    /// Sets the weight of the type called `name`.
    pub fn set_weight(&mut self, name: String, weight: i32)
        ensures
            final(self)@ == (RulesView {
                weights: old(self)@.weights.insert(name@, weight),
                ..old(self)@
            }),
    {
        self.weights.put(name, weight);
    }

    /// Sets the texture indices of the type called `name`.
    pub fn set_indexes(&mut self, name: String, indexes: Vec<i32>)
        ensures
            final(self)@ == (RulesView {
                indexes: old(self)@.indexes.insert(name@, indexes@),
                ..old(self)@
            }),
    {
        self.indexes.put(name, indexes);
    }

    /// Check if `tile_type_a` can be placed where a step in `direction`
    /// leads to a cell of `tile_type_b`.
    pub fn valid_neighbour(
        &self,
        tile_type_a: &str,
        tile_type_b: &str,
        direction: &Direction,
    ) -> (valid: bool)
        ensures
            valid == self@.permits(tile_type_a@, tile_type_b@, *direction),
    {
        match self.adjacency.get(tile_type_b) {
            None => false,
            Some(rule) => rule.facing(direction).has(tile_type_a),
        }
    }

    /// The weight of `tile_type`, if the table has one for it.
    pub fn weight_of(&self, tile_type: &str) -> (weight: Option<i32>)
        ensures
            weight.is_some() == self@.weights.contains_key(tile_type@),
            weight matches Some(found) ==> found == self@.weights[tile_type@],
    {
        self.weights.get(tile_type)
    }

    /// The weight of `tile_type`, and 0 where the table has none for it.
    pub fn get_weight_of_type(&self, tile_type: &str) -> (weight: i32)
        ensures
            weight == self@.weight(tile_type@),
    {
        match self.weights.get(tile_type) {
            Some(weight) => weight,
            None => 0,
        }
    }

    /// The adjacency rule of `tile_type`, if the table has one for it.
    pub fn adjacency_of(&self, tile_type: &str) -> (rule: Option<&AdjacencyRule>)
        ensures
            rule.is_some() == self@.adjacency.contains_key(tile_type@),
            rule matches Some(found) ==> found@ == self@.adjacency[tile_type@],
    {
        self.adjacency.get(tile_type)
    }

    /// The texture indices of `tile_type`, if the table has any for it.
    pub fn indexes_of(&self, tile_type: &str) -> (indexes: Option<&Vec<i32>>)
        ensures
            indexes.is_some() == self@.indexes.contains_key(tile_type@),
            indexes matches Some(found) ==> found@ == self@.indexes[tile_type@],
    {
        self.indexes.get(tile_type)
    }

    /// How many tickets a draw from `set` has.
    pub fn ticket_count(&self, set: &TypeSet) -> (count: usize)
        requires
            self@.well_formed(),
        ensures
            count == self@.lottery(set@).len(),
    {
        let mut count: usize = 0;
        let mut i: usize = 0;
        proof {
            self.lemma_weighs();
        }
        while i < self.tile_types.len()
            invariant
                i <= self.tile_types.len(),
                self@.well_formed(),
                self@.weighs(self.tile_types.len() as int),
                count == self@.tickets(set@, i as int).len(),
            decreases self.tile_types.len() - i,
        {
            proof {
                self@.lemma_tickets_len(set@, i as int);
                self@.lemma_tickets_len(set@, i + 1);
                self@.lemma_weight_sum_bounds(set@, i + 1, self.tile_types.len() as int);
                assert(0 <= self@.weight(self@.tile_types[i as int]));
            }
            let name = self.tile_types[i].as_str();
            if set.has(name) {
                let share = self.get_weight_of_type(name) + WEIGHT_BIAS;
                if share > 0 {
                    count = count + share as usize;
                }
            }
            i += 1;
        }
        count
    }

    /// The type that the ticket with the number `ticket` names in a draw
    /// from `set`.
    pub fn draw(&self, set: &TypeSet, ticket: usize) -> (tile: String)
        requires
            self@.well_formed(),
            ticket < self@.lottery(set@).len(),
        ensures
            tile@ == self@.lottery(set@)[ticket as int],
    {
        let mut count: usize = 0;
        let mut i: usize = 0;
        proof {
            self.lemma_weighs();
        }
        while i < self.tile_types.len()
            invariant
                i <= self.tile_types.len(),
                self@.well_formed(),
                self@.weighs(self.tile_types.len() as int),
                count == self@.tickets(set@, i as int).len(),
                count <= ticket < self@.lottery(set@).len(),
            decreases self.tile_types.len() - i,
        {
            proof {
                self@.lemma_tickets_len(set@, i as int);
                self@.lemma_tickets_len(set@, i + 1);
                self@.lemma_weight_sum_bounds(set@, i + 1, self.tile_types.len() as int);
                self@.lemma_tickets_prefix(set@, i + 1, self.tile_types.len() as int);
                assert(0 <= self@.weight(self@.tile_types[i as int]));
            }
            let name = self.tile_types[i].as_str();
            if set.has(name) {
                let share = self.get_weight_of_type(name) + WEIGHT_BIAS;
                if share > 0 {
                    if ticket < count + share as usize {
                        assert(self@.tickets(set@, i + 1)[ticket as int] == name@);
                        return name.to_owned();
                    }
                    count = count + share as usize;
                }
            }
            i += 1;
        }
        DEFAULT_TILE.to_owned()
    }

    /// Get a random tile from the given set based on the tiles' weights:
    /// the type named by a ticket drawn from the lottery of `set`, and
    /// `DEFAULT_TILE` where that lottery has no ticket.
    pub fn random_tile_from_set(&self, set: &TypeSet) -> (tile: String)
        requires
            self@.well_formed(),
        ensures
            self@.lottery(set@).len() == 0 ==> tile@ == DEFAULT_TILE@,
            self@.lottery(set@).len() > 0 ==> self@.lottery(set@).contains(tile@),
            self@.lottery(set@).len() > 0 ==> set@.contains(tile@),
    {
        let count = self.ticket_count(set);
        if count == 0 {
            return DEFAULT_TILE.to_owned();
        }
        let ticket = random_below(count);
        proof {
            self@.lemma_ticket_names_candidate(set@, self.tile_types.len() as int, ticket as int);
        }
        self.draw(set, ticket)
    }

    /// Get the tile set index of the given tile type; if the type has
    /// several indices a random one is chosen.
    pub fn get_tile_index(&self, tile_type: &str) -> (index: i32)
        requires
            self@.indexes.contains_key(tile_type@),
            self@.indexes[tile_type@].len() > 0,
        ensures
            self@.indexes[tile_type@].contains(index),
    {
        match self.indexes.get(tile_type) {
            Some(indexes) => indexes[random_below(indexes.len())],
            None => 0,
        }
    }

    /// In a well-formed table no tile type has a negative weight.
    pub proof fn lemma_weighs(&self)
        requires
            self@.well_formed(),
        ensures
            self@.weighs(self.tile_types.len() as int),
    {
        assert forall|index: int| 0 <= index < self.tile_types.len() implies 0
            <= #[trigger] self@.weight(self@.tile_types[index]) by {
            assert(self@.describes(index));
        }
    }

    /// Whether the table is well formed.
    pub fn is_well_formed(&self) -> (ok: bool)
        ensures
            ok == self@.well_formed(),
    {
        let universe = TypeSet::from_names(&self.tile_types);
        proof {
            if self@.tile_types.no_duplicates() {
                self@.tile_types.unique_seq_to_set();
            }
            if self@.tile_types.to_set().len() == self@.tile_types.len() {
                self@.tile_types.lemma_no_dup_set_cardinality();
            }
        }
        if universe.count() != self.tile_types.len() {
            return false;
        }
        let mut total: i32 = 0;
        let mut i: usize = 0;
        while i < self.tile_types.len()
            invariant
                i <= self.tile_types.len(),
                universe@ == self@.tile_types.to_set(),
                self@.tile_types.no_duplicates(),
                forall|index: int| 0 <= index < i ==> #[trigger] self@.describes(index),
                total == self@.weight_sum(Set::full(), i as int),
                0 <= total,
            decreases self.tile_types.len() - i,
        {
            let name = self.tile_types[i].as_str();
            let weight = match self.weights.get(name) {
                Some(weight) => weight,
                None => {
                    assert(!self@.describes(i as int));
                    return false;
                },
            };
            if weight < 0 {
                assert(!self@.describes(i as int));
                return false;
            }
            if weight > i32::MAX - total {
                proof {
                    if self@.well_formed() {
                        self.lemma_weighs();
                        self@.lemma_weight_sum_bounds(
                            Set::full(),
                            i + 1,
                            self.tile_types.len() as int,
                        );
                    }
                }
                return false;
            }
            let described = match self.adjacency.get(name) {
                Some(rule) => rule.north.is_subset_of(&universe) && rule.east.is_subset_of(
                    &universe,
                ) && rule.south.is_subset_of(&universe) && rule.west.is_subset_of(&universe),
                None => false,
            };
            if !described {
                assert(!self@.describes(i as int));
                return false;
            }
            assert(self@.describes(i as int));
            total = total + weight;
            i += 1;
        }
        true
    }
}

} // verus!
