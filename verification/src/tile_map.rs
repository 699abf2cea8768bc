//! The grid of cells and the collapse of its cells to tile types.

use crate::cell::{Cell, CellView};
use crate::map_view::{direction_at, touches, MapView};
use crate::random::random_below;
use crate::tile_rules::{Direction, TileRules, Validity};
use crate::type_set::{names_of, TypeSet};
use bevy::utils::HashMap;
use std::collections::VecDeque;
use vstd::prelude::*;

verus! {

/// A place on the grid.
#[derive(PartialEq, Eq, Hash, Clone, Copy, Debug, Structural)]
pub struct Position {
    pub x: i32,
    pub y: i32,
}

/// What one step of generation reports.
#[derive(PartialEq, Eq, Clone, Copy, Debug, Structural)]
pub enum MapStatus {
    Generating,
    Finished,
}

/// The tile type of beaches.
pub const BEACH_TILE: &'static str = "sand";

/// The tile type of land.
pub const LAND_TILE: &'static str = "grass";

/// The tile type that a beach without land becomes.
pub const LIQUID_TILE: &'static str = "water";

/// The cells of a grid, found by their position.
///
/// They are held in a `bevy::utils::HashMap`, which is hashbrown's `HashMap`
/// with the hasher of ahash, under the pair of the coordinates of their
/// position. What the functions of that map do is taken on trust: each
/// function below that calls one says in its contract what is believed of
/// the call.
#[verifier::external_body]
#[derive(Debug)]
pub struct CellTable {
    cells: HashMap<(i32, i32), Cell>,
}

/// The cells that the hash map of a `CellTable` holds, by their position.
pub uninterp spec fn table_cells(table: CellTable) -> Map<Position, CellView>;

impl CellTable {
    /// Calls `HashMap::default`: the result is a table without cells.
    #[verifier::external_body]
    fn empty() -> (table: CellTable)
        ensures
            table_cells(table) == (Map::<Position, CellView>::empty()),
    {
        CellTable { cells: HashMap::default() }
    }

    /// Calls `HashMap::insert`: afterwards `position` leads to `cell`, and
    /// every other position to what it led to before.
    #[verifier::external_body]
    fn put(&mut self, position: Position, cell: Cell)
        ensures
            table_cells(*final(self)) == table_cells(*old(self)).insert(position, cell@),
    {
        self.cells.insert((position.x, position.y), cell);
    }

    /// Calls `HashMap::get`: the result is the cell that `position` leads to,
    /// if there is one.
    #[verifier::external_body]
    fn get(&self, position: &Position) -> (cell: Option<&Cell>)
        ensures
            cell.is_some() == table_cells(*self).contains_key(*position),
            cell matches Some(found) ==> found@ == table_cells(*self)[*position],
    {
        self.cells.get(&(position.x, position.y))
    }

    /// Calls `HashMap::keys` and lists what it yields: every position that
    /// leads to a cell, once, in an order that the hasher decides and that
    /// differs from run to run.
    #[verifier::external_body]
    fn positions(&self) -> (positions: Vec<Position>)
        ensures
            positions@.no_duplicates(),
            positions@.to_set() == table_cells(*self).dom(),
    {
        self.cells.keys().map(|key| Position { x: key.0, y: key.1 }).collect()
    }
}

/// A grid of `width` by `height` cells with the rule table that its cells
/// are collapsed by.
#[derive(Debug)]
pub struct TileMap {
    pub width: i32,
    pub height: i32,
    pub tiles: CellTable,
    pub rules: TileRules,
    /// Set once a cell has been left with no type to choose from.
    pub contradiction: bool,
}

impl View for TileMap {
    type V = MapView;

    open spec fn view(&self) -> MapView {
        MapView {
            width: self.width,
            height: self.height,
            cells: table_cells(self.tiles),
            rules: self.rules@,
            contradiction: self.contradiction,
        }
    }
}

impl TileMap {
    /// Creates new TileMap with the given width and height.
    /// All tiles are empty.
    pub fn new(width: i32, height: i32, rules: TileRules) -> (map: TileMap)
        ensures
            map@ == (MapView {
                width,
                height,
                cells: Map::empty(),
                rules: rules@,
                contradiction: false,
            }),
    {
        TileMap { width, height, tiles: CellTable::empty(), rules, contradiction: false }
    }

    /// The cell at `position`, if the grid has one there.
    pub fn cell_at(&self, position: &Position) -> (cell: Option<&Cell>)
        ensures
            cell.is_some() == self@.cells.contains_key(*position),
            cell matches Some(found) ==> found@ == self@.cells[*position],
    {
        self.tiles.get(position)
    }

    /// Puts `cell` at `position`, in place of what was there.
    pub fn set_cell(&mut self, position: Position, cell: Cell)
        ensures
            final(self)@ == (MapView {
                cells: old(self)@.cells.insert(position, cell@),
                ..old(self)@
            }),
    {
        self.tiles.put(position, cell);
    }

    /// Every position of the grid that has a cell, with a copy of the cell,
    /// each once and in no particular order.
    pub fn cells(&self) -> (cells: Vec<(Position, Cell)>)
        ensures
            cells@.map_values(|entry: (Position, Cell)| entry.0).no_duplicates(),
            cells@.map_values(|entry: (Position, Cell)| entry.0).to_set() == self@.cells.dom(),
            forall|i: int|
                0 <= i < cells.len() ==> self@.cells.contains_key((#[trigger] cells[i]).0)
                    && self@.cells[cells[i].0] == cells[i].1@,
    {
        let positions = self.tiles.positions();
        let mut cells: Vec<(Position, Cell)> = Vec::new();
        let mut i: usize = 0;
        while i < positions.len()
            invariant
                i <= positions.len(),
                positions@.to_set() == self@.cells.dom(),
                cells@.map_values(|entry: (Position, Cell)| entry.0) == positions@.take(i as int),
                forall|k: int|
                    0 <= k < cells.len() ==> self@.cells.contains_key((#[trigger] cells[k]).0)
                        && self@.cells[cells[k].0] == cells[k].1@,
            decreases positions.len() - i,
        {
            let position = positions[i];
            assert(positions@.contains(position));
            assert(self@.cells.dom().contains(position));
            let ghost listed = cells@.map_values(|entry: (Position, Cell)| entry.0);
            match self.tiles.get(&position) {
                Some(cell) => {
                    cells.push((position, cell.clone()));
                },
                None => {},
            }
            assert(cells@.map_values(|entry: (Position, Cell)| entry.0) =~= listed.push(position));
            assert(listed.push(position) =~= positions@.take(i + 1));
            i += 1;
        }
        assert(positions@.take(positions.len() as int) == positions@);
        cells
    }

    /// The positions of the cells that are, or may still become, the type
    /// `tile_type`, each once and in no particular order.
    pub fn get_cells_with_type(&self, tile_type: &str) -> (result: Vec<Position>)
        ensures
            result@.no_duplicates(),
            forall|position: Position|
                result@.contains(position) == (self@.cells.contains_key(position)
                    && #[trigger] self@.cells[position].may_be(tile_type@)),
    {
        let places = self.tiles.positions();
        let mut result: Vec<Position> = Vec::new();
        let mut i: usize = 0;
        while i < places.len()
            invariant
                i <= places.len(),
                places@.no_duplicates(),
                places@.to_set() == self@.cells.dom(),
                result@.no_duplicates(),
                forall|k: int|
                    0 <= k < result.len() ==> places@.take(i as int).contains(
                        #[trigger] result[k],
                    ) && self@.cells[result[k]].may_be(tile_type@),
                forall|k: int|
                    0 <= k < i && self@.cells[#[trigger] places[k]].may_be(tile_type@)
                        ==> result@.contains(places[k]),
            decreases places.len() - i,
        {
            let position = places[i];
            let ghost before = result@;
            assert(places@.contains(position));
            assert(self@.cells.dom().contains(position));
            assert forall|k: int| 0 <= k < before.len() implies before[k] != position by {
                let j = choose|j: int|
                    0 <= j < places@.take(i as int).len() && places@.take(i as int)[j]
                        == before[k];
                assert(places[j] == before[k]);
            }
            let found = match self.tiles.get(&position) {
                Some(cell) => cell.allows(tile_type),
                None => false,
            };
            if found {
                result.push(position);
                assert(result@[before.len() as int] == position);
            }
            assert forall|k: int| 0 <= k < result.len() implies places@.take(i + 1).contains(
                #[trigger] result[k],
            ) by {
                if result[k] == position {
                    assert(places@.take(i + 1)[i as int] == position);
                } else {
                    let j = choose|j: int|
                        0 <= j < places@.take(i as int).len() && places@.take(i as int)[j]
                            == result[k];
                    assert(places@.take(i + 1)[j] == result[k]);
                }
            }
            assert forall|k: int|
                0 <= k < i + 1 && self@.cells[#[trigger] places[k]].may_be(
                    tile_type@,
                ) implies result@.contains(places[k]) by {
                if k < i {
                    let j = choose|j: int| 0 <= j < before.len() && before[j] == places[k];
                    assert(result@[j] == places[k]);
                }
            }
            i += 1;
        }
        proof {
            assert forall|position: Position|
                result@.contains(position) == (self@.cells.contains_key(position)
                    && #[trigger] self@.cells[position].may_be(tile_type@)) by {
                if result@.contains(position) {
                    let k = choose|k: int| 0 <= k < result.len() && result[k] == position;
                    assert(places@.take(i as int).contains(result[k]));
                    assert(places@.contains(position));
                }
                if self@.cells.contains_key(position) && self@.cells[position].may_be(
                    tile_type@,
                ) {
                    assert(places@.to_set().contains(position));
                    let k = choose|k: int| 0 <= k < places.len() && places[k] == position;
                    assert(self@.cells[places[k]].may_be(tile_type@));
                }
            }
        }
        result
    }

    /// Puts the cell that may still become every tile type at each position
    /// of the grid, and forgets every other cell.
    fn init_tiles(&mut self)
        ensures
            final(self)@ == old(self)@.blank(),
    {
        self.tiles = CellTable::empty();
        self.contradiction = false;
        let mut x: i32 = 0;
        while x < self.width
            invariant
                0 <= x,
                x <= self.width || self.width < 0,
                self@.width == old(self)@.width,
                self@.height == old(self)@.height,
                self@.rules == old(self)@.rules,
                !self@.contradiction,
                self@.cells.dom() =~= Set::new(
                    |position: Position| self@.in_bounds(position) && position.x < x,
                ),
                forall|position: Position| #[trigger]
                    self@.cells.contains_key(position) ==> self@.cells[position]
                        == self@.open_cell(),
            decreases self.width - x,
        {
            let mut y: i32 = 0;
            while y < self.height
                invariant
                    0 <= x < self.width,
                    0 <= y,
                    y <= self.height || self.height < 0,
                    self@.width == old(self)@.width,
                    self@.height == old(self)@.height,
                    self@.rules == old(self)@.rules,
                    !self@.contradiction,
                    self@.cells.dom() =~= Set::new(
                        |position: Position|
                            self@.in_bounds(position) && (position.x < x || (position.x == x
                                && position.y < y)),
                    ),
                    forall|position: Position| #[trigger]
                        self@.cells.contains_key(position) ==> self@.cells[position]
                            == self@.open_cell(),
                decreases self.height - y,
            {
                let cell = Cell::new(&self.rules.tile_types);
                self.tiles.put(Position { x, y }, cell);
                y += 1;
            }
            x += 1;
        }
        assert(self@.cells =~= old(self)@.blank_cells());
    }

    /// Puts every cell of the grid back to what it was before anything was
    /// decided: open to every tile type.
    pub fn clear(&mut self)
        ensures
            final(self)@ == old(self)@.blank(),
    {
        self.init_tiles();
    }

    /// The neighbour of `position` in `direction` and a copy of its cell, if
    /// there is a neighbour.
    pub fn get_neighbour(&self, position: &Position, direction: &Direction) -> (neighbour: Option<
        (Position, Cell),
    >)
        ensures
            neighbour.is_some() == self@.neighbour(*position, *direction).is_some(),
            neighbour matches Some(found) ==> self@.neighbour(*position, *direction) == Some(
                found.0,
            ) && found.1@ == self@.cells[found.0],
    {
        let dx: i64 = match direction {
            Direction::East => 1,
            Direction::West => -1,
            _ => 0,
        };
        let dy: i64 = match direction {
            Direction::North => -1,
            Direction::South => 1,
            _ => 0,
        };
        let x: i64 = position.x as i64 + dx;
        let y: i64 = position.y as i64 + dy;
        if x < 0 || y < 0 || x >= self.width as i64 || y >= self.height as i64 {
            return None;
        }
        let place = Position { x: x as i32, y: y as i32 };
        match self.tiles.get(&place) {
            Some(cell) => Some((place, cell.clone())),
            None => None,
        }
    }

    /// What the neighbouring cell `b`, reached by a step in `direction`,
    /// says of the type `a`.
    pub fn valid_neighbour(&self, a: &str, b: &Cell, direction: &Direction) -> (validity: Validity)
        ensures
            validity == self@.rules.verdict(a@, b@, *direction),
    {
        match b {
            Cell::Collapsed(name) => {
                if self.rules.valid_neighbour(a, name.as_str(), direction) {
                    Validity::Valid
                } else {
                    Validity::Impossible
                }
            },
            Cell::Superposition(set) => {
                let names = set.members();
                let mut i: usize = 0;
                while i < names.len()
                    invariant
                        i <= names.len(),
                        names_of(names@).to_set() == set@,
                        b@ == CellView::Superposition(set@),
                        forall|k: int|
                            0 <= k < i ==> !self@.rules.permits(
                                a@,
                                #[trigger] names_of(names@)[k],
                                *direction,
                            ),
                    decreases names.len() - i,
                {
                    if self.rules.valid_neighbour(a, names[i].as_str(), direction) {
                        assert(names_of(names@)[i as int] == names[i as int]@);
                        assert(names_of(names@).to_set().contains(names_of(names@)[i as int]));
                        assert(set@.contains(names[i as int]@) && self@.rules.permits(
                            a@,
                            names[i as int]@,
                            *direction,
                        ));
                        return Validity::Valid;
                    }
                    i += 1;
                }
                assert forall|name: Seq<char>| set@.contains(name) implies !self@.rules.permits(
                    a@,
                    name,
                    *direction,
                ) by {
                    let k = choose|k: int|
                        0 <= k < names_of(names@).len() && names_of(names@)[k] == name;
                    assert(!self@.rules.permits(a@, names_of(names@)[k], *direction));
                }
                Validity::Invalid
            },
        }
    }

    /// The neighbours of `position` with a copy of their cells, to the
    /// north, east, south and west in that order.
    pub fn get_all_neighbours(&self, position: &Position) -> (neighbours: Vec<
        (Direction, Position, Cell),
    >)
        ensures
            neighbours@.map_values(|entry: (Direction, Position, Cell)| (entry.0, entry.1))
                == self@.around(*position),
            forall|i: int|
                0 <= i < neighbours.len() ==> (#[trigger] neighbours[i]).2@
                    == self@.cells[neighbours[i].1],
    {
        let directions = [Direction::North, Direction::East, Direction::South, Direction::West];
        let mut neighbours: Vec<(Direction, Position, Cell)> = Vec::new();
        let mut i: usize = 0;
        while i < 4
            invariant
                i <= 4,
                directions@ == seq![
                    Direction::North,
                    Direction::East,
                    Direction::South,
                    Direction::West,
                ],
                neighbours@.map_values(|entry: (Direction, Position, Cell)| (entry.0, entry.1))
                    == self@.around_upto(*position, i as int),
                forall|k: int|
                    0 <= k < neighbours.len() ==> (#[trigger] neighbours[k]).2@
                        == self@.cells[neighbours[k].1],
            decreases 4 - i,
        {
            let direction = directions[i];
            assert(direction == direction_at(i as int));
            let ghost listed = neighbours@.map_values(
                |entry: (Direction, Position, Cell)| (entry.0, entry.1),
            );
            match self.get_neighbour(position, &direction) {
                Some(found) => {
                    neighbours.push((direction, found.0, found.1));
                    assert(neighbours@.map_values(
                        |entry: (Direction, Position, Cell)| (entry.0, entry.1),
                    ) =~= listed.push((direction, found.0)));
                },
                None => {},
            }
            i += 1;
        }
        neighbours
    }

    /// Whether `candidate` stays possible at `position`, whose neighbours
    /// are `neighbours`.
    fn stays_possible(
        &self,
        position: &Position,
        candidate: &str,
        neighbours: &Vec<(Direction, Position, Cell)>,
    ) -> (stays: bool)
        requires
            neighbours@.map_values(|entry: (Direction, Position, Cell)| (entry.0, entry.1))
                == self@.around(*position),
            forall|i: int|
                0 <= i < neighbours.len() ==> (#[trigger] neighbours[i]).2@
                    == self@.cells[neighbours[i].1],
        ensures
            stays == self@.survives(*position, candidate@),
    {
        let ghost listed = neighbours@.map_values(
            |entry: (Direction, Position, Cell)| (entry.0, entry.1),
        );
        let mut confirmed = false;
        let mut i: usize = 0;
        proof {
            self@.lemma_around(*position, candidate@);
        }
        while i < neighbours.len()
            invariant
                i <= neighbours.len(),
                neighbours.len() == self@.around(*position).len(),
                listed == self@.around(*position),
                listed == neighbours@.map_values(
                    |entry: (Direction, Position, Cell)| (entry.0, entry.1),
                ),
                forall|k: int|
                    0 <= k < neighbours.len() ==> (#[trigger] neighbours[k]).2@
                        == self@.cells[neighbours[k].1],
                forall|k: int|
                    0 <= k < i ==> #[trigger] self@.said(*position, candidate@, k)
                        != Validity::Impossible,
                confirmed == exists|k: int|
                    0 <= k < i && #[trigger] self@.said(*position, candidate@, k)
                        == Validity::Valid,
                forall|index: int|
                    0 <= index < self@.around(*position).len() ==> self@.verdict_at(
                        *position,
                        candidate@,
                        self@.around(*position)[index].0,
                    ) == Some(#[trigger] self@.said(*position, candidate@, index)),
            decreases neighbours.len() - i,
        {
            assert(listed[i as int] == (neighbours[i as int].0, neighbours[i as int].1));
            let validity = self.valid_neighbour(candidate, &neighbours[i].2, &neighbours[i].0);
            assert(validity == self@.said(*position, candidate@, i as int));
            match validity {
                Validity::Valid => {
                    confirmed = true;
                },
                Validity::Invalid => {},
                Validity::Impossible => {
                    assert(self@.verdict_at(
                        *position,
                        candidate@,
                        self@.around(*position)[i as int].0,
                    ) == Some(Validity::Impossible));
                    return false;
                },
            }
            i += 1;
        }
        proof {
            if confirmed {
                let k = choose|k: int|
                    0 <= k < i && #[trigger] self@.said(*position, candidate@, k)
                        == Validity::Valid;
                assert(self@.verdict_at(*position, candidate@, self@.around(*position)[k].0)
                    == Some(Validity::Valid));
            }
        }
        confirmed
    }

    /// Try to collapse the cell at `position`: hold each of its candidates
    /// against the neighbours and keep those that stay possible.
    /// Returns the positions of the cell's neighbours if the cell lost a
    /// candidate.
    pub fn update_cell(&mut self, position: Position) -> (changed: Option<Vec<Position>>)
        ensures
            final(self)@ == old(self)@.updated(position),
            changed.is_some() == old(self)@.narrows_at(position),
            changed matches Some(places) ==> places@ == old(self)@.around(position).map_values(
                |entry: (Direction, Position)| entry.1,
            ),
            old(self)@.is_open(position) ==> old(self)@.candidates(position).finite(),
    {
        let types = match self.tiles.get(&position) {
            None => {
                return None;
            },
            Some(Cell::Collapsed(_)) => {
                return None;
            },
            Some(Cell::Superposition(set)) => set.members(),
        };
        let ghost names = old(self)@.cells[position]->Superposition_0;
        proof {
            names_of(types@).unique_seq_to_set();
            vstd::seq_lib::seq_to_set_is_finite(names_of(types@));
        }
        let neighbours = self.get_all_neighbours(&position);
        let mut possible_types: Vec<String> = Vec::new();
        let mut i: usize = 0;
        while i < types.len()
            invariant
                i <= types.len(),
                *self == *old(self),
                names_of(types@).no_duplicates(),
                names_of(types@).to_set() == names,
                neighbours@.map_values(|entry: (Direction, Position, Cell)| (entry.0, entry.1))
                    == self@.around(position),
                forall|k: int|
                    0 <= k < neighbours.len() ==> (#[trigger] neighbours[k]).2@
                        == self@.cells[neighbours[k].1],
                names_of(possible_types@).no_duplicates(),
                forall|k: int|
                    0 <= k < possible_types.len() ==> self@.survives(
                        position,
                        #[trigger] names_of(possible_types@)[k],
                    ) && names_of(types@).take(i as int).contains(names_of(possible_types@)[k]),
                forall|k: int|
                    0 <= k < i && self@.survives(position, #[trigger] names_of(types@)[k])
                        ==> names_of(possible_types@).contains(names_of(types@)[k]),
            decreases types.len() - i,
        {
            let ghost kept = names_of(possible_types@);
            if self.stays_possible(&position, types[i].as_str(), &neighbours) {
                possible_types.push(types[i].clone());
                assert(names_of(possible_types@) =~= kept.push(types[i as int]@));
                assert(names_of(types@)[i as int] == types[i as int]@);
                assert forall|k: int| 0 <= k < kept.len() implies kept[k] != types[i as int]@ by {
                    let j = choose|j: int|
                        0 <= j < names_of(types@).take(i as int).len() && names_of(types@).take(
                            i as int,
                        )[j] == kept[k];
                    assert(names_of(types@)[j] == kept[k]);
                }
            }
            assert forall|k: int| 0 <= k < possible_types.len() implies names_of(types@).take(
                i + 1,
            ).contains(#[trigger] names_of(possible_types@)[k]) by {
                if k < kept.len() {
                    let j = choose|j: int|
                        0 <= j < names_of(types@).take(i as int).len() && names_of(types@).take(
                            i as int,
                        )[j] == kept[k];
                    assert(names_of(types@).take(i + 1)[j] == kept[k]);
                } else {
                    assert(names_of(types@).take(i + 1)[i as int] == types[i as int]@);
                }
            }
            assert forall|k: int|
                0 <= k < i + 1 && self@.survives(
                    position,
                    #[trigger] names_of(types@)[k],
                ) implies names_of(possible_types@).contains(names_of(types@)[k]) by {
                if k < i {
                    let j = choose|j: int| 0 <= j < kept.len() && kept[j] == names_of(types@)[k];
                    assert(names_of(possible_types@)[j] == names_of(types@)[k]);
                } else {
                    assert(names_of(possible_types@)[kept.len() as int] == names_of(types@)[k]);
                }
            }
            i += 1;
        }
        let ghost rest = old(self)@.narrowed(position, names);
        proof {
            assert(names_of(possible_types@).to_set() =~= rest) by {
                assert forall|name: Seq<char>| rest.contains(name) implies names_of(
                    possible_types@,
                ).to_set().contains(name) by {
                    let k = choose|k: int|
                        0 <= k < names_of(types@).len() && names_of(types@)[k] == name;
                    assert(names_of(possible_types@).contains(names_of(types@)[k]));
                }
                assert forall|name: Seq<char>|
                    names_of(possible_types@).to_set().contains(name) implies rest.contains(
                    name,
                ) by {
                    let k = choose|k: int|
                        0 <= k < names_of(possible_types@).len() && names_of(possible_types@)[k]
                            == name;
                    assert(names_of(types@).take(types.len() as int).contains(
                        names_of(possible_types@)[k],
                    ));
                    assert(names_of(types@).take(types.len() as int) == names_of(types@));
                }
            }
            names_of(possible_types@).unique_seq_to_set();
        }
        if possible_types.len() == 1 {
            // Only one possible type is left, so the cell collapses.
            proof {
                assert(rest.contains(names_of(possible_types@)[0]));
                assert(rest.contains(rest.choose()));
                let k = choose|k: int|
                    0 <= k < names_of(possible_types@).len() && names_of(possible_types@)[k]
                        == rest.choose();
            }
            self.tiles.put(position, Cell::Collapsed(possible_types[0].clone()));
        } else {
            self.tiles.put(position, Cell::Superposition(TypeSet::from_names(&possible_types)));
        }
        if possible_types.len() == 0 {
            self.contradiction = true;
        }
        if possible_types.len() != types.len() {
            let mut changed_positions: Vec<Position> = Vec::new();
            let mut k: usize = 0;
            while k < neighbours.len()
                invariant
                    k <= neighbours.len(),
                    changed_positions@ == neighbours@.map_values(
                        |entry: (Direction, Position, Cell)| entry.1,
                    ).take(k as int),
                decreases neighbours.len() - k,
            {
                changed_positions.push(neighbours[k].1);
                assert(changed_positions@ =~= neighbours@.map_values(
                    |entry: (Direction, Position, Cell)| entry.1,
                ).take(k + 1));
                k += 1;
            }
            assert(changed_positions@ =~= old(self)@.around(position).map_values(
                |entry: (Direction, Position)| entry.1,
            )) by {
                let listed = neighbours@.map_values(
                    |entry: (Direction, Position, Cell)| (entry.0, entry.1),
                );
                assert forall|j: int| 0 <= j < neighbours.len() implies changed_positions@[j]
                    == old(self)@.around(position)[j].1 by {
                    assert(listed[j] == (neighbours[j].0, neighbours[j].1));
                }
            }
            return Some(changed_positions);
        }
        None
    }

    /// The entropy of a cell with the candidates `types`.
    pub fn calculate_entropy(&self, types: &TypeSet) -> (entropy: i32)
        requires
            self@.rules.well_formed(),
        ensures
            entropy == self@.rules.entropy(types@),
            types@.finite(),
    {
        if types.count() == self.rules.tile_types.len() {
            return i32::MAX;
        }
        let mut entropy: i32 = 0;
        let mut i: usize = 0;
        proof {
            self.rules.lemma_weighs();
        }
        while i < self.rules.tile_types.len()
            invariant
                i <= self.rules.tile_types.len(),
                self@.rules.well_formed(),
                self@.rules.weighs(self.rules.tile_types.len() as int),
                entropy == self@.rules.weight_sum(types@, i as int),
            decreases self.rules.tile_types.len() - i,
        {
            proof {
                let limit = self.rules.tile_types.len() as int;
                self@.rules.lemma_weight_sum_bounds(types@, i as int, limit);
                self@.rules.lemma_weight_sum_bounds(types@, i + 1, limit);
            }
            let name = self.rules.tile_types[i].as_str();
            if types.has(name) {
                entropy = entropy + self.rules.get_weight_of_type(name);
            }
            i += 1;
        }
        entropy
    }

    /// The undecided cells of the lowest entropy, each once and in no
    /// particular order.
    pub fn lowest_entropy_positions(&self) -> (lowest_tiles: Vec<Position>)
        requires
            self@.rules.well_formed(),
        ensures
            lowest_tiles@.no_duplicates(),
            forall|position: Position|
                lowest_tiles@.contains(position) == #[trigger] self@.is_lowest(position),
            lowest_tiles.len() == 0 ==> self@.solved(),
            self@.finite(),
    {
        let places = self.tiles.positions();
        let mut lowest_tiles: Vec<Position> = Vec::new();
        let mut lowest_entropy: i32 = i32::MAX;
        let mut i: usize = 0;
        while i < places.len()
            invariant
                i <= places.len(),
                self@.rules.well_formed(),
                places@.no_duplicates(),
                places@.to_set() == self@.cells.dom(),
                lowest_tiles@.no_duplicates(),
                lowest_tiles.len() == 0 ==> lowest_entropy == i32::MAX,
                forall|k: int|
                    0 <= k < lowest_tiles.len() ==> {
                        &&& places@.take(i as int).contains(#[trigger] lowest_tiles[k])
                        &&& self@.is_open(lowest_tiles[k])
                        &&& self@.entropy_at(lowest_tiles[k]) == lowest_entropy
                    },
                forall|k: int|
                    0 <= k < i && self@.is_open(#[trigger] places[k]) ==> {
                        &&& lowest_entropy <= self@.entropy_at(places[k]) <= i32::MAX
                        &&& self@.entropy_at(places[k]) == lowest_entropy
                            ==> lowest_tiles@.contains(places[k])
                        &&& self@.candidates(places[k]).finite()
                    },
            decreases places.len() - i,
        {
            let position = places[i];
            let ghost before = lowest_tiles@;
            assert forall|k: int| 0 <= k < before.len() implies before[k] != position by {
                let j = choose|j: int|
                    0 <= j < places@.take(i as int).len() && places@.take(i as int)[j]
                        == before[k];
                assert(places[j] == before[k]);
            }
            match self.tiles.get(&position) {
                Some(Cell::Superposition(types)) => {
                    let entropy = self.calculate_entropy(types);
                    if entropy < lowest_entropy {
                        lowest_tiles = Vec::new();
                        lowest_tiles.push(position);
                        lowest_entropy = entropy;
                        assert(lowest_tiles@[0] == position);
                    } else if entropy == lowest_entropy {
                        lowest_tiles.push(position);
                        assert(lowest_tiles@[before.len() as int] == position);
                        assert forall|k: int|
                            0 <= k < i && self@.is_open(#[trigger] places[k]) && self@.entropy_at(
                                places[k],
                            ) == lowest_entropy implies lowest_tiles@.contains(places[k]) by {
                            let j = choose|j: int|
                                0 <= j < before.len() && before[j] == places[k];
                            assert(lowest_tiles@[j] == places[k]);
                        }
                    }
                },
                _ => {},
            }
            assert forall|k: int| 0 <= k < lowest_tiles.len() implies places@.take(
                i + 1,
            ).contains(#[trigger] lowest_tiles[k]) by {
                if lowest_tiles[k] == position {
                    assert(places@.take(i + 1)[i as int] == position);
                } else {
                    assert(before.contains(lowest_tiles[k]));
                    let j = choose|j: int|
                        0 <= j < places@.take(i as int).len() && places@.take(i as int)[j]
                            == lowest_tiles[k];
                    assert(places@.take(i + 1)[j] == lowest_tiles[k]);
                }
            }
            i += 1;
        }
        proof {
            assert forall|position: Position| #[trigger]
                self@.is_open(position) implies lowest_entropy <= self@.entropy_at(position)
                <= i32::MAX && (self@.entropy_at(position) == lowest_entropy
                ==> lowest_tiles@.contains(position)) && self@.candidates(position).finite() by {
                assert(places@.to_set().contains(position));
                let k = choose|k: int| 0 <= k < places.len() && places[k] == position;
                assert(self@.is_open(places[k]));
            }
            assert forall|position: Position|
                lowest_tiles@.contains(position) == #[trigger] self@.is_lowest(position) by {
                if lowest_tiles@.contains(position) {
                    let k = choose|k: int|
                        0 <= k < lowest_tiles.len() && lowest_tiles[k] == position;
                    assert(self@.is_open(lowest_tiles[k]));
                } else if self@.is_lowest(position) {
                    if lowest_tiles.len() > 0 {
                        assert(self@.is_open(lowest_tiles[0]));
                    }
                }
            }
        }
        lowest_tiles
    }

    /// Finds an undecided cell of the lowest entropy.
    /// If several cells share the lowest entropy, one of them is chosen at
    /// random, each as likely as any other.
    pub fn find_lowest_entropy(&self) -> (position: Option<Position>)
        requires
            self@.rules.well_formed(),
        ensures
            position.is_none() == self@.solved(),
            position matches Some(found) ==> self@.is_lowest(found),
            self@.finite(),
    {
        let lowest_tiles = self.lowest_entropy_positions();
        if lowest_tiles.len() == 0 {
            return None;
        }
        let found = lowest_tiles[random_below(lowest_tiles.len())];
        assert(lowest_tiles@.contains(found));
        assert(self@.is_lowest(found));
        Some(found)
    }

    /// Collapses an undecided cell of the lowest entropy to a type drawn
    /// from its candidates and returns its position.
    pub fn collapse_to_random_type(&mut self) -> (position: Option<Position>)
        requires
            old(self)@.rules.well_formed(),
        ensures
            position.is_none() == old(self)@.solved(),
            position.is_none() ==> *final(self) == *old(self),
            old(self)@.finite(),
            position matches Some(found) ==> old(self)@.is_lowest(found) && exists|name: Seq<char>|
                old(self)@.may_become(found, name) && final(self)@ == #[trigger] old(
                    self,
                )@.collapsed(found, name),
    {
        let position = match self.find_lowest_entropy() {
            Some(position) => position,
            None => {
                return None;
            },
        };
        let (tile, tickets) = match self.tiles.get(&position) {
            Some(Cell::Superposition(types)) => (
                self.rules.random_tile_from_set(types),
                self.rules.ticket_count(types),
            ),
            _ => {
                return None;
            },
        };
        if tickets == 0 {
            self.contradiction = true;
        }
        self.tiles.put(position, Cell::Collapsed(tile));
        assert(old(self)@.may_become(position, tile@));
        assert(self@ == old(self)@.collapsed(position, tile@));
        Some(position)
    }

    /// Appends the positions of the neighbours of `position` to `queue`.
    fn enqueue_neighbours(&self, position: &Position, queue: &mut VecDeque<Position>)
        ensures
            final(queue)@ == old(queue)@ + self@.around(*position).map_values(
                |entry: (Direction, Position)| entry.1,
            ),
    {
        let neighbours = self.get_all_neighbours(position);
        let ghost listed = neighbours@.map_values(
            |entry: (Direction, Position, Cell)| (entry.0, entry.1),
        );
        let ghost places = self@.around(*position).map_values(
            |entry: (Direction, Position)| entry.1,
        );
        let mut i: usize = 0;
        while i < neighbours.len()
            invariant
                i <= neighbours.len(),
                neighbours.len() == places.len(),
                listed == self@.around(*position),
                listed == neighbours@.map_values(
                    |entry: (Direction, Position, Cell)| (entry.0, entry.1),
                ),
                places == self@.around(*position).map_values(
                    |entry: (Direction, Position)| entry.1,
                ),
                queue@ == old(queue)@ + places.take(i as int),
            decreases neighbours.len() - i,
        {
            assert(listed[i as int] == (neighbours[i as int].0, neighbours[i as int].1));
            queue.push_back(neighbours[i].1);
            assert(queue@ =~= old(queue)@ + places.take(i + 1));
            i += 1;
        }
        assert(places.take(neighbours.len() as int) == places);
    }

    /// Appends `places` to `queue`.
    fn enqueue(places: Vec<Position>, queue: &mut VecDeque<Position>)
        ensures
            final(queue)@ == old(queue)@ + places@,
    {
        let mut i: usize = 0;
        while i < places.len()
            invariant
                i <= places.len(),
                queue@ == old(queue)@ + places@.take(i as int),
            decreases places.len() - i,
        {
            queue.push_back(places[i]);
            assert(queue@ =~= old(queue)@ + places@.take(i + 1));
            i += 1;
        }
        assert(places@.take(places.len() as int) == places@);
    }

    /// Collapses one undecided cell and holds the cells around it against
    /// it, then the cells around each cell that lost a candidate, until no
    /// cell is left to look at. Reports `Finished` where there was no
    /// undecided cell.
    pub fn update_and_propagate(&mut self) -> (status: MapStatus)
        requires
            old(self)@.rules.well_formed(),
        ensures
            (status == MapStatus::Finished) == old(self)@.solved(),
            status == MapStatus::Finished ==> *final(self) == *old(self),
            status == MapStatus::Generating ==> exists|position: Position, name: Seq<char>|
                old(self)@.may_step(position, name) && final(self)@ == #[trigger] old(
                    self,
                )@.stepped(position, name),
            old(self)@.finite(),
    {
        let mut updated_positions: VecDeque<Position> = VecDeque::new();
        let ghost mut found: Position;
        let ghost mut name: Seq<char>;
        match self.collapse_to_random_type() {
            Some(position) => {
                proof {
                    found = position;
                    name = choose|name: Seq<char>|
                        old(self)@.may_become(position, name) && self@ == #[trigger] old(
                            self,
                        )@.collapsed(position, name);
                    old(self)@.lemma_collapsed_finite(position, name);
                    old(self)@.lemma_collapsed_undecided(position, name);
                    self@.lemma_around_same(old(self)@, position);
                }
                self.enqueue_neighbours(&position, &mut updated_positions);
                assert(updated_positions@ =~= old(self)@.around(position).map_values(
                    |entry: (Direction, Position)| entry.1,
                ));
            },
            None => {
                return MapStatus::Finished;
            },
        }
        while updated_positions.len() > 0
            invariant
                self@.finite(),
                old(self)@.may_step(found, name),
                self@.propagated(updated_positions@) == old(self)@.stepped(found, name),
            decreases self@.undecided(), updated_positions@.len(),
        {
            let ghost before = self@;
            let ghost waiting = updated_positions@;
            let position = match updated_positions.pop_front() {
                Some(position) => position,
                None => {
                    return MapStatus::Generating;
                },
            };
            let changed = self.update_cell(position);
            proof {
                before.lemma_updated_undecided(position);
                before.lemma_updated_finite(position);
                assert(updated_positions@ =~= waiting.drop_first());
                assert(waiting.drop_first() + Seq::<Position>::empty() =~= waiting.drop_first());
            }
            match changed {
                Some(places) => {
                    Self::enqueue(places, &mut updated_positions);
                },
                None => {},
            }
            assert(updated_positions@ == waiting.drop_first() + before.ripples(position));
        }
        assert(updated_positions@ =~= Seq::<Position>::empty());
        MapStatus::Generating
    }

    /// Collapses cell after cell until every cell of the grid is decided.
    pub fn collapse_all(&mut self)
        requires
            old(self)@.rules.well_formed(),
        ensures
            final(self)@.solved(),
            exists|steps: nat| old(self)@.leads_to(final(self)@, steps),
            old(self)@.finite(),
    {
        let ghost mut steps: nat = 0;
        loop
            invariant
                self@.rules.well_formed(),
                old(self)@.leads_to(self@, steps),
                steps > 0 ==> old(self)@.finite(),
            ensures
                self@.solved(),
                old(self)@.leads_to(self@, steps),
                old(self)@.finite(),
            decreases self@.undecided(),
        {
            let ghost before = self@;
            if let MapStatus::Finished = self.update_and_propagate() {
                break ;
            }
            proof {
                let (position, name) = choose|position: Position, name: Seq<char>|
                    before.may_step(position, name) && self@ == #[trigger] before.stepped(
                        position,
                        name,
                    );
                before.lemma_stepped(position, name);
                old(self)@.lemma_leads_on(before, steps, position, name);
                steps = steps + 1;
            }
        }
    }

    /// Decides every cell of the grid anew: starts from the grid on which
    /// nothing is decided, collapses cell after cell until none is left
    /// undecided, and then turns the beach tiles that touch no land into
    /// liquid.
    pub fn generate(&mut self)
        requires
            old(self)@.rules.well_formed(),
        ensures
            exists|solved: MapView, steps: nat|
                solved.solved() && #[trigger] old(self)@.blank().leads_to(solved, steps)
                    && final(self)@ == solved.without_islands(),
            final(self)@.solved(),
            final(self)@.cells.dom() == old(self)@.blank_cells().dom(),
            final(self)@.width == old(self)@.width,
            final(self)@.height == old(self)@.height,
            final(self)@.rules == old(self)@.rules,
    {
        self.init_tiles();
        self.collapse_all();
        let ghost solved = self@;
        self.remove_sand_islands();
        proof {
            let steps = choose|steps: nat| old(self)@.blank().leads_to(solved, steps);
            old(self)@.blank().lemma_leads_to_keeps(solved, steps);
            assert forall|position: Position| !#[trigger] self@.is_open(position) by {
                assert(!solved.is_open(position));
            }
            assert(self@.cells.dom() =~= solved.cells.dom());
        }
    }

    /// Whether no cell that touches `position`, along a side or at a
    /// corner, is decided to be land.
    pub fn should_remove_sand(&self, position: &Position) -> (lonely: bool)
        ensures
            lonely == self@.lonely(*position),
    {
        let grass = LAND_TILE.to_owned();
        let mut dx: i64 = -1;
        while dx < 2
            invariant
                -1 <= dx <= 2,
                grass@ == LAND_TILE@,
                forall|other: Position|
                    touches(*position, other) && other.x - position.x < dx
                        ==> !#[trigger] self@.is_land(other),
            decreases 2 - dx,
        {
            let mut dy: i64 = -1;
            while dy < 2
                invariant
                    -1 <= dx < 2,
                    -1 <= dy <= 2,
                    grass@ == LAND_TILE@,
                    forall|other: Position|
                        touches(*position, other) && (other.x - position.x < dx || (other.x
                            - position.x == dx && other.y - position.y < dy))
                            ==> !#[trigger] self@.is_land(other),
                decreases 2 - dy,
            {
                let x: i64 = position.x as i64 + dx;
                let y: i64 = position.y as i64 + dy;
                if (dx != 0 || dy != 0) && i32::MIN as i64 <= x && x <= i32::MAX as i64
                    && i32::MIN as i64 <= y && y <= i32::MAX as i64 {
                    let place = Position { x: x as i32, y: y as i32 };
                    match self.tiles.get(&place) {
                        Some(Cell::Collapsed(tile)) => {
                            if *tile == grass {
                                assert(touches(*position, place));
                                assert(self@.is_land(place));
                                return false;
                            }
                        },
                        _ => {},
                    }
                }
                dy += 1;
            }
            dx += 1;
        }
        true
    }

    /// Turns every beach tile that touches no land into liquid.
    pub fn remove_sand_islands(&mut self)
        ensures
            final(self)@ == old(self)@.without_islands(),
    {
        let sand = BEACH_TILE.to_owned();
        let places = self.tiles.positions();
        let mut cells_to_update: Vec<Position> = Vec::new();
        let mut i: usize = 0;
        while i < places.len()
            invariant
                i <= places.len(),
                *self == *old(self),
                sand@ == BEACH_TILE@,
                places@.to_set() == self@.cells.dom(),
                forall|k: int|
                    0 <= k < cells_to_update.len() ==> self@.is_island(
                        #[trigger] cells_to_update[k],
                    ),
                forall|k: int|
                    0 <= k < i && self@.is_island(#[trigger] places[k])
                        ==> cells_to_update@.contains(places[k]),
            decreases places.len() - i,
        {
            let position = places[i];
            let ghost before = cells_to_update@;
            assert(places@.contains(position));
            assert(self@.cells.dom().contains(position));
            let beach = match self.tiles.get(&position) {
                Some(Cell::Collapsed(tile)) => *tile == sand,
                _ => false,
            };
            if beach && self.should_remove_sand(&position) {
                cells_to_update.push(position);
                assert(cells_to_update@[before.len() as int] == position);
            }
            assert forall|k: int|
                0 <= k < i + 1 && self@.is_island(
                    #[trigger] places[k],
                ) implies cells_to_update@.contains(places[k]) by {
                if k < i {
                    let j = choose|j: int| 0 <= j < before.len() && before[j] == places[k];
                    assert(cells_to_update@[j] == places[k]);
                }
            }
            i += 1;
        }
        let water = LIQUID_TILE.to_owned();
        let mut k: usize = 0;
        while k < cells_to_update.len()
            invariant
                k <= cells_to_update.len(),
                water@ == LIQUID_TILE@,
                self@.width == old(self)@.width,
                self@.height == old(self)@.height,
                self@.rules == old(self)@.rules,
                self@.contradiction == old(self)@.contradiction,
                forall|j: int|
                    0 <= j < cells_to_update.len() ==> old(self)@.cells.contains_key(
                        #[trigger] cells_to_update[j],
                    ),
                self@.cells =~= Map::new(
                    |position: Position| old(self)@.cells.contains_key(position),
                    |position: Position|
                        if cells_to_update@.take(k as int).contains(position) {
                            CellView::Collapsed(LIQUID_TILE@)
                        } else {
                            old(self)@.cells[position]
                        },
                ),
            decreases cells_to_update.len() - k,
        {
            let position = cells_to_update[k];
            self.tiles.put(position, Cell::Collapsed(water.clone()));
            proof {
                let shorter = cells_to_update@.take(k as int);
                let longer = cells_to_update@.take(k + 1);
                assert forall|place: Position|
                    longer.contains(place) == (shorter.contains(place) || place
                        == position) by {
                    if longer.contains(place) {
                        let j = choose|j: int| 0 <= j < longer.len() && longer[j] == place;
                        if j < k {
                            assert(shorter[j] == place);
                        }
                    }
                    if shorter.contains(place) {
                        let j = choose|j: int| 0 <= j < shorter.len() && shorter[j] == place;
                        assert(longer[j] == place);
                    }
                    if place == position {
                        assert(longer[k as int] == place);
                    }
                }
            }
            k += 1;
        }
        proof {
            assert(cells_to_update@.take(cells_to_update.len() as int) == cells_to_update@);
            assert forall|position: Position|
                old(self)@.cells.contains_key(position) implies cells_to_update@.contains(
                position,
            ) == old(self)@.is_island(position) by {
                if cells_to_update@.contains(position) {
                    let j = choose|j: int|
                        0 <= j < cells_to_update.len() && cells_to_update[j] == position;
                    assert(old(self)@.is_island(cells_to_update[j]));
                }
                if old(self)@.is_island(position) {
                    assert(places@.to_set().contains(position));
                    let j = choose|j: int| 0 <= j < places.len() && places[j] == position;
                    assert(old(self)@.is_island(places[j]));
                }
            }
            assert(self@.cells =~= old(self)@.without_islands().cells);
        }
    }
}

} // verus!
