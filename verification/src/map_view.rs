//! The grid as plain values, and what the steps of generation make of it.

use crate::cell::CellView;
use crate::tile_map::{Position, BEACH_TILE, LAND_TILE, LIQUID_TILE};
use crate::tile_rules::{Direction, RulesView, Validity, DEFAULT_TILE};
use crate::tile_rules::opposite;
use vstd::prelude::*;
use vstd::seq_lib::seq_to_set_is_finite;

verus! {

/// How far a step in `direction` leads along `x`.
pub open spec fn step_x(direction: Direction) -> int {
    match direction {
        Direction::East => 1,
        Direction::West => -1,
        _ => 0,
    }
}

/// How far a step in `direction` leads along `y`.
pub open spec fn step_y(direction: Direction) -> int {
    match direction {
        Direction::North => -1,
        Direction::South => 1,
        _ => 0,
    }
}

/// The four directions in the order in which neighbours are listed.
pub open spec fn direction_at(rank: int) -> Direction {
    if rank == 0 {
        Direction::North
    } else if rank == 1 {
        Direction::East
    } else if rank == 2 {
        Direction::South
    } else {
        Direction::West
    }
}

/// The place of a direction in that order.
pub open spec fn rank_of(direction: Direction) -> int {
    match direction {
        Direction::North => 0,
        Direction::East => 1,
        Direction::South => 2,
        Direction::West => 3,
    }
}

impl Position {
    /// The position that a step in `direction` leads to.
    pub open spec fn moved(self, direction: Direction) -> Position {
        Position {
            x: (self.x + step_x(direction)) as i32,
            y: (self.y + step_y(direction)) as i32,
        }
    }
}

/// Whether `other` touches `position`: it lies beside it, along a side or
/// at a corner.
pub open spec fn touches(position: Position, other: Position) -> bool {
    other != position && -1 <= other.x - position.x <= 1 && -1 <= other.y - position.y <= 1
}

/// How much of a cell is undecided: nothing of a decided cell, and of an
/// undecided one a unit for being undecided and one for each candidate.
pub open spec fn load(cell: CellView) -> nat {
    match cell {
        CellView::Collapsed(_) => 0,
        CellView::Superposition(names) => names.len() + 1,
    }
}

/// The loads of the cells at `places`, added up.
pub open spec fn load_over(cells: Map<Position, CellView>, places: Seq<Position>) -> nat
    decreases places.len(),
{
    if places.len() == 0 {
        0
    } else {
        load_over(cells, places.drop_last()) + load(cells[places.last()])
    }
}

/// Replacing a cell by one with no greater load does not raise the sum of
/// the loads, and lowers it where the cell is among `places` and its load
/// gets smaller.
pub proof fn lemma_load_over_insert(
    cells: Map<Position, CellView>,
    places: Seq<Position>,
    position: Position,
    cell: CellView,
)
    requires
        load(cell) <= load(cells[position]),
    ensures
        load_over(cells.insert(position, cell), places) <= load_over(cells, places),
        places.contains(position) && load(cell) < load(cells[position]) ==> load_over(
            cells.insert(position, cell),
            places,
        ) < load_over(cells, places),
    decreases places.len(),
{
    if places.len() > 0 {
        lemma_load_over_insert(cells, places.drop_last(), position, cell);
        if places.contains(position) && places.last() != position {
            let k = choose|k: int| 0 <= k < places.len() && places[k] == position;
            assert(places.drop_last()[k] == position);
        }
    }
}

/// A grid as plain values.
pub struct MapView {
    pub width: i32,
    pub height: i32,
    pub cells: Map<Position, CellView>,
    pub rules: RulesView,
    pub contradiction: bool,
}

impl MapView {
    /// Whether `position` lies on the grid.
    pub open spec fn in_bounds(self, position: Position) -> bool {
        0 <= position.x < self.width && 0 <= position.y < self.height
    }

    /// Whether `position` lies on the grid and has a cell.
    pub open spec fn on_grid(self, position: Position) -> bool {
        self.in_bounds(position) && self.cells.contains_key(position)
    }

    /// The cell that may still become every tile type.
    pub open spec fn open_cell(self) -> CellView {
        CellView::Superposition(self.rules.tile_types.to_set())
    }

    /// The cells of a grid on which nothing has been decided: every position
    /// of the grid leads to the cell that may still become every tile type.
    pub open spec fn blank_cells(self) -> Map<Position, CellView> {
        Map::new(
            |position: Position| self.in_bounds(position),
            |position: Position| self.open_cell(),
        )
    }

    /// The grid with nothing decided on it.
    pub open spec fn blank(self) -> MapView {
        MapView { cells: self.blank_cells(), contradiction: false, ..self }
    }

    /// The neighbour of `position` in `direction`: the position that the
    /// step leads to, if it lies on the grid and has a cell.
    pub open spec fn neighbour(self, position: Position, direction: Direction) -> Option<Position> {
        if 0 <= position.x + step_x(direction) < self.width && 0 <= position.y + step_y(direction)
            < self.height && self.cells.contains_key(position.moved(direction)) {
            Some(position.moved(direction))
        } else {
            None
        }
    }

    /// The neighbours of `position` in the first `count` directions, each
    /// with the direction that leads to it.
    pub open spec fn around_upto(self, position: Position, count: int) -> Seq<(Direction, Position)>
        decreases count,
    {
        if count <= 0 {
            Seq::empty()
        } else {
            match self.neighbour(position, direction_at(count - 1)) {
                Some(place) => self.around_upto(position, count - 1).push(
                    (direction_at(count - 1), place),
                ),
                None => self.around_upto(position, count - 1),
            }
        }
    }

    /// The neighbours of `position`, to the north, east, south and west in
    /// that order, each with the direction that leads to it.
    pub open spec fn around(self, position: Position) -> Seq<(Direction, Position)> {
        self.around_upto(position, 4)
    }

    /// What the neighbour of `position` in `direction` says of `candidate`,
    /// if there is a neighbour.
    pub open spec fn verdict_at(
        self,
        position: Position,
        candidate: Seq<char>,
        direction: Direction,
    ) -> Option<Validity> {
        match self.neighbour(position, direction) {
            Some(place) => Some(self.rules.verdict(candidate, self.cells[place], direction)),
            None => None,
        }
    }

    /// Whether `candidate` stays possible at `position`: no neighbour
    /// forbids it, and at least one confirms it.
    pub open spec fn survives(self, position: Position, candidate: Seq<char>) -> bool {
        &&& forall|direction: Direction| #[trigger]
            self.verdict_at(position, candidate, direction) != Some(Validity::Impossible)
        &&& exists|direction: Direction| #[trigger]
            self.verdict_at(position, candidate, direction) == Some(Validity::Valid)
    }

    /// What the neighbour listed at `index` around `position` says of
    /// `candidate`.
    pub open spec fn said(self, position: Position, candidate: Seq<char>, index: int) -> Validity {
        self.rules.verdict(
            candidate,
            self.cells[self.around(position)[index].1],
            self.around(position)[index].0,
        )
    }

    /// The types that stay possible at `position`, of those in `names`.
    pub open spec fn narrowed(self, position: Position, names: Set<Seq<char>>) -> Set<Seq<char>> {
        names.filter(|candidate: Seq<char>| self.survives(position, candidate))
    }

    /// Whether the cell at `position` is undecided and loses a candidate
    /// when it is held against its neighbours.
    pub open spec fn narrows_at(self, position: Position) -> bool {
        &&& self.cells.contains_key(position)
        &&& self.cells[position] matches CellView::Superposition(names)
        &&& self.narrowed(position, names).len() != names.len()
    }

    /// The grid after the cell at `position` has been held against its
    /// neighbours. A decided cell stays as it is. An undecided cell keeps
    /// the candidates that stay possible; it is decided if exactly one
    /// stays, and if none stays that is recorded as a contradiction.
    pub open spec fn updated(self, position: Position) -> MapView {
        if self.cells.contains_key(position) {
            match self.cells[position] {
                CellView::Collapsed(_) => self,
                CellView::Superposition(names) => {
                    let rest = self.narrowed(position, names);
                    MapView {
                        cells: self.cells.insert(
                            position,
                            if rest.len() == 1 {
                                CellView::Collapsed(rest.choose())
                            } else {
                                CellView::Superposition(rest)
                            },
                        ),
                        contradiction: self.contradiction || rest.len() == 0,
                        ..self
                    }
                },
            }
        } else {
            self
        }
    }

    /// Whether the grid has an undecided cell at `position`.
    pub open spec fn is_open(self, position: Position) -> bool {
        self.cells.contains_key(position) && self.cells[position] is Superposition
    }

    /// The candidates of the undecided cell at `position`.
    pub open spec fn candidates(self, position: Position) -> Set<Seq<char>> {
        self.cells[position]->Superposition_0
    }

    /// The entropy of the undecided cell at `position`.
    pub open spec fn entropy_at(self, position: Position) -> int {
        self.rules.entropy(self.candidates(position))
    }

    /// Whether the cell at `position` is undecided and no undecided cell of
    /// the grid has a lower entropy.
    pub open spec fn is_lowest(self, position: Position) -> bool {
        &&& self.is_open(position)
        &&& forall|other: Position| #[trigger]
            self.is_open(other) ==> self.entropy_at(position) <= self.entropy_at(other)
    }

    /// Whether every cell of the grid is decided.
    pub open spec fn solved(self) -> bool {
        forall|position: Position| !#[trigger] self.is_open(position)
    }

    /// Whether the undecided cell at `position` may be collapsed to `name`:
    /// to a type that holds a ticket in the lottery of its candidates, and
    /// to the default type where there is no ticket.
    pub open spec fn may_become(self, position: Position, name: Seq<char>) -> bool {
        let lottery = self.rules.lottery(self.candidates(position));
        if lottery.len() == 0 {
            name == DEFAULT_TILE@
        } else {
            lottery.contains(name) && self.candidates(position).contains(name)
        }
    }

    /// The grid after the undecided cell at `position` has been collapsed to
    /// `name`. That there was no ticket to draw is recorded as a
    /// contradiction.
    pub open spec fn collapsed(self, position: Position, name: Seq<char>) -> MapView {
        MapView {
            cells: self.cells.insert(position, CellView::Collapsed(name)),
            contradiction: self.contradiction || self.rules.lottery(
                self.candidates(position),
            ).len() == 0,
            ..self
        }
    }

    /// Whether the grid has finitely many cells, each undecided one with
    /// finitely many candidates.
    pub open spec fn finite(self) -> bool {
        &&& self.cells.dom().finite()
        &&& forall|position: Position| #[trigger]
            self.is_open(position) ==> self.candidates(position).finite()
    }

    /// What is left to decide on the grid: the loads of all its cells.
    pub open spec fn undecided(self) -> nat {
        load_over(self.cells, self.cells.dom().to_seq())
    }

    /// The positions that have to be looked at after the cell at `position`
    /// has been held against its neighbours: its neighbours if it lost a
    /// candidate, and none otherwise.
    pub open spec fn ripples(self, position: Position) -> Seq<Position> {
        if self.narrows_at(position) {
            self.around(position).map_values(|entry: (Direction, Position)| entry.1)
        } else {
            Seq::empty()
        }
    }

    /// The grid after the cells at the positions in `waiting` have been
    /// held against their neighbours, first come first served, each adding
    /// its ripples to the end of the queue, until the queue is empty.
    pub open spec fn propagated(self, waiting: Seq<Position>) -> MapView
        decreases self.undecided(), waiting.len(),
        when self.finite()
    {
        if waiting.len() == 0 {
            self
        } else {
            proof {
                self.lemma_updated_undecided(waiting[0]);
            }
            self.updated(waiting[0]).propagated(
                waiting.drop_first() + self.ripples(waiting[0]),
            )
        }
    }

    /// Whether one step of generation may collapse the cell at `position`
    /// to `name`: the cell is an undecided cell of the lowest entropy, and
    /// `name` is a type that it may be collapsed to.
    pub open spec fn may_step(self, position: Position, name: Seq<char>) -> bool {
        self.is_lowest(position) && self.may_become(position, name)
    }

    /// The grid after one step of generation that collapses the cell at
    /// `position` to `name`: the cell is collapsed, and what follows from
    /// that is propagated, starting with the neighbours of the cell.
    pub open spec fn stepped(self, position: Position, name: Seq<char>) -> MapView {
        self.collapsed(position, name).propagated(
            self.around(position).map_values(|entry: (Direction, Position)| entry.1),
        )
    }

    /// Whether `steps` steps of generation can lead from this grid to
    /// `goal`.
    pub open spec fn leads_to(self, goal: MapView, steps: nat) -> bool
        decreases steps,
    {
        if steps == 0 {
            self == goal
        } else {
            exists|position: Position, name: Seq<char>|
                self.may_step(position, name) && (#[trigger] self.stepped(
                    position,
                    name,
                )).leads_to(goal, (steps - 1) as nat)
        }
    }

    /// Whether `other` has the size, the rule table and the positions of
    /// this grid, and records a contradiction if this grid does.
    pub open spec fn kept_by(self, other: MapView) -> bool {
        &&& other.width == self.width
        &&& other.height == self.height
        &&& other.rules == self.rules
        &&& other.cells.dom() == self.cells.dom()
        &&& self.contradiction ==> other.contradiction
    }

    /// Whether the cell at `position` is decided to be land.
    pub open spec fn is_land(self, position: Position) -> bool {
        self.cells.contains_key(position) && self.cells[position] == CellView::Collapsed(
            LAND_TILE@,
        )
    }

    /// Whether no cell that touches `position` is decided to be land.
    pub open spec fn lonely(self, position: Position) -> bool {
        forall|other: Position| touches(position, other) ==> !#[trigger] self.is_land(other)
    }

    /// Whether the cell at `position` is a beach tile that touches no land.
    pub open spec fn is_island(self, position: Position) -> bool {
        &&& self.cells.contains_key(position)
        &&& self.cells[position] == CellView::Collapsed(BEACH_TILE@)
        &&& self.lonely(position)
    }

    /// The grid with every beach tile that touches no land turned into
    /// liquid.
    pub open spec fn without_islands(self) -> MapView {
        MapView {
            cells: Map::new(
                |position: Position| self.cells.contains_key(position),
                |position: Position|
                    if self.is_island(position) {
                        CellView::Collapsed(LIQUID_TILE@)
                    } else {
                        self.cells[position]
                    },
            ),
            ..self
        }
    }

    /// Every neighbour listed for the first `count` directions is the
    /// neighbour in its direction, and every neighbour in one of these
    /// directions is listed.
    pub proof fn lemma_around_upto(self, position: Position, count: int)
        requires
            0 <= count <= 4,
        ensures
            forall|index: int|
                0 <= index < self.around_upto(position, count).len() ==> {
                    let entry = #[trigger] self.around_upto(position, count)[index];
                    self.neighbour(position, entry.0) == Some(entry.1) && rank_of(entry.0) < count
                },
            forall|direction: Direction|
                rank_of(direction) < count && (#[trigger] self.neighbour(
                    position,
                    direction,
                )).is_some() ==> self.around_upto(position, count).contains(
                    (direction, self.neighbour(position, direction).unwrap()),
                ),
        decreases count,
    {
        if count > 0 {
            self.lemma_around_upto(position, count - 1);
            let fewer = self.around_upto(position, count - 1);
            let here = direction_at(count - 1);
            assert(rank_of(here) == count - 1);
            assert forall|direction: Direction|
                rank_of(direction) < count && (#[trigger] self.neighbour(
                    position,
                    direction,
                )).is_some() implies self.around_upto(position, count).contains(
                (direction, self.neighbour(position, direction).unwrap()),
            ) by {
                let entry = (direction, self.neighbour(position, direction).unwrap());
                if rank_of(direction) < count - 1 {
                    assert(fewer.contains(entry));
                    let k = choose|k: int| 0 <= k < fewer.len() && fewer[k] == entry;
                    assert(self.around_upto(position, count)[k] == entry);
                } else {
                    assert(direction == here);
                    assert(self.around_upto(position, count) == fewer.push(entry));
                    assert(fewer.push(entry)[fewer.len() as int] == entry);
                }
            }
        }
    }

    /// Two grids of one size with cells at the same positions list the same
    /// neighbours.
    pub proof fn lemma_around_same(self, other: MapView, position: Position)
        requires
            self.width == other.width,
            self.height == other.height,
            self.cells.dom() == other.cells.dom(),
        ensures
            self.around(position) == other.around(position),
    {
        reveal_with_fuel(MapView::around_upto, 5);
        assert forall|direction: Direction|
            self.neighbour(position, direction) == other.neighbour(position, direction) by {
            assert(self.cells.contains_key(position.moved(direction))
                == other.cells.dom().contains(position.moved(direction)));
        }
    }

    /// What the neighbours of `position` say of `candidate` is what the
    /// entries of the list of its neighbours say.
    pub proof fn lemma_around(self, position: Position, candidate: Seq<char>)
        ensures
            forall|index: int|
                0 <= index < self.around(position).len() ==> self.verdict_at(
                    position,
                    candidate,
                    self.around(position)[index].0,
                ) == Some(#[trigger] self.said(position, candidate, index)),
            forall|direction: Direction|
                (#[trigger] self.verdict_at(position, candidate, direction)).is_some()
                    ==> exists|index: int|
                    0 <= index < self.around(position).len() && self.verdict_at(
                        position,
                        candidate,
                        direction,
                    ) == Some(#[trigger] self.said(position, candidate, index)),
    {
        self.lemma_around_upto(position, 4);
        assert forall|direction: Direction|
            (#[trigger] self.verdict_at(position, candidate, direction)).is_some() implies exists|
            index: int,
        |
            0 <= index < self.around(position).len() && self.verdict_at(
                position,
                candidate,
                direction,
            ) == Some(#[trigger] self.said(position, candidate, index)) by {
            assert(self.neighbour(position, direction).is_some());
            let entry = (direction, self.neighbour(position, direction).unwrap());
            assert(self.around(position).contains(entry));
            let index = choose|index: int|
                0 <= index < self.around(position).len() && self.around(position)[index] == entry;
            assert(self.verdict_at(position, candidate, direction) == Some(
                self.said(position, candidate, index),
            ));
        }
    }

    /// Seen from a neighbour, the cell it is a neighbour of lies in the
    /// opposite direction.
    pub proof fn lemma_neighbour_back(self, position: Position, direction: Direction)
        requires
            self.on_grid(position),
            self.neighbour(position, direction) is Some,
        ensures
            self.on_grid(self.neighbour(position, direction).unwrap()),
            self.neighbour(self.neighbour(position, direction).unwrap(), opposite(direction))
                == Some(position),
            self.neighbour(position, direction).unwrap() != position,
    {
    }

    /// A neighbour is listed among the neighbours.
    pub proof fn lemma_neighbour_listed(self, position: Position, direction: Direction)
        requires
            self.neighbour(position, direction) is Some,
        ensures
            self.around(position).map_values(|entry: (Direction, Position)| entry.1).contains(
                self.neighbour(position, direction).unwrap(),
            ),
    {
        self.lemma_around_upto(position, 4);
        let entry = (direction, self.neighbour(position, direction).unwrap());
        assert(self.around(position).contains(entry));
        let index = choose|index: int|
            0 <= index < self.around(position).len() && self.around(position)[index] == entry;
        assert(self.around(position).map_values(|entry: (Direction, Position)| entry.1)[index]
            == entry.1);
    }

    /// Holding a cell against its neighbours leaves no more to decide than
    /// before, and less where the cell loses a candidate.
    pub proof fn lemma_updated_undecided(self, position: Position)
        requires
            self.cells.dom().finite(),
            self.is_open(position) ==> self.candidates(position).finite(),
        ensures
            self.updated(position).cells.dom() == self.cells.dom(),
            self.updated(position).undecided() <= self.undecided(),
            self.narrows_at(position) ==> self.updated(position).undecided() < self.undecided(),
    {
        if self.is_open(position) {
            let names = self.candidates(position);
            let rest = self.narrowed(position, names);
            let cell = if rest.len() == 1 {
                CellView::Collapsed(rest.choose())
            } else {
                CellView::Superposition(rest)
            };
            vstd::set_lib::lemma_len_subset(rest, names);
            assert(self.updated(position).cells == self.cells.insert(position, cell));
            assert(self.cells.insert(position, cell).dom() =~= self.cells.dom());
            lemma_load_over_insert(self.cells, self.cells.dom().to_seq(), position, cell);
            self.cells.dom().lemma_to_seq_to_set_id();
            assert(self.cells.dom().to_seq().to_set().contains(position));
        }
    }

    /// Collapsing an undecided cell leaves less to decide than before.
    pub proof fn lemma_collapsed_undecided(self, position: Position, name: Seq<char>)
        requires
            self.cells.dom().finite(),
            self.is_open(position),
        ensures
            self.collapsed(position, name).cells.dom() == self.cells.dom(),
            self.collapsed(position, name).undecided() < self.undecided(),
    {
        let cell = CellView::Collapsed(name);
        assert(self.cells.insert(position, cell).dom() =~= self.cells.dom());
        lemma_load_over_insert(self.cells, self.cells.dom().to_seq(), position, cell);
        self.cells.dom().lemma_to_seq_to_set_id();
        assert(self.cells.dom().to_seq().to_set().contains(position));
    }

    /// Holding a cell against its neighbours keeps a finite grid finite.
    pub proof fn lemma_updated_finite(self, position: Position)
        requires
            self.finite(),
        ensures
            self.updated(position).finite(),
    {
        let after = self.updated(position);
        if self.is_open(position) {
            let names = self.candidates(position);
            let rest = self.narrowed(position, names);
            vstd::set_lib::lemma_len_subset(rest, names);
            assert(after.cells.dom() =~= self.cells.dom());
            assert forall|place: Position| #[trigger] after.is_open(place) implies after.candidates(
                place,
            ).finite() by {
                if place != position {
                    assert(self.is_open(place));
                }
            }
        }
    }

    /// Collapsing a cell keeps a finite grid finite.
    pub proof fn lemma_collapsed_finite(self, position: Position, name: Seq<char>)
        requires
            self.finite(),
            self.is_open(position),
        ensures
            self.collapsed(position, name).finite(),
    {
        let after = self.collapsed(position, name);
        assert(after.cells.dom() =~= self.cells.dom());
        assert forall|place: Position| #[trigger] after.is_open(place) implies after.candidates(
            place,
        ).finite() by {
            assert(self.is_open(place));
        }
    }

    /// Propagation keeps a finite grid finite, keeps its size, rule table
    /// and positions, turns no decided cell into an undecided one, and
    /// leaves no more to decide than before.
    pub proof fn lemma_propagated(self, waiting: Seq<Position>)
        requires
            self.finite(),
        ensures
            self.propagated(waiting).finite(),
            self.kept_by(self.propagated(waiting)),
            self.propagated(waiting).undecided() <= self.undecided(),
            forall|position: Position| #[trigger]
                self.propagated(waiting).is_open(position) ==> self.is_open(position),
        decreases self.undecided(), waiting.len(),
    {
        if waiting.len() > 0 {
            let next = self.updated(waiting[0]);
            self.lemma_updated_undecided(waiting[0]);
            self.lemma_updated_finite(waiting[0]);
            next.lemma_propagated(waiting.drop_first() + self.ripples(waiting[0]));
        }
    }

    /// A step of generation keeps a finite grid finite, keeps its size,
    /// rule table and positions, and leaves less to decide than before.
    pub proof fn lemma_stepped(self, position: Position, name: Seq<char>)
        requires
            self.finite(),
            self.is_open(position),
        ensures
            self.stepped(position, name).finite(),
            self.kept_by(self.stepped(position, name)),
            self.stepped(position, name).undecided() < self.undecided(),
    {
        self.lemma_collapsed_finite(position, name);
        self.lemma_collapsed_undecided(position, name);
        self.collapsed(position, name).lemma_propagated(
            self.around(position).map_values(|entry: (Direction, Position)| entry.1),
        );
    }

    /// Where some steps lead from this grid to `middle`, and one more step
    /// leads on from there, one step more leads from this grid to where that
    /// step ends.
    pub proof fn lemma_leads_on(
        self,
        middle: MapView,
        steps: nat,
        position: Position,
        name: Seq<char>,
    )
        requires
            self.leads_to(middle, steps),
            middle.may_step(position, name),
        ensures
            self.leads_to(middle.stepped(position, name), steps + 1),
        decreases steps,
    {
        if steps == 0 {
            assert(middle.stepped(position, name).leads_to(middle.stepped(position, name), 0));
        } else {
            let (first, drawn) = choose|first: Position, drawn: Seq<char>|
                self.may_step(first, drawn) && (#[trigger] self.stepped(first, drawn)).leads_to(
                    middle,
                    (steps - 1) as nat,
                );
            self.stepped(first, drawn).lemma_leads_on(middle, (steps - 1) as nat, position, name);
        }
    }

    /// Steps of generation keep a finite grid finite and keep its size,
    /// rule table and positions.
    pub proof fn lemma_leads_to_keeps(self, goal: MapView, steps: nat)
        requires
            self.finite(),
            self.leads_to(goal, steps),
        ensures
            goal.finite(),
            self.kept_by(goal),
        decreases steps,
    {
        if steps > 0 {
            let (first, drawn) = choose|first: Position, drawn: Seq<char>|
                self.may_step(first, drawn) && (#[trigger] self.stepped(first, drawn)).leads_to(
                    goal,
                    (steps - 1) as nat,
                );
            self.lemma_stepped(first, drawn);
            self.stepped(first, drawn).lemma_leads_to_keeps(goal, (steps - 1) as nat);
        }
    }

    /// The grid on which nothing is decided is finite.
    pub proof fn lemma_blank_finite(self)
        ensures
            self.blank().finite(),
    {
        lemma_rectangle_finite(self.width as int, self.height as int);
        assert(self.blank().cells.dom() =~= rectangle(self.width as int, self.height as int));
        seq_to_set_is_finite(self.rules.tile_types);
    }
}

/// The positions with `x` and with `y` below `height`.
pub open spec fn column(x: i32, height: int) -> Set<Position> {
    Set::new(|position: Position| position.x == x && 0 <= position.y < height)
}

/// The positions with `x` below `width` and `y` below `height`.
pub open spec fn rectangle(width: int, height: int) -> Set<Position> {
    Set::new(|position: Position| 0 <= position.x < width && 0 <= position.y < height)
}

/// A column holds finitely many positions.
pub proof fn lemma_column_finite(x: i32, height: int)
    ensures
        column(x, height).finite(),
    decreases height,
{
    if height <= 0 {
        assert(column(x, height) =~= Set::empty());
    } else {
        lemma_column_finite(x, height - 1);
        if height - 1 <= i32::MAX {
            assert(column(x, height) =~= column(x, height - 1).insert(
                Position { x, y: (height - 1) as i32 },
            ));
        } else {
            assert(column(x, height) =~= column(x, height - 1));
        }
    }
}

/// A rectangle holds finitely many positions.
pub proof fn lemma_rectangle_finite(width: int, height: int)
    ensures
        rectangle(width, height).finite(),
    decreases width,
{
    if width <= 0 {
        assert(rectangle(width, height) =~= Set::empty());
    } else {
        lemma_rectangle_finite(width - 1, height);
        if width - 1 <= i32::MAX {
            lemma_column_finite((width - 1) as i32, height);
            assert(rectangle(width, height) =~= rectangle(width - 1, height).union(
                column((width - 1) as i32, height),
            ));
        } else {
            assert(rectangle(width, height) =~= rectangle(width - 1, height));
        }
    }
}

} // verus!
