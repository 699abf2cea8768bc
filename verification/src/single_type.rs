//! Why the decided cells of a grid fit together where the rule table has a
//! single tile type.
//!
//! With a single type an undecided cell that keeps its candidate is decided
//! without its neighbours being looked at again. What holds instead: if the
//! type does not accept itself along an axis on which the grid has cells
//! side by side, the first cell that is decided leaves a neighbour waiting
//! that will be left without a candidate.

use crate::map_view::MapView;
use crate::tile_map::Position;
use crate::tile_rules::{opposite, Direction, Validity};
use vstd::prelude::*;

verus! {

impl MapView {
    /// The first tile type of the rule table.
    pub open spec fn sole(self) -> Seq<char> {
        self.rules.tile_types[0]
    }

    /// Whether the first tile type accepts itself where a step in
    /// `direction` leads to it.
    pub open spec fn joins(self, direction: Direction) -> bool {
        self.rules.permits(self.sole(), self.sole(), direction)
    }

    /// Whether no cell is, or may become, another type than the first.
    pub open spec fn plain(self) -> bool {
        forall|position: Position, name: Seq<char>|
            self.cells.contains_key(position) && #[trigger] self.cells[position].may_be(name)
                ==> name == self.sole()
    }

    /// Whether the grid has a cell at each of its positions and nowhere
    /// else.
    pub open spec fn full(self) -> bool {
        forall|position: Position|
            self.cells.contains_key(position) == self.in_bounds(position)
    }

    /// Whether no cell of the grid is decided.
    pub open spec fn untouched(self) -> bool {
        forall|position: Position|
            self.cells.contains_key(position) ==> #[trigger] self.is_open(position)
    }

    /// Whether the first tile type accepts itself in every direction in
    /// which a cell of the grid has a neighbour.
    pub open spec fn roomy(self) -> bool {
        forall|position: Position, direction: Direction|
            self.on_grid(position) && (#[trigger] self.neighbour(position, direction)) is Some
                ==> self.joins(direction)
    }

    /// Whether the undecided cell at `position` has a decided neighbour in
    /// `direction` that the first tile type does not accept itself beside.
    pub open spec fn clashes(self, position: Position, direction: Direction) -> bool {
        &&& self.on_grid(position)
        &&& self.is_open(position)
        &&& self.neighbour(position, direction) is Some
        &&& self.cells[self.neighbour(position, direction).unwrap()] is Collapsed
        &&& !self.joins(direction)
    }

    /// Whether a cell that waits in `waiting` clashes with a neighbour.
    pub open spec fn doomed(self, waiting: Seq<Position>) -> bool {
        exists|index: int, direction: Direction|
            0 <= index < waiting.len() && #[trigger] self.clashes(waiting[index], direction)
    }

    /// On a roomy grid of a single type all pairs of decided cells fit.
    pub proof fn lemma_roomy_consistent(self)
        requires
            self.plain(),
            self.roomy(),
        ensures
            self.consistent(),
    {
        assert forall|position: Position, direction: Direction| #[trigger]
            self.fits(position, direction) by {
            if self.on_grid(position) && self.neighbour(position, direction) is Some
                && self.cells[position] is Collapsed && self.cells[self.neighbour(
                position,
                direction,
            ).unwrap()] is Collapsed {
                let other = self.neighbour(position, direction).unwrap();
                assert(self.cells[position].may_be(self.cells[position]->Collapsed_0));
                assert(self.cells[other].may_be(self.cells[other]->Collapsed_0));
            }
        }
    }

    /// Holding the first waiting cell against its neighbours: a clash that
    /// waits either leaves that cell without a candidate or goes on waiting.
    pub proof fn lemma_updated_single(self, waiting: Seq<Position>)
        requires
            waiting.len() > 0,
            self.plain(),
            self.doomed(waiting) || self.roomy(),
            !self.updated(waiting[0]).contradiction,
        ensures
            self.updated(waiting[0]).plain(),
            self.updated(waiting[0]).doomed(waiting.drop_first() + self.ripples(waiting[0]))
                || self.updated(waiting[0]).roomy(),
    {
        let position = waiting[0];
        let after = self.updated(position);
        let left = waiting.drop_first() + self.ripples(position);
        assert(after.cells.dom() =~= self.cells.dom());
        assert(after.rules == self.rules);
        assert forall|place: Position, direction: Direction| #[trigger]
            after.neighbour(place, direction) == self.neighbour(place, direction) by {}
        if self.is_open(position) {
            let names = self.candidates(position);
            let rest = self.narrowed(position, names);
            if rest.len() == 1 {
                assert(rest.contains(rest.choose()));
            }
            assert forall|place: Position, name: Seq<char>|
                after.cells.contains_key(place) && #[trigger] after.cells[place].may_be(
                    name,
                ) implies name == after.sole() by {
                if place == position {
                    assert(rest.contains(name));
                    assert(self.cells[position].may_be(name));
                } else {
                    assert(self.cells[place].may_be(name));
                }
            }
        }
        if self.roomy() {
            assert forall|place: Position, direction: Direction|
                after.on_grid(place) && (#[trigger] after.neighbour(place, direction))
                    is Some implies after.joins(direction) by {
                assert(self.neighbour(place, direction) is Some);
            }
        } else {
            let (index, direction) = choose|index: int, direction: Direction|
                0 <= index < waiting.len() && #[trigger] self.clashes(waiting[index], direction);
            let place = waiting[index];
            let other = self.neighbour(place, direction).unwrap();
            if place == position {
                // Every candidate is the one type, which the decided
                // neighbour forbids: none stays.
                let names = self.candidates(position);
                let rest = self.narrowed(position, names);
                assert(self.cells[other].may_be(self.cells[other]->Collapsed_0));
                assert forall|name: Seq<char>| !rest.contains(name) by {
                    if names.contains(name) {
                        assert(self.cells[position].may_be(name));
                        assert(self.verdict_at(position, name, direction) == Some(
                            Validity::Impossible,
                        ));
                    }
                }
                assert(rest =~= Set::empty());
                assert(false);
            } else {
                assert(index > 0);
                assert(waiting.drop_first()[index - 1] == place);
                assert(left[index - 1] == place);
                assert(after.cells[place] == self.cells[place]);
                assert(after.cells[other] is Collapsed);
                assert(after.clashes(left[index - 1], direction));
            }
        }
    }

    /// Propagation on a grid of a single type ends with a contradiction or
    /// on a roomy grid, if it starts on a roomy grid or with a clash
    /// waiting.
    pub proof fn lemma_propagated_single(self, waiting: Seq<Position>)
        requires
            self.finite(),
            self.plain(),
            self.doomed(waiting) || self.roomy(),
        ensures
            self.propagated(waiting).contradiction || (self.propagated(waiting).plain()
                && self.propagated(waiting).roomy()),
        decreases self.undecided(), waiting.len(),
    {
        if waiting.len() > 0 {
            let next = self.updated(waiting[0]);
            let left = waiting.drop_first() + self.ripples(waiting[0]);
            self.lemma_updated_undecided(waiting[0]);
            self.lemma_updated_finite(waiting[0]);
            next.lemma_propagated(left);
            if !next.contradiction {
                self.lemma_updated_single(waiting);
                next.lemma_propagated_single(left);
            }
        }
    }

    /// On a full grid on which a cell has a neighbour in `direction`, every
    /// cell has a neighbour in that direction or in the opposite one.
    pub proof fn lemma_axis(self, place: Position, direction: Direction, position: Position)
        requires
            self.full(),
            self.on_grid(place),
            self.neighbour(place, direction) is Some,
            self.on_grid(position),
        ensures
            self.neighbour(position, direction) is Some || self.neighbour(
                position,
                opposite(direction),
            ) is Some,
    {
        assert(self.cells.contains_key(position.moved(direction)) == self.in_bounds(
            position.moved(direction),
        ));
        assert(self.cells.contains_key(position.moved(opposite(direction))) == self.in_bounds(
            position.moved(opposite(direction)),
        ));
    }

    /// A step of generation on a full grid of a single type ends with a
    /// contradiction or on a roomy grid, if it starts on a roomy or an
    /// untouched grid.
    pub proof fn lemma_stepped_single(self, position: Position, name: Seq<char>)
        requires
            self.finite(),
            self.rules.symmetric(),
            self.plain(),
            self.full(),
            self.untouched() || self.roomy(),
            self.may_step(position, name),
        ensures
            self.stepped(position, name).contradiction || (self.stepped(position, name).plain()
                && self.stepped(position, name).roomy()),
    {
        let next = self.collapsed(position, name);
        let waiting = self.around(position).map_values(|entry: (Direction, Position)| entry.1);
        self.lemma_collapsed_finite(position, name);
        next.lemma_propagated(waiting);
        if !next.contradiction {
            assert(next.cells.dom() =~= self.cells.dom());
            assert forall|place: Position, direction: Direction| #[trigger]
                next.neighbour(place, direction) == self.neighbour(place, direction) by {}
            assert(self.cells[position].may_be(name));
            assert forall|place: Position, other: Seq<char>|
                next.cells.contains_key(place) && #[trigger] next.cells[place].may_be(
                    other,
                ) implies other == next.sole() by {
                if place != position {
                    assert(self.cells[place].may_be(other));
                }
            }
            if self.roomy() {
                assert forall|place: Position, direction: Direction|
                    next.on_grid(place) && (#[trigger] next.neighbour(place, direction))
                        is Some implies next.joins(direction) by {
                    assert(self.neighbour(place, direction) is Some);
                }
            } else {
                let (place, direction) = choose|place: Position, direction: Direction|
                    self.on_grid(place) && (#[trigger] self.neighbour(place, direction)) is Some
                        && !self.joins(direction);
                assert(self.rules.permits(self.sole(), self.sole(), direction)
                    == self.rules.permits(self.sole(), self.sole(), opposite(direction)));
                assert(opposite(opposite(direction)) == direction);
                self.lemma_axis(place, direction, position);
                let toward = if self.neighbour(position, direction) is Some {
                    direction
                } else {
                    opposite(direction)
                };
                let other = self.neighbour(position, toward).unwrap();
                self.lemma_neighbour_back(position, toward);
                self.lemma_neighbour_listed(position, toward);
                let index = choose|index: int|
                    0 <= index < waiting.len() && waiting[index] == other;
                assert(self.is_open(other));
                assert(next.cells[other] == self.cells[other]);
                assert(next.neighbour(other, opposite(toward)) == Some(position));
                assert(next.clashes(waiting[index], opposite(toward)));
            }
            next.lemma_propagated_single(waiting);
        }
    }

    /// Steps of generation on a full grid of a single type lead to a grid
    /// with a contradiction or to one on which all pairs of decided cells
    /// fit, if they start on an untouched grid.
    pub proof fn lemma_leads_to_single(self, goal: MapView, steps: nat)
        requires
            self.finite(),
            self.rules.symmetric(),
            self.plain(),
            self.full(),
            self.untouched() || self.roomy(),
            self.leads_to(goal, steps),
        ensures
            goal.contradiction || goal.consistent(),
        decreases steps,
    {
        if steps == 0 {
            if self.roomy() {
                self.lemma_roomy_consistent();
            } else {
                assert forall|position: Position, direction: Direction| #[trigger]
                    self.fits(position, direction) by {
                    if self.on_grid(position) {
                        assert(self.is_open(position));
                    }
                }
            }
        } else {
            let (first, drawn) = choose|first: Position, drawn: Seq<char>|
                self.may_step(first, drawn) && (#[trigger] self.stepped(first, drawn)).leads_to(
                    goal,
                    (steps - 1) as nat,
                );
            let next = self.stepped(first, drawn);
            self.lemma_stepped(first, drawn);
            self.lemma_stepped_single(first, drawn);
            next.lemma_leads_to_keeps(goal, (steps - 1) as nat);
            if !next.contradiction {
                assert forall|position: Position|
                    next.cells.contains_key(position) == next.in_bounds(position) by {
                    assert(self.cells.contains_key(position) == self.in_bounds(position));
                }
                next.lemma_leads_to_single(goal, (steps - 1) as nat);
            }
        }
    }

    /// A grid on which nothing is decided, of a rule table with a single
    /// tile type, is plain, full and untouched.
    pub proof fn lemma_blank_single(self)
        requires
            self.rules.tile_types.len() == 1,
        ensures
            self.blank().plain(),
            self.blank().full(),
            self.blank().untouched(),
    {
        let blank = self.blank();
        assert forall|position: Position, name: Seq<char>|
            blank.cells.contains_key(position) && #[trigger] blank.cells[position].may_be(
                name,
            ) implies name == blank.sole() by {
            assert(self.rules.tile_types.contains(name));
        }
    }
}

} // verus!
