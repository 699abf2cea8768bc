//! Why the decided cells of a grid fit together.
//!
//! While cells are collapsed and narrowed, every cell that is not waiting to
//! be looked at holds only types that its decided neighbours accept. The
//! lemmas here show that each step keeps it so, as long as no contradiction
//! has been met and the rule table treats both cells of a pair alike.

use crate::cell::CellView;
use crate::map_view::MapView;
use crate::tile_map::Position;
use crate::tile_rules::{opposite, Direction, Validity};
use vstd::prelude::*;

verus! {

impl MapView {
    /// Whether the cell at `position` may be `name` as far as its neighbour
    /// in `direction` is concerned. Only a decided neighbour has a say, and
    /// it has none yet on an undecided cell that waits to be looked at.
    pub open spec fn agrees(
        self,
        waiting: Seq<Position>,
        position: Position,
        direction: Direction,
        name: Seq<char>,
    ) -> bool {
        (self.on_grid(position) && self.cells[position].may_be(name) && (self.cells[position]
            is Collapsed || !waiting.contains(position)) && self.neighbour(position, direction)
            is Some && self.cells[self.neighbour(position, direction).unwrap()] is Collapsed)
            ==> self.rules.permits(
            name,
            self.cells[self.neighbour(position, direction).unwrap()]->Collapsed_0,
            direction,
        )
    }

    /// Whether the cell at `position`, if it is undecided, has another
    /// number of candidates than one.
    pub open spec fn plural(self, position: Position) -> bool {
        self.on_grid(position) ==> (self.cells[position] matches CellView::Superposition(names)
            ==> names.len() != 1)
    }

    /// Whether the grid is settled but for the cells that wait in `waiting`:
    /// every other cell holds only types that its decided neighbours accept,
    /// and no undecided cell has a single candidate.
    pub open spec fn settled_but(self, waiting: Seq<Position>) -> bool {
        &&& forall|position: Position, direction: Direction, name: Seq<char>| #[trigger]
            self.agrees(waiting, position, direction, name)
        &&& forall|position: Position| #[trigger] self.plural(position)
    }

    /// Whether the grid is settled with no cell waiting.
    pub open spec fn settled(self) -> bool {
        self.settled_but(Seq::empty())
    }

    /// Whether the pair made of the cell at `position` and its neighbour in
    /// `direction` fits: if both are decided, the neighbour's type accepts
    /// the cell's type.
    pub open spec fn fits(self, position: Position, direction: Direction) -> bool {
        (self.on_grid(position) && self.neighbour(position, direction) is Some
            && self.cells[position] is Collapsed && self.cells[self.neighbour(
            position,
            direction,
        ).unwrap()] is Collapsed) ==> self.rules.permits(
            self.cells[position]->Collapsed_0,
            self.cells[self.neighbour(position, direction).unwrap()]->Collapsed_0,
            direction,
        )
    }

    /// Whether all pairs of decided cells that lie side by side fit.
    pub open spec fn consistent(self) -> bool {
        forall|position: Position, direction: Direction| #[trigger] self.fits(position, direction)
    }

    /// A settled grid is consistent.
    pub proof fn lemma_settled_consistent(self, waiting: Seq<Position>)
        requires
            self.settled_but(waiting),
        ensures
            self.consistent(),
    {
        assert forall|position: Position, direction: Direction| #[trigger]
            self.fits(position, direction) by {
            if self.on_grid(position) && self.cells[position] is Collapsed {
                assert(self.agrees(
                    waiting,
                    position,
                    direction,
                    self.cells[position]->Collapsed_0,
                ));
            }
        }
    }

    /// A grid on which nothing has been decided is settled, unless the rule
    /// table has exactly one tile type.
    pub proof fn lemma_blank_settled(self)
        requires
            self.rules.tile_types.no_duplicates(),
            self.rules.tile_types.len() != 1,
        ensures
            self.blank().settled(),
    {
        self.rules.tile_types.unique_seq_to_set();
        let blank = self.blank();
        assert forall|position: Position, direction: Direction, name: Seq<char>| #[trigger]
            blank.agrees(Seq::empty(), position, direction, name) by {
            if blank.neighbour(position, direction) is Some {
                assert(blank.cells[blank.neighbour(position, direction).unwrap()]
                    is Superposition);
            }
        }
        assert forall|position: Position| #[trigger] blank.plural(position) by {}
    }

    /// Collapsing an undecided cell of a settled grid to one of its
    /// candidates leaves the grid settled but for the neighbours of the
    /// cell.
    pub proof fn lemma_collapsed_settled(self, position: Position, name: Seq<char>)
        requires
            self.settled(),
            self.rules.symmetric(),
            self.is_open(position),
            self.candidates(position).contains(name),
        ensures
            self.collapsed(position, name).settled_but(
                self.around(position).map_values(|entry: (Direction, Position)| entry.1),
            ),
    {
        let after = self.collapsed(position, name);
        let waiting = self.around(position).map_values(|entry: (Direction, Position)| entry.1);
        assert(after.cells.dom() =~= self.cells.dom());
        assert forall|place: Position, direction: Direction| #[trigger]
            after.neighbour(place, direction) == self.neighbour(place, direction) by {}
        assert forall|place: Position, direction: Direction, candidate: Seq<char>| #[trigger]
            after.agrees(waiting, place, direction, candidate) by {
            if after.on_grid(place) && after.cells[place].may_be(candidate) && (after.cells[place]
                is Collapsed || !waiting.contains(place)) && after.neighbour(place, direction)
                is Some && after.cells[after.neighbour(place, direction).unwrap()] is Collapsed {
                let other = self.neighbour(place, direction).unwrap();
                assert(after.neighbour(place, direction) == self.neighbour(place, direction));
                self.lemma_neighbour_back(place, direction);
                if place == position {
                    assert(self.agrees(Seq::empty(), position, direction, name));
                } else if other == position {
                    self.lemma_neighbour_listed(position, opposite(direction));
                    assert(waiting.contains(place));
                    assert(self.agrees(Seq::empty(), position, opposite(direction), name));
                    assert(self.rules.permits(candidate, name, direction)
                        == self.rules.permits(name, candidate, opposite(direction)));
                } else {
                    assert(self.agrees(Seq::empty(), place, direction, candidate));
                }
            }
        }
        assert forall|place: Position| #[trigger] after.plural(place) by {
            assert(self.plural(place));
        }
    }

    /// Holding the first waiting cell of a grid against its neighbours
    /// leaves the grid settled but for the cells that still wait and, where
    /// the cell lost a candidate, its neighbours -- unless the cell is left
    /// without a candidate.
    pub proof fn lemma_updated_settled(self, waiting: Seq<Position>)
        requires
            waiting.len() > 0,
            self.settled_but(waiting),
            self.rules.symmetric(),
            self.is_open(waiting[0]) ==> self.candidates(waiting[0]).finite(),
            !self.updated(waiting[0]).contradiction,
        ensures
            self.updated(waiting[0]).settled_but(
                waiting.drop_first() + (if self.narrows_at(waiting[0]) {
                    self.around(waiting[0]).map_values(|entry: (Direction, Position)| entry.1)
                } else {
                    Seq::empty()
                }),
            ),
    {
        let position = waiting[0];
        let after = self.updated(position);
        let added = if self.narrows_at(position) {
            self.around(position).map_values(|entry: (Direction, Position)| entry.1)
        } else {
            Seq::empty()
        };
        let left = waiting.drop_first() + added;
        assert forall|place: Position| place != position && !left.contains(place)
            implies !waiting.contains(place) by {
            if waiting.contains(place) {
                let k = choose|k: int| 0 <= k < waiting.len() && waiting[k] == place;
                assert(waiting.drop_first()[k - 1] == place);
                assert(left[k - 1] == place);
            }
        }
        if self.is_open(position) {
            let names = self.candidates(position);
            let rest = self.narrowed(position, names);
            vstd::set_lib::lemma_len_subset(rest, names);
            assert(self.plural(position));
            assert(after.cells.dom() =~= self.cells.dom());
            assert forall|place: Position, direction: Direction| #[trigger]
                after.neighbour(place, direction) == self.neighbour(place, direction) by {}
            if rest.len() == 1 {
                assert(rest.contains(rest.choose()));
            }
            assert forall|place: Position, direction: Direction, candidate: Seq<char>| #[trigger]
                after.agrees(left, place, direction, candidate) by {
                if after.on_grid(place) && after.cells[place].may_be(candidate) && (
                after.cells[place] is Collapsed || !left.contains(place)) && after.neighbour(
                    place,
                    direction,
                ) is Some && after.cells[after.neighbour(place, direction).unwrap()]
                    is Collapsed {
                    let other = self.neighbour(place, direction).unwrap();
                    assert(after.neighbour(place, direction) == self.neighbour(place, direction));
                    self.lemma_neighbour_back(place, direction);
                    if place == position {
                        // The candidate stayed possible, so no decided
                        // neighbour forbids it.
                        assert(rest.contains(candidate));
                        assert(self.survives(position, candidate));
                        assert(self.verdict_at(position, candidate, direction) != Some(
                            Validity::Impossible,
                        ));
                    } else if other == position {
                        // The cell has just been decided, so it lost a
                        // candidate and its neighbours wait.
                        assert(rest.len() == 1);
                        assert(self.narrows_at(position));
                        self.lemma_neighbour_listed(position, opposite(direction));
                        assert(added.contains(place));
                        let k = choose|k: int| 0 <= k < added.len() && added[k] == place;
                        assert(left[waiting.drop_first().len() + k] == place);
                        assert(left.contains(place));
                        let decided = rest.choose();
                        assert(self.survives(position, decided));
                        assert(self.verdict_at(position, decided, opposite(direction)) != Some(
                            Validity::Impossible,
                        ));
                        assert(self.rules.permits(candidate, decided, direction)
                            == self.rules.permits(decided, candidate, opposite(direction)));
                    } else {
                        assert(self.agrees(waiting, place, direction, candidate));
                    }
                }
            }
            assert forall|place: Position| #[trigger] after.plural(place) by {
                assert(self.plural(place));
            }
        } else {
            assert(after == self);
            assert forall|place: Position, direction: Direction, candidate: Seq<char>| #[trigger]
                after.agrees(left, place, direction, candidate) by {
                assert(self.agrees(waiting, place, direction, candidate));
            }
            assert forall|place: Position| #[trigger] after.plural(place) by {
                assert(self.plural(place));
            }
        }
    }

    /// Propagation over the cells that wait leaves a grid settled that was
    /// settled but for them, unless it meets a contradiction.
    pub proof fn lemma_propagated_settled(self, waiting: Seq<Position>)
        requires
            self.finite(),
            self.rules.symmetric(),
            self.settled_but(waiting),
        ensures
            self.propagated(waiting).contradiction || self.propagated(waiting).settled(),
        decreases self.undecided(), waiting.len(),
    {
        if waiting.len() == 0 {
            assert(waiting =~= Seq::empty());
        } else {
            let next = self.updated(waiting[0]);
            let left = waiting.drop_first() + self.ripples(waiting[0]);
            self.lemma_updated_undecided(waiting[0]);
            self.lemma_updated_finite(waiting[0]);
            next.lemma_propagated(left);
            if !next.contradiction {
                self.lemma_updated_settled(waiting);
                next.lemma_propagated_settled(left);
            }
        }
    }

    /// A step of generation leaves a settled grid settled, unless it meets
    /// a contradiction.
    pub proof fn lemma_stepped_settled(self, position: Position, name: Seq<char>)
        requires
            self.finite(),
            self.rules.symmetric(),
            self.settled(),
            self.may_step(position, name),
        ensures
            self.stepped(position, name).contradiction || self.stepped(position, name).settled(),
    {
        let next = self.collapsed(position, name);
        let waiting = self.around(position).map_values(|entry: (Direction, Position)| entry.1);
        self.lemma_collapsed_finite(position, name);
        next.lemma_propagated(waiting);
        if !next.contradiction {
            self.lemma_collapsed_settled(position, name);
            next.lemma_propagated_settled(waiting);
        }
    }

    /// Steps of generation leave a settled grid settled, unless they meet a
    /// contradiction.
    pub proof fn lemma_leads_to_settled(self, goal: MapView, steps: nat)
        requires
            self.finite(),
            self.rules.symmetric(),
            self.settled(),
            self.leads_to(goal, steps),
        ensures
            goal.contradiction || goal.settled(),
        decreases steps,
    {
        if steps > 0 {
            let (first, drawn) = choose|first: Position, drawn: Seq<char>|
                self.may_step(first, drawn) && (#[trigger] self.stepped(first, drawn)).leads_to(
                    goal,
                    (steps - 1) as nat,
                );
            let next = self.stepped(first, drawn);
            self.lemma_stepped(first, drawn);
            self.lemma_stepped_settled(first, drawn);
            next.lemma_leads_to_keeps(goal, (steps - 1) as nat);
            if !next.contradiction {
                next.lemma_leads_to_settled(goal, (steps - 1) as nat);
            }
        }
    }
}

} // verus!
