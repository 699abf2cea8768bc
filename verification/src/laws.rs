//! What the library promises of generation as a whole.

use crate::cell::CellView;
use crate::map_view::{touches, MapView};
use crate::tile_map::{Position, BEACH_TILE, LIQUID_TILE};
use vstd::prelude::*;

verus! {

impl MapView {
    /// Generation ends: every step leaves less to decide than there was
    /// before it, so that no more steps can follow one another than there is
    /// to decide at the start.
    pub proof fn law_steps_are_bounded(self, goal: MapView, steps: nat)
        requires
            self.finite(),
            self.leads_to(goal, steps),
        ensures
            goal.undecided() + steps <= self.undecided(),
        decreases steps,
    {
        if steps > 0 {
            let (first, drawn) = choose|first: Position, drawn: Seq<char>|
                self.may_step(first, drawn) && (#[trigger] self.stepped(first, drawn)).leads_to(
                    goal,
                    (steps - 1) as nat,
                );
            self.lemma_stepped(first, drawn);
            self.stepped(first, drawn).law_steps_are_bounded(goal, (steps - 1) as nat);
        }
    }

    /// Generation leaves no two cells side by side that do not fit.
    ///
    /// Take a rule table that treats both cells of a pair alike. Whatever
    /// grid a number of steps of generation lead to from the grid on which
    /// nothing is decided: unless a contradiction is recorded on it, each of
    /// its decided cells has a type that each decided neighbour accepts.
    pub proof fn law_neighbours_fit(self, goal: MapView, steps: nat)
        requires
            self.rules.well_formed(),
            self.rules.symmetric(),
            self.blank().leads_to(goal, steps),
            !goal.contradiction,
        ensures
            goal.consistent(),
    {
        self.lemma_blank_finite();
        if self.rules.tile_types.len() == 1 {
            self.lemma_blank_single();
            self.blank().lemma_leads_to_single(goal, steps);
        } else {
            self.lemma_blank_settled();
            self.blank().lemma_leads_to_settled(goal, steps);
            goal.lemma_settled_consistent(Seq::empty());
        }
    }

    /// Removing the islands turns the beach tiles that touch no land into
    /// liquid and leaves every other cell as it is: a beach tile that
    /// touches land, and every cell that is no beach tile.
    pub proof fn law_only_islands_change(self, position: Position)
        requires
            self.cells.contains_key(position),
        ensures
            self.without_islands().cells.contains_key(position),
            self.is_island(position) ==> self.without_islands().cells[position]
                == CellView::Collapsed(LIQUID_TILE@),
            !self.is_island(position) ==> self.without_islands().cells[position]
                == self.cells[position],
            self.cells[position] != CellView::Collapsed(BEACH_TILE@) ==> !self.is_island(
                position,
            ),
            (exists|other: Position| touches(position, other) && self.is_land(other))
                ==> !self.is_island(position),
    {
    }

    /// Clearing twice is clearing once, and a cleared grid has, at each of
    /// its positions and nowhere else, the cell that may still become every
    /// tile type.
    pub proof fn law_clear_is_idempotent(self)
        ensures
            self.blank().blank() == self.blank(),
            forall|position: Position|
                self.blank().cells.contains_key(position) == self.in_bounds(position),
            forall|position: Position|
                self.in_bounds(position) ==> self.blank().cells[position]
                    == CellView::Superposition(self.rules.tile_types.to_set()),
    {
        assert(self.blank().blank().cells =~= self.blank().cells);
    }
}

} // verus!
