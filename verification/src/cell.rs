//! The state of one position of the grid.

use crate::type_set::{is_count_of, names_of, TypeSet};
use vstd::prelude::*;

verus! {

/// One position of the grid: either fixed to a tile type, or still open to
/// each type of a set.
#[derive(Debug)]
pub enum Cell {
    Collapsed(String),
    Superposition(TypeSet),
}

/// What a cell holds, with names as character sequences.
pub enum CellView {
    Collapsed(Seq<char>),
    Superposition(Set<Seq<char>>),
}

impl CellView {
    /// Whether the cell is, or may still become, the type `name`.
    pub open spec fn may_be(self, name: Seq<char>) -> bool {
        match self {
            CellView::Collapsed(decided) => decided == name,
            CellView::Superposition(names) => names.contains(name),
        }
    }
}

impl View for Cell {
    type V = CellView;

    open spec fn view(&self) -> CellView {
        match self {
            Cell::Collapsed(name) => CellView::Collapsed(name@),
            Cell::Superposition(set) => CellView::Superposition(set@),
        }
    }
}

impl Clone for Cell {
    fn clone(&self) -> (cell: Cell)
        ensures
            cell@ == self@,
    {
        match self {
            Cell::Collapsed(name) => Cell::Collapsed(name.clone()),
            Cell::Superposition(set) => Cell::Superposition(set.clone()),
        }
    }
}

impl Cell {
    /// A cell that may still become any of `possible_types`.
    pub fn new(possible_types: &Vec<String>) -> (cell: Cell)
        ensures
            cell@ == CellView::Superposition(names_of(possible_types@).to_set()),
    {
        Cell::Superposition(TypeSet::from_names(possible_types))
    }

    /// Whether the cell is, or may still become, the type `name`.
    pub fn allows(&self, name: &str) -> (allowed: bool)
        ensures
            allowed == self@.may_be(name@),
    {
        match self {
            Cell::Collapsed(decided) => *decided == name.to_owned(),
            Cell::Superposition(set) => set.has(name),
        }
    }

    /// How many types the cell may be: one if it is decided, else the
    /// number of its candidates.
    pub fn count(&self) -> (count: usize)
        ensures
            self@ is Collapsed ==> count == 1,
            self@ matches CellView::Superposition(names) ==> is_count_of(count as nat, names),
    {
        match self {
            Cell::Collapsed(_) => 1,
            Cell::Superposition(set) => set.count(),
        }
    }
}

} // verus!
