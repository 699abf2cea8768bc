//! Wave function collapse on a rectangular grid of tiles.
//!
//! Every cell of the grid starts out able to become any tile type of a rule
//! table. Cells are then fixed one by one, the least uncertain first, and
//! each choice narrows what the cells around it may still become.
//!
//! - `tile_rules` holds the rule table: the tile types, their weights and,
//!   for each side of a type, the types that may lie there.
//! - `cell` and `type_set` hold the state of one position of the grid.
//! - `tile_map` holds the grid and the functions that collapse it.
//! - `map_view` describes the grid as plain values and says, step by step,
//!   what generation makes of it. The contracts of `tile_map` are stated
//!   over it.
//! - `laws` states what holds of generation as a whole; `consistency` and
//!   `single_type` hold the lemmas that the laws rest on.
//! - `tile_type` holds the built-in rule set.
//! - `random` is where chance enters.
//!
//! The sets and maps are those of `bevy::utils`, and chance comes from
//! `rand`. What these do is not proved here. Each function that calls one
//! of them states in its contract what it takes the call to do, and nothing
//! else in the library is taken on trust.

pub mod cell;
pub mod consistency;
pub mod laws;
pub mod map_view;
pub mod random;
pub mod single_type;
pub mod tile_map;
pub mod tile_rules;
pub mod tile_type;
pub mod type_set;
