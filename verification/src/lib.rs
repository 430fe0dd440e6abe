//! A discrete-grid movement model for tactical games: locations and
//! directions, per-cell directional boundaries, terrain and obstruction
//! flags, passability and movement-cost rules (including the no
//! corner-cutting rule for planar diagonals), and a budget-bounded
//! shortest-path search over the resulting weighted graph.

pub mod cell;
pub mod direction;
pub mod grid;
pub mod location;
pub mod pathfinding;
