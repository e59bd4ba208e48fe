//! Flow-field routing for a tower defense game on a fixed rectangular grid.
//!
//! A [`grid::GridMap`] holds a level's grid: its size in cells, the tiles
//! agents may walk on, the tiles that can be built on, and the cells where
//! agents enter and leave. A [`flow::FlowField`] holds, for one goal cell,
//! what it costs to walk from every cell to the goal and the compass
//! direction in which each walkable cell is left;
//! [`flow::FlowField::next_cell`] tells an agent which cell to head for.
//!
//! What a field is a solution of is written down in [`terrain::Terrain`]:
//! the length of the shortest walk from the goal over walkable tiles, and
//! the cheapest cheaper neighbour of each cell. [`flow::FlowField::compute`]
//! is proved to compute exactly that, and the laws that follow from it are
//! proof functions of [`flow::FlowFieldView`] and [`terrain::Terrain`].
//!
//! Cells are counted in whole numbers throughout. Positions in the world,
//! which have fractions, are the caller's: it turns a position into a column
//! and a row and lets [`grid::GridMap::clamp_to_grid`] hold them to the grid.

pub mod coord;
mod descent;
pub mod direction;
pub mod flow;
pub mod grid;
mod integrate;
pub mod level;
pub mod terrain;
