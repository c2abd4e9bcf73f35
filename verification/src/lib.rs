//! A solver for 3D exact-cover packing puzzles: fill a rectangular voxel
//! volume with polycube pieces so that no two pieces overlap and no cell
//! stays empty, or report that no filling was found within a search budget.
pub mod geometry;
pub mod possibilities;
pub mod search;
pub mod space;
