//! A region quadtree over axis-aligned rectangles that move from tick to tick.
//!
//! The tree indexes objects by the rectangle each of them covers. A leaf
//! holds members; when it holds too many it becomes a branch of four
//! children, one for each quarter of its bound, and a member goes to every
//! child whose quarter its rectangle touches, so that one object may sit in
//! several leaves. Once per tick the tree is repaired in place: members whose
//! object is gone or has left its leaf are taken out, branches that hold too
//! little collapse, and what was taken out is inserted again from the root.
//!
//! Coordinates are whole numbers counted in a unit of the caller's choice;
//! halves are rounded down. A bound whose extents can be halved without
//! rounding as often as the tree is deep is split into quarters that tile it
//! exactly, and the laws that speak of tiling ask for such a bound.
//!
//! [`rect`] holds the geometry, [`tree`] the nodes and their mutation,
//! [`system`] the per-tick rebuild pass that repairs the tree after motion,
//! and [`setup`] the placing of new objects.
pub mod rect;
pub mod setup;
pub mod system;
pub mod tree;
