//! Verified kernels for a family of small text-puzzle solvers.
//!
//! Each module holds one solver's computational core: parsing a fixed-format
//! text input into a grid, graph, tree or list, running a bounded search or
//! simulation over it, and reducing the outcome to a scalar.  The deepest
//! kernels are [`packets`] (a recursive-descent parser and a three-way tree
//! comparator proved to be a strict total preorder with a serialization
//! round trip), [`valves`] (a bounded graph search whose greedy upper bound
//! is proved admissible), and [`blizzard`] (a periodic obstacle field with
//! an exact breadth-first crossing search).  The shared 2D-coordinate
//! primitives live in [`grid`].

pub mod blizzard;
pub mod forest;
pub mod grid;
pub mod hill;
pub mod packets;
pub mod ranges;
pub mod rope;
pub mod rps;
pub mod signals;
pub mod snafu;
pub mod valves;
