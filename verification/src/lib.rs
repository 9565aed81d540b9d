//! Level geometry for tile-based platform levels.
//!
//! A level is painted as an image of exact colours.  Each pixel is
//! classified into a [`tile::Tile`] ([`load`]), the tiles are held in a
//! [`grid::Grid`], and every tile with geometry contributes one outline on
//! an integer lattice ([`shape`]).
//!
//! Merging the outlines, simplifying the merged rings and triangulating
//! them is done in floating point by the caller.  What is decided here,
//! for whatever geometry the caller has, is the order in which outlines
//! are merged ([`reduce`]), which vertices of a ring are judged and kept,
//! with the ring coming back closed or open as it was given
//! ([`simplify`]), and how the triangles of all polygons are gathered
//! ([`triangulate`]).  For rings on the lattice itself there is an exact
//! judgement ([`aligned`]).

pub mod aligned;
pub mod grid;
pub mod load;
pub mod reduce;
pub mod shape;
pub mod simplify;
pub mod tile;
pub mod triangulate;
