//! Generators of Sierpinski point sets on an integer grid.
//!
//! `triangles` cuts a triangle into the triangle list of its gasket;
//! `points` plays the chaos game in the plane or in space. Both hand back
//! plain lists of points, in the units of their corners, for a renderer to
//! draw. `hull` says what it is for a point to lie in the convex hull of a
//! polygon's corners.

pub mod error;
pub mod hull;
pub mod point;
pub mod points;
pub mod triangles;
