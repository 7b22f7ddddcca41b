//! Vertex-to-vertex navigation among polygonal obstacles on an integer grid.
//!
//! A scene is a list of closed polygons and a goal. An agent only ever knows
//! the vertices it can see from where it stands; two online search strategies
//! pick the next vertex to walk to.
//!
//! Coordinates are whole grid units, `GRID_PER_UNIT` of them to one unit of
//! the map. Every geometric predicate is decided exactly: two points are the
//! same or they are not, a ray meets the end of an edge or it does not. The
//! one tolerance left is the distance at which the goal counts as reached.
//! Distances are rounded down to whole grid units.

pub mod crossing;
pub mod episode;
pub mod fraction;
pub mod geometry;
pub mod navigation;
pub mod polygon;
pub mod random;
pub mod scene;
pub mod search;
pub mod visibility;
