//! Containment forests of simple planar polygons: a rooted tree kept in an
//! arena of nodes, and the builders that arrange indexed shapes so that each
//! one hangs below a shape that contains it.

pub mod cmd;
pub mod forest;
pub mod geo;
pub mod parse;
pub mod tree;
