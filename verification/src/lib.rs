//! Graph model of polyhedra: a distance matrix over vertex ids, the faces as cycles, and the
//! Conway operations that rebuild both.
pub mod polyhedron;
