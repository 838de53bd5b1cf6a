//! Simplicial complexes for modelling the topology of agent collaboration.
//!
//! | Module | Purpose |
//! |--------|---------|
//! | [`simplex`] | Individual simplices: faces, boundary, star, link, closure |
//! | [`counting`] | Counting lemmas and alternating sums |
//! | [`complex`] | Simplicial complexes: construction, queries, f-vector, components |
//! | [`graph`] | The 1-skeleton as a graph: walks, connectivity, components |
//! | [`euler`] | Euler characteristic and Betti number estimates |
//! | [`collapse`] | Elementary and strong collapse, cones |
//! | [`rips`] | Vietoris-Rips (clique) complexes from a closeness relation |
//! | [`collaborate`] | Collaboration complexes of agent groups and their holes |
//! | [`flag`] | Flag complexes; strong collapse keeps their Euler characteristic |
//! | [`cone`] | Cones; strong collapse reduces every cone to a point |

pub mod simplex;
pub mod counting;
pub mod complex;
pub mod graph;
pub mod euler;
pub mod collapse;
pub mod rips;
pub mod collaborate;
pub mod flag;
pub mod cone;
