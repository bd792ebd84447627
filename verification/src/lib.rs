//! A solver for a circular mechanical puzzle: concentric rings of cells are
//! manipulated by rotating a ring or sliding a diametrical pair of half-rings
//! through the center, and a marker dropped at a fixed entry cell travels
//! along arrows until it stops. The goal is a short move sequence after which
//! the marker reaches the goal cell having passed an enabler cell first.

pub mod grid;
pub mod search;
pub mod simulate;
