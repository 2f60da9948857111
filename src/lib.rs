//! Registration of range-scanner point clouds into one global frame.
//!
//! Each scanner reports beacon positions in its own, unrotated frame. The
//! library searches the 24 proper rotations of the cube and every candidate
//! translation for an alignment under which at least twelve beacons coincide,
//! and propagates such alignments from one origin scanner to all the others.
pub mod point;
pub mod rotation;
pub mod overlap;
pub mod beacons;
pub mod registry;
pub mod input;
