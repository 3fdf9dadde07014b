//! Verified kernels of a search for the best placement of musicians on a
//! stage: the problem model, validation and score aggregation, the angular
//! sweep that decides who hears whom, greedy reassignment, the index-level
//! part of the random moves, and the improve-or-discard search loop.
//!
//! The library is generic over the type of coordinates, radii, tastes and
//! volumes and never computes with them. Wherever a decision depends on
//! such numbers the caller hands in order-preserving integer keys of them,
//! or score terms that are rounded to integers already.

pub mod active;
pub mod border;
pub mod construct;
pub mod genetics;
pub mod greedy;
pub mod model;
pub mod moves;
pub mod rng;
pub mod score;
pub mod search;
pub mod seeding;
pub mod sorting;
pub mod sweep;
pub mod visibility;
