use vstd::prelude::*;

pub mod brief;
pub mod image;
pub mod rng;
pub mod synthetic;
pub mod matcher;
pub mod fast;
pub mod keypoint;
pub mod marker;
pub mod orientation;
pub mod pipeline;
pub mod tracker;

verus! {
} // verus!
