//! Typed failures of engine initialization.
//!
//! Each kind is distinguishable by the host: capacity failures of the queue
//! allocator, absent mandatory queue families, and missing required
//! extensions or features. Native-API failures stay outside this crate and
//! are propagated by the host verbatim.

use vstd::prelude::*;

use crate::requests::DeviceFeature;

verus! {

/// Failure of queue allocation: a family cannot supply the queues demanded
/// of it. Carries the offending family, the amount demanded of it (strict
/// total, plus one marker for pending flexible demand) and the family's
/// total capacity.
#[derive(Debug, Copy, Clone, Eq, PartialEq, Structural)]
pub enum QueueRequestValidationError {
    NotEnoughQueuesInFamily { family: u32, req: u32, avail: u32 },
}

/// Failure of engine request collection: a queue family that the engine
/// cannot run without is absent from the hardware.
#[derive(Debug, Copy, Clone, Eq, PartialEq, Structural)]
pub enum CollectRequestsError {
    NoGraphicsFamily,
    NoComputeFamily,
}

/// Failure of extension negotiation: required extensions absent from the
/// available set, each by name.
#[derive(Debug)]
pub struct MissingRequiredExtensions {
    pub missing: Vec<String>,
}

/// Failure of feature negotiation: required features the hardware does not
/// support.
#[derive(Debug)]
pub struct MissingRequiredFeatures {
    pub missing: Vec<DeviceFeature>,
}

} // verus!
