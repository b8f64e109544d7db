//! Core logic of a graphics-engine scaffold: queue-family allocation,
//! engine queue-request collection, extension and feature negotiation,
//! and the pure decision rules of swapchain and frame management.
//!
//! All hardware interaction (instance, device and swapchain objects) lives
//! outside this crate; the functions here compute over plain values that a
//! host queries from the hardware and hands in.

pub mod alloc_model;
pub mod allocator;
pub mod errors;
pub mod families;
pub mod frame_set;
pub mod laws;
pub mod negotiate;
pub mod queues;
pub mod requests;
pub mod swapchain;

use vstd::prelude::*;

verus! {

/// Packs an API version number from its four components, as the native
/// graphics API defines it: three bits of variant, seven of major,
/// ten of minor, twelve of patch.
pub open spec fn spec_api_version(variant: u32, major: u32, minor: u32, patch: u32) -> u32 {
    (variant << 29u32) | (major << 22u32) | (minor << 12u32) | patch
}

/// Builds the packed API version number used in instance creation.
pub fn make_api_version(variant: u32, major: u32, minor: u32, patch: u32) -> (r: u32)
    ensures
        r == spec_api_version(variant, major, minor, patch),
{
    (variant << 29u32) | (major << 22u32) | (minor << 12u32) | patch
}

} // verus!
