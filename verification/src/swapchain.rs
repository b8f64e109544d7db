//! The pure decision rules of swapchain configuration and the per-frame
//! loop.
//!
//! A host queries the surface's present modes, formats and capabilities
//! from the hardware and hands them in as plain values; the functions here
//! pick the configuration, size the swapchain, advance the frame counter
//! and decide what a frame's outcome calls for. Mode, format and colour
//! space values carry the native API's raw codes.

use vstd::prelude::*;

use crate::frame_set::MAX_FRAMES_IN_FLIGHT;

verus! {

/// The native code of the mailbox present mode.
pub const PRESENT_MODE_MAILBOX: i32 = 1;

/// The native code of the first-in-first-out present mode, which every
/// surface supports.
pub const PRESENT_MODE_FIFO: i32 = 2;

/// The native code of the eight-bit BGRA sRGB surface format.
pub const FORMAT_B8G8R8A8_SRGB: i32 = 50;

/// The native code of the sRGB nonlinear colour space.
pub const COLOR_SPACE_SRGB_NONLINEAR: i32 = 0;

/// The native status code reporting a suboptimal swapchain.
pub const RESULT_SUBOPTIMAL: i32 = 1000001003;

/// The native error code reporting an out-of-date swapchain.
pub const ERROR_OUT_OF_DATE: i32 = -1000001004;

/// Picks the present mode: mailbox when the surface offers it, else
/// first-in-first-out.
pub fn select_present_mode(modes: &Vec<i32>) -> (r: i32)
    ensures
        r == if modes@.contains(PRESENT_MODE_MAILBOX) {
            PRESENT_MODE_MAILBOX
        } else {
            PRESENT_MODE_FIFO
        },
{
    let mut i: usize = 0;
    while i < modes.len()
        invariant
            i <= modes@.len(),
            forall|j: int| 0 <= j < i ==> modes@[j] != PRESENT_MODE_MAILBOX,
        decreases modes@.len() - i,
    {
        if modes[i] == PRESENT_MODE_MAILBOX {
            return PRESENT_MODE_MAILBOX;
        }
        i = i + 1;
    }
    PRESENT_MODE_FIFO
}

/// One surface format as the hardware advertises it.
#[derive(Debug, Copy, Clone, Eq, PartialEq, Structural)]
pub struct SurfaceFormatInfo {
    pub format: i32,
    pub color_space: i32,
}

/// The format is the preferred one: eight-bit BGRA sRGB in the sRGB
/// nonlinear colour space.
pub open spec fn is_preferred_format(f: SurfaceFormatInfo) -> bool {
    f.format == FORMAT_B8G8R8A8_SRGB && f.color_space == COLOR_SPACE_SRGB_NONLINEAR
}

/// The position of the first preferred format, if any is offered.
pub open spec fn first_preferred(formats: Seq<SurfaceFormatInfo>) -> Option<int>
    decreases formats.len(),
{
    if formats.len() == 0 {
        None
    } else {
        match first_preferred(formats.drop_last()) {
            Some(i) => Some(i),
            None => if is_preferred_format(formats.last()) {
                Some(formats.len() - 1)
            } else {
                None
            },
        }
    }
}

/// Picks the surface format: the first preferred one, else the first
/// offered.
pub fn select_surface_format(formats: &Vec<SurfaceFormatInfo>) -> (r: SurfaceFormatInfo)
    requires
        formats@.len() > 0,
    ensures
        r == match first_preferred(formats@) {
            Some(i) => formats@[i],
            None => formats@[0],
        },
{
    let mut i: usize = 0;
    while i < formats.len()
        invariant
            i <= formats@.len(),
            first_preferred(formats@.take(i as int)) is None,
        decreases formats@.len() - i,
    {
        let ghost pre = formats@.take(i as int);
        let f = formats[i];
        proof {
            assert(formats@.take(i as int + 1).drop_last() =~= pre);
            assert(formats@.take(i as int + 1).last() == formats@[i as int]);
        }
        if f.format == FORMAT_B8G8R8A8_SRGB && f.color_space == COLOR_SPACE_SRGB_NONLINEAR {
            proof {
                assert(formats@.take(formats@.len() as int) =~= formats@);
                lemma_first_preferred_found(formats@, i as int);
            }
            return f;
        }
        i = i + 1;
    }
    proof {
        assert(formats@.take(formats@.len() as int) =~= formats@);
    }
    formats[0]
}

/// When no format before `i` is preferred and format `i` is, the first
/// preferred format is `i`.
proof fn lemma_first_preferred_found(formats: Seq<SurfaceFormatInfo>, i: int)
    requires
        0 <= i < formats.len(),
        first_preferred(formats.take(i)) is None,
        is_preferred_format(formats[i]),
    ensures
        first_preferred(formats) == Some(i),
    decreases formats.len(),
{
    if formats.len() - 1 > i {
        assert(formats.drop_last().take(i) =~= formats.take(i));
        lemma_first_preferred_found(formats.drop_last(), i);
    } else {
        assert(formats.take(i) =~= formats.drop_last());
    }
}

/// The swapchain's image count: one more than the surface's minimum,
/// capped at its maximum where one exists (a maximum of zero means none).
pub fn swapchain_min_image_count(min_supported: u32, max_supported: u32) -> (r: u32)
    requires
        min_supported < u32::MAX,
    ensures
        r as int == if max_supported > 0 && max_supported < min_supported + 1 {
            max_supported as int
        } else {
            min_supported + 1
        },
{
    if max_supported > 0 {
        if max_supported < min_supported + 1 {
            max_supported
        } else {
            min_supported + 1
        }
    } else {
        min_supported + 1
    }
}

/// Clamps a value to a closed range.
pub fn clamp_u32(x: u32, lo: u32, hi: u32) -> (r: u32)
    requires
        lo <= hi,
    ensures
        r == if x < lo {
            lo
        } else if x > hi {
            hi
        } else {
            x
        },
{
    if x < lo {
        lo
    } else if x > hi {
        hi
    } else {
        x
    }
}

/// The swapchain's extent: the surface's current extent where the surface
/// reports one, else the window's size clamped to the surface's maximum in
/// both directions — which pins it to that maximum.
pub fn swapchain_extent(
    current_width: u32,
    current_height: u32,
    window_width: u32,
    window_height: u32,
    max_width: u32,
    max_height: u32,
) -> (r: (u32, u32))
    ensures
        r == if current_width == u32::MAX {
            (max_width, max_height)
        } else {
            (current_width, current_height)
        },
{
    if current_width == u32::MAX {
        (clamp_u32(window_width, max_width, max_width), clamp_u32(
            window_height,
            max_height,
            max_height,
        ))
    } else {
        (current_width, current_height)
    }
}

/// Advances the frame counter to the next frame in flight.
pub fn advance_frame(current: usize) -> (r: usize)
    requires
        current < MAX_FRAMES_IN_FLIGHT,
    ensures
        r == (current + 1) % (MAX_FRAMES_IN_FLIGHT as int),
        r < MAX_FRAMES_IN_FLIGHT,
{
    (current + 1) % MAX_FRAMES_IN_FLIGHT
}

/// What a rendered frame's outcome calls for.
#[derive(Debug, Copy, Clone, Eq, PartialEq, Structural)]
pub enum FrameFollowup {
    /// The frame presented cleanly; carry on.
    Done,
    /// The surface is suboptimal or out of date; rebuild the swapchain and
    /// carry on.
    ReconfigureSwapchain,
    /// Any other native failure; surface it, carrying the native code.
    Fail(i32),
}

/// The followup a frame's outcome calls for: a clean present carries on, a
/// suboptimal flag or either swapchain-staleness code rebuilds the
/// swapchain, and every other native failure surfaces.
pub open spec fn spec_frame_followup(outcome: Result<bool, i32>) -> FrameFollowup {
    match outcome {
        Ok(suboptimal) => if suboptimal {
            FrameFollowup::ReconfigureSwapchain
        } else {
            FrameFollowup::Done
        },
        Err(code) => if code == RESULT_SUBOPTIMAL || code == ERROR_OUT_OF_DATE {
            FrameFollowup::ReconfigureSwapchain
        } else {
            FrameFollowup::Fail(code)
        },
    }
}

/// Decides what to do after a frame, from the render-and-present outcome:
/// `Ok` carries the suboptimal flag, `Err` the native code.
pub fn frame_followup(outcome: &Result<bool, i32>) -> (r: FrameFollowup)
    ensures
        r == spec_frame_followup(*outcome),
{
    match outcome {
        Ok(false) => FrameFollowup::Done,
        Ok(true) => FrameFollowup::ReconfigureSwapchain,
        Err(code) => {
            if *code == RESULT_SUBOPTIMAL || *code == ERROR_OUT_OF_DATE {
                FrameFollowup::ReconfigureSwapchain
            } else {
                FrameFollowup::Fail(*code)
            }
        },
    }
}

} // verus!
