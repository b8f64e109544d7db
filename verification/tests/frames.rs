use neuron_engine::frame_set::{FrameSet, MAX_FRAMES_IN_FLIGHT};
use neuron_engine::swapchain::{
    advance_frame, frame_followup, select_present_mode, select_surface_format,
    swapchain_extent, swapchain_min_image_count, FrameFollowup, SurfaceFormatInfo,
    COLOR_SPACE_SRGB_NONLINEAR, ERROR_OUT_OF_DATE, FORMAT_B8G8R8A8_SRGB, PRESENT_MODE_FIFO,
    PRESENT_MODE_MAILBOX, RESULT_SUBOPTIMAL,
};

#[test]
fn frame_set_factory_and_access() {
    let fs = FrameSet::create_factory(|i| i * 10);
    assert_eq!(*fs.get(0), 0);
    assert_eq!(*fs.get(1), 10);
    assert_eq!(fs.iter(), &[0, 10]);
}

#[test]
fn frame_set_set_replaces_one_slot() {
    let mut fs = FrameSet::from_vec(vec![1u32, 2u32]);
    fs.set(1, 7);
    assert_eq!(fs.iter(), &[1u32, 7u32]);
}

#[test]
fn promote_errors_keeps_all_successes() {
    let fs: FrameSet<Result<u32, i32>> = FrameSet::from_vec(vec![Ok(3), Ok(4)]);
    let ok = fs.promote_errors().unwrap();
    assert_eq!(ok.iter(), &[3u32, 4u32]);
}

#[test]
fn promote_errors_returns_first_failure() {
    let fs: FrameSet<Result<u32, i32>> = FrameSet::from_vec(vec![Err(-1), Err(-2)]);
    assert_eq!(fs.promote_errors().unwrap_err(), -1);
    let fs: FrameSet<Result<u32, i32>> = FrameSet::from_vec(vec![Ok(1), Err(-2)]);
    assert_eq!(fs.promote_errors().unwrap_err(), -2);
}

#[test]
fn advance_frame_wraps() {
    assert_eq!(advance_frame(0), 1);
    assert_eq!(advance_frame(MAX_FRAMES_IN_FLIGHT - 1), 0);
}

#[test]
fn present_mode_prefers_mailbox() {
    assert_eq!(select_present_mode(&vec![0, PRESENT_MODE_MAILBOX, 3]), PRESENT_MODE_MAILBOX);
    assert_eq!(select_present_mode(&vec![0, 3]), PRESENT_MODE_FIFO);
    assert_eq!(select_present_mode(&Vec::new()), PRESENT_MODE_FIFO);
}

#[test]
fn surface_format_prefers_bgra_srgb() {
    let other = SurfaceFormatInfo { format: 44, color_space: COLOR_SPACE_SRGB_NONLINEAR };
    let wanted = SurfaceFormatInfo {
        format: FORMAT_B8G8R8A8_SRGB,
        color_space: COLOR_SPACE_SRGB_NONLINEAR,
    };
    assert_eq!(select_surface_format(&vec![other, wanted]), wanted);
    // with no preferred entry, the first offered format wins
    let second = SurfaceFormatInfo { format: 45, color_space: 7 };
    assert_eq!(select_surface_format(&vec![other, second]), other);
    // the right format in the wrong colour space does not qualify
    let wrong_space = SurfaceFormatInfo { format: FORMAT_B8G8R8A8_SRGB, color_space: 7 };
    assert_eq!(select_surface_format(&vec![wrong_space]), wrong_space);
}

#[test]
fn min_image_count_respects_bounds() {
    // no maximum: one more than the minimum
    assert_eq!(swapchain_min_image_count(2, 0), 3);
    // a maximum below minimum plus one caps the count
    assert_eq!(swapchain_min_image_count(2, 2), 2);
    // a roomy maximum leaves minimum plus one
    assert_eq!(swapchain_min_image_count(2, 8), 3);
}

#[test]
fn extent_follows_surface_or_pins_to_max() {
    assert_eq!(swapchain_extent(800, 600, 1024, 768, 4096, 4096), (800, 600));
    assert_eq!(swapchain_extent(u32::MAX, 600, 1024, 768, 4096, 2160), (4096, 2160));
}

#[test]
fn frame_followup_decides_reconfiguration() {
    assert_eq!(frame_followup(&Ok(false)), FrameFollowup::Done);
    assert_eq!(frame_followup(&Ok(true)), FrameFollowup::ReconfigureSwapchain);
    assert_eq!(frame_followup(&Err(RESULT_SUBOPTIMAL)), FrameFollowup::ReconfigureSwapchain);
    assert_eq!(frame_followup(&Err(ERROR_OUT_OF_DATE)), FrameFollowup::ReconfigureSwapchain);
    assert_eq!(frame_followup(&Err(-4)), FrameFollowup::Fail(-4));
}
