//! The swapchain settings chosen from what the surface reports, and what a
//! frame does with the outcome of acquiring and presenting an image.

use vstd::prelude::*;
use crate::vkraw::{
    transform_flags_contain, identity_transform, fifo_present_mode, undefined_format,
    bgra8_unorm_format, srgb_nonlinear_space,
};

verus! {

/// A width and a height in pixels.
#[derive(Clone, Copy, PartialEq, Eq, Structural, Debug)]
pub struct Extent2D {
    pub width: u32,
    pub height: u32,
}

/// A surface format: the raw pixel format and color space.
#[derive(Clone, Copy, PartialEq, Eq, Structural, Debug)]
pub struct SurfaceFormat {
    pub format: i32,
    pub color_space: i32,
}

/// How many images to ask the swapchain for: one more than the minimum,
/// but no more than the maximum where the surface sets one (a maximum of 0
/// sets none).
pub fn swap_image_count(min_image_count: u32, max_image_count: u32) -> (r: u32)
    requires
        min_image_count < u32::MAX,
    ensures
        r == if max_image_count > 0 && min_image_count + 1 > max_image_count {
            max_image_count
        } else {
            (min_image_count + 1) as u32
        },
{
    let mut swap_img_count = min_image_count + 1;
    if max_image_count > 0 && swap_img_count > max_image_count {
        swap_img_count = max_image_count;
    }
    swap_img_count
}

/// The surface resolution: the surface's current extent, unless its width
/// is `u32::MAX` (the surface leaves the size to the swapchain), in which
/// case the window's inner size.
pub fn surface_resolution(current_extent: Extent2D, window_size: Extent2D) -> (r: Extent2D)
    ensures
        r == if current_extent.width == u32::MAX { window_size } else { current_extent },
{
    if current_extent.width == u32::MAX {
        window_size
    } else {
        current_extent
    }
}

/// The render resolution: the preferred one when it is in use and the
/// window is fullscreen, else the surface resolution scaled by the image
/// scale (computed by the caller).
pub fn render_resolution(use_render_res: bool, fullscreen: bool, pref_render_res: Extent2D, scaled_res: Extent2D) -> (r: Extent2D)
    ensures
        r == if use_render_res && fullscreen { pref_render_res } else { scaled_res },
{
    if use_render_res && fullscreen {
        pref_render_res
    } else {
        scaled_res
    }
}

/// The pre-transform: identity where the surface supports it, else its
/// current transform.
pub fn pre_transform(supported_transforms: u32, current_transform: u32) -> (r: u32)
    ensures
        r == if supported_transforms & 1 == 1 { 1u32 } else { current_transform },
{
    let identity = identity_transform();
    if transform_flags_contain(supported_transforms, identity) {
        identity
    } else {
        current_transform
    }
}

/// The present mode: the preferred one where the surface offers it, else
/// FIFO (raw value 2), which every surface offers.
pub fn select_present_mode(present_mode_list: &Vec<i32>, pref_present_mode: i32) -> (r: i32)
    ensures
        r == if present_mode_list@.contains(pref_present_mode) { pref_present_mode } else { 2i32 },
{
    let mut k: usize = 0;
    while k < present_mode_list.len()
        invariant
            k <= present_mode_list.len(),
            forall|j: int| 0 <= j < k ==> present_mode_list@[j] != pref_present_mode,
        decreases present_mode_list.len() - k,
    {
        if present_mode_list[k] == pref_present_mode {
            return pref_present_mode;
        }
        k = k + 1;
    }
    fifo_present_mode()
}

/// The surface format to create a swapchain with: B8G8R8A8_UNORM with the
/// sRGB color space when the surface has no preference (a single undefined
/// format) or offers it, else the first format offered.
pub fn choose_surface_format(format_list: &Vec<SurfaceFormat>) -> (r: SurfaceFormat)
    requires
        format_list.len() > 0,
    ensures
        r == if format_list.len() == 1 && format_list@[0].format == 0 {
            SurfaceFormat { format: 44, color_space: 0 }
        } else if format_list@.contains(SurfaceFormat { format: 44, color_space: 0 }) {
            SurfaceFormat { format: 44, color_space: 0 }
        } else {
            format_list@[0]
        },
{
    let wanted = SurfaceFormat { format: bgra8_unorm_format(), color_space: srgb_nonlinear_space() };
    if format_list.len() == 1 && format_list[0].format == undefined_format() {
        return wanted;
    }
    let mut k: usize = 0;
    while k < format_list.len()
        invariant
            k <= format_list.len(),
            wanted == (SurfaceFormat { format: 44, color_space: 0 }),
            forall|j: int| 0 <= j < k ==> format_list@[j] != wanted,
        decreases format_list.len() - k,
    {
        let f = format_list[k];
        if f.format == wanted.format && f.color_space == wanted.color_space {
            return f;
        }
        k = k + 1;
    }
    format_list[0]
}

/// The extent to create a swapchain with: the current extent unless its
/// width is `u32::MAX`, else the window size clamped, per axis, first to the
/// maximum and then to the minimum image extent.
pub fn swapchain_extent(current_extent: Extent2D, min_extent: Extent2D, max_extent: Extent2D, window_size: Extent2D) -> (r: Extent2D)
    ensures
        r == if current_extent.width != u32::MAX {
            current_extent
        } else {
            Extent2D {
                width: clamp_down_up(window_size.width, min_extent.width, max_extent.width),
                height: clamp_down_up(window_size.height, min_extent.height, max_extent.height),
            }
        },
{
    if current_extent.width != u32::MAX {
        current_extent
    } else {
        let width = max_u32(min_u32(window_size.width, max_extent.width), min_extent.width);
        let height = max_u32(min_u32(window_size.height, max_extent.height), min_extent.height);
        Extent2D { width, height }
    }
}

/// `v` lowered to `hi` if above it, then raised to `lo` if below it.
pub open spec fn clamp_down_up(v: u32, lo: u32, hi: u32) -> u32 {
    let capped = if v < hi { v } else { hi };
    if capped > lo { capped } else { lo }
}

fn min_u32(a: u32, b: u32) -> (r: u32)
    ensures
        r == if a < b { a } else { b },
{
    if a < b { a } else { b }
}

fn max_u32(a: u32, b: u32) -> (r: u32)
    ensures
        r == if a > b { a } else { b },
{
    if a > b { a } else { b }
}

/// An extent divided, per axis, by an integer image scale.
pub fn scaled_extent(extent: Extent2D, img_scale: u32) -> (r: Extent2D)
    requires
        img_scale > 0,
    ensures
        r == (Extent2D { width: extent.width / img_scale, height: extent.height / img_scale }),
{
    Extent2D { width: extent.width / img_scale, height: extent.height / img_scale }
}

/// The outcome of acquiring the next swapchain image.
#[derive(Clone, Copy, PartialEq, Eq, Structural, Debug)]
pub enum AcquireOutcome {
    Acquired(u32),
    OutOfDate,
    Failed,
}

/// The outcome of presenting an image.
#[derive(Clone, Copy, PartialEq, Eq, Structural, Debug)]
pub enum PresentOutcome {
    Presented(bool),
    OutOfDate,
    Failed,
}

/// What a frame does next.
#[derive(Clone, Copy, PartialEq, Eq, Structural, Debug)]
pub enum FrameStep {
    /// Record and submit the drawing into the image of this index.
    Draw(u32),
    /// The frame ends with the swapchain out of date (`true`) or not.
    Finish(bool),
    /// The outcome is an error the frame cannot go on from.
    Abort,
}

/// After acquiring: draw into the acquired image; an out-of-date swapchain
/// ends the frame as out of date; any other error aborts.
pub fn after_acquire(outcome: AcquireOutcome) -> (r: FrameStep)
    ensures
        r == match outcome {
            AcquireOutcome::Acquired(i) => FrameStep::Draw(i),
            AcquireOutcome::OutOfDate => FrameStep::Finish(true),
            AcquireOutcome::Failed => FrameStep::Abort,
        },
{
    match outcome {
        AcquireOutcome::Acquired(i) => FrameStep::Draw(i),
        AcquireOutcome::OutOfDate => FrameStep::Finish(true),
        AcquireOutcome::Failed => FrameStep::Abort,
    }
}

/// After presenting: a suboptimal or out-of-date swapchain ends the frame
/// as out of date, a plain success as up to date; any other error aborts.
pub fn after_present(outcome: PresentOutcome) -> (r: FrameStep)
    ensures
        r == match outcome {
            PresentOutcome::Presented(suboptimal) => FrameStep::Finish(suboptimal),
            PresentOutcome::OutOfDate => FrameStep::Finish(true),
            PresentOutcome::Failed => FrameStep::Abort,
        },
{
    match outcome {
        PresentOutcome::Presented(suboptimal) => {
            if suboptimal {
                FrameStep::Finish(true)
            } else {
                FrameStep::Finish(false)
            }
        },
        PresentOutcome::OutOfDate => FrameStep::Finish(true),
        PresentOutcome::Failed => FrameStep::Abort,
    }
}

} // verus!
