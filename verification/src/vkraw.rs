//! Raw values and flag tests of the Vulkan bindings (`ash::vk`), on the
//! plain integers that the Vulkan types wrap.

use vstd::prelude::*;
use ash::vk;

verus! {

/// `vk::QueueFlags::contains`: every bit of `wanted` is set in `flags`.
#[verifier::external_body]
pub(crate) fn queue_flags_contain(flags: u32, wanted: u32) -> (r: bool)
    ensures
        r == (flags & wanted == wanted),
{
    vk::QueueFlags::from_raw(flags).contains(vk::QueueFlags::from_raw(wanted))
}

/// `vk::SurfaceTransformFlagsKHR::contains`: every bit of `wanted` is set in
/// `flags`.
#[verifier::external_body]
pub(crate) fn transform_flags_contain(flags: u32, wanted: u32) -> (r: bool)
    ensures
        r == (flags & wanted == wanted),
{
    vk::SurfaceTransformFlagsKHR::from_raw(flags).contains(vk::SurfaceTransformFlagsKHR::from_raw(wanted))
}

/// `vk::MemoryPropertyFlags::contains`: every bit of `wanted` is set in
/// `flags`.
#[verifier::external_body]
pub(crate) fn memory_flags_contain(flags: u32, wanted: u32) -> (r: bool)
    ensures
        r == (flags & wanted == wanted),
{
    vk::MemoryPropertyFlags::from_raw(flags).contains(vk::MemoryPropertyFlags::from_raw(wanted))
}

/// The raw value of `vk::QueueFlags::GRAPHICS`, which ash defines as bit 0.
#[verifier::external_body]
pub(crate) fn graphics_queue_bit() -> (r: u32)
    ensures
        r == 1,
{
    vk::QueueFlags::GRAPHICS.as_raw()
}

/// The raw value of `vk::QueueFlags::COMPUTE`, which ash defines as bit 1.
#[verifier::external_body]
pub(crate) fn compute_queue_bit() -> (r: u32)
    ensures
        r == 2,
{
    vk::QueueFlags::COMPUTE.as_raw()
}

/// The raw value of `vk::SurfaceTransformFlagsKHR::IDENTITY`, which ash
/// defines as bit 0.
#[verifier::external_body]
pub(crate) fn identity_transform() -> (r: u32)
    ensures
        r == 1,
{
    vk::SurfaceTransformFlagsKHR::IDENTITY.as_raw()
}

/// The raw value of `vk::PresentModeKHR::FIFO`, which ash defines as 2.
#[verifier::external_body]
pub(crate) fn fifo_present_mode() -> (r: i32)
    ensures
        r == 2,
{
    vk::PresentModeKHR::FIFO.as_raw()
}

/// The raw value of `vk::PhysicalDeviceType::DISCRETE_GPU`, which ash
/// defines as 2.
#[verifier::external_body]
pub(crate) fn discrete_gpu_type() -> (r: i32)
    ensures
        r == 2,
{
    vk::PhysicalDeviceType::DISCRETE_GPU.as_raw()
}

/// The raw value of `vk::PhysicalDeviceType::INTEGRATED_GPU`, which ash
/// defines as 1.
#[verifier::external_body]
pub(crate) fn integrated_gpu_type() -> (r: i32)
    ensures
        r == 1,
{
    vk::PhysicalDeviceType::INTEGRATED_GPU.as_raw()
}

/// The raw value of `vk::Format::UNDEFINED`, which ash defines as 0.
#[verifier::external_body]
pub(crate) fn undefined_format() -> (r: i32)
    ensures
        r == 0,
{
    vk::Format::UNDEFINED.as_raw()
}

/// The raw value of `vk::Format::B8G8R8A8_UNORM`, which ash defines as 44.
#[verifier::external_body]
pub(crate) fn bgra8_unorm_format() -> (r: i32)
    ensures
        r == 44,
{
    vk::Format::B8G8R8A8_UNORM.as_raw()
}

/// The raw value of `vk::ColorSpaceKHR::SRGB_NONLINEAR`, which ash defines
/// as 0.
#[verifier::external_body]
pub(crate) fn srgb_nonlinear_space() -> (r: i32)
    ensures
        r == 0,
{
    vk::ColorSpaceKHR::SRGB_NONLINEAR.as_raw()
}

/// `vk::api_version_major`: bits 22 to 28 of a packed version.
#[verifier::external_body]
pub(crate) fn api_version_major(version: u32) -> (r: u32)
    ensures
        r == (version >> 22u32) & 0x7fu32,
{
    vk::api_version_major(version)
}

/// `vk::api_version_minor`: bits 12 to 21 of a packed version.
#[verifier::external_body]
pub(crate) fn api_version_minor(version: u32) -> (r: u32)
    ensures
        r == (version >> 12u32) & 0x3ffu32,
{
    vk::api_version_minor(version)
}

/// `vk::make_api_version`: variant, major, minor and patch packed at bits
/// 29, 22, 12 and 0, each shifted within 32 bits and or-ed together.
#[verifier::external_body]
pub(crate) fn make_api_version(variant: u32, major: u32, minor: u32, patch: u32) -> (r: u32)
    ensures
        r == (variant << 29u32) | (major << 22u32) | (minor << 12u32) | patch,
{
    vk::make_api_version(variant, major, minor, patch)
}

} // verus!
