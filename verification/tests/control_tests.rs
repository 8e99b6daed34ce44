use std::time::Duration;
use voxel_octree::device::{
    api_version, check_queue_families, device_rank, find_memorytype_index, find_suitable_queue,
    queue_index_list, select_physical_device, sharing_is_concurrent, DeviceCandidate, QueueFamily,
};
use voxel_octree::grid::{index_to_pos, pos_to_index};
use voxel_octree::input::{Action, Input, KeyLayout, KeyResponse};
use voxel_octree::keyboard::{self, KeyEffect, Keyboard};
use voxel_octree::render::{EngineStatus, GraphicPref, LoopCommand, LoopEvent, RenderState};
use voxel_octree::swapchain::{
    after_acquire, after_present, choose_surface_format, pre_transform, render_resolution,
    scaled_extent, select_present_mode, surface_resolution, swap_image_count, swapchain_extent,
    AcquireOutcome, Extent2D, FrameStep, PresentOutcome, SurfaceFormat,
};

fn layout() -> KeyLayout {
    KeyLayout { forward: 22, backward: 18, left: 0, right: 3, jump: 76, shift: 112, fullscreen: 5, escape: 74, reset: 17 }
}

#[test]
fn key_bindings_and_responses() {
    let input = Input::new(&layout());
    assert!(input.binding_list[22] == Action::FORWARD);
    assert!(input.binding_list[74] == Action::ESCAPE);
    assert!(input.binding_list[100] == Action::NONE);
    assert_eq!(input.handle_key_input(22, true), KeyResponse::Move(0, 0, 1));
    assert_eq!(input.handle_key_input(18, true), KeyResponse::Move(0, 0, -1));
    assert_eq!(input.handle_key_input(0, true), KeyResponse::Move(1, 0, 0));
    assert_eq!(input.handle_key_input(3, true), KeyResponse::Move(-1, 0, 0));
    assert_eq!(input.handle_key_input(76, true), KeyResponse::Move(0, 1, 0));
    assert_eq!(input.handle_key_input(112, true), KeyResponse::Move(0, -1, 0));
    assert_eq!(input.handle_key_input(5, true), KeyResponse::Fullscreen);
    assert_eq!(input.handle_key_input(74, true), KeyResponse::Windowed);
    assert_eq!(input.handle_key_input(17, true), KeyResponse::ResetCursor);
    assert_eq!(input.handle_key_input(22, false), KeyResponse::Nothing);
    assert_eq!(input.handle_key_input(100, true), KeyResponse::Nothing);
    // A later binding of the same slot wins.
    let mut l = layout();
    l.reset = 22;
    assert_eq!(Input::new(&l).handle_key_input(22, true), KeyResponse::ResetCursor);
}

#[test]
fn keyboard_bindings() {
    let kb = Keyboard::new(&layout());
    assert_eq!(kb.binding_list.len(), 6);
    assert_eq!(Keyboard::handle_input(&kb, 22, true), vec![KeyEffect::ChangePos(keyboard::Action::Z, 1)]);
    assert_eq!(Keyboard::handle_input(&kb, 0, true), vec![KeyEffect::ChangePos(keyboard::Action::X, -1)]);
    assert_eq!(Keyboard::handle_input(&kb, 5, true), vec![KeyEffect::General(keyboard::Action::FULLSCREEN)]);
    assert_eq!(Keyboard::handle_input(&kb, 5, false), vec![]);
    assert_eq!(Keyboard::handle_input(&kb, 99, true), vec![]);
    let mut l = layout();
    l.escape = 22;
    let kb2 = Keyboard::new(&l);
    assert_eq!(
        Keyboard::handle_input(&kb2, 22, true),
        vec![KeyEffect::ChangePos(keyboard::Action::Z, 1), KeyEffect::General(keyboard::Action::ESCAPE)]
    );
}

#[test]
fn render_loop_decisions() {
    let input = Input::new(&layout());
    let mut s = RenderState::new(Duration::ZERO);
    assert_eq!(s.handle_event(&input, LoopEvent::MainEventsCleared { width: 800, height: 600 }), LoopCommand::DrawFrame);
    s.finish_frame(true, Duration::from_millis(16));
    assert!(s.out_of_date);
    assert_eq!(s.frame_time, Duration::from_millis(16));
    assert_eq!(s.handle_event(&input, LoopEvent::MainEventsCleared { width: 0, height: 600 }), LoopCommand::Idle);
    assert!(s.idle);
    assert!(s.out_of_date);
    assert_eq!(s.handle_event(&input, LoopEvent::MainEventsCleared { width: 800, height: 600 }), LoopCommand::RecreateSwapchain);
    assert!(!s.idle);
    assert!(!s.out_of_date);
    assert_eq!(s.handle_event(&input, LoopEvent::CloseRequested), LoopCommand::Exit);
    assert_eq!(s.handle_event(&input, LoopEvent::CursorMoved), LoopCommand::MoveMouse);
    assert_eq!(s.handle_event(&input, LoopEvent::LoopDestroyed), LoopCommand::WaitForGpu);
    assert_eq!(s.handle_event(&input, LoopEvent::Other), LoopCommand::Nothing);
    assert_eq!(
        s.handle_event(&input, LoopEvent::KeyboardInput { key_slot: 5, pressed: true }),
        LoopCommand::HandleKey(KeyResponse::Fullscreen)
    );
    let status = EngineStatus { recreate_swapchain: false, idle: false, frame_time: Duration::ZERO };
    assert!(!status.recreate_swapchain);
    let pref = GraphicPref { empty: 0 };
    assert_eq!(pref.empty, 0);
}

#[test]
fn swapchain_choices() {
    assert_eq!(swap_image_count(2, 0), 3);
    assert_eq!(swap_image_count(2, 8), 3);
    assert_eq!(swap_image_count(3, 3), 3);
    let cur = Extent2D { width: 1024, height: 768 };
    let win = Extent2D { width: 800, height: 600 };
    assert_eq!(surface_resolution(cur, win), cur);
    assert_eq!(surface_resolution(Extent2D { width: u32::MAX, height: 5 }, win), win);
    let pref = Extent2D { width: 1920, height: 1080 };
    assert_eq!(render_resolution(true, true, pref, win), pref);
    assert_eq!(render_resolution(true, false, pref, win), win);
    assert_eq!(render_resolution(false, true, pref, win), win);
    assert_eq!(pre_transform(0b11, 4), 1);
    assert_eq!(pre_transform(0b10, 4), 4);
    assert_eq!(select_present_mode(&vec![2, 0, 1], 0), 0);
    assert_eq!(select_present_mode(&vec![2, 3], 0), 2);
    assert_eq!(select_present_mode(&vec![], 1), 2);
    let f = |format, color_space| SurfaceFormat { format, color_space };
    assert_eq!(choose_surface_format(&vec![f(0, 5)]), f(44, 0));
    assert_eq!(choose_surface_format(&vec![f(50, 0), f(44, 0)]), f(44, 0));
    assert_eq!(choose_surface_format(&vec![f(50, 0), f(44, 1)]), f(50, 0));
    let min = Extent2D { width: 100, height: 100 };
    let max = Extent2D { width: 4000, height: 500 };
    assert_eq!(swapchain_extent(cur, min, max, win), cur);
    assert_eq!(swapchain_extent(Extent2D { width: u32::MAX, height: 0 }, min, max, win), Extent2D { width: 800, height: 500 });
    assert_eq!(swapchain_extent(Extent2D { width: u32::MAX, height: 0 }, min, max, Extent2D { width: 5, height: 5 }), min);
    assert_eq!(scaled_extent(Extent2D { width: 801, height: 600 }, 2), Extent2D { width: 400, height: 300 });
    assert_eq!(after_acquire(AcquireOutcome::Acquired(2)), FrameStep::Draw(2));
    assert_eq!(after_acquire(AcquireOutcome::OutOfDate), FrameStep::Finish(true));
    assert_eq!(after_acquire(AcquireOutcome::Failed), FrameStep::Abort);
    assert_eq!(after_present(PresentOutcome::Presented(false)), FrameStep::Finish(false));
    assert_eq!(after_present(PresentOutcome::Presented(true)), FrameStep::Finish(true));
    assert_eq!(after_present(PresentOutcome::OutOfDate), FrameStep::Finish(true));
    assert_eq!(after_present(PresentOutcome::Failed), FrameStep::Abort);
}

#[test]
fn device_choices() {
    let q = |queue_count, flags, present_support| QueueFamily { queue_count, flags, present_support };
    let devices = vec![vec![q(1, 2, true), q(1, 1, false)], vec![q(1, 4, true), q(2, 3, true), q(1, 1, true)]];
    assert_eq!(find_suitable_queue(&devices), Some((1, 1)));
    assert_eq!(find_suitable_queue(&vec![vec![q(1, 2, true)]]), None);
    // Older check: both in one family, the first such family wins.
    assert_eq!(check_queue_families(&vec![q(1, 1, true), q(1, 3, true), q(1, 3, true)]), (Some(1), Some(1)));
    // Families without queues are skipped and not numbered.
    assert_eq!(check_queue_families(&vec![q(0, 3, true), q(1, 3, false), q(1, 0, true)]), (None, Some(1)));
    assert_eq!(check_queue_families(&vec![]), (None, None));
    assert_eq!(device_rank(2), 0);
    assert_eq!(device_rank(1), 1);
    assert_eq!(device_rank(4), 2);
    let c = |rank, suitable| DeviceCandidate { rank, suitable };
    assert_eq!(select_physical_device(&vec![c(2, true), c(0, false), c(1, true), c(1, true)]), Some(2));
    assert_eq!(select_physical_device(&vec![c(2, false)]), None);
    assert_eq!(queue_index_list(3, 3), vec![3]);
    assert_eq!(queue_index_list(3, 1), vec![3, 1]);
    assert!(sharing_is_concurrent(0, 1));
    assert!(!sharing_is_concurrent(1, 1));
    let types = vec![0b001, 0b110, 0b111, 0b110];
    assert_eq!(find_memorytype_index(&types, 4, 0b1111, 0b110), Some(1));
    assert_eq!(find_memorytype_index(&types, 4, 0b1100, 0b110), Some(2));
    assert_eq!(find_memorytype_index(&types, 2, 0b1100, 0b110), None);
    assert_eq!(api_version(None), 1 << 22);
    assert_eq!(api_version(Some((1 << 22) | (3 << 12) | 250)), (1 << 22) | (3 << 12));
}

#[test]
fn cube_cell_indices() {
    assert_eq!(pos_to_index(1, 0, 0, 2), 1);
    assert_eq!(pos_to_index(0, 0, 1, 2), 2);
    assert_eq!(pos_to_index(0, 1, 0, 2), 4);
    assert_eq!(pos_to_index(3, 2, 5, 2), 3);
    assert_eq!(pos_to_index(1, 2, 3, 4), 1 + 3 * 4 + 2 * 16);
    assert_eq!(pos_to_index(-1, 0, 0, 2), usize::MAX);
    assert_eq!(index_to_pos(7, 2), (1, 1, 1));
    assert_eq!(index_to_pos(45, 4), (1, 2, 3));
    for i in 0..8u32 {
        let (x, y, z) = index_to_pos(i, 2);
        assert_eq!(pos_to_index(x as i32, y as i32, z as i32, 2), i as usize);
    }
}

#[test]
fn every_index_of_a_cube_comes_back_through_its_cell() {
    for side in 1u32..5 {
        for i in 0..side * side * side {
            let (x, y, z) = index_to_pos(i, side);
            assert!(x < side && y < side && z < side);
            assert_eq!(pos_to_index(x as i32, y as i32, z as i32, side as i32), i as usize);
        }
    }
    assert_eq!(pos_to_index(1, 1, 0, 2), 5);
}
