//! The state of the render loop and the decision each window event leads
//! to; the caller carries the decision out.

use vstd::prelude::*;
use std::time::Duration;
use crate::input::{Input, KeyLayout, KeyResponse, action_response, layout_bindings, layout_valid, law_layout_binds_each_key};

verus! {

/// The state of the render loop.
pub struct RenderState {
    pub out_of_date: bool,
    pub idle: bool,
    pub frame_time: Duration,
}

/// The state of an engine loop: whether the swapchain needs rebuilding,
/// whether the window is minimized, and the last frame time.
pub struct EngineStatus {
    pub recreate_swapchain: bool,
    pub idle: bool,
    pub frame_time: Duration,
}

/// Graphic preferences handed to the shaders.
#[derive(Clone, Copy)]
pub struct GraphicPref {
    pub empty: u32,
}

/// A window event, as the loop reads it.
#[derive(Clone, Copy, PartialEq, Eq, Structural, Debug)]
pub enum LoopEvent {
    /// A key with a known key code (its slot) was pressed or released.
    KeyboardInput { key_slot: usize, pressed: bool },
    CursorMoved,
    CloseRequested,
    /// All events of this round are handled; the window has this inner size.
    MainEventsCleared { width: u32, height: u32 },
    LoopDestroyed,
    Other,
}

/// What the loop does for an event.
#[derive(Clone, Copy, PartialEq, Eq, Structural, Debug)]
pub enum LoopCommand {
    /// Carry out the response to a key.
    HandleKey(KeyResponse),
    /// Turn the mouse position into a camera rotation and recentre the
    /// hidden cursor.
    MoveMouse,
    Exit,
    /// Rebuild the swapchain for the new window size.
    RecreateSwapchain,
    /// The window is minimized: draw nothing.
    Idle,
    /// Update the uniform, draw a frame, then report with `finish_frame`.
    DrawFrame,
    /// Wait for the device to finish its work.
    WaitForGpu,
    Nothing,
}

/// The command for `event` in state `s`.
pub open spec fn command_for(s: RenderState, input: Input, event: LoopEvent) -> LoopCommand {
    match event {
        LoopEvent::KeyboardInput { key_slot, pressed } => LoopCommand::HandleKey(
            if pressed { action_response(input.binding_list@[key_slot as int]) } else { KeyResponse::Nothing },
        ),
        LoopEvent::CursorMoved => LoopCommand::MoveMouse,
        LoopEvent::CloseRequested => LoopCommand::Exit,
        LoopEvent::MainEventsCleared { width, height } => if s.out_of_date {
            if width > 0 && height > 0 { LoopCommand::RecreateSwapchain } else { LoopCommand::Idle }
        } else {
            LoopCommand::DrawFrame
        },
        LoopEvent::LoopDestroyed => LoopCommand::WaitForGpu,
        LoopEvent::Other => LoopCommand::Nothing,
    }
}

impl RenderState {
    /// A loop that is neither out of date nor idle.
    pub fn new(frame_time: Duration) -> (r: RenderState)
        ensures
            !r.out_of_date,
            !r.idle,
            r.frame_time == frame_time,
    {
        RenderState { out_of_date: false, idle: false, frame_time }
    }

    /// Decides what to do for `event`. A rebuilt swapchain is no longer out
    /// of date and the loop not idle; a minimized window makes the loop idle
    /// until it is rebuilt.
    pub fn handle_event(&mut self, input: &Input, event: LoopEvent) -> (r: LoopCommand)
        requires
            event matches LoopEvent::KeyboardInput { key_slot, pressed } ==> (pressed ==> key_slot < 256),
        ensures
            r == command_for(*old(self), *input, event),
            final(self).frame_time == old(self).frame_time,
            r == LoopCommand::RecreateSwapchain ==> !final(self).out_of_date && !final(self).idle,
            r == LoopCommand::Idle ==> final(self).out_of_date && final(self).idle,
            r != LoopCommand::RecreateSwapchain && r != LoopCommand::Idle ==> final(self).out_of_date
                == old(self).out_of_date && final(self).idle == old(self).idle,
    {
        match event {
            LoopEvent::KeyboardInput { key_slot, pressed } => {
                LoopCommand::HandleKey(input.handle_key_input(key_slot, pressed))
            },
            LoopEvent::CursorMoved => LoopCommand::MoveMouse,
            LoopEvent::CloseRequested => LoopCommand::Exit,
            LoopEvent::MainEventsCleared { width, height } => {
                if self.out_of_date {
                    if width > 0 && height > 0 {
                        self.idle = false;
                        self.out_of_date = false;
                        LoopCommand::RecreateSwapchain
                    } else {
                        self.idle = true;
                        LoopCommand::Idle
                    }
                } else {
                    LoopCommand::DrawFrame
                }
            },
            LoopEvent::LoopDestroyed => LoopCommand::WaitForGpu,
            LoopEvent::Other => LoopCommand::Nothing,
        }
    }

    /// Records the outcome of a drawn frame: whether the swapchain went out
    /// of date, and how long the frame took.
    pub fn finish_frame(&mut self, out_of_date: bool, frame_time: Duration)
        ensures
            final(self).out_of_date == out_of_date,
            final(self).idle == old(self).idle,
            final(self).frame_time == frame_time,
    {
        self.out_of_date = out_of_date;
        self.frame_time = frame_time;
    }
}

/// A loop whose swapchain went out of date rebuilds it at the next round
/// with a visible window, and draws again at the round after.
pub proof fn law_out_of_date_recovers(s: RenderState, input: Input, width: u32, height: u32)
    requires
        s.out_of_date,
        width > 0,
        height > 0,
    ensures
        command_for(s, input, LoopEvent::MainEventsCleared { width, height }) == LoopCommand::RecreateSwapchain,
        command_for(
            RenderState { out_of_date: false, idle: false, frame_time: s.frame_time },
            input,
            LoopEvent::MainEventsCleared { width, height },
        ) == LoopCommand::DrawFrame,
{
}

/// Releasing a key does nothing, whatever the key and whatever it is bound
/// to.
pub proof fn law_key_release_does_nothing(s: RenderState, input: Input, key_slot: usize)
    ensures
        command_for(s, input, LoopEvent::KeyboardInput { key_slot, pressed: false }) == LoopCommand::HandleKey(
            KeyResponse::Nothing,
        ),
{
}

/// With the bindings of a layout of distinct keys, pressing forward or
/// backward moves by one step along z, left or right along x, jump or shift
/// along y; fullscreen, escape and reset ask for their window operation.
pub proof fn law_key_press_responses(s: RenderState, input: Input, l: KeyLayout)
    requires
        layout_valid(l),
        seq![l.forward, l.backward, l.left, l.right, l.jump, l.shift, l.fullscreen, l.escape, l.reset]
            .no_duplicates(),
        input.binding_list@ == layout_bindings(l),
    ensures
        command_for(s, input, LoopEvent::KeyboardInput { key_slot: l.forward, pressed: true })
            == LoopCommand::HandleKey(KeyResponse::Move(0i32, 0i32, 1i32)),
        command_for(s, input, LoopEvent::KeyboardInput { key_slot: l.backward, pressed: true })
            == LoopCommand::HandleKey(KeyResponse::Move(0i32, 0i32, -1i32)),
        command_for(s, input, LoopEvent::KeyboardInput { key_slot: l.left, pressed: true })
            == LoopCommand::HandleKey(KeyResponse::Move(1i32, 0i32, 0i32)),
        command_for(s, input, LoopEvent::KeyboardInput { key_slot: l.right, pressed: true })
            == LoopCommand::HandleKey(KeyResponse::Move(-1i32, 0i32, 0i32)),
        command_for(s, input, LoopEvent::KeyboardInput { key_slot: l.jump, pressed: true })
            == LoopCommand::HandleKey(KeyResponse::Move(0i32, 1i32, 0i32)),
        command_for(s, input, LoopEvent::KeyboardInput { key_slot: l.shift, pressed: true })
            == LoopCommand::HandleKey(KeyResponse::Move(0i32, -1i32, 0i32)),
        command_for(s, input, LoopEvent::KeyboardInput { key_slot: l.fullscreen, pressed: true })
            == LoopCommand::HandleKey(KeyResponse::Fullscreen),
        command_for(s, input, LoopEvent::KeyboardInput { key_slot: l.escape, pressed: true })
            == LoopCommand::HandleKey(KeyResponse::Windowed),
        command_for(s, input, LoopEvent::KeyboardInput { key_slot: l.reset, pressed: true })
            == LoopCommand::HandleKey(KeyResponse::ResetCursor),
{
    law_layout_binds_each_key(l);
}

} // verus!
