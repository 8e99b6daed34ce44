//! Key bindings of the renderer: which key does what, and what a key event
//! asks the window or the camera to do.

use vstd::prelude::*;

verus! {

/// What a key is bound to.
#[derive(Clone, Copy, PartialEq, Eq, Structural, Debug)]
pub enum Action {
    NONE,
    FORWARD,
    BACKWARD,
    LEFT,
    RIGHT,
    JUMP,
    SHIFT,
    FULLSCREEN,
    ESCAPE,
    RESET,
}

/// The slots (key codes below 256) of the keys that the renderer binds.
#[derive(Clone, Copy)]
pub struct KeyLayout {
    pub forward: usize,
    pub backward: usize,
    pub left: usize,
    pub right: usize,
    pub jump: usize,
    pub shift: usize,
    pub fullscreen: usize,
    pub escape: usize,
    pub reset: usize,
}

/// All slots of a layout are below 256.
pub open spec fn layout_valid(l: KeyLayout) -> bool {
    &&& l.forward < 256
    &&& l.backward < 256
    &&& l.left < 256
    &&& l.right < 256
    &&& l.jump < 256
    &&& l.shift < 256
    &&& l.fullscreen < 256
    &&& l.escape < 256
    &&& l.reset < 256
}

/// The binding table of a layout: every slot unbound, then each key bound in
/// the order forward, backward, left, right, jump, shift, fullscreen,
/// escape, reset (a later binding of the same slot wins).
pub open spec fn layout_bindings(l: KeyLayout) -> Seq<Action> {
    Seq::new(256, |i: int| Action::NONE)
        .update(l.forward as int, Action::FORWARD)
        .update(l.backward as int, Action::BACKWARD)
        .update(l.left as int, Action::LEFT)
        .update(l.right as int, Action::RIGHT)
        .update(l.jump as int, Action::JUMP)
        .update(l.shift as int, Action::SHIFT)
        .update(l.fullscreen as int, Action::FULLSCREEN)
        .update(l.escape as int, Action::ESCAPE)
        .update(l.reset as int, Action::RESET)
}

/// What a key press asks for.
#[derive(Clone, Copy, PartialEq, Eq, Structural, Debug)]
pub enum KeyResponse {
    /// Add a step of the movement increment along each axis (-1, 0 or 1).
    Move(i32, i32, i32),
    /// Go to exclusive fullscreen on the first video mode of the monitor.
    Fullscreen,
    /// Leave fullscreen.
    Windowed,
    /// Put the cursor back to the middle of the window.
    ResetCursor,
    Nothing,
}

/// The response bound to an action.
pub open spec fn action_response(a: Action) -> KeyResponse {
    match a {
        Action::FORWARD => KeyResponse::Move(0, 0, 1),
        Action::BACKWARD => KeyResponse::Move(0, 0, -1i32),
        Action::LEFT => KeyResponse::Move(1, 0, 0),
        Action::RIGHT => KeyResponse::Move(-1i32, 0, 0),
        Action::JUMP => KeyResponse::Move(0, 1, 0),
        Action::SHIFT => KeyResponse::Move(0, -1i32, 0),
        Action::FULLSCREEN => KeyResponse::Fullscreen,
        Action::ESCAPE => KeyResponse::Windowed,
        Action::RESET => KeyResponse::ResetCursor,
        Action::NONE => KeyResponse::Nothing,
    }
}

/// The binding table: the action of each key slot.
pub struct Input {
    pub binding_list: [Action; 256],
}

impl Input {
    /// The table of `layout`.
    pub fn new(layout: &KeyLayout) -> (r: Input)
        requires
            layout_valid(*layout),
        ensures
            r.binding_list@ == layout_bindings(*layout),
    {
        let mut binding_list = [Action::NONE; 256];
        binding_list[layout.forward] = Action::FORWARD;
        binding_list[layout.backward] = Action::BACKWARD;
        binding_list[layout.left] = Action::LEFT;
        binding_list[layout.right] = Action::RIGHT;
        binding_list[layout.jump] = Action::JUMP;
        binding_list[layout.shift] = Action::SHIFT;
        binding_list[layout.fullscreen] = Action::FULLSCREEN;
        binding_list[layout.escape] = Action::ESCAPE;
        binding_list[layout.reset] = Action::RESET;
        proof {
            assert(binding_list@ =~= layout_bindings(*layout));
        }
        Input { binding_list }
    }

    /// What the key in slot `key_slot` asks for: nothing unless it was
    /// pressed, else the response bound to its action.
    pub fn handle_key_input(&self, key_slot: usize, pressed: bool) -> (r: KeyResponse)
        requires
            pressed ==> key_slot < 256,
        ensures
            r == if pressed {
                action_response(self.binding_list@[key_slot as int])
            } else {
                KeyResponse::Nothing
            },
    {
        if pressed {
            match self.binding_list[key_slot] {
                Action::FORWARD => KeyResponse::Move(0, 0, 1),
                Action::BACKWARD => KeyResponse::Move(0, 0, -1),
                Action::LEFT => KeyResponse::Move(1, 0, 0),
                Action::RIGHT => KeyResponse::Move(-1, 0, 0),
                Action::JUMP => KeyResponse::Move(0, 1, 0),
                Action::SHIFT => KeyResponse::Move(0, -1, 0),
                Action::FULLSCREEN => KeyResponse::Fullscreen,
                Action::ESCAPE => KeyResponse::Windowed,
                Action::RESET => KeyResponse::ResetCursor,
                _ => KeyResponse::Nothing,
            }
        } else {
            KeyResponse::Nothing
        }
    }
}

/// With nine distinct slots, every key of a layout is bound to its own
/// action and asks for that action's response when pressed.
pub proof fn law_layout_binds_each_key(l: KeyLayout)
    requires
        layout_valid(l),
        seq![l.forward, l.backward, l.left, l.right, l.jump, l.shift, l.fullscreen, l.escape, l.reset]
            .no_duplicates(),
    ensures
        layout_bindings(l)[l.forward as int] == Action::FORWARD,
        layout_bindings(l)[l.backward as int] == Action::BACKWARD,
        layout_bindings(l)[l.left as int] == Action::LEFT,
        layout_bindings(l)[l.right as int] == Action::RIGHT,
        layout_bindings(l)[l.jump as int] == Action::JUMP,
        layout_bindings(l)[l.shift as int] == Action::SHIFT,
        layout_bindings(l)[l.fullscreen as int] == Action::FULLSCREEN,
        layout_bindings(l)[l.escape as int] == Action::ESCAPE,
        layout_bindings(l)[l.reset as int] == Action::RESET,
        action_response(layout_bindings(l)[l.forward as int]) == KeyResponse::Move(0i32, 0i32, 1i32),
        action_response(layout_bindings(l)[l.backward as int]) == KeyResponse::Move(0i32, 0i32, -1i32),
        action_response(layout_bindings(l)[l.left as int]) == KeyResponse::Move(1i32, 0i32, 0i32),
        action_response(layout_bindings(l)[l.right as int]) == KeyResponse::Move(-1i32, 0i32, 0i32),
        action_response(layout_bindings(l)[l.jump as int]) == KeyResponse::Move(0i32, 1i32, 0i32),
        action_response(layout_bindings(l)[l.shift as int]) == KeyResponse::Move(0i32, -1i32, 0i32),
        action_response(layout_bindings(l)[l.fullscreen as int]) == KeyResponse::Fullscreen,
        action_response(layout_bindings(l)[l.escape as int]) == KeyResponse::Windowed,
        action_response(layout_bindings(l)[l.reset as int]) == KeyResponse::ResetCursor,
        forall|k: int|
            0 <= k < 256 && !seq![l.forward, l.backward, l.left, l.right, l.jump, l.shift, l.fullscreen, l.escape, l.reset]
                .contains(k as usize) ==> action_response(#[trigger] layout_bindings(l)[k]) == KeyResponse::Nothing,
{
    let s = seq![l.forward, l.backward, l.left, l.right, l.jump, l.shift, l.fullscreen, l.escape, l.reset];
    assert(s[0] == l.forward && s[1] == l.backward && s[2] == l.left && s[3] == l.right && s[4] == l.jump
        && s[5] == l.shift && s[6] == l.fullscreen && s[7] == l.escape && s[8] == l.reset);
    assert(s[0] != s[1] && s[0] != s[2] && s[0] != s[3] && s[0] != s[4] && s[0] != s[5] && s[0] != s[6] && s[0] != s[7] && s[0] != s[8]);
    assert(s[1] != s[2] && s[1] != s[3] && s[1] != s[4] && s[1] != s[5] && s[1] != s[6] && s[1] != s[7] && s[1] != s[8]);
    assert(s[2] != s[3] && s[2] != s[4] && s[2] != s[5] && s[2] != s[6] && s[2] != s[7] && s[2] != s[8]);
    assert(s[3] != s[4] && s[3] != s[5] && s[3] != s[6] && s[3] != s[7] && s[3] != s[8]);
    assert(s[4] != s[5] && s[4] != s[6] && s[4] != s[7] && s[4] != s[8]);
    assert(s[5] != s[6] && s[5] != s[7] && s[5] != s[8]);
    assert(s[6] != s[7] && s[6] != s[8]);
    assert(s[7] != s[8]);
    assert forall|k: int|
        0 <= k < 256 && !s.contains(k as usize) implies action_response(#[trigger] layout_bindings(l)[k])
            == KeyResponse::Nothing by {
        assert(k as usize != s[0] && k as usize != s[1] && k as usize != s[2] && k as usize != s[3]
            && k as usize != s[4] && k as usize != s[5] && k as usize != s[6] && k as usize != s[7]
            && k as usize != s[8]);
    }
}

} // verus!
