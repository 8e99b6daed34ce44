//! A list of key bindings, each either moving along an axis by a signed
//! amount or asking for a window operation.

use vstd::prelude::*;
use crate::input::{KeyLayout, layout_valid};

verus! {

/// What a binding acts on.
#[derive(Clone, Copy, PartialEq, Eq, Structural, Debug)]
pub enum Action {
    X,
    Y,
    Z,
    FULLSCREEN,
    ESCAPE,
}

/// Whether a binding moves or asks for a window operation.
#[derive(Clone, Copy, PartialEq, Eq, Structural, Debug)]
pub enum BindingType {
    GENERAL,
    MOVEMENT,
}

/// A key slot bound to an action, with the amount it moves by.
#[derive(Clone, Copy)]
pub struct Binding {
    pub key: usize,
    pub action: Action,
    pub value: i32,
    pub binding_type: BindingType,
}

/// What a key press asks the caller to do.
#[derive(Clone, Copy, PartialEq, Eq, Structural, Debug)]
pub enum KeyEffect {
    /// Move the position along the action's axis by the amount.
    ChangePos(Action, i32),
    /// Carry out the window operation of the action.
    General(Action),
}

/// The bindings, tried in order.
pub struct Keyboard {
    pub binding_list: Vec<Binding>,
}

/// The bindings of a layout: forward and backward on the z axis, left and
/// right on the x axis, then fullscreen and escape.
pub open spec fn keyboard_bindings(l: KeyLayout) -> Seq<Binding> {
    seq![
        Binding { key: l.forward, action: Action::Z, value: 1, binding_type: BindingType::MOVEMENT },
        Binding { key: l.backward, action: Action::Z, value: -1i32, binding_type: BindingType::MOVEMENT },
        Binding { key: l.left, action: Action::X, value: -1i32, binding_type: BindingType::MOVEMENT },
        Binding { key: l.right, action: Action::X, value: 1, binding_type: BindingType::MOVEMENT },
        Binding { key: l.fullscreen, action: Action::FULLSCREEN, value: 0, binding_type: BindingType::GENERAL },
        Binding { key: l.escape, action: Action::ESCAPE, value: 0, binding_type: BindingType::GENERAL },
    ]
}

/// The effects of pressing the key in slot `key` with the bindings `b`:
/// one for each binding of that slot, in order.
pub open spec fn key_effects(b: Seq<Binding>, key: usize) -> Seq<KeyEffect>
    decreases b.len(),
{
    if b.len() == 0 {
        Seq::empty()
    } else {
        let rest = key_effects(b.drop_last(), key);
        let last = b.last();
        if last.key == key {
            match last.binding_type {
                BindingType::MOVEMENT => rest.push(KeyEffect::ChangePos(last.action, last.value)),
                BindingType::GENERAL => rest.push(KeyEffect::General(last.action)),
            }
        } else {
            rest
        }
    }
}

impl Keyboard {
    /// The bindings of `layout`.
    pub fn new(layout: &KeyLayout) -> (r: Keyboard)
        ensures
            r.binding_list@ == keyboard_bindings(*layout),
    {
        let forward = Binding { key: layout.forward, action: Action::Z, value: 1, binding_type: BindingType::MOVEMENT };
        let backward = Binding { key: layout.backward, action: Action::Z, value: -1, binding_type: BindingType::MOVEMENT };
        let left = Binding { key: layout.left, action: Action::X, value: -1, binding_type: BindingType::MOVEMENT };
        let right = Binding { key: layout.right, action: Action::X, value: 1, binding_type: BindingType::MOVEMENT };
        let fullscreen = Binding { key: layout.fullscreen, action: Action::FULLSCREEN, value: 0, binding_type: BindingType::GENERAL };
        let escape = Binding { key: layout.escape, action: Action::ESCAPE, value: 0, binding_type: BindingType::GENERAL };
        let binding_list: Vec<Binding> = vec![forward, backward, left, right, fullscreen, escape];
        proof {
            assert(binding_list@ =~= keyboard_bindings(*layout));
        }
        Keyboard { binding_list }
    }

    /// The effects of a key event: none unless pressed, else one per
    /// binding of the key's slot, in the order of the bindings.
    pub fn handle_input(keyboard: &Keyboard, key: usize, pressed: bool) -> (r: Vec<KeyEffect>)
        ensures
            r@ == if pressed {
                key_effects(keyboard.binding_list@, key)
            } else {
                Seq::empty()
            },
    {
        let mut effects: Vec<KeyEffect> = Vec::new();
        let mut i: usize = 0;
        while i < keyboard.binding_list.len()
            invariant
                i <= keyboard.binding_list.len(),
                effects@ == if pressed {
                    key_effects(keyboard.binding_list@.subrange(0, i as int), key)
                } else {
                    Seq::empty()
                },
            decreases keyboard.binding_list.len() - i,
        {
            let binding = keyboard.binding_list[i];
            proof {
                let pre = keyboard.binding_list@.subrange(0, i + 1);
                assert(pre.drop_last() =~= keyboard.binding_list@.subrange(0, i as int));
                assert(pre.last() == binding);
            }
            if key == binding.key && pressed {
                if binding.binding_type == BindingType::MOVEMENT {
                    effects.push(KeyEffect::ChangePos(binding.action, binding.value));
                }
                if binding.binding_type == BindingType::GENERAL {
                    effects.push(KeyEffect::General(binding.action));
                }
            }
            i = i + 1;
        }
        proof {
            assert(keyboard.binding_list@.subrange(0, keyboard.binding_list@.len() as int) =~= keyboard.binding_list@);
        }
        effects
    }
}

/// With distinct slots for the six keys of a layout, each key has exactly
/// one effect: forward and backward move by one forward and back along z,
/// right and left by one right and left along x, fullscreen and escape ask
/// for their window operation; a key bound to nothing does nothing.
pub proof fn law_keyboard_effects(l: KeyLayout, other: usize)
    requires
        layout_valid(l),
        seq![l.forward, l.backward, l.left, l.right, l.fullscreen, l.escape].no_duplicates(),
        !seq![l.forward, l.backward, l.left, l.right, l.fullscreen, l.escape].contains(other),
    ensures
        key_effects(keyboard_bindings(l), l.forward) == seq![KeyEffect::ChangePos(Action::Z, 1)],
        key_effects(keyboard_bindings(l), l.backward) == seq![KeyEffect::ChangePos(Action::Z, -1i32)],
        key_effects(keyboard_bindings(l), l.left) == seq![KeyEffect::ChangePos(Action::X, -1i32)],
        key_effects(keyboard_bindings(l), l.right) == seq![KeyEffect::ChangePos(Action::X, 1)],
        key_effects(keyboard_bindings(l), l.fullscreen) == seq![KeyEffect::General(Action::FULLSCREEN)],
        key_effects(keyboard_bindings(l), l.escape) == seq![KeyEffect::General(Action::ESCAPE)],
        key_effects(keyboard_bindings(l), other) == Seq::<KeyEffect>::empty(),
{
    let s = seq![l.forward, l.backward, l.left, l.right, l.fullscreen, l.escape];
    assert(s[0] == l.forward && s[1] == l.backward && s[2] == l.left && s[3] == l.right && s[4] == l.fullscreen && s[5] == l.escape);
    assert(s[0] != s[1] && s[0] != s[2] && s[0] != s[3] && s[0] != s[4] && s[0] != s[5]);
    assert(s[1] != s[2] && s[1] != s[3] && s[1] != s[4] && s[1] != s[5]);
    assert(s[2] != s[3] && s[2] != s[4] && s[2] != s[5]);
    assert(s[3] != s[4] && s[3] != s[5]);
    assert(s[4] != s[5]);
    assert(other != s[0] && other != s[1] && other != s[2] && other != s[3] && other != s[4] && other != s[5]);
    let b = keyboard_bindings(l);
    reveal_with_fuel(key_effects, 7);
    assert(b.drop_last() =~= b.subrange(0, 5));
    assert(key_effects(b, l.forward) =~= seq![KeyEffect::ChangePos(Action::Z, 1)]);
    assert(key_effects(b, l.fullscreen) =~= seq![KeyEffect::General(Action::FULLSCREEN)]);
    assert(key_effects(b, l.backward) =~= seq![KeyEffect::ChangePos(Action::Z, -1i32)]);
    assert(key_effects(b, l.left) =~= seq![KeyEffect::ChangePos(Action::X, -1i32)]);
    assert(key_effects(b, l.right) =~= seq![KeyEffect::ChangePos(Action::X, 1)]);
    assert(key_effects(b, l.escape) =~= seq![KeyEffect::General(Action::ESCAPE)]);
    assert(key_effects(b, other) =~= Seq::<KeyEffect>::empty());
}

} // verus!
