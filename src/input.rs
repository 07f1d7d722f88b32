//! Keyboard input: which keys steer the game, and what each one asks for.

use vstd::prelude::*;

verus! {

/// A command that the player gives.
#[allow(non_camel_case_types)]
#[derive(Debug, Clone, Copy, PartialEq, Eq, Structural)]
pub enum Input {
    UP,
    DOWN,
    LEFT,
    RIGHT,
    ACTION0,
}

/// A key that was pressed, as far as the game tells keys apart.
#[derive(Debug, Clone, Copy, PartialEq, Eq, Structural)]
pub enum Key {
    W,
    A,
    S,
    D,
    J,
    Up,
    Down,
    Left,
    Right,
    Other,
}

/// The command that a key press gives: WASD and the arrow keys steer, J acts.
pub open spec fn key_input(key: Key) -> Option<Input> {
    match key {
        Key::W | Key::Up => Some(Input::UP),
        Key::A | Key::Left => Some(Input::LEFT),
        Key::S | Key::Down => Some(Input::DOWN),
        Key::D | Key::Right => Some(Input::RIGHT),
        Key::J => Some(Input::ACTION0),
        Key::Other => None,
    }
}

/// The commands that a sequence of key presses gives, in order; keys that
/// give none are skipped.
pub open spec fn inputs_of(keys: Seq<Key>) -> Seq<Input>
    decreases keys.len(),
{
    if keys.len() == 0 {
        Seq::empty()
    } else {
        let prev = inputs_of(keys.drop_last());
        match key_input(keys.last()) {
            Some(i) => prev.push(i),
            None => prev,
        }
    }
}

/// The command that one key press gives, if any.
pub fn input_for_key(key: Key) -> (r: Option<Input>)
    ensures
        r == key_input(key),
{
    match key {
        Key::W | Key::Up => Some(Input::UP),
        Key::A | Key::Left => Some(Input::LEFT),
        Key::S | Key::Down => Some(Input::DOWN),
        Key::D | Key::Right => Some(Input::RIGHT),
        Key::J => Some(Input::ACTION0),
        Key::Other => None,
    }
}

/// The commands that the key presses of one frame give, in order.
pub fn parse_input(keys: &Vec<Key>) -> (r: Vec<Input>)
    ensures
        r@ == inputs_of(keys@),
{
    let mut out: Vec<Input> = Vec::new();
    let mut i: usize = 0;
    while i < keys.len()
        invariant
            i <= keys@.len(),
            out@ == inputs_of(keys@.subrange(0, i as int)),
        decreases keys@.len() - i,
    {
        proof {
            assert(keys@.subrange(0, i + 1).drop_last() =~= keys@.subrange(0, i as int));
        }
        match input_for_key(keys[i]) {
            Some(input) => out.push(input),
            None => {},
        }
        i += 1;
    }
    proof {
        assert(keys@.subrange(0, i as int) =~= keys@);
    }
    out
}

} // verus!
