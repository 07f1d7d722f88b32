use breakout_core::game::GameState;
use breakout_core::input::{input_for_key, parse_input, Input, Key};

#[test]
fn keys_map_to_commands() {
    assert_eq!(input_for_key(Key::W), Some(Input::UP));
    assert_eq!(input_for_key(Key::Up), Some(Input::UP));
    assert_eq!(input_for_key(Key::A), Some(Input::LEFT));
    assert_eq!(input_for_key(Key::Left), Some(Input::LEFT));
    assert_eq!(input_for_key(Key::S), Some(Input::DOWN));
    assert_eq!(input_for_key(Key::Down), Some(Input::DOWN));
    assert_eq!(input_for_key(Key::D), Some(Input::RIGHT));
    assert_eq!(input_for_key(Key::Right), Some(Input::RIGHT));
    assert_eq!(input_for_key(Key::J), Some(Input::ACTION0));
    assert_eq!(input_for_key(Key::Other), None);
}

#[test]
fn frame_input_keeps_order_and_skips_other_keys() {
    let keys = vec![Key::Other, Key::D, Key::J, Key::Other, Key::Left];
    assert_eq!(parse_input(&keys), vec![Input::RIGHT, Input::ACTION0, Input::LEFT]);
    assert_eq!(parse_input(&Vec::new()), Vec::<Input>::new());
}

#[test]
fn game_states_differ() {
    assert_ne!(GameState::GAME_ACTIVE, GameState::GAME_MENU);
    assert_eq!(GameState::GAME_WIN, GameState::GAME_WIN.clone());
}
