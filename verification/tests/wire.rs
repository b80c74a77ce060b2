use fps_arena::little_endian::{put_le, read_u16, read_u32};
use fps_arena::player::{tick_player, PlayerInput, PlayerState};
use fps_arena::protocol::{
    build_input_request, build_join_reply, build_join_request, build_leave_request,
    put_full_state, put_other_state, ClientMessage, ServerMessage,
};

fn keys(up: bool, down: bool, left: bool, right: bool) -> PlayerInput {
    PlayerInput { up, down, left, right }
}

#[test]
fn integers_are_written_little_endian() {
    let mut out = vec![9];
    put_le(&mut out, 0x0102_0304_0506_0708, 8);
    assert_eq!(out, vec![9, 8, 7, 6, 5, 4, 3, 2, 1]);
    let mut out = Vec::new();
    put_le(&mut out, 0x0102_0304_0506_0708, 4);
    assert_eq!(out, 0x0506_0708u32.to_le_bytes().to_vec());
}

#[test]
fn integers_survive_being_written_and_read() {
    for value in [0u32, 1, 255, 256, 65535, 65536, 0x1234_5678, u32::MAX] {
        let mut out = vec![0xaa];
        put_le(&mut out, value as u64, 4);
        assert_eq!(read_u32(&out, 1), value);
        assert_eq!(read_u16(&out, 1), (value % 65536) as u16);
        assert_eq!(read_u32(&out, 1), u32::from_le_bytes([out[1], out[2], out[3], out[4]]));
    }
}

#[test]
fn keys_are_bits() {
    assert_eq!(keys(true, false, false, false).to_byte(), 1);
    assert_eq!(keys(false, true, false, false).to_byte(), 2);
    assert_eq!(keys(false, false, true, false).to_byte(), 4);
    assert_eq!(keys(false, false, false, true).to_byte(), 8);
    for byte in 0..16u8 {
        assert_eq!(PlayerInput::from_byte(byte).to_byte(), byte);
        assert_eq!(PlayerInput::from_byte(byte | 0xf0), PlayerInput::from_byte(byte));
    }
}

#[test]
fn tags_are_as_agreed() {
    assert_eq!(ClientMessage::Join.to_byte(), 0);
    assert_eq!(ClientMessage::Leave.to_byte(), 1);
    assert_eq!(ClientMessage::Input.to_byte(), 2);
    assert_eq!(ServerMessage::JoinResult.to_byte(), 0);
    assert_eq!(ServerMessage::State.to_byte(), 1);
}

#[test]
fn messages_have_their_layout() {
    assert_eq!(build_join_request(), vec![0]);
    assert_eq!(build_leave_request(0x0102), vec![1, 2, 1]);
    assert_eq!(
        build_input_request(3, 0x0403_0201, keys(true, false, true, false)),
        vec![2, 3, 0, 1, 2, 3, 4, 5]
    );
    assert_eq!(build_join_reply(7), vec![0, 1, 7, 0]);
}

#[test]
fn players_have_their_layout() {
    let state = PlayerState {
        x: 1.5f32.to_bits(),
        y: (-2.0f32).to_bits(),
        facing: 0.25f32.to_bits(),
        speed: 4.0f32.to_bits(),
    };
    let mut full = Vec::new();
    put_full_state(&mut full, state);
    let mut expected = Vec::new();
    for value in [1.5f32, -2.0, 0.25, 4.0] {
        expected.extend_from_slice(&value.to_le_bytes());
    }
    assert_eq!(full, expected);
    let mut other = Vec::new();
    put_other_state(&mut other, 258, state);
    assert_eq!(other[..2], [2, 1]);
    assert_eq!(other[2..], expected[..12]);
}

#[test]
fn keys_act_in_order() {
    let mut player = PlayerState { x: 1, y: 2, facing: 10, speed: 100 };
    let advance = |p: PlayerState| (p.x + p.speed, p.y + p.facing);
    tick_player(
        &mut player,
        &keys(true, true, true, true),
        &|s| s + 1,
        &|s| s * 2,
        &|f| f - 1,
        &|f| f * 3,
        &advance,
    );
    assert_eq!(player, PlayerState { x: 203, y: 29, facing: 27, speed: 202 });
}

#[test]
fn coasting_keeps_course() {
    let mut player = PlayerState { x: 1, y: 2, facing: 10, speed: 100 };
    tick_player(
        &mut player,
        &PlayerInput::default(),
        &|_| 0,
        &|_| 0,
        &|_| 0,
        &|_| 0,
        &|p| (p.x + 5, p.y),
    );
    assert_eq!(player, PlayerState { x: 6, y: 2, facing: 10, speed: 100 });
}

#[test]
fn equal_players_with_equal_keys_stay_equal() {
    for bits in 0..16 {
        let input = PlayerInput::from_byte(bits);
        let start = PlayerState { x: 3, y: 4, facing: 10, speed: 100 };
        let mut one = start;
        let mut two = start;
        for _ in 0..5 {
            for player in [&mut one, &mut two] {
                tick_player(
                    player,
                    &input,
                    &|s| s + 7,
                    &|s| s - 2,
                    &|f| f + 1,
                    &|f| f + 3,
                    &|p| (p.x + p.speed, p.y + p.facing),
                );
            }
            assert_eq!(one, two);
        }
        assert_eq!(one == start, false);
    }
}
