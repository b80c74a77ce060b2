use std::time::Instant;

use fps_arena::client::{
    mix_color, mix_colors, Bounds, ClientContext, ClientEvent, Prediction, SERVER_ADDRESS,
};
use fps_arena::packet::SocketAddress;
use fps_arena::player::{PlayerInput, PlayerState};
use fps_arena::protocol::{build_input_request, build_join_reply, build_leave_request};
use fps_arena::screen::{fill_rect, paint, ScreenRect, Vertex};
use fps_arena::server::{Globals, ServerContext};

fn up() -> PlayerInput {
    PlayerInput { up: true, down: false, left: false, right: false }
}

/// Moves a player one bit pattern across, and one more for each key for up.
fn step(state: PlayerState, input: PlayerInput) -> PlayerState {
    let mut next = state;
    next.x += if input.up { 2 } else { 1 };
    next
}

fn differs(predicted: PlayerState, actual: PlayerState) -> bool {
    predicted.x != actual.x || predicted.y != actual.y
}

fn colors() -> Vec<u32> {
    (0..32).map(|i| 100 + i).collect()
}

fn player(x: u32, y: u32, facing: u32, speed: u32) -> PlayerState {
    PlayerState { x, y, facing, speed }
}

fn state(tick: u32, own: PlayerState, others: &[(u16, u32, u32, u32)]) -> Vec<u8> {
    let mut data = vec![1];
    data.extend_from_slice(&tick.to_le_bytes());
    for value in [own.x, own.y, own.facing, own.speed] {
        data.extend_from_slice(&value.to_le_bytes());
    }
    for (id, x, y, facing) in others {
        data.extend_from_slice(&id.to_le_bytes());
        for value in [x, y, facing] {
            data.extend_from_slice(&value.to_le_bytes());
        }
    }
    data
}

fn hear(client: &mut ClientContext, data: &[u8]) -> Vec<ClientEvent> {
    client.receive(data, data.len(), Instant::now());
    assert!(client.can_process_received());
    client.process_received(&step, &differs)
}

fn drain(client: &mut ClientContext) -> Vec<(Vec<u8>, String)> {
    let mut sent = Vec::new();
    while let Some(packet) = client.next_outgoing() {
        sent.push(packet);
    }
    sent
}

#[test]
fn new_client_knows_nothing() {
    let mut client = ClientContext::with_colors(&colors());
    assert_eq!(client.client_id(), None);
    assert_eq!(client.local_player(), PlayerState::default());
    assert_eq!(client.num_objects(), 0);
    assert_eq!(client.tick_number(), 0);
    assert_eq!(client.target_tick_number(), 0);
    assert_eq!(client.history_size(), 0);
    assert_eq!(client.next_outgoing(), None);
    assert_eq!(client.frame().len(), 800 * 600);
    assert!(client.frame().iter().all(|p| *p == 0));
    assert_eq!(client.vertices().len(), 128);
    for (v, vertex) in client.vertices().iter().enumerate() {
        assert_eq!(*vertex, Vertex { x: 0, y: 0, color: 100 + v as u32 / 4 });
    }
}

#[test]
fn colors_are_drawn_by_lot() {
    let mut seen = Vec::new();
    for _ in 0..20 {
        let client = ClientContext::new();
        for quad in client.vertices().chunks(4) {
            let color = quad[0].color;
            assert!(quad.iter().all(|v| v.color == color && v.x == 0 && v.y == 0));
            for shift in [0, 8, 16] {
                let channel = (color >> shift) & 0xff;
                assert!(channel == 0 || channel == 255);
            }
            assert!(color <= 0xffffff);
            if !seen.contains(&color) {
                seen.push(color);
            }
        }
    }
    assert_eq!(seen.len(), 8);
}

#[test]
fn channels_mix() {
    assert_eq!(mix_color(0, 0, 0), 0);
    assert_eq!(mix_color(1, 0, 0), 0xff0000);
    assert_eq!(mix_color(0, 1, 0), 0x00ff00);
    assert_eq!(mix_color(0, 0, 1), 0x0000ff);
    assert_eq!(mix_color(1, 1, 1), 0xffffff);
}

#[test]
fn drawn_channels_mix() {
    assert_eq!(mix_colors(&vec![]), Vec::<u32>::new());
    assert_eq!(
        mix_colors(&vec![(1, 0, 0), (0, 1, 0), (0, 0, 1), (0, 0, 0), (1, 1, 0), (0, 1, 1)]),
        vec![0xff0000, 0x00ff00, 0x0000ff, 0, 0xffff00, 0x00ffff]
    );
}

#[test]
fn joining_asks_the_server() {
    let mut client = ClientContext::with_colors(&colors());
    client.join(Instant::now());
    assert_eq!(drain(&mut client), vec![(vec![0], SERVER_ADDRESS.to_string())]);
    assert_eq!(SERVER_ADDRESS, "127.0.0.1:9999");
}

#[test]
fn welcome_gives_the_slot() {
    let mut client = ClientContext::with_colors(&colors());
    assert_eq!(
        hear(&mut client, &build_join_reply(7)),
        vec![ClientEvent::Joined { id: 7 }]
    );
    assert_eq!(client.client_id(), Some(7));
}

#[test]
fn other_packets_change_nothing() {
    let mut client = ClientContext::with_colors(&colors());
    for data in [
        vec![],
        vec![0],
        vec![1],
        vec![0, 1, 7],
        vec![0, 0, 7, 0],
        vec![0, 2, 7, 0],
        vec![2, 1, 7, 0],
    ] {
        assert_eq!(hear(&mut client, &data), vec![]);
        assert_eq!(client.client_id(), None);
        assert_eq!(client.target_tick_number(), 0);
    }
}

#[test]
fn keys_are_reported_for_the_target_tick() {
    let mut client = ClientContext::with_colors(&colors());
    client.send_input(up(), Instant::now());
    assert_eq!(client.next_outgoing(), None);
    hear(&mut client, &build_join_reply(3));
    hear(&mut client, &state(10, PlayerState::default(), &[]));
    client.send_input(up(), Instant::now());
    assert_eq!(
        drain(&mut client),
        vec![(build_input_request(3, 36, up()), SERVER_ADDRESS.to_string())]
    );
}

#[test]
fn leaving_says_farewell() {
    let mut client = ClientContext::with_colors(&colors());
    assert!(!client.leave(Instant::now()));
    assert_eq!(client.next_outgoing(), None);
    hear(&mut client, &build_join_reply(3));
    assert!(client.leave(Instant::now()));
    assert_eq!(
        drain(&mut client),
        vec![(build_leave_request(3), SERVER_ADDRESS.to_string())]
    );
}

#[test]
fn states_are_read() {
    let mut client = ClientContext::with_colors(&colors());
    hear(&mut client, &build_join_reply(2));
    let own = player(1, 2, 3, 4);
    let events = hear(
        &mut client,
        &state(100, own, &[(0, 10, 11, 12), (2, 20, 21, 22), (40, 1, 1, 1), (31, 30, 31, 32)]),
    );
    assert_eq!(events, vec![ClientEvent::InvalidId { slot: 40 }]);
    assert_eq!(client.local_player(), own);
    assert_eq!(client.object(0), player(10, 11, 12, 0));
    assert_eq!(client.object(2), player(20, 21, 22, 0));
    assert_eq!(client.object(31), player(30, 31, 32, 0));
    assert_eq!(client.object(1), PlayerState::default());
    assert_eq!(client.num_objects(), 2);
    assert_eq!(client.target_tick_number(), 126);
    assert_eq!(client.tick_number(), 0);
}

#[test]
fn a_rest_of_a_record_is_ignored() {
    let mut client = ClientContext::with_colors(&colors());
    let mut data = state(1, PlayerState::default(), &[(5, 6, 7, 8)]);
    data.extend_from_slice(&[9; 13]);
    assert_eq!(hear(&mut client, &data), vec![]);
    assert_eq!(client.num_objects(), 1);
    assert_eq!(client.object(5), player(6, 7, 8, 0));
    assert_eq!(client.object(9), PlayerState::default());
}

#[test]
fn unreadable_states_are_told_apart() {
    for (data, fine) in [
        (vec![1, 0], false),
        (state(0, PlayerState::default(), &[])[..20].to_vec(), false),
        (state(0, PlayerState::default(), &[]), true),
        (state(u32::MAX - 26, PlayerState::default(), &[]), true),
        (state(u32::MAX - 25, PlayerState::default(), &[]), false),
        (vec![1], true),
    ] {
        let mut client = ClientContext::with_colors(&colors());
        client.receive(&data, data.len(), Instant::now());
        assert_eq!(client.can_process_received(), fine);
    }
}

#[test]
fn prediction_runs_to_the_target() {
    let mut client = ClientContext::with_colors(&colors());
    hear(&mut client, &state(0, player(5, 0, 0, 0), &[]));
    client.predict(&step, up());
    assert_eq!(client.tick_number(), 26);
    assert_eq!(client.local_player().x, 5 + 52);
    assert_eq!(client.history_size(), 26);
    for k in 0..26 {
        assert_eq!(
            client.prediction(k),
            Prediction { state: player(5 + 2 * k as u32, 0, 0, 0), input: up() }
        );
    }
    client.predict(&step, up());
    assert_eq!(client.tick_number(), 26);
    assert_eq!(client.history_size(), 26);
}

#[test]
fn full_history_drops_the_newest() {
    let mut client = ClientContext::with_colors(&colors());
    hear(&mut client, &state(200, PlayerState::default(), &[]));
    client.predict(&step, up());
    assert_eq!(client.tick_number(), 226);
    assert_eq!(client.history_size(), 118);
    assert_eq!(client.prediction(117).state.x, 2 * 117);
    assert_eq!(client.local_player().x, 2 * 226);
}

#[test]
fn right_predictions_stand() {
    let mut client = ClientContext::with_colors(&colors());
    hear(&mut client, &state(0, PlayerState::default(), &[]));
    client.predict(&step, up());
    let events = hear(&mut client, &state(10, player(20, 0, 7, 9), &[]));
    assert_eq!(events, vec![]);
    assert_eq!(client.history_size(), 16);
    assert_eq!(client.prediction(0).state.x, 20);
    // The server's word replaces the predicted player as it is.
    assert_eq!(client.local_player(), player(20, 0, 7, 9));
    assert_eq!(client.target_tick_number(), 36);
}

#[test]
fn wrong_predictions_are_played_again() {
    let mut client = ClientContext::with_colors(&colors());
    hear(&mut client, &state(0, PlayerState::default(), &[]));
    client.predict(&step, up());
    let actual = player(1000, 0, 0, 0);
    let events = hear(&mut client, &state(24, actual, &[]));
    assert_eq!(
        events,
        vec![ClientEvent::Mispredicted { tick: 24, predicted: player(48, 0, 0, 0), actual }]
    );
    assert_eq!(client.history_size(), 2);
    assert_eq!(
        client.prediction(0),
        Prediction { state: player(1002, 0, 0, 0), input: up() }
    );
    assert_eq!(
        client.prediction(1),
        Prediction { state: player(1004, 0, 0, 0), input: up() }
    );
    assert_eq!(client.local_player(), player(1004, 0, 0, 0));
    assert_eq!(client.tick_number(), 26);
}

#[test]
fn corrected_client_comes_to_where_the_server_comes_to() {
    let home = SocketAddress::V4 { ipv4: 0x7f00_0001, port: 4001 };
    let mut server = ServerContext::new();
    let mut globals = Globals { tick_number: 0 };
    server.receive(&[0], 1, home, Instant::now());
    for row in [0, 2, 4, 6, 8] {
        let request = build_input_request(0, row, up());
        server.receive(&request, request.len(), home, Instant::now());
    }
    for _ in 0..3 {
        assert!(server.can_process());
        server.run_tick(&mut globals, &step, Instant::now());
    }
    let actual = server.object(0);
    assert_eq!(actual, player(6, 0, 0, 0));

    let mut client = ClientContext::with_colors(&colors());
    hear(&mut client, &state(0, PlayerState::default(), &[]));
    client.predict(&step, up());
    let events = hear(&mut client, &state(24, actual, &[]));
    assert_eq!(
        events,
        vec![ClientEvent::Mispredicted { tick: 24, predicted: player(48, 0, 0, 0), actual }]
    );
    for k in 0..2 {
        assert!(server.can_process());
        server.run_tick(&mut globals, &step, Instant::now());
        assert_eq!(client.prediction(k).state, server.object(0));
    }
    assert_eq!(client.local_player(), server.object(0));
    assert_eq!(client.local_player(), player(10, 0, 0, 0));
}

#[test]
fn old_and_future_states_meet_no_prediction() {
    let mut client = ClientContext::with_colors(&colors());
    hear(&mut client, &state(0, PlayerState::default(), &[]));
    client.predict(&step, up());
    hear(&mut client, &state(10, player(20, 0, 0, 0), &[]));
    assert_eq!(hear(&mut client, &state(9, player(555, 0, 0, 0), &[])), vec![]);
    assert_eq!(client.history_size(), 16);
    assert_eq!(client.local_player().x, 555);
    assert_eq!(hear(&mut client, &state(26, player(556, 0, 0, 0), &[])), vec![]);
    assert_eq!(client.history_size(), 0);
    assert_eq!(client.local_player().x, 556);
}

#[test]
fn quads_are_placed_in_order() {
    let mut client = ClientContext::with_colors(&colors());
    hear(&mut client, &build_join_reply(3));
    // Slot 9 lies at a place across other than zero, slot 8 at negative zero, slot 7 at zero.
    hear(
        &mut client,
        &state(
            0,
            player(50, 60, 0, 0),
            &[(9, 10, 20, 0), (8, 0x8000_0000, 20, 0), (3, 1, 1, 1)],
        ),
    );
    assert_eq!(client.num_objects(), 2);
    client.update_vertices(&|x, y| Bounds {
        low_x: x + 1,
        high_x: x + 2,
        low_y: y + 3,
        high_y: y + 4,
    });
    let quad = |v: usize| {
        let q = &client.vertices()[4 * v..4 * v + 4];
        [(q[0].x, q[0].y), (q[1].x, q[1].y), (q[2].x, q[2].y), (q[3].x, q[3].y)]
    };
    // Slots 0 and 1, by number; slot 3, the client's own; slot 9.
    assert_eq!(quad(0), [(1, 3), (1, 4), (2, 4), (2, 3)]);
    assert_eq!(quad(1), [(1, 3), (1, 4), (2, 4), (2, 3)]);
    assert_eq!(quad(2), [(51, 63), (51, 64), (52, 64), (52, 63)]);
    assert_eq!(quad(3), [(11, 23), (11, 24), (12, 24), (12, 23)]);
    for v in 16..128 {
        assert_eq!((client.vertices()[v].x, client.vertices()[v].y), (0, 0));
    }
    for v in 0..128 {
        assert_eq!(client.vertices()[v].color, 100 + v as u32 / 4);
    }
}

#[test]
fn rectangles_are_cut_to_the_window() {
    let mut frame = vec![7; 800 * 600];
    let rect = ScreenRect { min_x: -5, max_x: 2, min_y: 598, max_y: 700 };
    fill_rect(&mut frame, rect, 9);
    for y in 0..600 {
        for x in 0..800 {
            let inside = x < 2 && y >= 598;
            assert_eq!(frame[y * 800 + x], if inside { 9 } else { 7 });
        }
    }
    let before = frame.clone();
    for rect in [
        ScreenRect { min_x: 5, max_x: 5, min_y: 0, max_y: 10 },
        ScreenRect { min_x: 9, max_x: 5, min_y: 0, max_y: 10 },
        ScreenRect { min_x: 800, max_x: 900, min_y: 0, max_y: 10 },
        ScreenRect { min_x: isize::MIN, max_x: -1, min_y: 0, max_y: 10 },
        ScreenRect { min_x: 0, max_x: isize::MAX, min_y: isize::MAX, max_y: isize::MAX },
    ] {
        fill_rect(&mut frame, rect, 1);
        assert_eq!(frame, before);
    }
}

#[test]
fn later_rectangles_cover_earlier_ones() {
    let mut frame = vec![7; 800 * 600];
    let rects = vec![
        ScreenRect { min_x: 0, max_x: 3, min_y: 0, max_y: 1 },
        ScreenRect { min_x: 1, max_x: 2, min_y: 0, max_y: 1 },
    ];
    paint(&mut frame, &rects, &vec![5, 6]);
    assert_eq!(frame[..5], [5, 6, 5, 0, 0]);
    assert!(frame[5..].iter().all(|p| *p == 0));
}

#[test]
fn rendering_paints_every_quad_in_its_color() {
    let mut client = ClientContext::with_colors(&colors());
    client.update_vertices(&|_, _| Bounds { low_x: 10, high_x: 12, low_y: 20, high_y: 21 });
    client.render(&|a, b, c, d| {
        assert_eq!((a.color, b.color, c.color), (d.color, d.color, d.color));
        ScreenRect {
            min_x: a.x as isize,
            max_x: c.x as isize,
            min_y: a.y as isize,
            max_y: c.y as isize,
        }
    });
    for (p, color) in client.frame().iter().enumerate() {
        let (x, y) = (p % 800, p / 800);
        let inside = (10..12).contains(&x) && y == 20;
        assert_eq!(*color, if inside { 100 } else { 0 });
    }
}

#[test]
fn a_tick_does_everything_in_order() {
    let mut client = ClientContext::with_colors(&colors());
    hear(&mut client, &build_join_reply(0));
    let data = state(4, player(3, 0, 0, 0), &[]);
    client.receive(&data, data.len(), Instant::now());
    assert!(client.can_process_received());
    let events = client.run_tick(
        up(),
        Instant::now(),
        &step,
        &differs,
        &|x, y| Bounds { low_x: x, high_x: x + 2, low_y: y, high_y: y + 1 },
        &|a, _, c, _| ScreenRect {
            min_x: a.x as isize,
            max_x: c.x as isize,
            min_y: a.y as isize,
            max_y: c.y as isize,
        },
    );
    assert_eq!(events, vec![]);
    // The keys go out for the target tick from before the state was read.
    assert_eq!(
        drain(&mut client),
        vec![(build_input_request(0, 0, up()), SERVER_ADDRESS.to_string())]
    );
    assert_eq!(client.tick_number(), 30);
    assert_eq!(client.local_player().x, 63);
    assert_eq!(client.frame()[62..66], [0, 100, 100, 0]);
}

#[test]
fn client_and_server_talk() {
    let home = SocketAddress::V4 { ipv4: 0x7f00_0001, port: 5000 };
    let mut client = ClientContext::with_colors(&colors());
    let mut server = ServerContext::new();
    let mut globals = Globals { tick_number: 0 };
    server.receive(&[0], 1, SocketAddress::default(), Instant::now());
    client.join(Instant::now());
    for (data, _) in drain(&mut client) {
        server.receive(&data, data.len(), home, Instant::now());
    }
    assert!(server.can_process());
    assert_eq!(
        server.run_tick(&mut globals, &step, Instant::now()),
        vec![(0, SocketAddress::default()), (1, home)]
    );
    while let Some((data, to)) = server.next_outgoing() {
        if to == home {
            client.receive(&data, data.len(), Instant::now());
        }
    }
    assert!(client.can_process_received());
    let events = client.process_received(&step, &differs);
    assert_eq!(events[0], ClientEvent::Joined { id: 1 });
    assert_eq!(client.client_id(), Some(1));
    assert_eq!(client.target_tick_number(), 27);
    client.send_input(up(), Instant::now());
    for (data, _) in drain(&mut client) {
        server.receive(&data, data.len(), home, Instant::now());
    }
    assert!(server.can_process());
    server.process(Instant::now());
    assert_eq!(server.input(27, 1), (up(), true));
}

#[test]
fn a_wide_counter_shifts_what_a_client_reads() {
    let home = SocketAddress::V4 { ipv4: 0x7f00_0001, port: 5000 };
    let mut client = ClientContext::with_colors(&colors());
    let mut server = ServerContext::new();
    let mut globals = Globals { tick_number: 6 };
    server.receive(&[0], 1, home, Instant::now());
    server.receive(&build_input_request(0, 6, up()), 8, home, Instant::now());
    assert!(server.can_process());
    server.run_tick(&mut globals, &|_, _| player(11, 12, 13, 14), Instant::now());
    server.next_outgoing();
    let (data, _) = server.next_outgoing().unwrap();
    client.receive(&data, data.len(), Instant::now());
    assert!(client.can_process_received());
    client.process_received(&step, &differs);
    assert_eq!(client.target_tick_number(), 7 + 26);
    let expected = if usize::BITS == 32 { player(11, 12, 13, 14) } else { player(0, 11, 12, 13) };
    assert_eq!(client.local_player(), expected);
}

#[test]
fn packets_before_an_unreadable_one_can_be_handled_one_by_one() {
    let mut client = ClientContext::with_colors(&colors());
    assert!(!client.can_process_next_received());
    for data in [build_join_reply(4), state(7, player(3, 0, 0, 0), &[(40, 1, 2, 3)]), vec![1, 0]] {
        client.receive(&data, data.len(), Instant::now());
    }
    assert!(!client.can_process_received());
    assert!(client.can_process_next_received());
    assert_eq!(
        client.process_next_received(&step, &differs),
        vec![ClientEvent::Joined { id: 4 }]
    );
    assert!(client.can_process_next_received());
    assert_eq!(
        client.process_next_received(&step, &differs),
        vec![ClientEvent::InvalidId { slot: 40 }]
    );
    assert_eq!(client.local_player(), player(3, 0, 0, 0));
    assert!(!client.can_process_next_received());
}

#[test]
fn a_tick_by_parts_predicts() {
    let mut client = ClientContext::with_colors(&colors());
    let data = state(0, player(0, 0, 0, 1), &[]);
    client.receive(&data, data.len(), Instant::now());
    assert!(client.can_process_received());
    let events = client.run_tick_by(
        up(),
        Instant::now(),
        &|speed| speed + 1,
        &|speed| speed,
        &|facing| facing,
        &|facing| facing,
        &|p: PlayerState| (p.x + p.speed, p.y),
        &differs,
        &|x, y| Bounds { low_x: x, high_x: x + 2, low_y: y, high_y: y + 1 },
        &|_, _, _, _| ScreenRect { min_x: 0, max_x: 0, min_y: 0, max_y: 0 },
    );
    assert_eq!(events, vec![]);
    assert_eq!(client.tick_number(), 26);
    // The speed goes from 2 to 27, and the place by each of them.
    assert_eq!(client.local_player(), player((2..=27).sum(), 0, 0, 27));
}
