use std::time::Instant;

use fps_arena::packet::SocketAddress;
use fps_arena::player::{PlayerInput, PlayerState};
use fps_arena::protocol::{
    build_input_request, build_join_reply, build_join_request, build_leave_request,
};
use fps_arena::server::{Globals, IpEndpoint, ServerContext};

fn address(n: u16) -> SocketAddress {
    SocketAddress::V4 { ipv4: 0x7f00_0001, port: 4000 + n }
}

fn up() -> PlayerInput {
    PlayerInput { up: true, down: false, left: false, right: false }
}

/// Moves a player one bit pattern across for each key for up.
fn step(state: PlayerState, input: PlayerInput) -> PlayerState {
    let mut next = state;
    if input.up {
        next.x += 1;
    }
    next
}

fn send(server: &mut ServerContext, data: &[u8], from: SocketAddress) {
    server.receive(data, data.len(), from, Instant::now());
}

fn join(server: &mut ServerContext, n: u16) -> Vec<(usize, SocketAddress)> {
    send(server, &build_join_request(), address(n));
    assert!(server.can_process());
    server.process(Instant::now())
}

fn drain(server: &mut ServerContext) -> Vec<(Vec<u8>, SocketAddress)> {
    let mut sent = Vec::new();
    while let Some(packet) = server.next_outgoing() {
        sent.push(packet);
    }
    sent
}

#[test]
fn new_server_is_empty() {
    let mut server = ServerContext::new();
    for slot in 0..32 {
        assert_eq!(server.endpoint(slot), None);
        assert_eq!(server.object(slot), PlayerState::default());
        for row in 0..60 {
            assert_eq!(server.input(row, slot), (PlayerInput::default(), false));
        }
    }
    assert_eq!(server.next_outgoing(), None);
    assert!(server.can_process());
    assert_eq!(server.process(Instant::now()), vec![]);
}

#[test]
fn newcomers_take_the_lowest_slots() {
    let mut server = ServerContext::new();
    send(&mut server, &[0], address(1));
    send(&mut server, &[0, 77], address(2));
    assert!(server.can_process());
    assert_eq!(server.process(Instant::now()), vec![(0, address(1)), (1, address(2))]);
    assert_eq!(server.endpoint(0), Some(IpEndpoint { address: address(1) }));
    assert_eq!(server.endpoint(1), Some(IpEndpoint { address: address(2) }));
    assert_eq!(server.endpoint(2), None);
    assert_eq!(
        drain(&mut server),
        vec![(build_join_reply(0), address(1)), (build_join_reply(1), address(2))]
    );
}

#[test]
fn one_address_may_sit_in_two_slots() {
    let mut server = ServerContext::new();
    assert_eq!(join(&mut server, 1), vec![(0, address(1))]);
    assert_eq!(join(&mut server, 1), vec![(1, address(1))]);
}

#[test]
fn full_server_gives_no_answer() {
    let mut server = ServerContext::new();
    for n in 0..32 {
        assert_eq!(join(&mut server, n), vec![(n as usize, address(n))]);
        assert_eq!(drain(&mut server), vec![(build_join_reply(n), address(n))]);
    }
    assert_eq!(join(&mut server, 99), vec![]);
    assert_eq!(drain(&mut server), vec![]);
    for n in 0..32u16 {
        assert_eq!(
            server.endpoint(n as usize),
            Some(IpEndpoint { address: address(n) })
        );
    }
}

#[test]
fn receive_takes_only_the_bytes_received() {
    let mut server = ServerContext::new();
    server.receive(&[0, 1, 2, 3], 0, address(1), Instant::now());
    assert_eq!(server.process(Instant::now()), vec![]);
    server.receive(&[0, 1, 2, 3], 1, address(1), Instant::now());
    assert_eq!(server.process(Instant::now()), vec![(0, address(1))]);
}

#[test]
fn reported_keys_are_entered_for_their_tick() {
    let mut server = ServerContext::new();
    join(&mut server, 1);
    send(&mut server, &build_input_request(0, 125, up()), address(1));
    assert!(server.can_process());
    server.process(Instant::now());
    assert_eq!(server.input(5, 0), (up(), true));
    for row in 0..60 {
        for slot in 0..32 {
            if (row, slot) != (5, 0) {
                assert_eq!(server.input(row, slot), (PlayerInput::default(), false));
            }
        }
    }
}

#[test]
fn strangers_and_other_slots_are_ignored() {
    let mut server = ServerContext::new();
    join(&mut server, 1);
    join(&mut server, 2);
    send(&mut server, &build_input_request(0, 3, up()), address(2));
    send(&mut server, &build_input_request(0, 3, up()), address(9));
    send(&mut server, &build_input_request(32, 3, up()), address(1));
    send(&mut server, &build_input_request(5, 3, up()), address(1));
    send(&mut server, &build_leave_request(0), address(9));
    send(&mut server, &[], address(1));
    send(&mut server, &[3, 0, 0, 0, 0, 0, 0, 0], address(1));
    send(&mut server, &[2, 0, 0, 0, 0, 0], address(1));
    send(&mut server, &[1, 0], address(1));
    assert!(server.can_process());
    assert_eq!(server.process(Instant::now()), vec![]);
    for row in 0..60 {
        for slot in 0..32 {
            assert_eq!(server.input(row, slot), (PlayerInput::default(), false));
        }
    }
}

#[test]
fn address_families_differ() {
    let mut server = ServerContext::new();
    let six = SocketAddress::V6 { ipv6: 1, port: 4001, flowinfo: 0, scope_id: 0 };
    let scoped = SocketAddress::V6 { ipv6: 1, port: 4001, flowinfo: 0, scope_id: 1 };
    send(&mut server, &[0], six);
    server.process(Instant::now());
    send(&mut server, &build_input_request(0, 0, up()), scoped);
    server.process(Instant::now());
    assert_eq!(server.input(0, 0), (PlayerInput::default(), false));
    send(&mut server, &build_input_request(0, 0, up()), six);
    server.process(Instant::now());
    assert_eq!(server.input(0, 0), (up(), true));
}

#[test]
fn own_records_that_are_cut_short_cannot_be_processed() {
    for data in [
        build_leave_request(0),
        vec![1, 0, 0, 0, 0, 0, 0],
        vec![2, 0, 0, 0, 0, 0, 0],
    ] {
        let mut server = ServerContext::new();
        send(&mut server, &data, address(1));
        assert!(server.can_process());
        server.process(Instant::now());
        join(&mut server, 1);
        send(&mut server, &data, address(1));
        assert!(!server.can_process());
    }
}

#[test]
fn a_join_before_a_short_record_counts() {
    let mut server = ServerContext::new();
    send(&mut server, &[0], address(1));
    send(&mut server, &build_leave_request(0), address(1));
    assert!(!server.can_process());
    let mut server = ServerContext::new();
    send(&mut server, &[0], address(2));
    send(&mut server, &build_leave_request(0), address(1));
    assert!(server.can_process());
}

#[test]
fn a_long_farewell_is_a_record_and_frees_no_slot() {
    let mut server = ServerContext::new();
    join(&mut server, 1);
    send(&mut server, &[1, 0, 0, 7, 0, 0, 0, 1], address(1));
    assert!(server.can_process());
    assert_eq!(server.process(Instant::now()), vec![]);
    assert_eq!(server.input(7, 0), (up(), true));
    assert_eq!(server.endpoint(0), Some(IpEndpoint { address: address(1) }));
}

#[test]
fn a_tick_moves_players_and_tells_them() {
    let mut server = ServerContext::new();
    let mut globals = Globals { tick_number: 0 };
    join(&mut server, 1);
    join(&mut server, 2);
    drain(&mut server);
    send(&mut server, &build_input_request(1, 0, up()), address(2));
    assert!(server.can_process());
    assert_eq!(server.run_tick(&mut globals, &step, Instant::now()), vec![]);
    assert_eq!(globals.tick_number, 2);
    assert_eq!(server.object(0).x, 0);
    assert_eq!(server.object(1).x, 1);
    let sent = drain(&mut server);
    assert_eq!(sent.len(), 2);

    let mut first = vec![1];
    first.extend_from_slice(&1usize.to_le_bytes());
    first.extend_from_slice(&[0; 16]);
    first.extend_from_slice(&[1, 0, 1, 0, 0, 0, 0, 0, 0, 0, 0, 0, 0, 0]);
    assert_eq!(sent[0], (first, address(1)));

    let mut second = vec![1];
    second.extend_from_slice(&1usize.to_le_bytes());
    second.extend_from_slice(&[1, 0, 0, 0]);
    second.extend_from_slice(&[0; 12]);
    second.extend_from_slice(&[0; 14]);
    assert_eq!(sent[1], (second, address(2)));
}

#[test]
fn keys_repeat_when_the_window_comes_round() {
    let mut server = ServerContext::new();
    let mut globals = Globals { tick_number: 0 };
    join(&mut server, 1);
    send(&mut server, &build_input_request(0, 2, up()), address(1));
    send(&mut server, &build_input_request(0, 3, up()), address(1));
    for n in 0..60 {
        assert!(server.can_process());
        server.run_tick(&mut globals, &step, Instant::now());
        drain(&mut server);
        // The counter goes by twos: row 2 comes up in every round of thirty, row 3 never.
        assert_eq!(server.object(0).x, if n >= 31 { 2 } else if n >= 1 { 1 } else { 0 });
    }
    assert_eq!(globals.tick_number, 120);
}

#[test]
fn a_new_player_starts_at_rest() {
    let mut server = ServerContext::new();
    let mut globals = Globals { tick_number: 0 };
    join(&mut server, 1);
    send(&mut server, &build_input_request(0, 0, up()), address(1));
    server.run_tick(&mut globals, &step, Instant::now());
    assert_eq!(server.object(0).x, 1);
    assert_eq!(server.object(1), PlayerState::default());
    join(&mut server, 2);
    assert_eq!(server.object(1), PlayerState::default());
    assert_eq!(server.object(0).x, 1);
}

#[test]
fn only_twelve_players_are_told() {
    let mut server = ServerContext::new();
    let mut globals = Globals { tick_number: 8 };
    for n in 0..20 {
        join(&mut server, n);
        drain(&mut server);
    }
    server.run_tick(&mut globals, &step, Instant::now());
    let sent = drain(&mut server);
    assert_eq!(sent.len(), 12);
    for (n, (data, to)) in sent.iter().enumerate() {
        assert_eq!(*to, address(n as u16));
        assert_eq!(data.len(), 1 + (usize::BITS / 8) as usize + 16 + 14 * 19);
    }
}

#[test]
fn only_twelve_packets_wait() {
    let mut server = ServerContext::new();
    for n in 0..20 {
        send(&mut server, &[0], address(n));
    }
    assert_eq!(server.process(Instant::now()).len(), 12);
}

#[test]
fn the_counter_goes_by_twos() {
    let mut server = ServerContext::new();
    let mut globals = Globals { tick_number: 0 };
    join(&mut server, 1);
    drain(&mut server);
    for row in 0..60 {
        send(&mut server, &build_input_request(0, row, PlayerInput::default()), address(1));
        server.process(Instant::now());
    }
    let mut before = 0;
    for n in 0..90usize {
        // Only the row of this tick asks for a step.
        let row = (2 * n % 60) as u32;
        send(&mut server, &build_input_request(0, row, up()), address(1));
        assert!(server.can_process());
        server.run_tick(&mut globals, &step, Instant::now());
        assert_eq!(server.object(0).x, before + 1);
        before += 1;
        assert_eq!(globals.tick_number, 2 * n + 2);
        let sent = drain(&mut server);
        assert_eq!(sent.len(), 1);
        assert_eq!(sent[0].0[1..][..(usize::BITS / 8) as usize], (2 * n + 1).to_le_bytes());
        send(&mut server, &build_input_request(0, row, PlayerInput::default()), address(1));
        server.process(Instant::now());
    }
}

#[test]
fn packets_before_a_short_record_can_be_handled_one_by_one() {
    let mut server = ServerContext::new();
    assert!(!server.can_process_next());
    send(&mut server, &[0], address(1));
    send(&mut server, &build_input_request(0, 4, up()), address(1));
    send(&mut server, &build_leave_request(0), address(1));
    assert!(!server.can_process());
    assert!(server.can_process_next());
    assert_eq!(server.process_next(Instant::now()), Some((0, address(1))));
    assert!(server.can_process_next());
    assert_eq!(server.process_next(Instant::now()), None);
    assert_eq!(server.input(4, 0), (up(), true));
    assert!(!server.can_process_next());
}

#[test]
fn a_tick_by_parts_moves_players() {
    let mut server = ServerContext::new();
    let mut globals = Globals { tick_number: 4 };
    join(&mut server, 1);
    join(&mut server, 2);
    drain(&mut server);
    let keys = PlayerInput { up: true, down: true, left: false, right: true };
    send(&mut server, &build_input_request(1, 4, keys), address(2));
    assert!(server.can_process());
    let joined = server.run_tick_by(
        &mut globals,
        &|speed| speed + 10,
        &|speed| speed * 2,
        &|facing| facing + 100,
        &|facing| facing + 1000,
        &|p: PlayerState| (p.x + p.speed, p.y + p.facing),
        Instant::now(),
    );
    assert_eq!(joined, vec![]);
    assert_eq!(globals.tick_number, 6);
    assert_eq!(server.object(0), PlayerState::default());
    assert_eq!(
        server.object(1),
        PlayerState { x: 20, y: 1000, facing: 1000, speed: 20 }
    );
    let sent = drain(&mut server);
    assert_eq!(sent.len(), 2);
    assert_eq!(sent[0].0[1..][..(usize::BITS / 8) as usize], 5usize.to_le_bytes());
}

#[test]
fn speeds_stay_in_bounds() {
    let mut server = ServerContext::new();
    let mut globals = Globals { tick_number: 0 };
    join(&mut server, 1);
    for n in 0..200usize {
        let keys = PlayerInput { up: n % 90 < 60, down: n % 90 >= 45, left: true, right: false };
        send(&mut server, &build_input_request(0, (2 * n % 60) as u32, keys), address(1));
        assert!(server.can_process());
        server.run_tick_by(
            &mut globals,
            &|speed| (f32::from_bits(speed) + 0.5).min(5.0).to_bits(),
            &|speed| (f32::from_bits(speed) - 0.5).max(0.0).to_bits(),
            &|facing| facing,
            &|facing| facing,
            &|p: PlayerState| (p.x, p.y),
            Instant::now(),
        );
        drain(&mut server);
        let speed = f32::from_bits(server.object(0).speed);
        assert!((0.0..=5.0).contains(&speed));
    }
}
