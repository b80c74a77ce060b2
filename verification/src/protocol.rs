//! The messages that clients and server exchange.

use crate::little_endian::{le_bytes, put_le};
use crate::player::{input_byte, PlayerInput, PlayerState};
use vstd::prelude::*;

verus! {

/// The number of players that a server has room for.
pub const MAX_CLIENTS: usize = 32;

/// What a client says to the server.
#[derive(Clone, Copy, Debug, PartialEq, Eq, Structural)]
pub enum ClientMessage {
    Join,
    Leave,
    Input,
}

/// What the server says to a client.
#[derive(Clone, Copy, Debug, PartialEq, Eq, Structural)]
pub enum ServerMessage {
    JoinResult,
    State,
}

impl ClientMessage {
    /// The first byte of such a message.
    pub open spec fn tag(self) -> u8 {
        match self {
            ClientMessage::Join => 0,
            ClientMessage::Leave => 1,
            ClientMessage::Input => 2,
        }
    }

    /// The first byte of such a message.
    pub fn to_byte(self) -> (byte: u8)
        ensures
            byte == self.tag(),
    {
        match self {
            ClientMessage::Join => 0,
            ClientMessage::Leave => 1,
            ClientMessage::Input => 2,
        }
    }
}

impl ServerMessage {
    /// The first byte of such a message.
    pub open spec fn tag(self) -> u8 {
        match self {
            ServerMessage::JoinResult => 0,
            ServerMessage::State => 1,
        }
    }

    /// The first byte of such a message.
    pub fn to_byte(self) -> (byte: u8)
        ensures
            byte == self.tag(),
    {
        match self {
            ServerMessage::JoinResult => 0,
            ServerMessage::State => 1,
        }
    }
}

/// A client's request for a slot.
pub open spec fn join_request() -> Seq<u8> {
    seq![ClientMessage::Join.tag()]
}

/// A client's farewell: its slot.
pub open spec fn leave_request(slot: u16) -> Seq<u8> {
    seq![ClientMessage::Leave.tag()] + le_bytes(slot as nat, 2)
}

/// The keys that a client holds for a tick: its slot, the tick and the keys.
pub open spec fn input_request(slot: u16, tick: u32, input: PlayerInput) -> Seq<u8> {
    seq![ClientMessage::Input.tag()] + le_bytes(slot as nat, 2) + le_bytes(tick as nat, 4)
        + seq![input_byte(input)]
}

/// The server's answer to a client that was given a slot.
pub open spec fn join_reply(slot: u16) -> Seq<u8> {
    seq![ServerMessage::JoinResult.tag(), 1u8] + le_bytes(slot as nat, 2)
}

/// All four quantities of a player.
pub open spec fn full_state(state: PlayerState) -> Seq<u8> {
    le_bytes(state.x as nat, 4) + le_bytes(state.y as nat, 4) + le_bytes(state.facing as nat, 4)
        + le_bytes(state.speed as nat, 4)
}

/// What a client is told of another player: the slot, the place and the heading.
pub open spec fn other_state(slot: u16, state: PlayerState) -> Seq<u8> {
    le_bytes(slot as nat, 2) + le_bytes(state.x as nat, 4) + le_bytes(state.y as nat, 4)
        + le_bytes(state.facing as nat, 4)
}

/// Builds a client's request for a slot.
pub fn build_join_request() -> (data: Vec<u8>)
    ensures
        data@ == join_request(),
{
    let mut data: Vec<u8> = Vec::new();
    data.push(ClientMessage::Join.to_byte());
    assert(data@ =~= join_request());
    data
}

/// Builds a client's farewell.
pub fn build_leave_request(slot: u16) -> (data: Vec<u8>)
    ensures
        data@ == leave_request(slot),
{
    let mut data: Vec<u8> = Vec::new();
    data.push(ClientMessage::Leave.to_byte());
    put_le(&mut data, slot as u64, 2);
    assert(data@ =~= leave_request(slot));
    data
}

/// Builds a client's report of the keys that it holds.
pub fn build_input_request(slot: u16, tick: u32, input: PlayerInput) -> (data: Vec<u8>)
    ensures
        data@ == input_request(slot, tick, input),
{
    let mut data: Vec<u8> = Vec::new();
    data.push(ClientMessage::Input.to_byte());
    put_le(&mut data, slot as u64, 2);
    put_le(&mut data, tick as u64, 4);
    data.push(input.to_byte());
    assert(data@ =~= input_request(slot, tick, input));
    data
}

/// Builds the answer to a client that was given a slot.
pub fn build_join_reply(slot: u16) -> (data: Vec<u8>)
    ensures
        data@ == join_reply(slot),
{
    let mut data: Vec<u8> = Vec::new();
    data.push(ServerMessage::JoinResult.to_byte());
    data.push(1);
    put_le(&mut data, slot as u64, 2);
    assert(data@ =~= join_reply(slot));
    data
}

/// Appends all four quantities of a player.
pub fn put_full_state(data: &mut Vec<u8>, state: PlayerState)
    ensures
        final(data)@ == old(data)@ + full_state(state),
{
    put_le(data, state.x as u64, 4);
    put_le(data, state.y as u64, 4);
    put_le(data, state.facing as u64, 4);
    put_le(data, state.speed as u64, 4);
    assert(data@ =~= old(data)@ + full_state(state));
}

/// Appends what a client is told of another player.
pub fn put_other_state(data: &mut Vec<u8>, slot: u16, state: PlayerState)
    ensures
        final(data)@ == old(data)@ + other_state(slot, state),
{
    put_le(data, slot as u64, 2);
    put_le(data, state.x as u64, 4);
    put_le(data, state.y as u64, 4);
    put_le(data, state.facing as u64, 4);
    assert(data@ =~= old(data)@ + other_state(slot, state));
}

} // verus!
