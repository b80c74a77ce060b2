//! What is known of a player, and what a player asks for.

use vstd::prelude::*;

verus! {

/// Where a player is, which way the player faces and how fast the player moves.
///
/// Each quantity is a single precision number, held as its IEEE 754 bit pattern: all zeros is
/// the number zero.
#[derive(Clone, Copy, Debug, PartialEq, Eq, Structural)]
pub struct PlayerState {
    pub x: u32,
    pub y: u32,
    pub facing: u32,
    pub speed: u32,
}

/// The keys that a player holds down during one tick.
#[derive(Clone, Copy, Debug, PartialEq, Eq, Structural)]
pub struct PlayerInput {
    pub up: bool,
    pub down: bool,
    pub left: bool,
    pub right: bool,
}

/// A player at rest at the origin.
pub open spec fn at_rest() -> PlayerState {
    PlayerState { x: 0, y: 0, facing: 0, speed: 0 }
}

/// No key held down.
pub open spec fn no_keys() -> PlayerInput {
    PlayerInput { up: false, down: false, left: false, right: false }
}

impl Default for PlayerState {
    fn default() -> (state: Self)
        ensures
            state == at_rest(),
    {
        PlayerState { x: 0, y: 0, facing: 0, speed: 0 }
    }
}

impl Default for PlayerInput {
    fn default() -> (input: Self)
        ensures
            input == no_keys(),
    {
        PlayerInput { up: false, down: false, left: false, right: false }
    }
}

/// The keys as one byte, one bit for each key.
pub open spec fn input_byte(input: PlayerInput) -> u8 {
    (if input.up { 1u8 } else { 0u8 }) | (if input.down { 2u8 } else { 0u8 }) | (if input.left {
        4u8
    } else {
        0u8
    }) | (if input.right { 8u8 } else { 0u8 })
}

/// The keys that a byte stands for. The four high bits stand for none.
pub open spec fn input_of_byte(byte: u8) -> PlayerInput {
    PlayerInput {
        up: byte & 0x1 != 0,
        down: byte & 0x2 != 0,
        left: byte & 0x4 != 0,
        right: byte & 0x8 != 0,
    }
}

/// Whether a bit pattern is that of a number other than zero. Both zeros, the positive and the
/// negative one, have no bit set but the sign.
pub open spec fn is_nonzero(bits: u32) -> bool {
    bits != 0 && bits != 0x8000_0000
}

/// A player's keys survive being packed into a byte and unpacked.
pub proof fn law_input_round_trip(input: PlayerInput)
    ensures
        input_of_byte(input_byte(input)) == input,
{
    let up = input.up;
    let down = input.down;
    let left = input.left;
    let right = input.right;
    let byte = input_byte(input);
    assert(byte == (if up { 1u8 } else { 0u8 }) | (if down { 2u8 } else { 0u8 }) | (if left {
        4u8
    } else {
        0u8
    }) | (if right { 8u8 } else { 0u8 }));
    assert((byte & 0x1 != 0) == up && (byte & 0x2 != 0) == down && (byte & 0x4 != 0) == left && (
    byte & 0x8 != 0) == right) by (bit_vector)
        requires
            byte == (if up { 1u8 } else { 0u8 }) | (if down { 2u8 } else { 0u8 }) | (if left {
                4u8
            } else {
                0u8
            }) | (if right { 8u8 } else { 0u8 }),
    ;
}

/// Whether a quantity becomes `after` where a key changes it from `before`: as `change` says where
/// the key is held, and not at all where it is not.
pub open spec fn is_changed<C: Fn(u32) -> u32>(change: C, held: bool, before: u32, after: u32) -> bool {
    if held {
        change.ensures((before,), after)
    } else {
        after == before
    }
}

/// Whether `t` is the player `s` one tick later: the key for up acts on the speed before the key
/// for down does, the key for left on the heading before the key for right does, and the player
/// then goes on from its place with the new speed and heading.
pub open spec fn is_ticked<
    U: Fn(u32) -> u32,
    D: Fn(u32) -> u32,
    L: Fn(u32) -> u32,
    R: Fn(u32) -> u32,
    A: Fn(PlayerState) -> (u32, u32),
>(
    speed_up: U,
    slow_down: D,
    turn_left: L,
    turn_right: R,
    advance: A,
    input: PlayerInput,
    s: PlayerState,
    t: PlayerState,
) -> bool {
    &&& exists|speed: u32|
        #[trigger] is_changed(speed_up, input.up, s.speed, speed) && is_changed(
            slow_down,
            input.down,
            speed,
            t.speed,
        )
    &&& exists|facing: u32|
        #[trigger] is_changed(turn_left, input.left, s.facing, facing) && is_changed(
            turn_right,
            input.right,
            facing,
            t.facing,
        )
    &&& advance.ensures((PlayerState { x: s.x, y: s.y, ..t },), (t.x, t.y))
}

/// Which players a player may become with the keys of one tick: the player before, the keys, and
/// the player after.
pub type Step = spec_fn(PlayerState, PlayerInput, PlayerState) -> bool;

/// The step that a function takes.
pub open spec fn step_of<F: Fn(PlayerState, PlayerInput) -> PlayerState>(tick_player: F) -> Step {
    |s: PlayerState, input: PlayerInput, t: PlayerState| tick_player.ensures((s, input), t)
}

/// The step that `tick_player` takes with the given functions.
pub open spec fn tick_by<
    U: Fn(u32) -> u32,
    D: Fn(u32) -> u32,
    L: Fn(u32) -> u32,
    R: Fn(u32) -> u32,
    A: Fn(PlayerState) -> (u32, u32),
>(speed_up: U, slow_down: D, turn_left: L, turn_right: R, advance: A) -> Step {
    |s: PlayerState, input: PlayerInput, t: PlayerState|
        is_ticked(speed_up, slow_down, turn_left, turn_right, advance, input, s, t)
}

/// Whether whatever `fine` allows, `coarse` allows too.
pub open spec fn refines(fine: Step, coarse: Step) -> bool {
    forall|s: PlayerState, input: PlayerInput, t: PlayerState| #[trigger]
        fine(s, input, t) ==> coarse(s, input, t)
}

/// A tick keeps whatever holds of a speed and is kept by both keys that change a speed.
pub proof fn law_speed_is_kept<
    U: Fn(u32) -> u32,
    D: Fn(u32) -> u32,
    L: Fn(u32) -> u32,
    R: Fn(u32) -> u32,
    A: Fn(PlayerState) -> (u32, u32),
>(
    speed_up: U,
    slow_down: D,
    turn_left: L,
    turn_right: R,
    advance: A,
    input: PlayerInput,
    s: PlayerState,
    t: PlayerState,
    keep: spec_fn(u32) -> bool,
)
    requires
        is_ticked(speed_up, slow_down, turn_left, turn_right, advance, input, s, t),
        is_kept_by(keep, speed_up),
        is_kept_by(keep, slow_down),
        keep(s.speed),
    ensures
        keep(t.speed),
{
}

/// Whether a function keeps what holds of a quantity.
pub open spec fn is_kept_by<C: Fn(u32) -> u32>(keep: spec_fn(u32) -> bool, change: C) -> bool {
    forall|before: u32, after: u32| #[trigger]
        change.ensures((before,), after) && keep(before) ==> keep(after)
}

/// A player whose keys are not held keeps speed and heading.
pub proof fn law_coasting_keeps_course<
    U: Fn(u32) -> u32,
    D: Fn(u32) -> u32,
    L: Fn(u32) -> u32,
    R: Fn(u32) -> u32,
    A: Fn(PlayerState) -> (u32, u32),
>(
    speed_up: U,
    slow_down: D,
    turn_left: L,
    turn_right: R,
    advance: A,
    input: PlayerInput,
    s: PlayerState,
    t: PlayerState,
)
    requires
        is_ticked(speed_up, slow_down, turn_left, turn_right, advance, input, s, t),
    ensures
        !input.up && !input.down ==> t.speed == s.speed,
        !input.left && !input.right ==> t.facing == s.facing,
{
}

/// Each key has its own effect and no other. A key that is held alone of its pair changes speed or
/// heading as its function says; of two that are held together, the second acts on what the first
/// made; and without either nothing changes. The player then goes to where `advance` leads from the
/// old place, with the new speed and heading.
pub proof fn law_each_key_has_its_effect<
    U: Fn(u32) -> u32,
    D: Fn(u32) -> u32,
    L: Fn(u32) -> u32,
    R: Fn(u32) -> u32,
    A: Fn(PlayerState) -> (u32, u32),
>(
    speed_up: U,
    slow_down: D,
    turn_left: L,
    turn_right: R,
    advance: A,
    input: PlayerInput,
    s: PlayerState,
    t: PlayerState,
)
    requires
        is_ticked(speed_up, slow_down, turn_left, turn_right, advance, input, s, t),
    ensures
        !input.up && !input.down ==> t.speed == s.speed,
        input.up && !input.down ==> speed_up.ensures((s.speed,), t.speed),
        !input.up && input.down ==> slow_down.ensures((s.speed,), t.speed),
        input.up && input.down ==> exists|speed: u32|
            #[trigger] speed_up.ensures((s.speed,), speed) && slow_down.ensures((speed,), t.speed),
        !input.left && !input.right ==> t.facing == s.facing,
        input.left && !input.right ==> turn_left.ensures((s.facing,), t.facing),
        !input.left && input.right ==> turn_right.ensures((s.facing,), t.facing),
        input.left && input.right ==> exists|facing: u32|
            #[trigger] turn_left.ensures((s.facing,), facing) && turn_right.ensures(
                (facing,),
                t.facing,
            ),
        advance.ensures(
            (PlayerState { x: s.x, y: s.y, facing: t.facing, speed: t.speed },),
            (t.x, t.y),
        ),
{
    let speed = choose|speed: u32|
        #[trigger] is_changed(speed_up, input.up, s.speed, speed) && is_changed(
            slow_down,
            input.down,
            speed,
            t.speed,
        );
    let facing = choose|facing: u32|
        #[trigger] is_changed(turn_left, input.left, s.facing, facing) && is_changed(
            turn_right,
            input.right,
            facing,
            t.facing,
        );
    assert(input.up ==> speed_up.ensures((s.speed,), speed));
    assert(input.left ==> turn_left.ensures((s.facing,), facing));
}

/// The step of a function is what the function promises, and the step of a tick is a tick.
pub proof fn law_steps<
    F: Fn(PlayerState, PlayerInput) -> PlayerState,
    U: Fn(u32) -> u32,
    D: Fn(u32) -> u32,
    L: Fn(u32) -> u32,
    R: Fn(u32) -> u32,
    A: Fn(PlayerState) -> (u32, u32),
>(
    tick_player: F,
    speed_up: U,
    slow_down: D,
    turn_left: L,
    turn_right: R,
    advance: A,
    input: PlayerInput,
    s: PlayerState,
    t: PlayerState,
)
    ensures
        step_of(tick_player)(s, input, t) == tick_player.ensures((s, input), t),
        tick_by(speed_up, slow_down, turn_left, turn_right, advance)(s, input, t) == is_ticked(
            speed_up,
            slow_down,
            turn_left,
            turn_right,
            advance,
            input,
            s,
            t,
        ),
{
}

/// In a byte of keys, up counts one, down two, left four and right eight. Higher bits count for
/// nothing.
pub proof fn law_key_bits(input: PlayerInput, byte: u8)
    ensures
        input_byte(input) == (if input.up { 1int } else { 0 }) + (if input.down { 2int } else { 0 })
            + (if input.left { 4int } else { 0 }) + (if input.right { 8int } else { 0 }),
        input_of_byte(byte).up == (byte % 2 == 1),
        input_of_byte(byte).down == (byte / 2 % 2 == 1),
        input_of_byte(byte).left == (byte / 4 % 2 == 1),
        input_of_byte(byte).right == (byte / 8 % 2 == 1),
{
    let up = input.up;
    let down = input.down;
    let left = input.left;
    let right = input.right;
    assert((if up { 1u8 } else { 0u8 }) | (if down { 2u8 } else { 0u8 }) | (if left {
        4u8
    } else {
        0u8
    }) | (if right { 8u8 } else { 0u8 }) == (if up { 1u8 } else { 0u8 }) + (if down {
        2u8
    } else {
        0u8
    }) + (if left { 4u8 } else { 0u8 }) + (if right { 8u8 } else { 0u8 })) by (bit_vector);
    assert((byte & 0x1 != 0) == (byte % 2 == 1) && (byte & 0x2 != 0) == (byte / 2 % 2 == 1) && (byte
        & 0x4 != 0) == (byte / 4 % 2 == 1) && (byte & 0x8 != 0) == (byte / 8 % 2 == 1))
        by (bit_vector);
}

/// Whether a function gives one result for each argument.
pub open spec fn is_single_valued<A, B, F: Fn(A) -> B>(f: F) -> bool {
    forall|a: A, b: B, c: B|
        #![trigger f.ensures((a,), b), f.ensures((a,), c)]
        f.ensures((a,), b) && f.ensures((a,), c) ==> b == c
}

/// Where each of the functions that move a player gives one result for each argument, equal
/// players with equal keys are equal one tick later.
pub proof fn law_tick_is_determined<
    U: Fn(u32) -> u32,
    D: Fn(u32) -> u32,
    L: Fn(u32) -> u32,
    R: Fn(u32) -> u32,
    A: Fn(PlayerState) -> (u32, u32),
>(
    speed_up: U,
    slow_down: D,
    turn_left: L,
    turn_right: R,
    advance: A,
    input: PlayerInput,
    s: PlayerState,
    t: PlayerState,
    other: PlayerState,
)
    requires
        is_single_valued(speed_up),
        is_single_valued(slow_down),
        is_single_valued(turn_left),
        is_single_valued(turn_right),
        is_single_valued(advance),
        is_ticked(speed_up, slow_down, turn_left, turn_right, advance, input, s, t),
        is_ticked(speed_up, slow_down, turn_left, turn_right, advance, input, s, other),
    ensures
        t == other,
{
    assert(t.speed == other.speed);
    assert(t.facing == other.facing);
    let moving = PlayerState { x: s.x, y: s.y, ..t };
    assert(moving == PlayerState { x: s.x, y: s.y, ..other });
    assert(advance.ensures((moving,), (t.x, t.y)));
    assert(advance.ensures((moving,), (other.x, other.y)));
}

/// Moves a player by one tick.
///
/// What a key does to a speed or a heading, and where a speed and a heading lead, is the
/// caller's: `speed_up` and `slow_down` change a speed, `turn_left` and `turn_right` a heading,
/// and `advance` gives the place that a player goes to.
pub fn tick_player<
    U: Fn(u32) -> u32,
    D: Fn(u32) -> u32,
    L: Fn(u32) -> u32,
    R: Fn(u32) -> u32,
    A: Fn(PlayerState) -> (u32, u32),
>(
    state: &mut PlayerState,
    input: &PlayerInput,
    speed_up: &U,
    slow_down: &D,
    turn_left: &L,
    turn_right: &R,
    advance: &A,
)
    requires
        forall|speed: u32| #[trigger] speed_up.requires((speed,)),
        forall|speed: u32| #[trigger] slow_down.requires((speed,)),
        forall|facing: u32| #[trigger] turn_left.requires((facing,)),
        forall|facing: u32| #[trigger] turn_right.requires((facing,)),
        forall|player: PlayerState| #[trigger] advance.requires((player,)),
    ensures
        is_ticked(
            *speed_up,
            *slow_down,
            *turn_left,
            *turn_right,
            *advance,
            *input,
            *old(state),
            *final(state),
        ),
{
    if input.up {
        state.speed = speed_up(state.speed);
    }
    assert(is_changed(*speed_up, input.up, old(state).speed, state.speed));
    if input.down {
        state.speed = slow_down(state.speed);
    }
    if input.left {
        state.facing = turn_left(state.facing);
    }
    assert(is_changed(*turn_left, input.left, old(state).facing, state.facing));
    if input.right {
        state.facing = turn_right(state.facing);
    }
    let (x, y) = advance(*state);
    state.x = x;
    state.y = y;
}

/// The player `state` one tick later.
pub fn moved<
    U: Fn(u32) -> u32,
    D: Fn(u32) -> u32,
    L: Fn(u32) -> u32,
    R: Fn(u32) -> u32,
    A: Fn(PlayerState) -> (u32, u32),
>(
    state: PlayerState,
    input: PlayerInput,
    speed_up: &U,
    slow_down: &D,
    turn_left: &L,
    turn_right: &R,
    advance: &A,
) -> (next: PlayerState)
    requires
        forall|speed: u32| #[trigger] speed_up.requires((speed,)),
        forall|speed: u32| #[trigger] slow_down.requires((speed,)),
        forall|facing: u32| #[trigger] turn_left.requires((facing,)),
        forall|facing: u32| #[trigger] turn_right.requires((facing,)),
        forall|player: PlayerState| #[trigger] advance.requires((player,)),
    ensures
        tick_by(*speed_up, *slow_down, *turn_left, *turn_right, *advance)(state, input, next),
{
    let mut next = state;
    tick_player(&mut next, &input, speed_up, slow_down, turn_left, turn_right, advance);
    next
}

impl PlayerInput {
    /// Packs the keys into one byte.
    pub fn to_byte(self) -> (byte: u8)
        ensures
            byte == input_byte(self),
    {
        let up: u8 = if self.up { 1 } else { 0 };
        let down: u8 = if self.down { 2 } else { 0 };
        let left: u8 = if self.left { 4 } else { 0 };
        let right: u8 = if self.right { 8 } else { 0 };
        up | down | left | right
    }

    /// Unpacks the keys from one byte.
    pub fn from_byte(byte: u8) -> (input: Self)
        ensures
            input == input_of_byte(byte),
    {
        PlayerInput {
            up: byte & 0x1 != 0,
            down: byte & 0x2 != 0,
            left: byte & 0x4 != 0,
            right: byte & 0x8 != 0,
        }
    }
}

} // verus!
