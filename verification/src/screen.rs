//! The window's pixels and the quads that are painted on them.

use vstd::prelude::*;

verus! {

/// The width of the window, in pixels.
pub const WINDOW_WIDTH: usize = 800;

/// The height of the window, in pixels.
pub const WINDOW_HEIGHT: usize = 600;

/// The number of pixels of the window.
pub const PIXELS: usize = 480000;

/// A corner of a quad: its place, each coordinate as the bit pattern of a single, and its colour.
#[derive(Clone, Copy, Debug, PartialEq, Eq, Structural)]
pub struct Vertex {
    pub x: u32,
    pub y: u32,
    pub color: u32,
}

/// A rectangle of pixels: the columns from `min_x` up to, not including, `max_x`, in the rows
/// from `min_y` up to, not including, `max_y`. It may reach beyond the window.
#[derive(Clone, Copy, Debug, PartialEq, Eq, Structural)]
pub struct ScreenRect {
    pub min_x: isize,
    pub max_x: isize,
    pub min_y: isize,
    pub max_y: isize,
}

/// Whether a rectangle covers the pixel in column `x` and row `y`.
pub open spec fn covers(rect: ScreenRect, x: int, y: int) -> bool {
    rect.min_x <= x < rect.max_x && rect.min_y <= y < rect.max_y
}

/// The colour of the pixel at `p`, counted row by row, after the first `n` rectangles were
/// painted on black, each in its own colour and over the earlier ones.
pub open spec fn pixel(rects: Seq<ScreenRect>, colors: Seq<u32>, n: nat, p: int) -> u32
    decreases n,
{
    if n == 0 {
        0
    } else if covers(rects[n - 1], p % WINDOW_WIDTH as int, p / WINDOW_WIDTH as int) {
        colors[n - 1]
    } else {
        pixel(rects, colors, (n - 1) as nat, p)
    }
}

/// The window after every rectangle was painted on black.
pub open spec fn painted(rects: Seq<ScreenRect>, colors: Seq<u32>) -> Seq<u32> {
    Seq::new(PIXELS as nat, |p: int| pixel(rects, colors, rects.len(), p))
}

/// `value` moved into the range from 0 to `limit`.
pub open spec fn clamped(value: int, limit: int) -> int {
    if value < 0 {
        0
    } else if value > limit {
        limit
    } else {
        value
    }
}

/// Moves `value` into the range from 0 to `limit`.
fn clamp_to(value: isize, limit: usize) -> (clamp: usize)
    requires
        limit <= PIXELS,
    ensures
        clamp == clamped(value as int, limit as int),
{
    if value < 0 {
        0
    } else if value > limit as isize {
        limit
    } else {
        value as usize
    }
}

/// Gives the pixels of row `y`, from column `from` up to, not including, `to`, a colour.
fn fill_row(frame: &mut Vec<u32>, y: usize, from: usize, to: usize, color: u32)
    requires
        old(frame)@.len() == PIXELS,
        y < WINDOW_HEIGHT,
        to <= WINDOW_WIDTH,
    ensures
        final(frame)@.len() == PIXELS,
        forall|p: int|
            #![trigger final(frame)@[p]]
            0 <= p < PIXELS ==> final(frame)@[p] == if p / WINDOW_WIDTH as int == y && from <= p
                % WINDOW_WIDTH as int && p % (WINDOW_WIDTH as int) < to {
                color
            } else {
                old(frame)@[p]
            },
{
    let mut x: usize = from;
    while x < to
        invariant
            frame@.len() == PIXELS,
            y < WINDOW_HEIGHT,
            to <= WINDOW_WIDTH,
            from <= x,
            x <= to || x == from,
            forall|p: int|
                #![trigger frame@[p]]
                0 <= p < PIXELS ==> frame@[p] == if p / WINDOW_WIDTH as int == y && from <= p
                    % WINDOW_WIDTH as int && p % (WINDOW_WIDTH as int) < x {
                    color
                } else {
                    old(frame)@[p]
                },
        decreases to - x,
    {
        frame.set(y * WINDOW_WIDTH + x, color);
        x = x + 1;
    }
}

/// Paints one rectangle over what the window shows.
pub fn fill_rect(frame: &mut Vec<u32>, rect: ScreenRect, color: u32)
    requires
        old(frame)@.len() == PIXELS,
    ensures
        final(frame)@.len() == PIXELS,
        forall|p: int|
            #![trigger final(frame)@[p]]
            0 <= p < PIXELS ==> final(frame)@[p] == if covers(
                rect,
                p % WINDOW_WIDTH as int,
                p / WINDOW_WIDTH as int,
            ) {
                color
            } else {
                old(frame)@[p]
            },
{
    let from: usize = clamp_to(rect.min_x, WINDOW_WIDTH);
    let to: usize = clamp_to(rect.max_x, WINDOW_WIDTH);
    let top: usize = clamp_to(rect.min_y, WINDOW_HEIGHT);
    let bottom: usize = clamp_to(rect.max_y, WINDOW_HEIGHT);
    let mut y: usize = top;
    while y < bottom
        invariant
            frame@.len() == PIXELS,
            from == clamped(rect.min_x as int, WINDOW_WIDTH as int),
            to == clamped(rect.max_x as int, WINDOW_WIDTH as int),
            top == clamped(rect.min_y as int, WINDOW_HEIGHT as int),
            bottom == clamped(rect.max_y as int, WINDOW_HEIGHT as int),
            top <= y,
            y <= bottom || y == top,
            forall|p: int|
                #![trigger frame@[p]]
                0 <= p < PIXELS ==> frame@[p] == if p / (WINDOW_WIDTH as int) < y && covers(
                    rect,
                    p % WINDOW_WIDTH as int,
                    p / WINDOW_WIDTH as int,
                ) {
                    color
                } else {
                    old(frame)@[p]
                },
        decreases bottom - y,
    {
        fill_row(frame, y, from, to, color);
        y = y + 1;
    }
}

/// Paints every rectangle on black, in order, each in its own colour.
pub fn paint(frame: &mut Vec<u32>, rects: &Vec<ScreenRect>, colors: &Vec<u32>)
    requires
        old(frame)@.len() == PIXELS,
        rects@.len() == colors@.len(),
    ensures
        final(frame)@ == painted(rects@, colors@),
{
    let mut p: usize = 0;
    while p < PIXELS
        invariant
            frame@.len() == PIXELS,
            p <= PIXELS,
            forall|q: int| 0 <= q < p ==> #[trigger] frame@[q] == 0,
        decreases PIXELS - p,
    {
        frame.set(p, 0);
        p = p + 1;
    }
    let mut n: usize = 0;
    while n < rects.len()
        invariant
            frame@.len() == PIXELS,
            n <= rects@.len() == colors@.len(),
            forall|q: int|
                0 <= q < PIXELS ==> #[trigger] frame@[q] == pixel(rects@, colors@, n as nat, q),
        decreases rects@.len() - n,
    {
        fill_rect(frame, rects[n], colors[n]);
        n = n + 1;
    }
    assert(frame@ =~= painted(rects@, colors@));
}

} // verus!
