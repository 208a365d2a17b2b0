//! The diamond-square midpoint-displacement generator, over a grid with
//! wraparound addressing.
//!
//! The generator is generic in the sample type: every new sample is made by a
//! caller-supplied function `f(a, b, c, d, half)` from the four samples it is
//! derived from and the current half step (typically their mean plus a random
//! displacement scaled by `half`).

use vstd::arithmetic::div_mod::{lemma_mod_multiples_basic, lemma_mod_multiples_vanish, lemma_small_mod};
use vstd::prelude::*;
use crate::lattice::{
    lemma_centre_in_range,
    lemma_diamond_residues,
    lemma_flip,
    lemma_multiple_shift,
    lemma_power_of_two_divides,
    lemma_wrap_once,
    lemma_diamond_neighbours,
    lemma_half_divides,
    lemma_lattice_split,
    lemma_multiple_of_multiple,
    lemma_not_multiple_end,
    lemma_same_residue,
    lemma_two_pow_is_power_of_two,
    lemma_two_pow_monotone,
    on_diamond,
    power_of_two,
    visited_before,
    two_pow,
};
use crate::pixel_map::{PixelMap, slot, lemma_slot_in_range, lemma_slot_injective, lemma_update_elsewhere};

verus! {

/// `v` is a value that `f` can hand back for some arguments.
pub open spec fn produced_by<T, F: Fn(T, T, T, T, u32) -> T>(f: F, v: T) -> bool {
    exists|a: T, b: T, c: T, d: T, h: u32| #[trigger] f.ensures((a, b, c, d, h), v)
}

/// The sample that wraparound addressing reads at `(x, y)`: both coordinates are
/// reduced modulo the side length, into `[0, side)`.
pub open spec fn wrapped<T: Copy>(m: PixelMap<T>, x: int, y: int) -> T {
    m.at(x % (m.side() as int), y % (m.side() as int))
}

/// Relies on `num::Integer::mod_floor` for `i32`: with a positive divisor it
/// returns the floored remainder, which lies in `[0, n)`.
#[verifier::external_body]
fn mod_floor(x: i32, n: i32) -> (r: i32)
    requires
        n > 0,
    ensures
        r == x as int % n as int,
{
    num::Integer::mod_floor(&x, &n)
}

/// The sample at `(x, y)` under wraparound addressing.
pub fn sample<T: Copy>(p_map: &PixelMap<T>, x: i32, y: i32) -> (r: T)
    requires
        p_map.wf(),
        p_map.side() <= i32::MAX,
    ensures
        r == wrapped(*p_map, x as int, y as int),
{
    let grid_size = p_map.size() as i32;
    let x = mod_floor(x, grid_size) as u32;
    let y = mod_floor(y, grid_size) as u32;
    p_map.get_pixel(x, y)
}

/// Wraparound addressing repeats with period `side` along both axes: reading at
/// `x + k * side` (or at `y + k * side`) gives the sample stored for `x` (or `y`),
/// for every integer `k`.
pub proof fn lemma_wraparound_period<T: Copy>(m: PixelMap<T>, x: int, y: int, k: int)
    requires
        m.wf(),
    ensures
        wrapped(m, x + k * m.side(), y) == wrapped(m, x, y),
        wrapped(m, x, y + k * m.side()) == wrapped(m, x, y),
{
    let n = m.side() as int;
    lemma_mod_multiples_vanish(k, x, n);
    lemma_mod_multiples_vanish(k, y, n);
    assert(n * k + x == x + k * n);
    assert(n * k + y == y + k * n);
}

/// Stores `value` at `(x, y)`, which must lie inside the grid.
pub fn set_sample<T: Copy>(p_map: &mut PixelMap<T>, x: i32, y: i32, value: T)
    requires
        old(p_map).wf(),
        0 <= x < old(p_map).side(),
        0 <= y < old(p_map).side(),
    ensures
        final(p_map).wf(),
        final(p_map).side() == old(p_map).side(),
        final(p_map).samples() == old(p_map).samples().update(
            slot(x as int, y as int, old(p_map).side() as int),
            value,
        ),
{
    p_map.set_pixel(x as u32, y as u32, value)
}

/// Sets the centre of a diamond: `(x, y)` receives `f` of its four orthogonal
/// neighbours at distance `half` (above, left, right, below), read with wraparound.
pub fn diamond_sample<T: Copy, F: Fn(T, T, T, T, u32) -> T>(
    p_map: &mut PixelMap<T>,
    x: i32,
    y: i32,
    half: i32,
    f: &F,
)
    requires
        old(p_map).wf(),
        old(p_map).side() <= i32::MAX,
        0 <= x < old(p_map).side(),
        0 <= y < old(p_map).side(),
        0 <= half,
        x + half <= i32::MAX,
        y + half <= i32::MAX,
        forall|a: T, b: T, c: T, d: T, h: u32| f.requires((a, b, c, d, h)),
    ensures
        final(p_map).wf(),
        final(p_map).side() == old(p_map).side(),
        final(p_map).samples() == old(p_map).samples().update(
            slot(x as int, y as int, old(p_map).side() as int),
            final(p_map).at(x as int, y as int),
        ),
        f.ensures(
            (
                wrapped(*old(p_map), x as int, y - half),
                wrapped(*old(p_map), x - half, y as int),
                wrapped(*old(p_map), x + half, y as int),
                wrapped(*old(p_map), x as int, y + half),
                half as u32,
            ),
            final(p_map).at(x as int, y as int),
        ),
{
    //   a
    // b x c
    //   d
    let a = sample(p_map, x, y - half);
    let b = sample(p_map, x - half, y);
    let c = sample(p_map, x + half, y);
    let d = sample(p_map, x, y + half);
    let value = f(a, b, c, d, half as u32);
    set_sample(p_map, x, y, value);
    proof {
        lemma_slot_in_range(x as int, y as int, p_map.side() as int);
    }
}

/// Sets the centre of a square: `(x, y)` receives `f` of the four corners at
/// offsets `(-half, -half)`, `(half, -half)`, `(-half, half)` and `(half, half)`,
/// read with wraparound.
pub fn square_sample<T: Copy, F: Fn(T, T, T, T, u32) -> T>(
    p_map: &mut PixelMap<T>,
    x: i32,
    y: i32,
    half: i32,
    f: &F,
)
    requires
        old(p_map).wf(),
        old(p_map).side() <= i32::MAX,
        0 <= x < old(p_map).side(),
        0 <= y < old(p_map).side(),
        0 <= half,
        x + half <= i32::MAX,
        y + half <= i32::MAX,
        forall|a: T, b: T, c: T, d: T, h: u32| f.requires((a, b, c, d, h)),
    ensures
        final(p_map).wf(),
        final(p_map).side() == old(p_map).side(),
        final(p_map).samples() == old(p_map).samples().update(
            slot(x as int, y as int, old(p_map).side() as int),
            final(p_map).at(x as int, y as int),
        ),
        f.ensures(
            (
                wrapped(*old(p_map), x - half, y - half),
                wrapped(*old(p_map), x + half, y - half),
                wrapped(*old(p_map), x - half, y + half),
                wrapped(*old(p_map), x + half, y + half),
                half as u32,
            ),
            final(p_map).at(x as int, y as int),
        ),
{
    // a   b
    //   x
    // c   d
    let a = sample(p_map, x - half, y - half);
    let b = sample(p_map, x + half, y - half);
    let c = sample(p_map, x - half, y + half);
    let d = sample(p_map, x + half, y + half);
    let value = f(a, b, c, d, half as u32);
    set_sample(p_map, x, y, value);
    proof {
        lemma_slot_in_range(x as int, y as int, p_map.side() as int);
    }
}

/// Every sample of `m2` is the one of `m1` at the same place, or one that `f` made.
pub open spec fn kept_or_produced<T: Copy, F: Fn(T, T, T, T, u32) -> T>(
    m1: PixelMap<T>,
    m2: PixelMap<T>,
    f: F,
) -> bool {
    forall|x: int, y: int|
        0 <= x < m1.side() && 0 <= y < m1.side() ==> #[trigger] m2.at(x, y) == m1.at(x, y)
            || produced_by(f, m2.at(x, y))
}

/// After one call of `f` wrote `(x, y)`, the grid still only holds kept or made samples.
proof fn lemma_write_keeps<T: Copy, F: Fn(T, T, T, T, u32) -> T>(
    start: PixelMap<T>,
    before: PixelMap<T>,
    after: PixelMap<T>,
    f: F,
    x: int,
    y: int,
)
    requires
        before.wf(),
        after.wf(),
        start.side() == before.side() == after.side(),
        0 <= x < before.side(),
        0 <= y < before.side(),
        after.samples() == before.samples().update(
            slot(x, y, before.side() as int),
            after.at(x, y),
        ),
        produced_by(f, after.at(x, y)),
        kept_or_produced(start, before, f),
    ensures
        kept_or_produced(start, after, f),
        forall|cx: int, cy: int|
            0 <= cx < before.side() && 0 <= cy < before.side() && produced_by(f, before.at(cx, cy))
                ==> produced_by(f, #[trigger] after.at(cx, cy)),
        forall|cx: int, cy: int|
            0 <= cx < before.side() && 0 <= cy < before.side() && !(cx == x && cy == y)
                ==> #[trigger] after.at(cx, cy) == before.at(cx, cy),
{
    let n = before.side() as int;
    assert forall|cx: int, cy: int| 0 <= cx < n && 0 <= cy < n implies #[trigger] after.at(cx, cy)
        == before.at(cx, cy) || (cx == x && cy == y) by {
        lemma_slot_in_range(cx, cy, n);
        lemma_slot_in_range(x, y, n);
        if slot(cx, cy, n) == slot(x, y, n) {
            lemma_slot_injective(cx, cy, x, y, n);
        }
    }
}

/// `new.at(x, y)` is what `f` returned for the four diagonal corners of
/// `(x, y)` at distance `h`, as they stand in `old`.
pub open spec fn square_made<T: Copy, F: Fn(T, T, T, T, u32) -> T>(
    old: PixelMap<T>,
    new: PixelMap<T>,
    f: F,
    x: int,
    y: int,
    h: int,
) -> bool {
    f.ensures(
        (old.at(x - h, y - h), old.at(x + h, y - h), old.at(x - h, y + h), old.at(x + h, y + h), h as u32),
        new.at(x, y),
    )
}

/// Square step at `feature_size`: every cell whose coordinates are both odd
/// multiples of `h = feature_size / 2` receives `f` of its four diagonal
/// corners at distance `h`, which lie inside the grid and are not written by
/// the step. Every other cell is unchanged.
fn square_step<T: Copy, F: Fn(T, T, T, T, u32) -> T>(
    p_map: &mut PixelMap<T>,
    feature_size: i32,
    f: &F,
)
    requires
        old(p_map).wf(),
        2 * (old(p_map).side() - 1) <= i32::MAX,
        2 <= feature_size <= old(p_map).side() - 1,
        feature_size % 2 == 0,
        (old(p_map).side() - 1) % (feature_size as int) == 0,
        forall|a: T, b: T, c: T, d: T, h: u32| f.requires((a, b, c, d, h)),
    ensures
        final(p_map).wf(),
        final(p_map).side() == old(p_map).side(),
        kept_or_produced(*old(p_map), *final(p_map), *f),
        forall|x: int, y: int|
            0 <= x < old(p_map).side() && 0 <= y < old(p_map).side() && x % (feature_size as int)
                == feature_size / 2 && y % (feature_size as int) == feature_size / 2
                ==> produced_by(*f, #[trigger] final(p_map).at(x, y)),
        forall|x: int, y: int|
            #![trigger final(p_map).at(x, y)]
            0 <= x < old(p_map).side() && 0 <= y < old(p_map).side() && x % (feature_size as int)
                == feature_size / 2 && y % (feature_size as int) == feature_size / 2
                ==> square_made(*old(p_map), *final(p_map), *f, x, y, feature_size / 2),
        forall|x: int, y: int|
            0 <= x < old(p_map).side() && 0 <= y < old(p_map).side() && !(x % (feature_size as int)
                == feature_size / 2 && y % (feature_size as int) == feature_size / 2)
                ==> #[trigger] final(p_map).at(x, y) == old(p_map).at(x, y),
{
    let ghost start = *p_map;
    let ghost n = p_map.side() as int;
    let ghost fs = feature_size as int;
    let half_step = feature_size / 2;
    let ghost h = half_step as int;
    let max = p_map.max();
    let mut y = half_step;
    proof {
        lemma_small_mod(half_step as nat, fs as nat);
        assert forall|cx: int, cy: int|
            0 <= cx < n && 0 <= cy < y && cx % fs == half_step && cy % fs == half_step
                implies produced_by(*f, #[trigger] p_map.at(cx, cy)) && square_made(
                start,
                *p_map,
                *f,
                cx,
                cy,
                h,
            ) by {
            lemma_small_mod(cy as nat, fs as nat);
        }
    }
    while y < max
        invariant
            p_map.wf(),
            p_map.side() == n,
            n == start.side(),
            max == n - 1,
            2 * max <= i32::MAX,
            fs == feature_size,
            2 <= fs <= max,
            half_step == fs / 2,
            h == half_step,
            fs == 2 * h,
            max as int % fs == 0,
            forall|a: T, b: T, c: T, d: T, h: u32| f.requires((a, b, c, d, h)),
            y as int % fs == half_step,
            half_step <= y <= max + fs,
            kept_or_produced(start, *p_map, *f),
            forall|cx: int, cy: int|
                0 <= cx < n && 0 <= cy < n && !(cx % fs == half_step && cy % fs == half_step)
                    ==> #[trigger] p_map.at(cx, cy) == start.at(cx, cy),
            forall|cx: int, cy: int|
                0 <= cx < n && 0 <= cy < y && cx % fs == half_step && cy % fs == half_step
                    ==> produced_by(*f, #[trigger] p_map.at(cx, cy)) && square_made(
                    start,
                    *p_map,
                    *f,
                    cx,
                    cy,
                    h,
                ),
        decreases max + fs - y,
    {
        let mut x = half_step;
        proof {
            lemma_small_mod(half_step as nat, fs as nat);
            assert forall|cx: int| 0 <= cx < x && cx % fs == half_step implies produced_by(
                *f,
                #[trigger] p_map.at(cx, y as int),
            ) && square_made(start, *p_map, *f, cx, y as int, h) by {
                lemma_small_mod(cx as nat, fs as nat);
            }
        }
        while x < max
            invariant
                p_map.wf(),
                p_map.side() == n,
                n == start.side(),
                max == n - 1,
                2 * max <= i32::MAX,
                fs == feature_size,
                2 <= fs <= max,
                half_step == fs / 2,
                h == half_step,
                fs == 2 * h,
            fs == 2 * h,
                max as int % fs == 0,
                forall|a: T, b: T, c: T, d: T, h: u32| f.requires((a, b, c, d, h)),
                y as int % fs == half_step,
                half_step <= y < max,
                x as int % fs == half_step,
                half_step <= x <= max + fs,
                kept_or_produced(start, *p_map, *f),
                forall|cx: int, cy: int|
                    0 <= cx < n && 0 <= cy < n && !(cx % fs == half_step && cy % fs == half_step)
                        ==> #[trigger] p_map.at(cx, cy) == start.at(cx, cy),
                forall|cx: int, cy: int|
                    0 <= cx < n && 0 <= cy < y && cx % fs == half_step && cy % fs == half_step
                        ==> produced_by(*f, #[trigger] p_map.at(cx, cy)) && square_made(
                        start,
                        *p_map,
                        *f,
                        cx,
                        cy,
                        h,
                    ),
                forall|cx: int|
                    0 <= cx < x && cx % fs == half_step ==> produced_by(
                        *f,
                        #[trigger] p_map.at(cx, y as int),
                    ) && square_made(start, *p_map, *f, cx, y as int, h),
            decreases max + fs - x,
        {
            let ghost before = *p_map;
            proof {
                lemma_centre_in_range(x as int, fs, h, max as int);
                lemma_centre_in_range(y as int, fs, h, max as int);
                lemma_flip(x as int, fs, h);
                lemma_flip(y as int, fs, h);
                lemma_mod_multiples_vanish(-1, x - h, fs);
                lemma_mod_multiples_vanish(-1, y - h, fs);
                lemma_small_mod((x - h) as nat, n as nat);
                lemma_small_mod((x + h) as nat, n as nat);
                lemma_small_mod((y - h) as nat, n as nat);
                lemma_small_mod((y + h) as nat, n as nat);
                assert(before.at(x - h, y - h) == start.at(x - h, y - h));
                assert(before.at(x + h, y - h) == start.at(x + h, y - h));
                assert(before.at(x - h, y + h) == start.at(x - h, y + h));
                assert(before.at(x + h, y + h) == start.at(x + h, y + h));
            }
            square_sample(p_map, x, y, half_step, f);
            proof {
                lemma_write_keeps(start, before, *p_map, *f, x as int, y as int);
                lemma_mod_multiples_vanish(1, x as int, fs);
                assert forall|cx: int| 0 <= cx < x + fs && cx % fs == half_step implies produced_by(
                    *f,
                    #[trigger] p_map.at(cx, y as int),
                ) && square_made(start, *p_map, *f, cx, y as int, h) by {
                    if cx >= x {
                        lemma_same_residue(cx, x as int, fs);
                    } else {
                        assert(p_map.at(cx, y as int) == before.at(cx, y as int));
                    }
                }
                assert forall|cx: int, cy: int|
                    0 <= cx < n && 0 <= cy < y && cx % fs == half_step && cy % fs == half_step
                        implies produced_by(*f, #[trigger] p_map.at(cx, cy)) && square_made(
                        start,
                        *p_map,
                        *f,
                        cx,
                        cy,
                        h,
                    ) by {
                    assert(p_map.at(cx, cy) == before.at(cx, cy));
                }
                assert forall|cx: int, cy: int|
                    0 <= cx < n && 0 <= cy < n && !(cx % fs == half_step && cy % fs == half_step)
                        implies #[trigger] p_map.at(cx, cy) == start.at(cx, cy) by {
                    assert(p_map.at(cx, cy) == before.at(cx, cy));
                }
            }
            x += feature_size;
        }
        proof {
            assert forall|cx: int, cy: int|
                0 <= cx < n && 0 <= cy < y + fs && cx % fs == half_step && cy % fs == half_step
                    implies produced_by(*f, #[trigger] p_map.at(cx, cy)) && square_made(
                    start,
                    *p_map,
                    *f,
                    cx,
                    cy,
                    h,
                ) by {
                lemma_not_multiple_end(cx, fs, max as int);
                if cy >= y {
                    lemma_same_residue(cy, y as int, fs);
                }
            }
            lemma_mod_multiples_vanish(1, y as int, fs);
        }
        y += feature_size;
    }
    proof {
        assert forall|cx: int, cy: int|
            0 <= cx < n && 0 <= cy < n && cx % fs == half_step && cy % fs == half_step
                implies produced_by(*f, #[trigger] p_map.at(cx, cy)) && square_made(
                start,
                *p_map,
                *f,
                cx,
                cy,
                h,
            ) by {
            lemma_not_multiple_end(cy, fs, max as int);
        }
    }
}

/// `new.at(x, y)` is what `f` returned for the four orthogonal neighbours of
/// `(x, y)` at distance `h`, read with wraparound: the upper and left ones as
/// they stand in `old`, the right and lower ones as they stand in `new`.
pub open spec fn diamond_made<T: Copy, F: Fn(T, T, T, T, u32) -> T>(
    old: PixelMap<T>,
    new: PixelMap<T>,
    f: F,
    x: int,
    y: int,
    h: int,
) -> bool {
    f.ensures(
        (
            wrapped(old, x, y - h),
            wrapped(old, x - h, y),
            wrapped(new, x + h, y),
            wrapped(new, x, y + h),
            h as u32,
        ),
        new.at(x, y),
    )
}

/// Diamond step at `feature_size`: the cells on the diamond lattice (rows at
/// multiples of `h = feature_size / 2`, columns congruent to `row + h` modulo
/// `feature_size`) are visited row by row, and each receives `f` of its four
/// orthogonal neighbours at distance `h`, read with wraparound. A neighbour
/// that wraps backwards is read before the step reaches it, one that wraps
/// forwards after the step set it. Every other cell is unchanged.
fn diamond_step<T: Copy, F: Fn(T, T, T, T, u32) -> T>(
    p_map: &mut PixelMap<T>,
    feature_size: i32,
    f: &F,
)
    requires
        old(p_map).wf(),
        2 * (old(p_map).side() - 1) <= i32::MAX,
        2 <= feature_size <= old(p_map).side() - 1,
        feature_size % 2 == 0,
        forall|a: T, b: T, c: T, d: T, h: u32| f.requires((a, b, c, d, h)),
    ensures
        final(p_map).wf(),
        final(p_map).side() == old(p_map).side(),
        kept_or_produced(*old(p_map), *final(p_map), *f),
        forall|x: int, y: int|
            0 <= x < old(p_map).side() && 0 <= y < old(p_map).side() && y % (feature_size / 2) as int
                == 0 && x % (feature_size as int) == (y + feature_size / 2) % (feature_size as int)
                ==> produced_by(*f, #[trigger] final(p_map).at(x, y)),
        forall|x: int, y: int|
            #![trigger final(p_map).at(x, y)]
            0 <= x < old(p_map).side() && 0 <= y < old(p_map).side() && on_diamond(
                x,
                y,
                feature_size as int,
                feature_size / 2,
            ) ==> diamond_made(*old(p_map), *final(p_map), *f, x, y, feature_size / 2),
        forall|x: int, y: int|
            0 <= x < old(p_map).side() && 0 <= y < old(p_map).side() && !(y % (feature_size / 2) as int
                == 0 && x % (feature_size as int) == (y + feature_size / 2) % (feature_size as int))
                ==> #[trigger] final(p_map).at(x, y) == old(p_map).at(x, y),
{
    let ghost start = *p_map;
    let ghost n = p_map.side() as int;
    let ghost fs = feature_size as int;
    let half_step = feature_size / 2;
    let ghost h = half_step as int;
    let max = p_map.max();
    let mut y: i32 = 0;
    proof {
        lemma_small_mod(0, h as nat);
    }
    while y <= max
        invariant
            p_map.wf(),
            p_map.side() == n,
            n == start.side(),
            max == n - 1,
            2 * max <= i32::MAX,
            fs == feature_size,
            2 <= fs <= max,
            half_step == h,
            fs == 2 * h,
            forall|a: T, b: T, c: T, d: T, h: u32| f.requires((a, b, c, d, h)),
            y as int % h == 0,
            0 <= y <= max + h,
            kept_or_produced(start, *p_map, *f),
            forall|cx: int, cy: int|
                0 <= cx < n && 0 <= cy < n && !(on_diamond(cx, cy, fs, h) && cy < y)
                    ==> #[trigger] p_map.at(cx, cy) == start.at(cx, cy),
            forall|cx: int, cy: int|
                0 <= cx < n && 0 <= cy < y && on_diamond(cx, cy, fs, h) ==> produced_by(
                    *f,
                    #[trigger] p_map.at(cx, cy),
                ) && diamond_made(start, *p_map, *f, cx, cy, h),
        decreases max + h - y,
    {
        let mut x: i32 = (y + half_step) % feature_size;
        let ghost first = x as int;
        proof {
            lemma_small_mod(first as nat, fs as nat);
            assert forall|cx: int| 0 <= cx < x && cx % fs == first implies produced_by(
                *f,
                #[trigger] p_map.at(cx, y as int),
            ) && diamond_made(start, *p_map, *f, cx, y as int, h) by {
                lemma_small_mod(cx as nat, fs as nat);
            }
        }
        while x <= max
            invariant
                p_map.wf(),
                p_map.side() == n,
                n == start.side(),
                max == n - 1,
                2 * max <= i32::MAX,
                fs == feature_size,
                2 <= fs <= max,
                half_step == h,
                fs == 2 * h,
                forall|a: T, b: T, c: T, d: T, h: u32| f.requires((a, b, c, d, h)),
                y as int % h == 0,
                0 <= y <= max,
                first == (y + h) % fs,
                x as int % fs == first,
                0 <= x <= max + fs,
                kept_or_produced(start, *p_map, *f),
                forall|cx: int, cy: int|
                    0 <= cx < n && 0 <= cy < n && !(on_diamond(cx, cy, fs, h) && visited_before(
                        cx,
                        cy,
                        x as int,
                        y as int,
                    )) ==> #[trigger] p_map.at(cx, cy) == start.at(cx, cy),
                forall|cx: int, cy: int|
                    0 <= cx < n && 0 <= cy < y && on_diamond(cx, cy, fs, h) ==> produced_by(
                        *f,
                        #[trigger] p_map.at(cx, cy),
                    ) && diamond_made(start, *p_map, *f, cx, cy, h),
                forall|cx: int| 0 <= cx < x && cx % fs == first ==> produced_by(
                    *f,
                    #[trigger] p_map.at(cx, y as int),
                ) && diamond_made(start, *p_map, *f, cx, y as int, h),
            decreases max + fs - x,
        {
            let ghost before = *p_map;
            proof {
                lemma_diamond_neighbours(x as int, y as int, fs, h, n);
                lemma_small_mod(x as nat, n as nat);
                lemma_small_mod(y as nat, n as nat);
                let u = (y - h) % n;
                let l = (x - h) % n;
                assert(before.at(x as int, u) == start.at(x as int, u));
                assert(before.at(l, y as int) == start.at(l, y as int));
            }
            diamond_sample(p_map, x, y, half_step, f);
            proof {
                lemma_write_keeps(start, before, *p_map, *f, x as int, y as int);
                lemma_mod_multiples_vanish(1, x as int, fs);
                let r = (x + h) % n;
                let d = (y + h) % n;
                assert(p_map.at(r, y as int) == before.at(r, y as int));
                assert(p_map.at(x as int, d) == before.at(x as int, d));
                assert(diamond_made(start, *p_map, *f, x as int, y as int, h));
                assert forall|cx: int, cy: int|
                    0 <= cx < n && 0 <= cy < n && on_diamond(cx, cy, fs, h) && visited_before(
                        cx,
                        cy,
                        x as int,
                        y as int,
                    ) implies #[trigger] p_map.at(cx, cy) == before.at(cx, cy) && diamond_made(
                    start,
                    *p_map,
                    *f,
                    cx,
                    cy,
                    h,
                ) == diamond_made(start, before, *f, cx, cy, h) by {
                    lemma_diamond_neighbours(cx, cy, fs, h, n);
                    lemma_small_mod(cx as nat, n as nat);
                    lemma_small_mod(cy as nat, n as nat);
                    let r2 = (cx + h) % n;
                    let d2 = (cy + h) % n;
                    assert(p_map.at(r2, cy) == before.at(r2, cy));
                    assert(p_map.at(cx, d2) == before.at(cx, d2));
                }
                assert forall|cx: int| 0 <= cx < x + fs && cx % fs == first implies produced_by(
                    *f,
                    #[trigger] p_map.at(cx, y as int),
                ) && diamond_made(start, *p_map, *f, cx, y as int, h) by {
                    if cx >= x {
                        lemma_same_residue(cx, x as int, fs);
                    } else {
                        assert(on_diamond(cx, y as int, fs, h));
                        assert(visited_before(cx, y as int, x as int, y as int));
                    }
                }
                assert forall|cx: int, cy: int|
                    0 <= cx < n && 0 <= cy < y && on_diamond(cx, cy, fs, h) implies produced_by(
                        *f,
                        #[trigger] p_map.at(cx, cy),
                    ) && diamond_made(start, *p_map, *f, cx, cy, h) by {
                    assert(visited_before(cx, cy, x as int, y as int));
                }
                assert forall|cx: int, cy: int|
                    0 <= cx < n && 0 <= cy < n && !(on_diamond(cx, cy, fs, h) && visited_before(
                        cx,
                        cy,
                        x + fs,
                        y as int,
                    )) implies #[trigger] p_map.at(cx, cy) == start.at(cx, cy) by {
                    assert(p_map.at(cx, cy) == before.at(cx, cy));
                }
            }
            x += feature_size;
        }
        proof {
            assert forall|cx: int, cy: int|
                0 <= cx < n && 0 <= cy < y + h && on_diamond(cx, cy, fs, h) implies produced_by(
                    *f,
                    #[trigger] p_map.at(cx, cy),
                ) && diamond_made(start, *p_map, *f, cx, cy, h) by {
                if cy >= y {
                    lemma_same_residue(cy, y as int, h);
                }
            }
            assert forall|cx: int, cy: int|
                0 <= cx < n && 0 <= cy < n && !(on_diamond(cx, cy, fs, h) && cy < y + h)
                    implies #[trigger] p_map.at(cx, cy) == start.at(cx, cy) by {
                if on_diamond(cx, cy, fs, h) && cy >= y && cy < y + h {
                    lemma_same_residue(cy, y as int, h);
                }
            }
            lemma_mod_multiples_vanish(1, y as int, h);
        }
        y += half_step;
    }
}

/// Composing two rounds of writes by `f` still only keeps or makes samples.
proof fn lemma_kept_trans<T: Copy, F: Fn(T, T, T, T, u32) -> T>(
    a: PixelMap<T>,
    b: PixelMap<T>,
    c: PixelMap<T>,
    f: F,
)
    requires
        a.side() == b.side(),
        kept_or_produced(a, b, f),
        kept_or_produced(b, c, f),
    ensures
        kept_or_produced(a, c, f),
{
    assert forall|x: int, y: int| 0 <= x < a.side() && 0 <= y < a.side() implies #[trigger] c.at(x, y)
        == a.at(x, y) || produced_by(f, c.at(x, y)) by {
        assert(b.at(x, y) == a.at(x, y) || produced_by(f, b.at(x, y)));
        assert(c.at(x, y) == b.at(x, y) || produced_by(f, c.at(x, y)));
    }
}

/// `(x, y)` is filled at the level whose half step is `h`: both coordinates are
/// multiples of `h`, and not both are multiples of `2h`.
pub open spec fn level_cell(x: int, y: int, h: int) -> bool {
    x % h == 0 && y % h == 0 && !(x % (2 * h) == 0 && y % (2 * h) == 0)
}

/// `(x, y)` is filled at the level of some power of two `h` with `lo <= h` and
/// `2h <= s`.
pub open spec fn has_level(x: int, y: int, lo: int, s: int) -> bool {
    exists|h: int| power_of_two(h) && lo <= h && 2 * h <= s && #[trigger] level_cell(x, y, h)
}

/// In the grid `r`, the sample at `(x, y)` is what `f` returned for its four
/// neighbours at distance `h` and half step `h`: for a square centre (both
/// coordinates odd multiples of `h`) its diagonal corners; otherwise, where
/// all four lie inside the grid, its orthogonal neighbours above, left, right
/// and below.
pub open spec fn made_from_neighbours<T: Copy, F: Fn(T, T, T, T, u32) -> T>(
    r: PixelMap<T>,
    f: F,
    x: int,
    y: int,
    h: int,
) -> bool {
    if x % (2 * h) == h && y % (2 * h) == h {
        square_made(r, r, f, x, y, h)
    } else {
        h <= x && x + h < r.side() && h <= y && y + h < r.side() ==> f.ensures(
            (r.at(x, y - h), r.at(x - h, y), r.at(x + h, y), r.at(x, y + h), h as u32),
            r.at(x, y),
        )
    }
}

/// The square step at feature size `fs`, with `h = fs / 2`, took `before` to
/// `mid`: each cell whose coordinates are both `h` modulo `fs` holds `f` of its
/// diagonal corners in `before`; every other cell is unchanged.
pub open spec fn square_part<T: Copy, F: Fn(T, T, T, T, u32) -> T>(
    before: PixelMap<T>,
    mid: PixelMap<T>,
    f: F,
    fs: int,
) -> bool {
    let h = fs / 2;
    &&& mid.side() == before.side()
    &&& forall|x: int, y: int|
        #![trigger mid.at(x, y)]
        0 <= x < before.side() && 0 <= y < before.side() ==> if x % fs == h && y % fs == h {
            square_made(before, mid, f, x, y, h)
        } else {
            mid.at(x, y) == before.at(x, y)
        }
}

/// The diamond step at feature size `fs`, with `h = fs / 2`, took `mid` to
/// `after`: each cell of the diamond lattice holds `f` of its orthogonal
/// neighbours as `diamond_made` reads them; every other cell is unchanged.
pub open spec fn diamond_part<T: Copy, F: Fn(T, T, T, T, u32) -> T>(
    mid: PixelMap<T>,
    after: PixelMap<T>,
    f: F,
    fs: int,
) -> bool {
    let h = fs / 2;
    &&& after.side() == mid.side()
    &&& forall|x: int, y: int|
        #![trigger after.at(x, y)]
        0 <= x < mid.side() && 0 <= y < mid.side() ==> if on_diamond(x, y, fs, h) {
            diamond_made(mid, after, f, x, y, h)
        } else {
            after.at(x, y) == mid.at(x, y)
        }
}

/// One level of the generator at feature size `fs`: `mid` is `before` after
/// the square step, and `after` is `mid` after the diamond step.
pub open spec fn level_step<T: Copy, F: Fn(T, T, T, T, u32) -> T>(
    before: PixelMap<T>,
    mid: PixelMap<T>,
    after: PixelMap<T>,
    f: F,
    fs: int,
) -> bool {
    square_part(before, mid, f, fs) && diamond_part(mid, after, f, fs)
}

/// `grids[0]`, ..., `grids[d]` are the grid before and after each of `d`
/// levels, at feature sizes `2^d`, ..., `2`, with `mids[i]` the grid between
/// the two steps of level `i`.
pub open spec fn level_sequence<T: Copy, F: Fn(T, T, T, T, u32) -> T>(
    grids: Seq<PixelMap<T>>,
    mids: Seq<PixelMap<T>>,
    f: F,
    d: nat,
) -> bool {
    &&& grids.len() == d + 1
    &&& mids.len() == d
    &&& forall|i: int|
        #![trigger mids[i]]
        0 <= i < d ==> level_step(grids[i], mids[i], grids[i + 1], f, two_pow((d - i) as nat) as int)
}

/// `end` is `start` after `d` levels of the generator, at feature sizes
/// `2^d`, ..., `2`.
pub open spec fn levels_from<T: Copy, F: Fn(T, T, T, T, u32) -> T>(
    start: PixelMap<T>,
    end: PixelMap<T>,
    f: F,
    d: nat,
) -> bool {
    exists|grids: Seq<PixelMap<T>>, mids: Seq<PixelMap<T>>|
        #[trigger] level_sequence(grids, mids, f, d) && grids[0] == start && grids[d as int] == end
}

/// Runs the square and the diamond step at `size`, then at each half of it down
/// to 2. The cells on the lattice of multiples of `size` are unchanged; every
/// other cell is filled at the level of some half step `h`, and, at every level,
/// what `f` made stands in the result beside the neighbours it was made from.
/// Exactly: the result is the grid after the levels at feature sizes
/// `2^d = size`, ..., `2`, as `levels_from` describes them.
fn divide<T: Copy, F: Fn(T, T, T, T, u32) -> T>(
    p_map: &mut PixelMap<T>,
    size: i32,
    f: &F,
    Ghost(d): Ghost<nat>,
)
    requires
        size == two_pow(d),
        old(p_map).wf(),
        2 * (old(p_map).side() - 1) <= i32::MAX,
        1 <= size <= old(p_map).side() - 1,
        power_of_two(size as int),
        (old(p_map).side() - 1) % (size as int) == 0,
        forall|a: T, b: T, c: T, d: T, h: u32| f.requires((a, b, c, d, h)),
    ensures
        final(p_map).wf(),
        final(p_map).side() == old(p_map).side(),
        kept_or_produced(*old(p_map), *final(p_map), *f),
        forall|x: int, y: int|
            0 <= x < old(p_map).side() && 0 <= y < old(p_map).side() && !(x % (size as int) == 0
                && y % (size as int) == 0) ==> produced_by(*f, #[trigger] final(p_map).at(x, y)),
        forall|x: int, y: int|
            0 <= x < old(p_map).side() && 0 <= y < old(p_map).side() && x % (size as int) == 0 && y
                % (size as int) == 0 ==> #[trigger] final(p_map).at(x, y) == old(p_map).at(x, y),
        forall|x: int, y: int|
            0 <= x < old(p_map).side() && 0 <= y < old(p_map).side() && !(x % (size as int) == 0
                && y % (size as int) == 0) ==> #[trigger] has_level(x, y, 1, size as int),
        forall|h: int, x: int, y: int|
            #![trigger level_cell(x, y, h)]
            power_of_two(h) && 2 * h <= size && 0 <= x < old(p_map).side() && 0 <= y < old(
                p_map,
            ).side() && level_cell(x, y, h) ==> made_from_neighbours(*final(p_map), *f, x, y, h),        levels_from(*old(p_map), *final(p_map), *f, d),
{
    let ghost start = *p_map;
    let ghost n = p_map.side() as int;
    let ghost s = size as int;
    let max = p_map.max();
    let mut feature_size = size;
    let ghost mut grids: Seq<PixelMap<T>> = seq![*p_map];
    let ghost mut mids: Seq<PixelMap<T>> = Seq::empty();
    let ghost mut e: nat = d;
    while feature_size / 2 >= 1
        invariant
            e <= d,
            feature_size == two_pow(e),
            grids.len() == d - e + 1,
            mids.len() == d - e,
            grids[0] == start,
            grids[d - e] == *p_map,
            forall|i: int|
                #![trigger mids[i]]
                0 <= i < d - e ==> level_step(
                    grids[i],
                    mids[i],
                    grids[i + 1],
                    *f,
                    two_pow((d - i) as nat) as int,
                ),
            p_map.wf(),
            p_map.side() == n,
            n == start.side(),
            max == n - 1,
            2 * max <= i32::MAX,
            s == size,
            1 <= s,
            power_of_two(s),
            max as int % s == 0,
            1 <= feature_size <= max,
            feature_size <= s,
            power_of_two(feature_size as int),
            max as int % feature_size as int == 0,
            forall|a: T, b: T, c: T, d: T, h: u32| f.requires((a, b, c, d, h)),
            s % (feature_size as int) == 0,
            kept_or_produced(start, *p_map, *f),
            forall|x: int, y: int|
                0 <= x < n && 0 <= y < n && x % s == 0 && y % s == 0 ==> #[trigger] p_map.at(x, y)
                    == start.at(x, y),
            forall|x: int, y: int|
                0 <= x < n && 0 <= y < n && !(x % s == 0 && y % s == 0) && x % (feature_size as int)
                    == 0 && y % (feature_size as int) == 0 ==> produced_by(
                    *f,
                    #[trigger] p_map.at(x, y),
                ),
            forall|x: int, y: int|
                0 <= x < n && 0 <= y < n && !(x % s == 0 && y % s == 0) && x % (feature_size as int)
                    == 0 && y % (feature_size as int) == 0 ==> #[trigger] has_level(
                    x,
                    y,
                    feature_size as int,
                    s,
                ),
            forall|hh: int, x: int, y: int|
                #![trigger level_cell(x, y, hh)]
                power_of_two(hh) && feature_size <= hh && 2 * hh <= s && 0 <= x < n && 0 <= y < n
                    && level_cell(x, y, hh) ==> made_from_neighbours(*p_map, *f, x, y, hh),
        decreases feature_size,
    {
        let ghost before = *p_map;
        let ghost fs = feature_size as int;
        let ghost h = fs / 2;
        square_step(p_map, feature_size, f);
        let ghost mid = *p_map;
        diamond_step(p_map, feature_size, f);
        proof {
            assert(fs == 2 * h);
            lemma_kept_trans(before, mid, *p_map, *f);
            lemma_kept_trans(start, before, *p_map, *f);
            lemma_half_divides(max as int, fs);
            lemma_half_divides(s, fs);
            assert(power_of_two(h));
            assert forall|x: int, y: int|
                0 <= x < n && 0 <= y < n && x % fs == 0 && y % fs == 0 implies #[trigger] p_map.at(x, y)
                    == before.at(x, y) by {
                lemma_diamond_residues(y, fs, h);
                assert(mid.at(x, y) == before.at(x, y));
            }
            assert forall|x: int, y: int| 0 <= x < n && 0 <= y < n && x % s == 0 && y % s == 0 implies #[trigger] p_map.at(x, y)
                == start.at(x, y) by {
                lemma_multiple_of_multiple(x, s, fs);
                lemma_multiple_of_multiple(y, s, fs);
                assert(p_map.at(x, y) == before.at(x, y));
            }
            assert forall|x: int, y: int|
                0 <= x < n && 0 <= y < n && !(x % s == 0 && y % s == 0) && x % h == 0 && y % h
                    == 0 implies produced_by(*f, #[trigger] p_map.at(x, y)) by {
                lemma_lattice_split(x, h);
                lemma_lattice_split(y, h);
                lemma_diamond_residues(y, fs, h);
                if x % fs == 0 && y % fs == 0 {
                    assert(produced_by(*f, before.at(x, y)));
                    assert(mid.at(x, y) == before.at(x, y) || produced_by(*f, mid.at(x, y)));
                } else if x % fs == h && y % fs == h {
                    assert(produced_by(*f, mid.at(x, y)));
                }
            }
            assert forall|x: int, y: int|
                0 <= x < n && 0 <= y < n && !(x % s == 0 && y % s == 0) && x % h == 0 && y % h
                    == 0 implies #[trigger] has_level(x, y, h, s) by {
                if x % fs == 0 && y % fs == 0 {
                    assert(has_level(x, y, fs, s));
                    let hh = choose|hh: int|
                        power_of_two(hh) && fs <= hh && 2 * hh <= s && #[trigger] level_cell(x, y, hh);
                    assert(level_cell(x, y, hh));
                } else {
                    assert(level_cell(x, y, h));
                }
            }
            assert forall|hh: int, x: int, y: int|
                power_of_two(hh) && h <= hh && 2 * hh <= s && 0 <= x < n && 0 <= y < n
                    && #[trigger] level_cell(x, y, hh) implies made_from_neighbours(
                *p_map,
                *f,
                x,
                y,
                hh,
            ) by {
                lemma_level_step(start, before, mid, *p_map, *f, s, fs, h, hh, x, y);
            }
            assert(e >= 1);
            assert(level_step(before, mid, *p_map, *f, fs)) by {
                assert forall|x: int, y: int|
                    0 <= x < n && 0 <= y < n implies if x % fs == h && y % fs == h {
                        square_made(before, mid, *f, x, y, h)
                    } else {
                        #[trigger] mid.at(x, y) == before.at(x, y)
                    } by {}
                assert forall|x: int, y: int|
                    0 <= x < n && 0 <= y < n implies if on_diamond(x, y, fs, h) {
                        diamond_made(mid, *p_map, *f, x, y, h)
                    } else {
                        #[trigger] p_map.at(x, y) == mid.at(x, y)
                    } by {}
            }
            let k = d - e;
            assert(two_pow((d - k) as nat) == fs);
            let prev = grids;
            grids = grids.push(*p_map);
            mids = mids.push(mid);
            e = (e - 1) as nat;
            assert forall|i: int| 0 <= i < d - e implies level_step(
                grids[i],
                mids[i],
                grids[i + 1],
                *f,
                two_pow((d - i) as nat) as int,
            ) by {
                if i < k {
                    assert(grids[i] == prev[i] && grids[i + 1] == prev[i + 1]);
                }
            }
        }
        feature_size = feature_size / 2;
    }
    proof {
        assert forall|x: int, y: int|
            0 <= x < n && 0 <= y < n && !(x % s == 0 && y % s == 0) implies produced_by(
            *f,
            #[trigger] p_map.at(x, y),
        ) by {
            assert(feature_size == 1);
        }
        assert forall|x: int, y: int|
            0 <= x < n && 0 <= y < n && !(x % s == 0 && y % s == 0) implies #[trigger] has_level(
            x,
            y,
            1,
            s,
        ) by {
            assert(feature_size == 1);
            assert(has_level(x, y, feature_size as int, s));
        }
        assert forall|hh: int, x: int, y: int|
            power_of_two(hh) && 2 * hh <= s && 0 <= x < n && 0 <= y < n && #[trigger] level_cell(
                x,
                y,
                hh,
            ) implies made_from_neighbours(*p_map, *f, x, y, hh) by {
            assert(feature_size == 1);
            assert(power_of_two(hh) ==> hh >= 1);
        }
        if e > 0 {
            lemma_two_pow_is_power_of_two((e - 1) as nat);
        }
        assert(e == 0);
        assert(level_sequence(grids, mids, *f, d));
    }
}

/// One level of `divide`, at feature size `fs = 2h`: a cell filled at an earlier
/// level keeps its relation to its neighbours, and a cell filled at this level
/// gets one.
proof fn lemma_level_step<T: Copy, F: Fn(T, T, T, T, u32) -> T>(
    start: PixelMap<T>,
    before: PixelMap<T>,
    mid: PixelMap<T>,
    after: PixelMap<T>,
    f: F,
    s: int,
    fs: int,
    h: int,
    hh: int,
    x: int,
    y: int,
)
    requires
        before.wf(),
        mid.wf(),
        after.wf(),
        before.side() == mid.side() == after.side(),
        2 <= fs <= before.side() - 1,
        fs == 2 * h,
        fs <= s,
        power_of_two(fs),
        power_of_two(s),
        (before.side() - 1) % s == 0,
        (before.side() - 1) % fs == 0,
        power_of_two(hh),
        h <= hh,
        2 * hh <= s,
        0 <= x < before.side(),
        0 <= y < before.side(),
        level_cell(x, y, hh),
        forall|hh: int, x: int, y: int|
            #![trigger level_cell(x, y, hh)]
            power_of_two(hh) && fs <= hh && 2 * hh <= s && 0 <= x < before.side() && 0 <= y
                < before.side() && level_cell(x, y, hh) ==> made_from_neighbours(before, f, x, y, hh),
        forall|x: int, y: int|
            0 <= x < before.side() && 0 <= y < before.side() && x % fs == 0 && y % fs == 0
                ==> #[trigger] after.at(x, y) == before.at(x, y),
        forall|x: int, y: int|
            #![trigger mid.at(x, y)]
            0 <= x < before.side() && 0 <= y < before.side() && x % fs == h && y % fs == h
                ==> square_made(before, mid, f, x, y, h),
        forall|x: int, y: int|
            #![trigger after.at(x, y)]
            0 <= x < before.side() && 0 <= y < before.side() && on_diamond(x, y, fs, h)
                ==> diamond_made(mid, after, f, x, y, h),
        forall|x: int, y: int|
            0 <= x < before.side() && 0 <= y < before.side() && !(y % h == 0 && x % fs == (y + h)
                % fs) ==> #[trigger] after.at(x, y) == mid.at(x, y),
    ensures
        made_from_neighbours(after, f, x, y, hh),
{
    let n = before.side() as int;
    let max = n - 1;
    if hh == h {
        lemma_lattice_split(x, h);
        lemma_lattice_split(y, h);
        lemma_diamond_residues(y, fs, h);
        if x % fs == h && y % fs == h {
            lemma_not_multiple_end(x, fs, max);
            lemma_not_multiple_end(y, fs, max);
            lemma_centre_in_range(x, fs, h, max);
            lemma_centre_in_range(y, fs, h, max);
            lemma_flip(x, fs, h);
            lemma_flip(y, fs, h);
            assert(square_made(before, mid, f, x, y, h));
            assert(after.at(x, y) == mid.at(x, y));
            assert(after.at(x - h, y - h) == before.at(x - h, y - h));
            assert(after.at(x + h, y - h) == before.at(x + h, y - h));
            assert(after.at(x - h, y + h) == before.at(x - h, y + h));
            assert(after.at(x + h, y + h) == before.at(x + h, y + h));
        } else {
            assert(on_diamond(x, y, fs, h));
            assert(diamond_made(mid, after, f, x, y, h));
            if h <= x && x + h < n && h <= y && y + h < n {
                lemma_diamond_neighbours(x, y, fs, h, n);
                lemma_small_mod(x as nat, n as nat);
                lemma_small_mod(y as nat, n as nat);
                lemma_small_mod((x - h) as nat, n as nat);
                lemma_small_mod((x + h) as nat, n as nat);
                lemma_small_mod((y - h) as nat, n as nat);
                lemma_small_mod((y + h) as nat, n as nat);
                assert(after.at(x, y - h) == mid.at(x, y - h));
                assert(after.at(x - h, y) == mid.at(x - h, y));
            }
        }
    } else {
        if hh < fs {
            lemma_power_of_two_divides(h, hh);
            lemma_mod_multiples_basic(1, h);
            lemma_same_residue(hh, h, h);
        }
        lemma_power_of_two_divides(fs, hh);
        assert(made_from_neighbours(before, f, x, y, hh));
        lemma_multiple_of_multiple(x, hh, fs);
        lemma_multiple_of_multiple(y, hh, fs);
        lemma_multiple_shift(x, hh, fs);
        lemma_multiple_shift(y, hh, fs);
        if x % (2 * hh) == hh && y % (2 * hh) == hh {
            assert(power_of_two(2 * hh));
            lemma_power_of_two_divides(2 * hh, s);
            lemma_multiple_of_multiple(max, s, 2 * hh);
            lemma_not_multiple_end(x, 2 * hh, max);
            lemma_not_multiple_end(y, 2 * hh, max);
            lemma_centre_in_range(x, 2 * hh, hh, max);
            lemma_centre_in_range(y, 2 * hh, hh, max);
            assert(after.at(x - hh, y - hh) == before.at(x - hh, y - hh));
            assert(after.at(x + hh, y - hh) == before.at(x + hh, y - hh));
            assert(after.at(x - hh, y + hh) == before.at(x - hh, y + hh));
            assert(after.at(x + hh, y + hh) == before.at(x + hh, y + hh));
        } else if hh <= x && x + hh < n && hh <= y && y + hh < n {
            assert(after.at(x, y - hh) == before.at(x, y - hh));
            assert(after.at(x - hh, y) == before.at(x - hh, y));
            assert(after.at(x + hh, y) == before.at(x + hh, y));
            assert(after.at(x, y + hh) == before.at(x, y + hh));
        }
        assert(after.at(x, y) == before.at(x, y));
    }
}

/// The largest detail level: coordinates are `i32`, and a sweep's cursor runs
/// up to twice the largest coordinate.
pub const MAX_DETAIL: u32 = 29;

proof fn lemma_two_pow_max_detail()
    ensures
        two_pow(MAX_DETAIL as nat) == 536870912,
{
    reveal_with_fuel(two_pow, 30);
}

/// `g` holds `seed` at its four corners and `fill` everywhere else.
pub open spec fn seeded_grid<T: Copy>(g: PixelMap<T>, seed: T, fill: T) -> bool {
    forall|x: int, y: int|
        #![trigger g.at(x, y)]
        0 <= x < g.side() && 0 <= y < g.side() ==> g.at(x, y) == if (x == 0 || x == g.side() - 1) && (
        y == 0 || y == g.side() - 1) {
            seed
        } else {
            fill
        }
}

/// Builds a grid of side `2^detail + 1` with the diamond-square algorithm.
///
/// Every slot starts as `fill`; the four corners are set to `seed`; then, for
/// feature sizes `2^detail`, `2^(detail-1)`, ..., `2`, the square step and the
/// diamond step fill the cells between those already set, each with a sample
/// `f(a, b, c, d, half)` of four samples read with wraparound.
///
/// On return the corners hold `seed`, and every other cell is filled at the
/// level of some half step `h` (a power of two with `2h <= 2^detail`). A cell
/// of level `h` holds what `f` returned, with half step `h`, for its four
/// neighbours at distance `h` as they stand in the result: its diagonal corners
/// if both coordinates are odd multiples of `h`, else its orthogonal neighbours,
/// wherever all four lie inside the grid (at the edges a neighbour is read with
/// wraparound, and may change after it was read).
///
/// Exactly: the result is the seeded grid after `detail` levels, each a square
/// step and then a diamond step as `level_step` describes them.
pub fn construct_with<T: Copy, F: Fn(T, T, T, T, u32) -> T>(
    detail: u32,
    seed: T,
    fill: T,
    f: F,
) -> (r: PixelMap<T>)
    requires
        detail <= MAX_DETAIL,
        (two_pow(detail as nat) + 1) * (two_pow(detail as nat) + 1) <= usize::MAX,
        forall|a: T, b: T, c: T, d: T, h: u32| f.requires((a, b, c, d, h)),
    ensures
        r.wf(),
        r.side() == two_pow(detail as nat) + 1,
        forall|x: int, y: int|
            0 <= x < r.side() && 0 <= y < r.side() ==> #[trigger] r.at(x, y) == seed
                || produced_by(f, r.at(x, y)),
        r.at(0, 0) == seed,
        r.at(r.side() - 1, 0) == seed,
        r.at(0, r.side() - 1) == seed,
        r.at(r.side() - 1, r.side() - 1) == seed,
        forall|x: int, y: int|
            0 <= x < r.side() && 0 <= y < r.side() && !((x == 0 || x == r.side() - 1) && (y == 0 || y
                == r.side() - 1)) ==> #[trigger] has_level(x, y, 1, r.side() - 1),
        forall|h: int, x: int, y: int|
            #![trigger level_cell(x, y, h)]
            power_of_two(h) && 2 * h <= r.side() - 1 && 0 <= x < r.side() && 0 <= y < r.side()
                && level_cell(x, y, h) ==> made_from_neighbours(r, f, x, y, h),        exists|g0: PixelMap<T>|
            g0.wf() && g0.side() == r.side() && seeded_grid(g0, seed, fill) && #[trigger] levels_from(
                g0,
                r,
                f,
                detail as nat,
            ),
{
    let mut cells: u32 = 1;
    let mut i: u32 = 0;
    while i < detail
        invariant
            i <= detail <= MAX_DETAIL,
            cells == two_pow(i as nat),
        decreases detail - i,
    {
        proof {
            lemma_two_pow_monotone((i + 1) as nat, MAX_DETAIL as nat);
            lemma_two_pow_max_detail();
        }
        cells = cells * 2;
        i += 1;
    }
    proof {
        lemma_two_pow_monotone(detail as nat, MAX_DETAIL as nat);
        lemma_two_pow_max_detail();
        lemma_two_pow_is_power_of_two(detail as nat);
    }
    let size: u32 = cells + 1;
    let mut p_map = PixelMap::new(size, fill);
    let max = p_map.max();
    proof {
        let n = size as int;
        let m = max as int;
        lemma_slot_in_range(0, 0, n);
        lemma_slot_in_range(m, 0, n);
        lemma_slot_in_range(0, m, n);
        lemma_slot_in_range(m, m, n);
        assert(m * n > m) by (nonlinear_arith)
            requires
                m >= 1,
                n == m + 1,
        ;
    }
    let ghost g0 = p_map;
    set_sample(&mut p_map, 0, 0, seed);
    let ghost g1 = p_map;
    set_sample(&mut p_map, max, 0, seed);
    let ghost g2 = p_map;
    assert(p_map.at(0, 0) == seed);
    set_sample(&mut p_map, 0, max, seed);
    let ghost g3 = p_map;
    assert(p_map.at(0, 0) == seed && p_map.at(max as int, 0) == seed);
    set_sample(&mut p_map, max, max, seed);
    let ghost seeded = p_map;
    proof {
        let m = max as int;
        lemma_update_elsewhere(g0, g1, 0, 0, seed);
        lemma_update_elsewhere(g1, g2, m, 0, seed);
        lemma_update_elsewhere(g2, g3, 0, m, seed);
        lemma_update_elsewhere(g3, seeded, m, m, seed);
        assert forall|x: int, y: int| 0 <= x < size && 0 <= y < size && !((x == 0 || x == m) && (
            y == 0 || y == m)) implies #[trigger] seeded.at(x, y) == fill by {
            assert(g0.at(x, y) == fill);
        }
    }
    proof {
        let m = max as int;
        assert(seeded.at(0, 0) == seed);
        assert(seeded.at(m, 0) == seed);
        assert(seeded.at(0, m) == seed);
        assert(seeded.at(m, m) == seed);
        lemma_mod_multiples_basic(1, m);
    }
    divide(&mut p_map, max, &f, Ghost(detail as nat));
    proof {
        let m = max as int;
        assert forall|x: int, y: int| 0 <= x < size && 0 <= y < size implies #[trigger] p_map.at(x, y)
            == seed || produced_by(f, p_map.at(x, y)) by {
            if x % m == 0 && y % m == 0 {
                if x < m {
                    lemma_small_mod(x as nat, m as nat);
                }
                if y < m {
                    lemma_small_mod(y as nat, m as nat);
                }
                assert(seeded.at(x, y) == seed);
            }
        }
        assert forall|x: int, y: int|
            0 <= x < size && 0 <= y < size && !((x == 0 || x == m) && (y == 0 || y == m))
                implies #[trigger] has_level(x, y, 1, m) by {
            if x % m == 0 && y % m == 0 {
                if x < m {
                    lemma_small_mod(x as nat, m as nat);
                }
                if y < m {
                    lemma_small_mod(y as nat, m as nat);
                }
            }
        }
        assert(seeded_grid(seeded, seed, fill));
        assert(levels_from(seeded, p_map, f, detail as nat));
    }
    p_map
}

/// `f` returns at most one value for given arguments.
pub open spec fn deterministic<T, F: Fn(T, T, T, T, u32) -> T>(f: F) -> bool {
    forall|a: T, b: T, c: T, d: T, h: u32, r1: T, r2: T|
        #![trigger f.ensures((a, b, c, d, h), r1), f.ensures((a, b, c, d, h), r2)]
        f.ensures((a, b, c, d, h), r1) && f.ensures((a, b, c, d, h), r2) ==> r1 == r2
}

/// `g1` and `g2` have one side and hold the same sample at every coordinate.
pub open spec fn same_samples<T: Copy>(g1: PixelMap<T>, g2: PixelMap<T>) -> bool {
    &&& g1.side() == g2.side()
    &&& forall|x: int, y: int|
        #![trigger g1.at(x, y)]
        #![trigger g2.at(x, y)]
        0 <= x < g1.side() && 0 <= y < g1.side() ==> g1.at(x, y) == g2.at(x, y)
}

/// Within one diamond step, a cell's sample is fixed by the grid before the
/// step, by induction along the row-major walk.
proof fn lemma_diamond_unique_at<T: Copy, F: Fn(T, T, T, T, u32) -> T>(
    m1: PixelMap<T>,
    m2: PixelMap<T>,
    a1: PixelMap<T>,
    a2: PixelMap<T>,
    f: F,
    fs: int,
    x: int,
    y: int,
)
    requires
        deterministic(f),
        same_samples(m1, m2),
        diamond_part(m1, a1, f, fs),
        diamond_part(m2, a2, f, fs),
        fs >= 2,
        fs % 2 == 0,
        fs < m1.side(),
        0 <= x < m1.side(),
        0 <= y < m1.side(),
    ensures
        a1.at(x, y) == a2.at(x, y),
    decreases slot(x, y, m1.side() as int),
{
    let n = m1.side() as int;
    let h = fs / 2;
    lemma_slot_in_range(x, y, n);
    assert(a1.at(x, y) == a1.at(x, y));
    assert(a2.at(x, y) == a2.at(x, y));
    if on_diamond(x, y, fs, h) {
        lemma_diamond_neighbours(x, y, fs, h, n);
        lemma_small_mod(x as nat, n as nat);
        lemma_small_mod(y as nat, n as nat);
        let r = (x + h) % n;
        let d = (y + h) % n;
        if on_diamond(r, y, fs, h) {
            lemma_diamond_unique_at(m1, m2, a1, a2, f, fs, r, y);
        } else {
            assert(a1.at(r, y) == m1.at(r, y));
            assert(a2.at(r, y) == m2.at(r, y));
        }
        if on_diamond(x, d, fs, h) {
            assert(slot(x, d, n) < slot(x, y, n)) by (nonlinear_arith)
                requires
                    d < y,
                    0 <= x < n,
            ;
            lemma_diamond_unique_at(m1, m2, a1, a2, f, fs, x, d);
        } else {
            assert(a1.at(x, d) == m1.at(x, d));
            assert(a2.at(x, d) == m2.at(x, d));
        }
        assert(m1.at(x, (y - h) % n) == m2.at(x, (y - h) % n));
        assert(m1.at((x - h) % n, y) == m2.at((x - h) % n, y));
        assert(diamond_made(m1, a1, f, x, y, h));
        assert(diamond_made(m2, a2, f, x, y, h));
    } else {
        assert(m1.at(x, y) == m2.at(x, y));
    }
}

/// One level maps grids with the same samples to grids with the same samples.
proof fn lemma_level_unique<T: Copy, F: Fn(T, T, T, T, u32) -> T>(
    b1: PixelMap<T>,
    b2: PixelMap<T>,
    m1: PixelMap<T>,
    m2: PixelMap<T>,
    a1: PixelMap<T>,
    a2: PixelMap<T>,
    f: F,
    fs: int,
)
    requires
        deterministic(f),
        same_samples(b1, b2),
        level_step(b1, m1, a1, f, fs),
        level_step(b2, m2, a2, f, fs),
        fs >= 2,
        fs % 2 == 0,
        fs < b1.side(),
        (b1.side() - 1) % fs == 0,
    ensures
        same_samples(a1, a2),
{
    let n = b1.side() as int;
    let h = fs / 2;
    assert forall|x: int, y: int| 0 <= x < n && 0 <= y < n implies #[trigger] m1.at(x, y) == m2.at(
        x,
        y,
    ) by {
        if x % fs == h && y % fs == h {
            lemma_not_multiple_end(x, fs, n - 1);
            lemma_not_multiple_end(y, fs, n - 1);
            lemma_centre_in_range(x, fs, h, n - 1);
            lemma_centre_in_range(y, fs, h, n - 1);
            assert(b1.at(x - h, y - h) == b2.at(x - h, y - h));
            assert(b1.at(x + h, y - h) == b2.at(x + h, y - h));
            assert(b1.at(x - h, y + h) == b2.at(x - h, y + h));
            assert(b1.at(x + h, y + h) == b2.at(x + h, y + h));
        } else {
            assert(b1.at(x, y) == b2.at(x, y));
        }
    }
    assert(same_samples(m1, m2));
    assert forall|x: int, y: int| 0 <= x < n && 0 <= y < n implies #[trigger] a1.at(x, y) == a2.at(
        x,
        y,
    ) by {
        lemma_diamond_unique_at(m1, m2, a1, a2, f, fs, x, y);
    }
}

/// Along two level sequences from grids with the same samples, the grids at
/// each index hold the same samples.
proof fn lemma_sequences_agree<T: Copy, F: Fn(T, T, T, T, u32) -> T>(
    g1: Seq<PixelMap<T>>,
    m1: Seq<PixelMap<T>>,
    g2: Seq<PixelMap<T>>,
    m2: Seq<PixelMap<T>>,
    f: F,
    d: nat,
    i: nat,
)
    requires
        deterministic(f),
        level_sequence(g1, m1, f, d),
        level_sequence(g2, m2, f, d),
        same_samples(g1[0], g2[0]),
        g1[0].side() == two_pow(d) + 1,
        i <= d,
    ensures
        same_samples(g1[i as int], g2[i as int]),
        g1[i as int].side() == two_pow(d) + 1,
    decreases i,
{
    if i > 0 {
        let k = (i - 1) as int;
        lemma_sequences_agree(g1, m1, g2, m2, f, d, (i - 1) as nat);
        let e = (d - k) as nat;
        let fs = two_pow(e) as int;
        assert(level_step(g1[k], m1[k], g1[k + 1], f, fs));
        assert(level_step(g2[k], m2[k], g2[k + 1], f, fs));
        lemma_two_pow_is_power_of_two((e - 1) as nat);
        lemma_two_pow_is_power_of_two(e);
        lemma_two_pow_is_power_of_two(d);
        lemma_two_pow_monotone(e, d);
        lemma_power_of_two_divides(fs, two_pow(d) as int);
        lemma_level_unique(g1[k], g2[k], m1[k], m2[k], g1[k + 1], g2[k + 1], f, fs);
    }
}

/// With a sampler that returns one value for given arguments (no noise, or
/// the same draws), any two grids that `construct_with` may return for the
/// same `detail`, `seed` and `fill` hold the same samples.
pub proof fn lemma_construct_deterministic<T: Copy, F: Fn(T, T, T, T, u32) -> T>(
    r1: PixelMap<T>,
    r2: PixelMap<T>,
    f: F,
    detail: nat,
    seed: T,
    fill: T,
)
    requires
        deterministic(f),
        r1.side() == two_pow(detail) + 1,
        r2.side() == two_pow(detail) + 1,
        exists|g0: PixelMap<T>|
            g0.wf() && g0.side() == r1.side() && seeded_grid(g0, seed, fill) && #[trigger] levels_from(
                g0,
                r1,
                f,
                detail,
            ),
        exists|g0: PixelMap<T>|
            g0.wf() && g0.side() == r2.side() && seeded_grid(g0, seed, fill) && #[trigger] levels_from(
                g0,
                r2,
                f,
                detail,
            ),
    ensures
        same_samples(r1, r2),
{
    let s1 = choose|g0: PixelMap<T>|
        g0.wf() && g0.side() == r1.side() && seeded_grid(g0, seed, fill) && #[trigger] levels_from(
            g0,
            r1,
            f,
            detail,
        );
    let s2 = choose|g0: PixelMap<T>|
        g0.wf() && g0.side() == r2.side() && seeded_grid(g0, seed, fill) && #[trigger] levels_from(
            g0,
            r2,
            f,
            detail,
        );
    let (g1, m1) = choose|g: Seq<PixelMap<T>>, m: Seq<PixelMap<T>>|
        #[trigger] level_sequence(g, m, f, detail) && g[0] == s1 && g[detail as int] == r1;
    let (g2, m2) = choose|g: Seq<PixelMap<T>>, m: Seq<PixelMap<T>>|
        #[trigger] level_sequence(g, m, f, detail) && g[0] == s2 && g[detail as int] == r2;
    assert forall|x: int, y: int| 0 <= x < s1.side() && 0 <= y < s1.side() implies #[trigger] s1.at(
        x,
        y,
    ) == s2.at(x, y) by {}
    lemma_sequences_agree(g1, m1, g2, m2, f, detail, detail);
}

} // verus!
