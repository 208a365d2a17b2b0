//! Arithmetic facts about the lattices that diamond-square sweeps: powers of
//! two, residues, and multiples of the half step.

use vstd::arithmetic::div_mod::{
    lemma_fundamental_div_mod,
    lemma_fundamental_div_mod_converse,
    lemma_mod_multiples_basic,
    lemma_mod_multiples_vanish,
    lemma_small_mod,
};
use vstd::prelude::*;

verus! {

/// A coordinate at an odd multiple of `fs / 2` is not the last one, `max`.
pub proof fn lemma_not_multiple_end(c: int, fs: int, max: int)
    requires
        fs >= 2,
        max % fs == 0,
        c % fs == fs / 2,
        0 <= c <= max,
    ensures
        c < max,
{
}

/// Two numbers less than `m` apart with the same residue modulo `m` are equal.
pub proof fn lemma_same_residue(a: int, b: int, m: int)
    requires
        m > 0,
        b <= a < b + m,
        a % m == b % m,
    ensures
        a == b,
{
    lemma_fundamental_div_mod(a, m);
    lemma_fundamental_div_mod(b, m);
    assert(m * (a / m) == m * (b / m)) by (nonlinear_arith)
        requires
            m > 0,
            b <= a < b + m,
            a == m * (a / m) + a % m,
            b == m * (b / m) + b % m,
            a % m == b % m,
            0 <= a % m < m,
    {
        if a / m > b / m {
            assert(m * (a / m) >= m * (b / m + 1));
        } else if a / m < b / m {
            assert(m * (b / m) >= m * (a / m + 1));
        }
    }
}

/// 2 to the power `e`.
pub open spec fn two_pow(e: nat) -> nat
    decreases e,
{
    if e == 0 {
        1
    } else {
        2 * two_pow((e - 1) as nat)
    }
}

/// `n` is a power of two.
pub open spec fn power_of_two(n: int) -> bool
    decreases n,
{
    if n <= 0 {
        false
    } else if n == 1 {
        true
    } else {
        n % 2 == 0 && power_of_two(n / 2)
    }
}

pub proof fn lemma_two_pow_is_power_of_two(e: nat)
    ensures
        power_of_two(two_pow(e) as int),
        two_pow(e) >= 1,
    decreases e,
{
    if e > 0 {
        lemma_two_pow_is_power_of_two((e - 1) as nat);
    }
}

pub proof fn lemma_two_pow_monotone(a: nat, b: nat)
    requires
        a <= b,
    ensures
        two_pow(a) <= two_pow(b),
    decreases b,
{
    if a < b {
        lemma_two_pow_monotone(a, (b - 1) as nat);
    }
}

/// A multiple of `h` is an even or an odd multiple of it.
pub proof fn lemma_lattice_split(c: int, h: int)
    requires
        h >= 1,
        c >= 0,
        c % h == 0,
    ensures
        c % (2 * h) == 0 || c % (2 * h) == h,
{
    let r = c % (2 * h);
    lemma_fundamental_div_mod(c, 2 * h);
    assert(c == h * (2 * (c / (2 * h))) + r) by (nonlinear_arith)
        requires
            c == (2 * h) * (c / (2 * h)) + r,
    ;
    lemma_mod_multiples_vanish(2 * (c / (2 * h)), r, h);
    if r < h {
        lemma_small_mod(r as nat, h as nat);
    } else {
        lemma_fundamental_div_mod_converse(r, h, 1, r - h);
    }
}

/// A multiple of `fs` plus `h` is `h` modulo `fs`, and an odd multiple of
/// `h = fs / 2` plus `h` is a multiple of `fs`.
pub proof fn lemma_diamond_residues(c: int, fs: int, h: int)
    requires
        fs == 2 * h,
        h >= 1,
        c >= 0,
    ensures
        c % fs == 0 ==> (c + h) % fs == h,
        c % fs == h ==> (c + h) % fs == 0,
{
    lemma_fundamental_div_mod(c, fs);
    lemma_mod_multiples_vanish(c / fs, c % fs + h, fs);
    if c % fs == 0 {
        lemma_small_mod(h as nat, fs as nat);
    }
    if c % fs == h {
        lemma_mod_multiples_basic(1, fs);
    }
}

/// Halving an even divisor of `m` gives a divisor of `m`.
pub proof fn lemma_half_divides(m: int, fs: int)
    requires
        m >= 0,
        fs >= 2,
        fs % 2 == 0,
        m % fs == 0,
    ensures
        m % (fs / 2) == 0,
{
    let q = m / fs;
    lemma_fundamental_div_mod(m, fs);
    assert(m == (2 * q) * (fs / 2)) by (nonlinear_arith)
        requires
            m == fs * q + 0,
            fs % 2 == 0,
    ;
    lemma_mod_multiples_basic(2 * q, fs / 2);
}

/// A multiple of a multiple of `fs` is a multiple of `fs`.
pub proof fn lemma_multiple_of_multiple(x: int, s: int, fs: int)
    requires
        x >= 0,
        s >= 1,
        fs >= 1,
        x % s == 0,
        s % fs == 0,
    ensures
        x % fs == 0,
{
    lemma_fundamental_div_mod(x, s);
    lemma_fundamental_div_mod(s, fs);
    let k = (x / s) * (s / fs);
    assert(x == k * fs) by (nonlinear_arith)
        requires
            x == s * (x / s) + 0,
            s == fs * (s / fs) + 0,
            k == (x / s) * (s / fs),
    ;
    lemma_mod_multiples_basic(k, fs);
}

/// Adding or removing `h = fs / 2` flips a residue modulo `fs` between `0` and `h`.
pub proof fn lemma_flip(c: int, fs: int, h: int)
    requires
        fs == 2 * h,
        h >= 1,
        c % fs == 0 || c % fs == h,
    ensures
        (c + h) % fs == (c - h) % fs,
        c % fs == 0 ==> (c + h) % fs == h,
        c % fs == h ==> (c + h) % fs == 0,
{
    let q = c / fs;
    lemma_fundamental_div_mod(c, fs);
    lemma_small_mod(h as nat, fs as nat);
    lemma_small_mod(0, fs as nat);
    if c % fs == 0 {
        assert(c + h == fs * q + h);
        assert(c - h == fs * (q - 1) + h) by (nonlinear_arith)
            requires
                c == fs * q + 0,
                fs == 2 * h,
        ;
        lemma_mod_multiples_vanish(q, h, fs);
        lemma_mod_multiples_vanish(q - 1, h, fs);
    } else {
        assert(c + h == fs * (q + 1) + 0) by (nonlinear_arith)
            requires
                c == fs * q + h,
                fs == 2 * h,
        ;
        assert(c - h == fs * q + 0);
        lemma_mod_multiples_vanish(q + 1, 0, fs);
        lemma_mod_multiples_vanish(q, 0, fs);
    }
}

/// A centre at an odd multiple of `h` below a multiple `max` of `fs = 2h` has
/// its corners at distance `h` inside `[0, max]`.
pub proof fn lemma_centre_in_range(x: int, fs: int, h: int, max: int)
    requires
        fs == 2 * h,
        h >= 1,
        0 <= x < max,
        x % fs == h,
        max % fs == 0,
    ensures
        0 <= x - h,
        x + h <= max,
{
    lemma_fundamental_div_mod(x, fs);
    lemma_fundamental_div_mod(max, fs);
    let q = x / fs;
    let m = max / fs;
    assert(x + h <= max) by (nonlinear_arith)
        requires
            x == fs * q + h,
            max == fs * m + 0,
            x < max,
            fs == 2 * h,
            h >= 1,
    {
        if q >= m {
            assert(fs * q >= fs * m);
        }
        assert(q + 1 <= m);
        assert(fs * (q + 1) <= fs * m);
    }
    assert(q >= 0) by (nonlinear_arith)
        requires
            x == fs * q + h,
            x >= 0,
            fs == 2 * h,
            h >= 1,
    {
        if q < 0 {
            assert(fs * q <= -fs);
        }
    }
    assert(x - h >= 0) by (nonlinear_arith)
        requires
            x == fs * q + h,
            q >= 0,
            fs >= 0,
    ;
}

/// Reduction modulo `n` of a value less than `n` away from `[0, n)`.
pub proof fn lemma_wrap_once(a: int, n: int)
    requires
        n >= 1,
        -n <= a < 2 * n,
    ensures
        0 <= a < n ==> a % n == a,
        a >= n ==> a % n == a - n,
        a < 0 ==> a % n == a + n,
{
    if 0 <= a < n {
        lemma_fundamental_div_mod_converse(a, n, 0, a);
    } else if a >= n {
        lemma_fundamental_div_mod_converse(a, n, 1, a - n);
    } else {
        lemma_fundamental_div_mod_converse(a, n, -1, a + n);
    }
}

/// Of two powers of two, the larger is a multiple of the smaller.
pub proof fn lemma_power_of_two_divides(a: int, b: int)
    requires
        power_of_two(a),
        power_of_two(b),
        a <= b,
    ensures
        b % a == 0,
    decreases a,
{
    if a == 1 {
        lemma_mod_multiples_basic(b, 1);
    } else {
        assert(b != 1);
        lemma_power_of_two_divides(a / 2, b / 2);
        lemma_fundamental_div_mod(b / 2, a / 2);
        let k = (b / 2) / (a / 2);
        assert(b == k * a) by (nonlinear_arith)
            requires
                b / 2 == (a / 2) * k + 0,
                b % 2 == 0,
                a % 2 == 0,
                b == 2 * (b / 2),
                a == 2 * (a / 2),
        ;
        lemma_mod_multiples_basic(k, a);
    }
}

/// Sums and differences of multiples of `m` are multiples of `m`.
pub proof fn lemma_multiple_shift(a: int, b: int, m: int)
    requires
        m >= 1,
        a % m == 0,
        b % m == 0,
    ensures
        (a + b) % m == 0,
        (a - b) % m == 0,
{
    lemma_fundamental_div_mod(a, m);
    lemma_fundamental_div_mod(b, m);
    let p = a / m;
    let q = b / m;
    assert(a + b == (p + q) * m && a - b == (p - q) * m) by (nonlinear_arith)
        requires
            a == m * p + 0,
            b == m * q + 0,
    ;
    lemma_mod_multiples_basic(p + q, m);
    lemma_mod_multiples_basic(p - q, m);
}

/// `(x, y)` is on the diamond lattice of feature size `fs = 2h`: its row is a
/// multiple of `h` and its column is congruent to `row + h` modulo `fs`.
pub open spec fn on_diamond(x: int, y: int, fs: int, h: int) -> bool {
    y % h == 0 && x % fs == (y + h) % fs
}

/// `(cx, cy)` comes before `(x, y)` in row-major order.
pub open spec fn visited_before(cx: int, cy: int, x: int, y: int) -> bool {
    cy < y || (cy == y && cx < x)
}

/// Where the four wrapped neighbours of a diamond-lattice cell lie: the right
/// and lower ones are off the lattice or come earlier in row-major order; the
/// upper and left ones are off the lattice or come later.
pub proof fn lemma_diamond_neighbours(x: int, y: int, fs: int, h: int, n: int)
    requires
        fs == 2 * h,
        h >= 1,
        fs < n,
        0 <= x < n,
        0 <= y < n,
        on_diamond(x, y, fs, h),
    ensures
        0 <= (x + h) % n < n,
        0 <= (y + h) % n < n,
        0 <= (x - h) % n < n,
        0 <= (y - h) % n < n,
        !on_diamond((x + h) % n, y, fs, h) || (x + h) % n < x,
        !on_diamond(x, (y + h) % n, fs, h) || (y + h) % n < y,
        !on_diamond(x, (y - h) % n, fs, h) || (y - h) % n > y,
        !on_diamond((x - h) % n, y, fs, h) || (x - h) % n > x,
{
    lemma_lattice_split(y, h);
    lemma_flip(y, fs, h);
    lemma_flip(x, fs, h);
    lemma_wrap_once(x + h, n);
    lemma_wrap_once(y + h, n);
    lemma_wrap_once(x - h, n);
    lemma_wrap_once(y - h, n);
    lemma_mod_multiples_vanish(1, y, fs);
    lemma_mod_multiples_vanish(-1, x + h, fs);
    assert(y + h + h == fs * 1 + y);
    if y - h >= 0 {
        assert(y - h + h == y);
    }
}

} // verus!
