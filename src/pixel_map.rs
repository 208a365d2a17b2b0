//! A square grid of samples, addressed by `(x, y)` and stored row by row.

use vstd::arithmetic::div_mod::{lemma_fundamental_div_mod, lemma_fundamental_div_mod_converse};
use vstd::prelude::*;

verus! {

/// Storage slot of coordinate `(x, y)` in a grid of side `n`.
pub open spec fn slot(x: int, y: int, n: int) -> int {
    x + y * n
}

/// The coordinate stored at slot `i` of a grid of side `n`.
pub open spec fn coord_at(i: int, n: int) -> (u32, u32) {
    ((i % n) as u32, (i / n) as u32)
}

/// Every coordinate of a grid of side `n`, in row-major order.
pub open spec fn row_major(n: nat) -> Seq<(u32, u32)> {
    Seq::new(n * n, |i: int| coord_at(i, n as int))
}

pub proof fn lemma_slot_in_range(x: int, y: int, n: int)
    requires
        0 <= x < n,
        0 <= y < n,
    ensures
        0 <= slot(x, y, n) < n * n,
{
    assert(0 <= y * n <= (n - 1) * n) by (nonlinear_arith)
        requires
            0 <= y < n,
    ;
    assert((n - 1) * n + n == n * n) by (nonlinear_arith);
}

/// Distinct coordinates inside the grid have distinct slots.
pub proof fn lemma_slot_injective(x1: int, y1: int, x2: int, y2: int, n: int)
    requires
        0 <= x1 < n,
        0 <= y1 < n,
        0 <= x2 < n,
        0 <= y2 < n,
        slot(x1, y1, n) == slot(x2, y2, n),
    ensures
        x1 == x2,
        y1 == y2,
{
    lemma_fundamental_div_mod_converse(slot(x1, y1, n), n, y1, x1);
    lemma_fundamental_div_mod_converse(slot(x2, y2, n), n, y2, x2);
}

/// A full enumeration of a grid of side `n` lists each coordinate of the grid
/// exactly once, row by row: entry `x + y * n` is `(x, y)`, and every entry is a
/// coordinate of the grid whose slot is its index. It depends on the side length
/// alone, so enumerating one grid twice visits the same coordinates in the same order.
pub proof fn lemma_enumeration_repeatable<T: Copy>(m: PixelMap<T>)
    requires
        m.wf(),
    ensures
        row_major(m.side()).len() == m.side() * m.side(),
        forall|x: int, y: int|
            0 <= x < m.side() && 0 <= y < m.side() ==> #[trigger] row_major(m.side())[slot(
                x,
                y,
                m.side() as int,
            )] == (x as u32, y as u32),
        forall|i: int|
            #![trigger row_major(m.side())[i]]
            0 <= i < m.side() * m.side() ==> {
                let c = row_major(m.side())[i];
                &&& c.0 < m.side()
                &&& c.1 < m.side()
                &&& slot(c.0 as int, c.1 as int, m.side() as int) == i
            },
{
    let n = m.side() as int;
    assert forall|x: int, y: int| 0 <= x < n && 0 <= y < n implies #[trigger] row_major(
        m.side(),
    )[slot(x, y, n)] == (x as u32, y as u32) by {
        lemma_slot_in_range(x, y, n);
        lemma_fundamental_div_mod_converse(slot(x, y, n), n, y, x);
    }
    assert forall|i: int| 0 <= i < n * n implies {
        let c = #[trigger] row_major(m.side())[i];
        &&& c.0 < n
        &&& c.1 < n
        &&& slot(c.0 as int, c.1 as int, n) == i
    } by {
        lemma_fundamental_div_mod(i, n);
        assert(0 <= i / n < n) by (nonlinear_arith)
            requires
                0 <= i < n * n,
                n >= 1,
                i == n * (i / n) + i % n,
                0 <= i % n < n,
        {
            if i / n >= n {
                assert(n * (i / n) >= n * n);
            }
            if i / n < 0 {
                assert(n * (i / n) <= -n);
            }
        }
        assert(i / n * n == n * (i / n)) by (nonlinear_arith);
    }
}

/// Writing one slot leaves the sample at every other coordinate as it was.
pub proof fn lemma_update_elsewhere<T: Copy>(before: PixelMap<T>, after: PixelMap<T>, x: int, y: int, v: T)
    requires
        before.wf(),
        after.side() == before.side(),
        0 <= x < before.side(),
        0 <= y < before.side(),
        after.samples() == before.samples().update(slot(x, y, before.side() as int), v),
    ensures
        after.at(x, y) == v,
        forall|cx: int, cy: int|
            0 <= cx < before.side() && 0 <= cy < before.side() && !(cx == x && cy == y)
                ==> #[trigger] after.at(cx, cy) == before.at(cx, cy),
{
    let n = before.side() as int;
    lemma_slot_in_range(x, y, n);
    assert forall|cx: int, cy: int|
        0 <= cx < n && 0 <= cy < n && !(cx == x && cy == y) implies #[trigger] after.at(cx, cy)
        == before.at(cx, cy) by {
        lemma_slot_in_range(cx, cy, n);
        if slot(cx, cy, n) == slot(x, y, n) {
            lemma_slot_injective(cx, cy, x, y, n);
        }
    }
}

/// A `size` by `size` grid of samples.
pub struct PixelMap<T> {
    map: Vec<T>,
    size: u32,
}

impl<T: Copy> PixelMap<T> {
    /// The side length of the grid.
    pub closed spec fn side(&self) -> nat {
        self.size as nat
    }

    /// The samples, slot by slot.
    pub closed spec fn samples(&self) -> Seq<T> {
        self.map@
    }

    /// The grid has at least one sample per side, and one slot per coordinate.
    pub open spec fn wf(&self) -> bool {
        &&& self.side() >= 1
        &&& self.samples().len() == self.side() * self.side()
        &&& self.side() * self.side() <= usize::MAX
    }

    /// The sample stored at `(x, y)`.
    pub open spec fn at(&self, x: int, y: int) -> T {
        self.samples()[slot(x, y, self.side() as int)]
    }

    /// A grid of side `size` with every sample set to `value`.
    pub fn new(size: u32, value: T) -> (r: Self)
        requires
            size >= 1,
            size * size <= usize::MAX,
        ensures
            r.wf(),
            r.side() == size,
            forall|x: int, y: int| 0 <= x < size && 0 <= y < size ==> #[trigger] r.at(x, y) == value,
    {
        let total: usize = (size as usize) * (size as usize);
        let mut map: Vec<T> = Vec::with_capacity(total);
        let mut i: usize = 0;
        while i < total
            invariant
                total == size * size,
                i <= total,
                map@.len() == i,
                forall|j: int| 0 <= j < i ==> map@[j] == value,
            decreases total - i,
        {
            map.push(value);
            i += 1;
        }
        let r = PixelMap { map, size };
        assert forall|x: int, y: int| 0 <= x < size && 0 <= y < size implies #[trigger] r.at(x, y) == value by {
            lemma_slot_in_range(x, y, size as int);
        }
        r
    }

    /// The grid of side `size` whose slots hold `map`; `None` unless `map` has
    /// exactly `size * size` samples and `size` is at least one.
    pub fn from_samples(map: Vec<T>, size: u32) -> (r: Option<Self>)
        ensures
            r is Some <==> size >= 1 && map@.len() == size * size,
            r matches Some(p) ==> p.wf() && p.side() == size && p.samples() == map@,
    {
        let len: u64 = map.len() as u64;
        assert((size as u64) * (size as u64) <= u64::MAX) by (nonlinear_arith)
            requires
                size <= u32::MAX,
        ;
        if size >= 1 && len == (size as u64) * (size as u64) {
            Some(PixelMap { map, size })
        } else {
            None
        }
    }

    /// The largest coordinate along either axis.
    pub fn max(&self) -> (r: i32)
        requires
            self.wf(),
            self.side() - 1 <= i32::MAX,
        ensures
            r == self.side() - 1,
    {
        (self.size - 1) as i32
    }

    /// The sample stored at `(x, y)`.
    pub fn get_pixel(&self, x: u32, y: u32) -> (r: T)
        requires
            self.wf(),
            x < self.side(),
            y < self.side(),
        ensures
            r == self.at(x as int, y as int),
    {
        proof {
            lemma_slot_in_range(x as int, y as int, self.size as int);
        }
        let x = x as usize;
        let y = y as usize;
        self.map[x + y * (self.size as usize)]
    }

    /// Overwrites the sample stored at `(x, y)` with `value`.
    pub fn set_pixel(&mut self, x: u32, y: u32, value: T)
        requires
            old(self).wf(),
            x < old(self).side(),
            y < old(self).side(),
        ensures
            final(self).wf(),
            final(self).side() == old(self).side(),
            final(self).samples() == old(self).samples().update(
                slot(x as int, y as int, old(self).side() as int),
                value,
            ),
    {
        proof {
            lemma_slot_in_range(x as int, y as int, self.size as int);
        }
        let x = x as usize;
        let y = y as usize;
        let n = self.size as usize;
        self.map.set(x + y * n, value);
    }

    /// The side length of the grid.
    pub fn size(&self) -> (r: u32)
        ensures
            r == self.side(),
    {
        self.size
    }

    /// A new grid of the same side whose sample at each coordinate is `g` of
    /// the sample there in `self`.
    pub fn map_samples<U: Copy, G: Fn(T) -> U>(&self, g: G) -> (r: PixelMap<U>)
        requires
            self.wf(),
            forall|v: T| g.requires((v,)),
        ensures
            r.wf(),
            r.side() == self.side(),
            forall|x: int, y: int|
                0 <= x < self.side() && 0 <= y < self.side() ==> g.ensures(
                    (self.at(x, y),),
                    #[trigger] r.at(x, y),
                ),
    {
        let total = self.map.len();
        let mut map: Vec<U> = Vec::with_capacity(total);
        let mut i: usize = 0;
        while i < total
            invariant
                total == self.map@.len(),
                i <= total,
                map@.len() == i,
                forall|v: T| g.requires((v,)),
                forall|j: int| 0 <= j < i ==> g.ensures((self.map@[j],), #[trigger] map@[j]),
            decreases total - i,
        {
            map.push(g(self.map[i]));
            i += 1;
        }
        let r = PixelMap { map, size: self.size };
        assert forall|x: int, y: int| 0 <= x < self.side() && 0 <= y < self.side() implies g.ensures(
            (self.at(x, y),),
            #[trigger] r.at(x, y),
        ) by {
            lemma_slot_in_range(x, y, self.size as int);
        }
        r
    }

    /// A fresh walk over every coordinate of the grid, in row-major order.
    pub fn enumerate_pixels(&self) -> (r: EnumeratePixelMap)
        requires
            self.wf(),
        ensures
            r.wf(),
            r.side() == self.side(),
            r.position() == 0,
    {
        EnumeratePixelMap { x: 0, y: 0, size: self.size }
    }

    /// Every coordinate of the grid, in the order a fresh enumeration visits them.
    pub fn coordinates(&self) -> (r: Vec<(u32, u32)>)
        requires
            self.wf(),
        ensures
            r@ == row_major(self.side()),
    {
        let mut walk = self.enumerate_pixels();
        let mut r: Vec<(u32, u32)> = Vec::new();
        let ghost n = self.side() as int;
        loop
            invariant
                walk.wf(),
                walk.side() == n,
                n == self.side(),
                r@.len() == walk.position(),
                forall|i: int| 0 <= i < r@.len() ==> r@[i] == #[trigger] coord_at(i, n),
            ensures
                r@.len() == n * n,
                forall|i: int| 0 <= i < r@.len() ==> r@[i] == #[trigger] coord_at(i, n),
            decreases n * n - walk.position(),
        {
            match walk.next() {
                Some(c) => r.push(c),
                None => {
                    proof {
                        walk.lemma_position_bounds();
                    }
                    break;
                },
            }
        }
        assert(r@ =~= row_major(self.side()));
        r
    }
}

/// A walk over the coordinates of a grid, row by row.
pub struct EnumeratePixelMap {
    x: u32,
    y: u32,
    size: u32,
}

impl EnumeratePixelMap {
    /// The side length of the grid walked over.
    pub closed spec fn side(&self) -> nat {
        self.size as nat
    }

    /// How many coordinates the walk has handed out.
    pub closed spec fn position(&self) -> int {
        slot(self.x as int, self.y as int, self.size as int)
    }

    /// The cursor is inside the grid, or just past its last row.
    pub closed spec fn wf(&self) -> bool {
        &&& self.size >= 1
        &&& (self.x < self.size && self.y < self.size) || (self.x == 0 && self.y == self.size)
    }

    proof fn lemma_position_bounds(&self)
        requires
            self.wf(),
        ensures
            0 <= self.position() <= self.side() * self.side(),
            self.position() < self.side() * self.side() <==> self.y < self.size,
            self.y < self.size ==> coord_at(self.position(), self.side() as int) == (self.x, self.y),
    {
        let n = self.size as int;
        if self.y < self.size {
            lemma_slot_in_range(self.x as int, self.y as int, n);
            lemma_fundamental_div_mod_converse(self.position(), n, self.y as int, self.x as int);
        } else {
            assert(self.position() == n * n) by (nonlinear_arith)
                requires
                    self.position() == 0 + self.y as int * n,
                    self.y == n,
            ;
        }
    }

    /// The next coordinate of the walk, or `None` once every coordinate was handed out.
    pub fn next(&mut self) -> (r: Option<(u32, u32)>)
        requires
            old(self).wf(),
        ensures
            final(self).wf(),
            final(self).side() == old(self).side(),
            old(self).position() < old(self).side() * old(self).side() ==> r == Some(
                coord_at(old(self).position(), old(self).side() as int),
            ) && final(self).position() == old(self).position() + 1,
            old(self).position() >= old(self).side() * old(self).side() ==> r is None
                && final(self).position() == old(self).position(),
    {
        proof {
            self.lemma_position_bounds();
        }
        if self.y >= self.size {
            return None;
        }
        let item = (self.x, self.y);
        if self.x + 1 >= self.size {
            self.x = 0;
            self.y = self.y + 1;
            assert(slot(0, self.y as int, self.size as int) == slot(
                (self.size - 1) as int,
                (self.y - 1) as int,
                self.size as int,
            ) + 1) by (nonlinear_arith);
        } else {
            self.x = self.x + 1;
        }
        Some(item)
    }
}

} // verus!
