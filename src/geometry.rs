//! Integer grid geometry: rectangles, vectors and compass directions.
use vstd::prelude::*;
use crate::random::{Rng, pcg_output, pcg_step};

verus! {

/// Euclidean remainder of `a` by a positive `m`, in `0..m`.
pub open spec fn emod(a: int, m: int) -> int {
    a % m
}

pub open spec fn imax(a: int, b: int) -> int {
    if a >= b {
        a
    } else {
        b
    }
}

pub open spec fn imin(a: int, b: int) -> int {
    if a <= b {
        a
    } else {
        b
    }
}

pub open spec fn iabs(a: int) -> int {
    if a >= 0 {
        a
    } else {
        -a
    }
}

pub open spec fn fits_i16(v: int) -> bool {
    i16::MIN <= v <= i16::MAX
}

/// A grid position or offset; `x` points right and `y` points up.
#[derive(Clone, Copy, PartialEq, Eq, Debug, Hash)]
pub struct IVec {
    pub x: i16,
    pub y: i16,
}

/// An axis-aligned rectangle of cells, `width` by `height` from `(x, y)`.
#[derive(Clone, Copy, PartialEq, Eq, Debug, Hash)]
pub struct IRect {
    pub x: i16,
    pub y: i16,
    pub width: i16,
    pub height: i16,
}

/// Euclidean remainder of `d` by a positive `w`.
fn rem_euclid_i32(d: i32, w: i32) -> (r: i32)
    requires
        w > 0,
    ensures
        r == emod(d as int, w as int),
        0 <= r < w,
{
    if d >= 0 {
        ((d as u32) % (w as u32)) as i32
    } else {
        let nd = (-(d as i64)) as u64;
        let m = (nd % (w as u64)) as i32;
        proof {
            let q = nd as int / w as int;
            vstd::arithmetic::div_mod::lemma_fundamental_div_mod(nd as int, w as int);
            assert(nd as int == w * q + m);
            if m == 0 {
                assert(d as int == (-q) * w + 0) by (nonlinear_arith)
                    requires
                        nd as int == w * q + m,
                        m == 0,
                        d as int == -(nd as int),
                ;
                vstd::arithmetic::div_mod::lemma_fundamental_div_mod_converse(d as int, w as int, -q, 0);
            } else {
                assert(d as int == (-q - 1) * w + (w - m)) by (nonlinear_arith)
                    requires
                        nd as int == w * q + m,
                        d as int == -(nd as int),
                ;
                vstd::arithmetic::div_mod::lemma_fundamental_div_mod_converse(
                    d as int,
                    w as int,
                    -q - 1,
                    w - m,
                );
            }
        }
        if m == 0 {
            0
        } else {
            w - m
        }
    }
}

fn wrap1(x: i16, min: i16, width: i16) -> (r: i16)
    requires
        width > 0,
        fits_i16(min + width),
    ensures
        r == min + emod(x - min, width as int),
{
    let d = (x as i32) - (min as i32);
    let m = rem_euclid_i32(d, width as i32);
    (m + min as i32) as i16
}

impl IRect {
    /// The rectangle's far corners stay within `i16`.
    pub open spec fn fits(&self) -> bool {
        &&& fits_i16(self.x + self.width)
        &&& fits_i16(self.y + self.height)
    }

    pub open spec fn holds(&self, p: IVec) -> bool {
        &&& self.x <= p.x < self.x + self.width
        &&& self.y <= p.y < self.y + self.height
    }

    pub fn origin(&self) -> (r: IVec)
        ensures
            r == (IVec { x: self.x, y: self.y }),
    {
        IVec { x: self.x, y: self.y }
    }

    pub fn shift(self, v: IVec) -> (r: IRect)
        requires
            fits_i16(self.x + v.x),
            fits_i16(self.y + v.y),
        ensures
            r == (IRect { x: (self.x + v.x) as i16, y: (self.y + v.y) as i16, ..self }),
    {
        IRect { x: self.x + v.x, y: self.y + v.y, width: self.width, height: self.height }
    }

    pub fn intersection(self, rhs: IRect) -> (r: IRect)
        requires
            self.fits(),
            rhs.fits(),
        ensures
            r.x == imax(self.x as int, rhs.x as int),
            r.y == imax(self.y as int, rhs.y as int),
            r.width == imax(
                0,
                imin(self.x + self.width, rhs.x + rhs.width) - imax(self.x as int, rhs.x as int),
            ),
            r.height == imax(
                0,
                imin(self.y + self.height, rhs.y + rhs.height) - imax(self.y as int, rhs.y as int),
            ),
    {
        let x = if self.x >= rhs.x {
            self.x
        } else {
            rhs.x
        };
        let y = if self.y >= rhs.y {
            self.y
        } else {
            rhs.y
        };
        let sx1 = self.x + self.width;
        let rx1 = rhs.x + rhs.width;
        let x1 = if sx1 <= rx1 {
            sx1
        } else {
            rx1
        };
        let sy1 = self.y + self.height;
        let ry1 = rhs.y + rhs.height;
        let y1 = if sy1 <= ry1 {
            sy1
        } else {
            ry1
        };
        let w = (x1 as i32) - (x as i32);
        let h = (y1 as i32) - (y as i32);
        IRect {
            x,
            y,
            width: if w > 0 {
                w as i16
            } else {
                0
            },
            height: if h > 0 {
                h as i16
            } else {
                0
            },
        }
    }

    pub fn contains(&self, position: IVec) -> (r: bool)
        ensures
            r == self.holds(position),
    {
        let px = position.x as i32;
        let py = position.y as i32;
        px >= self.x as i32 && px < self.x as i32 + self.width as i32 && py >= self.y as i32 && py
            < self.y as i32 + self.height as i32
    }

    /// The nearest cell of a non-empty rectangle.
    pub fn clamp_pos(&self, position: IVec) -> (r: IVec)
        requires
            self.width >= 1,
            self.height >= 1,
            self.fits(),
        ensures
            r.x == imin(imax(position.x as int, self.x as int), self.x + self.width - 1),
            r.y == imin(imax(position.y as int, self.y as int), self.y + self.height - 1),
            self.holds(r),
    {
        let hx = self.x + self.width - 1;
        let hy = self.y + self.height - 1;
        let x = if position.x < self.x {
            self.x
        } else if position.x > hx {
            hx
        } else {
            position.x
        };
        let y = if position.y < self.y {
            self.y
        } else if position.y > hy {
            hy
        } else {
            position.y
        };
        IVec { x, y }
    }

    /// The cell of a non-empty rectangle reached by wrapping `position`
    /// around it as on a torus.
    pub fn wrap(&self, position: IVec) -> (r: IVec)
        requires
            self.width > 0,
            self.height > 0,
            self.fits(),
        ensures
            r.x == self.x + emod(position.x - self.x, self.width as int),
            r.y == self.y + emod(position.y - self.y, self.height as int),
            self.holds(r),
    {
        let x = wrap1(position.x, self.x, self.width);
        let y = wrap1(position.y, self.y, self.height);
        IVec { x, y }
    }

    pub fn size(&self) -> (r: IVec)
        ensures
            r == (IVec { x: self.width, y: self.height }),
    {
        IVec { x: self.width, y: self.height }
    }

    /// Number of cells.
    pub fn linear_size(&self) -> (r: usize)
        requires
            self.width >= 0,
            self.height >= 0,
            fits_i16(self.width * self.height),
        ensures
            r == self.width * self.height,
    {
        proof {
            assert(self.width * self.height >= 0) by (nonlinear_arith)
                requires
                    self.width >= 0,
                    self.height >= 0,
            ;
        }
        (self.width * self.height) as usize
    }

    /// Row-major index of `pos` within the rectangle; `usize::MAX` when the
    /// index would be negative.
    pub fn to_linear_index(&self, pos: IVec) -> (r: usize)
        requires
            fits_i16(pos.x - self.x),
            fits_i16(pos.y - self.y),
            fits_i16((pos.y - self.y) * self.width),
            fits_i16((pos.y - self.y) * self.width + (pos.x - self.x)),
        ensures
            ({
                let v = (pos.y - self.y) * self.width + (pos.x - self.x);
                r == if v >= 0 {
                    v
                } else {
                    usize::MAX as int
                }
            }),
    {
        let px = pos.x - self.x;
        let py = pos.y - self.y;
        let v = (py * self.width) + px;
        if v >= 0 {
            v as usize
        } else {
            usize::MAX
        }
    }

    /// The cell at row-major index `ix`.
    pub fn from_linear_index(&self, ix: usize) -> (r: IVec)
        requires
            ix <= i16::MAX,
            self.width > 0,
            fits_i16(self.x + ix as int % self.width as int),
            fits_i16(self.y + ix as int / self.width as int),
        ensures
            r.x == self.x + ix as int % self.width as int,
            r.y == self.y + ix as int / self.width as int,
    {
        let w = self.width as u16;
        let i = ix as u16;
        let px = (i % w) as i16;
        let py = (i / w) as i16;
        IVec { x: px + self.x, y: py + self.y }
    }
}

/// The cells of a rectangle in row-major order, from either end.
pub struct IRectIter {
    pub ix: usize,
    pub bound: usize,
    pub rect: IRect,
}

impl IRect {
    /// The cell at row-major index `i`.
    pub open spec fn cell(&self, i: int) -> IVec {
        IVec {
            x: (self.x + i % self.width as int) as i16,
            y: (self.y + i / self.width as int) as i16,
        }
    }

    pub fn iter(&self) -> (r: IRectIter)
        requires
            self.width >= 0,
            self.height >= 0,
            fits_i16(self.width * self.height),
        ensures
            r.ix == 0,
            r.bound == self.width * self.height,
            r.rect == *self,
    {
        IRectIter { ix: 0, bound: self.linear_size(), rect: *self }
    }
}

/// A cell of a rectangle found by its row-major index lies in it.
proof fn lemma_cell_fits(r: IRect, i: int)
    requires
        r.width > 0,
        r.fits(),
        0 <= i < r.width * r.height,
    ensures
        0 <= i % (r.width as int) < r.width,
        0 <= i / (r.width as int) < r.height,
{
    let w = r.width as int;
    let h = r.height as int;
    vstd::arithmetic::div_mod::lemma_fundamental_div_mod(i, w);
    assert(i % w >= 0 && i % w < w);
    assert(i / w >= 0) by (nonlinear_arith)
        requires
            i >= 0,
            w > 0,
            i == w * (i / w) + i % w,
            i % w < w,
    ;
    assert(i / w < h) by (nonlinear_arith)
        requires
            i < w * h,
            w > 0,
            i == w * (i / w) + i % w,
            i % w >= 0,
    ;
}

impl IRectIter {
    /// Well formed: a non-empty row width, and the bound is the cell count.
    pub open spec fn ok(&self) -> bool {
        &&& self.rect.width > 0
        &&& self.rect.height >= 0
        &&& self.rect.fits()
        &&& self.bound == self.rect.width * self.rect.height
        &&& self.bound <= i16::MAX
    }

    /// The next cell from the front.
    pub fn next(&mut self) -> (r: Option<IVec>)
        requires
            old(self).ok(),
        ensures
            final(self).ok(),
            final(self).bound == old(self).bound,
            final(self).rect == old(self).rect,
            old(self).ix >= old(self).bound ==> r is None && final(self).ix == old(self).ix,
            old(self).ix < old(self).bound ==> r == Some(old(self).rect.cell(old(self).ix as int))
                && final(self).ix == old(self).ix + 1,
    {
        if self.ix >= self.bound {
            return None;
        }
        proof {
            lemma_cell_fits(self.rect, self.ix as int);
        }
        let v = self.rect.from_linear_index(self.ix);
        self.ix = self.ix + 1;
        Some(v)
    }

    /// The next cell from the back.
    pub fn next_back(&mut self) -> (r: Option<IVec>)
        requires
            old(self).ok(),
        ensures
            final(self).ok(),
            final(self).bound == old(self).bound,
            final(self).rect == old(self).rect,
            old(self).ix >= old(self).bound ==> r is None && final(self).ix == old(self).ix,
            old(self).ix < old(self).bound ==> r == Some(
                old(self).rect.cell(old(self).bound - old(self).ix - 1),
            ) && final(self).ix == old(self).ix + 1,
    {
        if self.ix >= self.bound {
            return None;
        }
        let i = self.bound - self.ix - 1;
        proof {
            lemma_cell_fits(self.rect, i as int);
        }
        let v = self.rect.from_linear_index(i);
        self.ix = self.ix + 1;
        Some(v)
    }
}

impl IVec {
    pub open spec fn dist1(self, rhs: IVec) -> int {
        iabs(self.x - rhs.x) + iabs(self.y - rhs.y)
    }

    pub open spec fn dist_max(self, rhs: IVec) -> int {
        imax(iabs(self.x - rhs.x), iabs(self.y - rhs.y))
    }

    /// A tiebreaker between positions, from 0 to 4, repeating every five
    /// cells along each axis.
    pub open spec fn tiebreak(self) -> u8 {
        let a = emod(self.x + 2 * self.y, 5);
        if a == 2 {
            3
        } else if a == 3 {
            2
        } else {
            a as u8
        }
    }

    pub fn tiebreaker(&self) -> (r: u8)
        ensures
            r == self.tiebreak(),
    {
        let s = self.x as i32 + 2 * (self.y as i32);
        let a = rem_euclid_i32(s, 5) as u8;
        let r = a ^ ((a & 2) >> 1);
        proof {
            assert(r == (if a == 2u8 {
                3u8
            } else if a == 3u8 {
                2u8
            } else {
                a
            })) by (bit_vector)
                requires
                    a < 5u8,
                    r == a ^ ((a & 2) >> 1),
            ;
        }
        r
    }

    /// Manhattan distance.
    pub fn distance1(self, rhs: IVec) -> (r: i16)
        requires
            fits_i16(self.dist1(rhs)),
        ensures
            r == self.dist1(rhs),
    {
        let dx = (self.x as i32) - (rhs.x as i32);
        let dy = (self.y as i32) - (rhs.y as i32);
        let ax = if dx >= 0 {
            dx
        } else {
            -dx
        };
        let ay = if dy >= 0 {
            dy
        } else {
            -dy
        };
        (ax + ay) as i16
    }

    /// Chebyshev distance.
    pub fn distance_max(self, rhs: IVec) -> (r: i16)
        requires
            fits_i16(self.dist_max(rhs)),
        ensures
            r == self.dist_max(rhs),
    {
        let dx = (self.x as i32) - (rhs.x as i32);
        let dy = (self.y as i32) - (rhs.y as i32);
        let ax = if dx >= 0 {
            dx
        } else {
            -dx
        };
        let ay = if dy >= 0 {
            dy
        } else {
            -dy
        };
        (if ax >= ay {
            ax
        } else {
            ay
        }) as i16
    }

    pub fn abs(self) -> (r: IVec)
        requires
            self.x != i16::MIN,
            self.y != i16::MIN,
        ensures
            r.x == iabs(self.x as int),
            r.y == iabs(self.y as int),
    {
        IVec {
            x: if self.x >= 0 {
                self.x
            } else {
                -self.x
            },
            y: if self.y >= 0 {
                self.y
            } else {
                -self.y
            },
        }
    }
}

/// A value for every cell of a rectangle, stored row by row.
#[derive(Clone, PartialEq, Eq, Debug)]
pub struct Buffer2D<T> {
    pub rect: IRect,
    pub contents: Vec<T>,
}

impl<T> Buffer2D<T> {
    /// One entry per cell of a rectangle whose cell count fits `i16`.
    pub open spec fn sized(&self) -> bool {
        &&& self.rect.width >= 0
        &&& self.rect.height >= 0
        &&& self.rect.fits()
        &&& fits_i16(self.rect.width * self.rect.height)
        &&& self.contents@.len() == self.rect.width * self.rect.height
    }

    /// A buffer of at least one cell.
    pub open spec fn ok(&self) -> bool {
        &&& self.sized()
        &&& self.rect.width > 0
        &&& self.rect.height > 0
    }

    /// Row-major index of a cell of the rectangle.
    pub open spec fn index_of(&self, p: IVec) -> int {
        (p.y - self.rect.y) * self.rect.width + (p.x - self.rect.x)
    }

    pub fn new(default: T, rect: IRect) -> (r: Buffer2D<T>) where T: Clone
        requires
            rect.width >= 0,
            rect.height >= 0,
            fits_i16(rect.width * rect.height),
        ensures
            r.rect == rect,
            r.contents@.len() == rect.width * rect.height,
            forall|i: int| 0 <= i < r.contents@.len() ==> cloned(default, #[trigger] r.contents@[i]),
    {
        let n = rect.linear_size();
        let contents = vec![default; n];
        Buffer2D { rect, contents }
    }

    /// Sets every cell to a clone of `item`.
    pub fn fill(&mut self, item: T) where T: Clone
        ensures
            final(self).rect == old(self).rect,
            final(self).contents@.len() == old(self).contents@.len(),
            forall|i: int|
                0 <= i < final(self).contents@.len() ==> cloned(item, #[trigger] final(self).contents@[i]),
    {
        let mut i: usize = 0;
        while i < self.contents.len()
            invariant
                i <= self.contents@.len(),
                self.rect == old(self).rect,
                self.contents@.len() == old(self).contents@.len(),
                forall|k: int| 0 <= k < i ==> cloned(item, #[trigger] self.contents@[k]),
            decreases self.contents@.len() - i,
        {
            let c = item.clone();
            self.contents.set(i, c);
            i = i + 1;
        }
    }

    /// The value at `pos`, when it lies in the rectangle.
    pub fn get(&mut self, pos: IVec) -> (r: Option<&T>)
        requires
            old(self).sized(),
        ensures
            *final(self) == *old(self),
            !old(self).rect.holds(pos) ==> r is None,
            old(self).rect.holds(pos) ==> r == Some(&old(self).contents@[old(self).index_of(pos)]),
    {
        if !self.rect.contains(pos) {
            return None;
        }
        proof {
            self.lemma_index_in(pos);
        }
        let ix = self.rect.to_linear_index(pos);
        self.contents.get(ix)
    }

    /// The value at `pos` wrapped around the rectangle as on a torus.
    pub fn get_wrapped(&self, pos: IVec) -> (r: &T)
        requires
            self.ok(),
        ensures
            *r == self.contents@[self.index_of(self.rect.cell_wrapped(pos))],
    {
        let w = self.rect.wrap(pos);
        proof {
            self.lemma_index_in(w);
        }
        let ix = self.rect.to_linear_index(w);
        &self.contents[ix]
    }

    proof fn lemma_index_in(&self, p: IVec)
        requires
            self.ok(),
            self.rect.holds(p),
        ensures
            0 <= self.index_of(p) < self.contents@.len(),
            fits_i16(p.x - self.rect.x),
            fits_i16(p.y - self.rect.y),
            fits_i16((p.y - self.rect.y) * self.rect.width),
            fits_i16(self.index_of(p)),
    {
        let w = self.rect.width as int;
        let h = self.rect.height as int;
        let dx = p.x - self.rect.x;
        let dy = p.y - self.rect.y;
        assert(0 <= dy * w <= (h - 1) * w) by (nonlinear_arith)
            requires
                0 <= dy < h,
                w > 0,
        ;
        assert((h - 1) * w + w == h * w) by (nonlinear_arith);
    }
}

impl IRect {
    /// The cell that `wrap` returns.
    pub open spec fn cell_wrapped(&self, p: IVec) -> IVec {
        IVec {
            x: (self.x + emod(p.x - self.x, self.width as int)) as i16,
            y: (self.y + emod(p.y - self.y, self.height as int)) as i16,
        }
    }
}

/// The eight compass directions, counter-clockwise from `Right`.
#[derive(Clone, Copy, PartialEq, Eq, Debug, Hash)]
pub enum Dir8 {
    Right,
    UpRight,
    Up,
    UpLeft,
    Left,
    DownLeft,
    Down,
    DownRight,
}

/// `s` with the entries at `a` and `b` exchanged.
pub open spec fn swap_at<T>(s: Seq<T>, a: int, b: int) -> Seq<T> {
    s.update(a, s[b]).update(b, s[a])
}

/// The four axis directions, counter-clockwise from `Right`.
#[derive(Clone, Copy, PartialEq, Eq, Debug, Hash)]
pub enum Dir4 {
    Right,
    Up,
    Left,
    Down,
}

impl Dir8 {
    pub fn list() -> (r: [Dir8; 8])
        ensures
            forall|i: int| 0 <= i < 8 ==> (#[trigger] r@[i]).turn() == i,
    {
        [
            Dir8::Right,
            Dir8::UpRight,
            Dir8::Up,
            Dir8::UpLeft,
            Dir8::Left,
            Dir8::DownLeft,
            Dir8::Down,
            Dir8::DownRight,
        ]
    }

    /// Eighths of a turn counter-clockwise from `Right`.
    pub open spec fn turn(self) -> int {
        match self {
            Dir8::Right => 0,
            Dir8::UpRight => 1,
            Dir8::Up => 2,
            Dir8::UpLeft => 3,
            Dir8::Left => 4,
            Dir8::DownLeft => 5,
            Dir8::Down => 6,
            Dir8::DownRight => 7,
        }
    }

    fn index8(self) -> (r: u8)
        ensures
            r == self.turn(),
    {
        match self {
            Dir8::Right => 0,
            Dir8::UpRight => 1,
            Dir8::Up => 2,
            Dir8::UpLeft => 3,
            Dir8::Left => 4,
            Dir8::DownLeft => 5,
            Dir8::Down => 6,
            Dir8::DownRight => 7,
        }
    }

    fn from_turn(t: u8) -> (r: Dir8)
        requires
            t < 8,
        ensures
            r.turn() == t,
    {
        match t {
            0 => Dir8::Right,
            1 => Dir8::UpRight,
            2 => Dir8::Up,
            3 => Dir8::UpLeft,
            4 => Dir8::Left,
            5 => Dir8::DownLeft,
            6 => Dir8::Down,
            _ => Dir8::DownRight,
        }
    }

    /// Turns by `amount` eighths counter-clockwise.
    pub fn rotate8(&self, amount: i8) -> (r: Dir8)
        ensures
            r.turn() == emod(self.turn() + amount, 8),
    {
        let a = self.index8() as i32 + amount as i32;
        let t = rem_euclid_i32(a, 8);
        Dir8::from_turn(t as u8)
    }

    /// One of each pair of opposite directions: those of the upper half turn.
    pub fn is_primary(self) -> (r: bool)
        ensures
            r == (self.turn() < 4),
    {
        self.index8() < self.opposite().index8()
    }

    pub fn opposite(&self) -> (r: Dir8)
        ensures
            r.turn() == emod(self.turn() + 4, 8),
    {
        self.rotate8(4)
    }
}

impl Dir4 {
    /// Quarter turns counter-clockwise from `Right`.
    pub open spec fn quarter(self) -> int {
        match self {
            Dir4::Right => 0,
            Dir4::Up => 1,
            Dir4::Left => 2,
            Dir4::Down => 3,
        }
    }

    fn from_quarter(q: u8) -> (r: Dir4)
        requires
            q < 4,
        ensures
            r.quarter() == q,
    {
        match q {
            0 => Dir4::Right,
            1 => Dir4::Up,
            2 => Dir4::Left,
            _ => Dir4::Down,
        }
    }

    pub fn list() -> (r: [Dir4; 4])
        ensures
            r@ == seq![Dir4::Right, Dir4::Up, Dir4::Left, Dir4::Down],
    {
        let r = [Dir4::Right, Dir4::Up, Dir4::Left, Dir4::Down];
        assert(r@ =~= seq![Dir4::Right, Dir4::Up, Dir4::Left, Dir4::Down]);
        r
    }

    /// A shuffled `list()`: three swaps chosen by the bits of one draw.
    pub fn randlist(rng: &mut Rng) -> (r: [Dir4; 4])
        ensures
            ({
                let s1 = pcg_step(old(rng).state, old(rng).increment);
                let u = ((pcg_output(old(rng).state) as u64) << 32u64) | pcg_output(s1) as u64;
                let i = (u & 3) as int;
                let k = ((u >> 2u64) & 1) as int + 2;
                let j = ((u >> 3u64) % 3) as int + 1;
                let l0 = seq![Dir4::Right, Dir4::Up, Dir4::Left, Dir4::Down];
                let l1 = swap_at(l0, 0, i);
                let l2 = swap_at(l1, 1, j);
                &&& r@ == swap_at(l2, 3, k)
                &&& final(rng).state == pcg_step(s1, old(rng).increment)
                &&& final(rng).increment == old(rng).increment
            }),
    {
        let u0 = rng.next_u64();
        let i0 = u0 & 0b11;
        let u1 = u0 >> 2u64;
        let k0 = u1 & 1;
        let u2 = u1 >> 1u64;
        proof {
            assert(i0 < 4) by (bit_vector)
                requires
                    i0 == u0 & 0b11,
            ;
            assert(k0 < 2) by (bit_vector)
                requires
                    k0 == u1 & 1,
            ;
            assert(u2 == u0 >> 3u64 && k0 == (u0 >> 2u64) & 1) by (bit_vector)
                requires
                    u1 == u0 >> 2u64,
                    u2 == u1 >> 1u64,
                    k0 == u1 & 1,
            ;
        }
        let i = i0 as usize;
        let k = (k0 + 2) as usize;
        let j = ((u2 % 3) + 1) as usize;
        let mut result = Dir4::list();
        let ghost l0 = result@;
        let t = result[0];
        result[0] = result[i];
        result[i] = t;
        proof {
            assert(result@ =~= swap_at(l0, 0, i as int));
        }
        let ghost l1 = result@;
        let t = result[1];
        result[1] = result[j];
        result[j] = t;
        proof {
            assert(result@ =~= swap_at(l1, 1, j as int));
        }
        let ghost l2 = result@;
        let t = result[3];
        result[3] = result[k];
        result[k] = t;
        proof {
            assert(result@ =~= swap_at(l2, 3, k as int));
        }
        result
    }

    /// `Right` and `Up`: one of each pair of opposite directions.
    pub fn is_primary(self) -> (r: bool)
        ensures
            r == (self.quarter() < 2),
    {
        self.index() < self.opposite().index()
    }

    /// Position in `list()`.
    pub fn index(self) -> (r: usize)
        ensures
            r == self.quarter(),
    {
        match self {
            Dir4::Right => 0,
            Dir4::Up => 1,
            Dir4::Left => 2,
            Dir4::Down => 3,
        }
    }

    pub fn opposite(&self) -> (r: Dir4)
        ensures
            r.quarter() == emod(self.quarter() + 2, 4),
    {
        self.rotate4(2)
    }

    /// Turns by `amount` quarters counter-clockwise.
    pub fn rotate4(&self, amount: i8) -> (r: Dir4)
        ensures
            r.quarter() == emod(self.quarter() + amount, 4),
    {
        let a = self.index() as i32 + amount as i32;
        let q = rem_euclid_i32(a, 4);
        Dir4::from_quarter(q as u8)
    }
}

/// The axis direction from `from` to `to`, when they share a row or a
/// column and differ.
pub fn cardinal_alignment(from: IVec, to: IVec) -> (r: Option<Dir4>)
    ensures
        r == (if to.x == from.x && to.y > from.y {
            Some(Dir4::Up)
        } else if to.x == from.x && to.y < from.y {
            Some(Dir4::Down)
        } else if to.y == from.y && to.x > from.x {
            Some(Dir4::Right)
        } else if to.y == from.y && to.x < from.x {
            Some(Dir4::Left)
        } else {
            None
        }),
{
    let dx = (to.x as i32) - (from.x as i32);
    let dy = (to.y as i32) - (from.y as i32);
    if dx == 0 && dy > 0 {
        Some(Dir4::Up)
    } else if dx == 0 && dy < 0 {
        Some(Dir4::Down)
    } else if dy == 0 && dx > 0 {
        Some(Dir4::Right)
    } else if dy == 0 && dx < 0 {
        Some(Dir4::Left)
    } else {
        None
    }
}

} // verus!
