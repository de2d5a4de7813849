//! Shadow intervals of a field-of-view scan, as pairs of integer vectors
//! seen from the origin.
use vstd::prelude::*;
use crate::geometry::IVec;

verus! {

/// Twice the signed area of the triangle `p q r`: positive when `r` lies
/// clockwise of `q` seen from `p`.
pub open spec fn orient(p: IVec, q: IVec, r: IVec) -> int {
    (q.y - p.y) * (r.x - p.x) - (q.x - p.x) * (r.y - p.y)
}

pub fn orient2di(p: IVec, q: IVec, r: IVec) -> (o: i64)
    ensures
        o == orient(p, q, r),
{
    let ax = q.x as i64 - p.x as i64;
    let ay = q.y as i64 - p.y as i64;
    let bx = r.x as i64 - p.x as i64;
    let by = r.y as i64 - p.y as i64;
    proof {
        assert(-70000 * 70000 <= ay * bx <= 70000 * 70000) by (nonlinear_arith)
            requires
                -70000 <= ay <= 70000,
                -70000 <= bx <= 70000,
        ;
        assert(-70000 * 70000 <= ax * by <= 70000 * 70000) by (nonlinear_arith)
            requires
                -70000 <= ax <= 70000,
                -70000 <= by <= 70000,
        ;
    }
    ay * bx - ax * by
}

/// Where a direction lies with respect to an interval.
#[derive(Clone, Copy, PartialEq, Eq, Structural, Debug)]
pub enum Contains {
    Inside,
    Boundary,
    Outside,
}

impl Contains {
    /// `Inside` before `Boundary` before `Outside`.
    pub open spec fn rank(self) -> int {
        match self {
            Contains::Inside => 0,
            Contains::Boundary => 1,
            Contains::Outside => 2,
        }
    }

    fn is_near(self) -> (r: bool)
        ensures
            r == (self.rank() <= 1),
    {
        match self {
            Contains::Outside => false,
            _ => true,
        }
    }
}

/// The directions between two vectors, turning counter-clockwise from the
/// first to the second.
#[derive(Clone, Copy, Debug)]
pub struct ShadowInterval(pub IVec, pub IVec);

pub open spec fn zero() -> IVec {
    IVec { x: 0, y: 0 }
}

impl ShadowInterval {
    pub open spec fn where_is(self, v: IVec) -> Contains {
        let o1 = orient(zero(), v, self.0);
        let o2 = orient(zero(), self.1, v);
        if o1 == 0 && o2 == 0 {
            Contains::Boundary
        } else if o1 < 0 && o2 < 0 {
            Contains::Inside
        } else {
            Contains::Outside
        }
    }

    pub fn contains(&self, v: IVec) -> (r: Contains)
        ensures
            r == self.where_is(v),
    {
        let z = IVec { x: 0, y: 0 };
        let o1 = orient2di(z, v, self.0);
        let o2 = orient2di(z, self.1, v);
        if o1 == 0 && o2 == 0 {
            Contains::Boundary
        } else if o1 < 0 && o2 < 0 {
            Contains::Inside
        } else {
            Contains::Outside
        }
    }

    /// Whether either interval has an end inside or on the other.
    pub fn overlaps(&self, rhs: ShadowInterval) -> (r: bool)
        ensures
            r == (self.where_is(rhs.0).rank() <= 1 || self.where_is(rhs.1).rank() <= 1
                || rhs.where_is(self.0).rank() <= 1 || rhs.where_is(self.1).rank() <= 1),
    {
        self.contains(rhs.0).is_near() || self.contains(rhs.1).is_near() || rhs.contains(
            self.0,
        ).is_near() || rhs.contains(self.1).is_near()
    }

    /// How much of `rhs` this interval shades: both ends, one, or none.
    pub fn test_shadow(&self, rhs: ShadowInterval) -> (r: Contains)
        ensures
            ({
                let n = (if self.where_is(rhs.0).rank() <= 1 {
                    1int
                } else {
                    0
                }) + (if self.where_is(rhs.1).rank() <= 1 {
                    1int
                } else {
                    0
                });
                r == if n == 0 {
                    Contains::Outside
                } else if n == 1 {
                    Contains::Boundary
                } else {
                    Contains::Inside
                }
            }),
    {
        let mut n: u8 = 0;
        if self.contains(rhs.0).is_near() {
            n = n + 1;
        }
        if self.contains(rhs.1).is_near() {
            n = n + 1;
        }
        match n {
            0 => Contains::Outside,
            1 => Contains::Boundary,
            _ => Contains::Inside,
        }
    }

    /// Widens this interval to reach each end of `rhs` that lies outside it.
    pub fn merge(&mut self, rhs: ShadowInterval)
        ensures
            final(self).0 == (if old(self).where_is(rhs.0) == Contains::Outside {
                rhs.0
            } else {
                old(self).0
            }),
            ({
                let mid = ShadowInterval(final(self).0, old(self).1);
                final(self).1 == (if mid.where_is(rhs.1) == Contains::Outside {
                    rhs.1
                } else {
                    old(self).1
                })
            }),
    {
        if self.contains(rhs.0) == Contains::Outside {
            self.0 = rhs.0;
        }
        if self.contains(rhs.1) == Contains::Outside {
            self.1 = rhs.1;
        }
    }
}

/// The intervals of directions that are already in shadow.
pub struct Shadows {
    pub intervals: Vec<ShadowInterval>,
}

/// How many of the first `k` intervals shade an end of `s` without
/// shading it whole.
pub open spec fn boundary_count(v: Seq<ShadowInterval>, s: ShadowInterval, k: int) -> int
    decreases k,
{
    if k <= 0 {
        0
    } else {
        boundary_count(v, s, k - 1) + if v[k - 1].shade(s) == Contains::Boundary {
            1int
        } else {
            0
        }
    }
}

impl ShadowInterval {
    /// The result of `test_shadow(rhs)`.
    pub open spec fn shade(self, rhs: ShadowInterval) -> Contains {
        let n = (if self.where_is(rhs.0).rank() <= 1 {
            1int
        } else {
            0
        }) + (if self.where_is(rhs.1).rank() <= 1 {
            1int
        } else {
            0
        });
        if n == 0 {
            Contains::Outside
        } else if n == 1 {
            Contains::Boundary
        } else {
            Contains::Inside
        }
    }
}

impl Shadows {
    /// 3 when one interval shades `s` whole; otherwise the number of
    /// intervals that shade one of its ends.
    pub fn coverage(&self, s: ShadowInterval) -> (r: usize)
        ensures
            (exists|k: int| 0 <= k < self.intervals@.len() && #[trigger] self.intervals@[k].shade(s)
                == Contains::Inside) ==> r == 3,
            !(exists|k: int| 0 <= k < self.intervals@.len() && #[trigger] self.intervals@[k].shade(s)
                == Contains::Inside) ==> r == boundary_count(self.intervals@, s, self.intervals@.len() as int),
    {
        let mut ret: usize = 0;
        let mut i: usize = 0;
        while i < self.intervals.len()
            invariant
                i <= self.intervals@.len(),
                ret == boundary_count(self.intervals@, s, i as int),
                ret <= i,
                forall|k: int| 0 <= k < i ==> #[trigger] self.intervals@[k].shade(s) != Contains::Inside,
            decreases self.intervals@.len() - i,
        {
            let t = self.intervals[i].test_shadow(s);
            match t {
                Contains::Inside => {
                    proof {
                        assert(self.intervals@[i as int].shade(s) == Contains::Inside);
                    }
                    return 3;
                },
                Contains::Boundary => {
                    ret = ret + 1;
                },
                _ => {},
            }
            i = i + 1;
        }
        ret
    }
}

} // verus!
