//! Board geometry: cells and the displacements between them.

use std::ops::{Add, Mul, Sub};
use vstd::prelude::*;
use vstd::std_specs::ops::{AddSpecImpl, MulSpecImpl, SubSpecImpl};

verus! {

/// A cell of the board: `P(y, x)` is the cell in row `y` counted from the top and
/// column `x` counted from the left, both starting at zero.
#[derive(Debug, Clone, Copy, PartialEq, Eq, Structural)]
pub struct P(pub i32, pub i32);

/// A displacement between two cells, `D(dy, dx)`.
#[derive(Debug, Clone, Copy, PartialEq, Eq, Structural)]
pub struct D(pub i32, pub i32);

/// Whether `v` can be held by an `i32`.
pub open spec fn fits_i32(v: int) -> bool {
    i32::MIN <= v <= i32::MAX
}

impl P {
    /// The row.
    pub fn y(self) -> (r: i32)
        ensures
            r == self.0,
    {
        self.0
    }

    /// The column.
    pub fn x(self) -> (r: i32)
        ensures
            r == self.1,
    {
        self.1
    }

    /// The cell in row `y` and column `x`.
    pub open spec fn of(y: int, x: int) -> P {
        P(y as i32, x as i32)
    }

    /// The cell reached from `self` by the displacement `d`.
    pub open spec fn shifted(self, d: D) -> P {
        P((self.0 + d.0) as i32, (self.1 + d.1) as i32)
    }

    /// The cell from which the displacement `d` leads to `self`.
    pub open spec fn shifted_back(self, d: D) -> P {
        P((self.0 - d.0) as i32, (self.1 - d.1) as i32)
    }

    /// The displacement that leads from `origin` to `self`.
    pub open spec fn offset_from(self, origin: P) -> D {
        D((self.0 - origin.0) as i32, (self.1 - origin.1) as i32)
    }

    /// The cell `k` steps of `dir` away from `self`.
    pub open spec fn along(self, dir: D, k: int) -> P {
        P((self.0 + dir.0 * k) as i32, (self.1 + dir.1 * k) as i32)
    }
}

impl D {
    /// The displacement of `dy` rows and `dx` columns.
    pub open spec fn of(dy: int, dx: int) -> D {
        D(dy as i32, dx as i32)
    }

    /// The displacement mirrored top to bottom: what a first-player offset is
    /// for the second player.
    pub open spec fn flipped(self) -> D {
        D((-self.0) as i32, self.1)
    }

    /// `self.flipped()` if `cond` holds, else `self`.
    pub open spec fn flipped_if(self, cond: bool) -> D {
        if cond {
            self.flipped()
        } else {
            self
        }
    }

    /// The displacement taken `k` times.
    pub open spec fn scaled(self, k: int) -> D {
        D((self.0 * k) as i32, (self.1 * k) as i32)
    }

    /// The sum of two displacements.
    pub open spec fn plus(self, d: D) -> D {
        D((self.0 + d.0) as i32, (self.1 + d.1) as i32)
    }

    /// The difference of two displacements.
    pub open spec fn minus(self, d: D) -> D {
        D((self.0 - d.0) as i32, (self.1 - d.1) as i32)
    }

    /// Negates the row component.
    pub fn flip(self) -> (r: D)
        requires
            self.0 > i32::MIN,
        ensures
            r == self.flipped(),
    {
        D(-self.0, self.1)
    }

    /// Negates the row component if `cond` holds.
    pub fn flip_if(self, cond: bool) -> (r: D)
        requires
            cond ==> self.0 > i32::MIN,
        ensures
            r == self.flipped_if(cond),
    {
        D(
            if cond {
                -self.0
            } else {
                self.0
            },
            self.1,
        )
    }
}

/// What `p + d` means and when it can be computed: the sums must fit an
/// `i32`.
impl AddSpecImpl<D> for P {
    open spec fn obeys_add_spec() -> bool {
        true
    }

    open spec fn add_req(self, rhs: D) -> bool {
        fits_i32(self.0 + rhs.0) && fits_i32(self.1 + rhs.1)
    }

    open spec fn add_spec(self, rhs: D) -> P {
        self.shifted(rhs)
    }
}

/// `p + d` is the cell reached from `p` by the displacement `d`.
impl Add<D> for P {
    type Output = P;

    fn add(self, rhs: D) -> P {
        P(self.0 + rhs.0, self.1 + rhs.1)
    }
}

/// What `p - d` means and when it can be computed: the differences must fit
/// an `i32`.
impl SubSpecImpl<D> for P {
    open spec fn obeys_sub_spec() -> bool {
        true
    }

    open spec fn sub_req(self, rhs: D) -> bool {
        fits_i32(self.0 - rhs.0) && fits_i32(self.1 - rhs.1)
    }

    open spec fn sub_spec(self, rhs: D) -> P {
        self.shifted_back(rhs)
    }
}

/// `p - d` is the cell from which the displacement `d` leads to `p`.
impl Sub<D> for P {
    type Output = P;

    fn sub(self, rhs: D) -> P {
        P(self.0 - rhs.0, self.1 - rhs.1)
    }
}

/// What `p - q` means and when it can be computed: the differences must fit
/// an `i32`.
impl SubSpecImpl<P> for P {
    open spec fn obeys_sub_spec() -> bool {
        true
    }

    open spec fn sub_req(self, rhs: P) -> bool {
        fits_i32(self.0 - rhs.0) && fits_i32(self.1 - rhs.1)
    }

    open spec fn sub_spec(self, rhs: P) -> D {
        self.offset_from(rhs)
    }
}

/// `p - q` is the displacement that leads from `q` to `p`.
impl Sub<P> for P {
    type Output = D;

    fn sub(self, rhs: P) -> D {
        D(self.0 - rhs.0, self.1 - rhs.1)
    }
}

/// What `d + e` means and when it can be computed: the sums must fit an
/// `i32`.
impl AddSpecImpl<D> for D {
    open spec fn obeys_add_spec() -> bool {
        true
    }

    open spec fn add_req(self, rhs: D) -> bool {
        fits_i32(self.0 + rhs.0) && fits_i32(self.1 + rhs.1)
    }

    open spec fn add_spec(self, rhs: D) -> D {
        self.plus(rhs)
    }
}

/// `d + e` is the two displacements one after the other.
impl Add<D> for D {
    type Output = D;

    fn add(self, rhs: D) -> D {
        D(self.0 + rhs.0, self.1 + rhs.1)
    }
}

/// What `d - e` means and when it can be computed: the differences must fit
/// an `i32`.
impl SubSpecImpl<D> for D {
    open spec fn obeys_sub_spec() -> bool {
        true
    }

    open spec fn sub_req(self, rhs: D) -> bool {
        fits_i32(self.0 - rhs.0) && fits_i32(self.1 - rhs.1)
    }

    open spec fn sub_spec(self, rhs: D) -> D {
        self.minus(rhs)
    }
}

/// `d - e` is the displacement `d` followed by `e` backwards.
impl Sub<D> for D {
    type Output = D;

    fn sub(self, rhs: D) -> D {
        D(self.0 - rhs.0, self.1 - rhs.1)
    }
}

/// What `d * k` means and when it can be computed: the products must fit an
/// `i32`.
impl MulSpecImpl<i32> for D {
    open spec fn obeys_mul_spec() -> bool {
        true
    }

    open spec fn mul_req(self, rhs: i32) -> bool {
        fits_i32(self.0 * rhs) && fits_i32(self.1 * rhs)
    }

    open spec fn mul_spec(self, rhs: i32) -> D {
        self.scaled(rhs as int)
    }
}

/// `d * k` is the displacement `d` taken `k` times.
impl Mul<i32> for D {
    type Output = D;

    fn mul(self, rhs: i32) -> D {
        D(self.0 * rhs, self.1 * rhs)
    }
}

} // verus!
