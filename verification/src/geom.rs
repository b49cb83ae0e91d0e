use vstd::prelude::*;

verus! {

/// An axis-aligned rectangle, used for allocation by rect and for the
/// bounding box handed to the text-interception hook.
#[derive(Clone, Copy, Debug, PartialEq, Eq, Structural)]
pub struct Rect {
    pub x0: i32,
    pub y0: i32,
    pub x1: i32,
    pub y1: i32,
}

/// A 2x3 affine transform with rows `[a b]`, `[c d]` and translation
/// `[e f]`, over 64-bit integer coefficients.
#[derive(Clone, Copy, Debug, PartialEq, Eq, Structural)]
pub struct Matrix {
    pub a: i64,
    pub b: i64,
    pub c: i64,
    pub d: i64,
    pub e: i64,
    pub f: i64,
}

/// Clamps a mathematical integer to the `i64` range.
pub open spec fn sat64(x: int) -> int {
    if x > i64::MAX as int {
        i64::MAX as int
    } else if x < i64::MIN as int {
        i64::MIN as int
    } else {
        x
    }
}

/// The saturating product of two coefficients.
pub open spec fn sat_mul(x: int, y: int) -> int {
    sat64(x * y)
}

/// The saturating sum of two coefficients.
pub open spec fn sat_add(x: int, y: int) -> int {
    sat64(x + y)
}

/// Multiplies two coefficients, saturating at the `i64` bounds.
fn mul_sat(x: i64, y: i64) -> (r: i64)
    ensures
        r as int == sat_mul(x as int, y as int),
{
    proof {
        assert((x as int) * (y as int) <= i128::MAX as int && (x as int) * (y as int)
            >= i128::MIN as int) by (nonlinear_arith)
            requires
                i64::MIN as int <= x as int <= i64::MAX as int,
                i64::MIN as int <= y as int <= i64::MAX as int,
        ;
    }
    let p: i128 = (x as i128) * (y as i128);
    if p > i64::MAX as i128 {
        i64::MAX
    } else if p < i64::MIN as i128 {
        i64::MIN
    } else {
        p as i64
    }
}

/// Adds two coefficients, saturating at the `i64` bounds.
fn add_sat(x: i64, y: i64) -> (r: i64)
    ensures
        r as int == sat_add(x as int, y as int),
{
    let s: i128 = (x as i128) + (y as i128);
    if s > i64::MAX as i128 {
        i64::MAX
    } else if s < i64::MIN as i128 {
        i64::MIN
    } else {
        s as i64
    }
}

impl Matrix {
    /// The identity transform.
    pub fn identity() -> (r: Matrix)
        ensures
            r == (Matrix { a: 1, b: 0, c: 0, d: 1, e: 0, f: 0 }),
    {
        Matrix { a: 1, b: 0, c: 0, d: 1, e: 0, f: 0 }
    }

    /// The composition `self` then `other`, each coefficient accumulated
    /// with saturating products and sums.
    pub open spec fn spec_concat(self, other: Matrix) -> Matrix {
        Matrix {
            a: sat_add(sat_mul(self.a as int, other.a as int), sat_mul(self.b as int, other.c as int)) as i64,
            b: sat_add(sat_mul(self.a as int, other.b as int), sat_mul(self.b as int, other.d as int)) as i64,
            c: sat_add(sat_mul(self.c as int, other.a as int), sat_mul(self.d as int, other.c as int)) as i64,
            d: sat_add(sat_mul(self.c as int, other.b as int), sat_mul(self.d as int, other.d as int)) as i64,
            e: sat_add(sat_add(sat_mul(self.e as int, other.a as int), sat_mul(self.f as int, other.c as int)), other.e as int) as i64,
            f: sat_add(sat_add(sat_mul(self.e as int, other.b as int), sat_mul(self.f as int, other.d as int)), other.f as int) as i64,
        }
    }

    /// Composes `self` with `other` (apply `self` first), so that a nested
    /// form invocation can compose its own transform with the caller's
    /// current transform.  Coefficients saturate at the `i64` bounds.
    pub fn concat(&self, other: &Matrix) -> (r: Matrix)
        ensures
            r == self.spec_concat(*other),
    {
        Matrix {
            a: add_sat(mul_sat(self.a, other.a), mul_sat(self.b, other.c)),
            b: add_sat(mul_sat(self.a, other.b), mul_sat(self.b, other.d)),
            c: add_sat(mul_sat(self.c, other.a), mul_sat(self.d, other.c)),
            d: add_sat(mul_sat(self.c, other.b), mul_sat(self.d, other.d)),
            e: add_sat(add_sat(mul_sat(self.e, other.a), mul_sat(self.f, other.c)), other.e),
            f: add_sat(add_sat(mul_sat(self.e, other.b), mul_sat(self.f, other.d)), other.f),
        }
    }
}

} // verus!
