use vstd::prelude::*;

verus! {

/// A point in 3-D integer space.
#[derive(Debug, Clone, Copy, PartialEq, Eq, Structural)]
pub struct Coord {
    pub x: i64,
    pub y: i64,
    pub z: i64,
}

pub open spec fn square(d: int) -> int {
    d * d
}

/// Squared Euclidean distance between two points, as a mathematical integer.
pub open spec fn sq_dist(a: Coord, b: Coord) -> int {
    square(a.x - b.x) + square(a.y - b.y) + square(a.z - b.z)
}

/// Squared distance of one coordinate pair, or `None` when it exceeds `u64`.
fn axis_square(a: i64, b: i64) -> (r: Option<u64>)
    ensures
        square(a - b) <= u64::MAX ==> r == Some(square(a - b) as u64),
        square(a - b) > u64::MAX ==> r is None,
{
    let d: u128 = if a >= b {
        (a as i128 - b as i128) as u128
    } else {
        (b as i128 - a as i128) as u128
    };
    assert(d * d == square(a - b)) by (nonlinear_arith)
        requires
            d == a - b || d == b - a,
    ;
    assert(d <= u64::MAX);
    assert(d * d <= (u64::MAX as int) * (u64::MAX as int)) by (nonlinear_arith)
        requires
            0 <= d <= u64::MAX,
    ;
    assert(18446744073709551615int * 18446744073709551615int <= u128::MAX);
    let sq: u128 = d * d;
    if sq > u64::MAX as u128 {
        None
    } else {
        Some(sq as u64)
    }
}

impl Coord {
    pub fn new(x: i64, y: i64, z: i64) -> (r: Coord)
        ensures
            r == (Coord { x, y, z }),
    {
        Coord { x, y, z }
    }

    /// Squared distance to `o`, or `None` when it does not fit in a `u64`.
    pub fn dist(&self, o: &Coord) -> (r: Option<u64>)
        ensures
            sq_dist(*self, *o) <= u64::MAX ==> r == Some(sq_dist(*self, *o) as u64),
            sq_dist(*self, *o) > u64::MAX ==> r is None,
    {
        assert(square(self.x - o.x) >= 0 && square(self.y - o.y) >= 0 && square(self.z - o.z) >= 0)
            by (nonlinear_arith);
        let dx = axis_square(self.x, o.x);
        let dy = axis_square(self.y, o.y);
        let dz = axis_square(self.z, o.z);
        match (dx, dy, dz) {
            (Some(a), Some(b), Some(c)) => {
                let s: u128 = a as u128 + b as u128 + c as u128;
                if s > u64::MAX as u128 {
                    None
                } else {
                    Some(s as u64)
                }
            },
            _ => None,
        }
    }
}

/// Distance is symmetric.
pub proof fn lemma_sq_dist_symmetric(a: Coord, b: Coord)
    ensures
        sq_dist(a, b) == sq_dist(b, a),
        sq_dist(a, b) >= 0,
{
    assert(square(a.x - b.x) == square(b.x - a.x)) by (nonlinear_arith);
    assert(square(a.y - b.y) == square(b.y - a.y)) by (nonlinear_arith);
    assert(square(a.z - b.z) == square(b.z - a.z)) by (nonlinear_arith);
    assert(square(a.x - b.x) >= 0 && square(a.y - b.y) >= 0 && square(a.z - b.z) >= 0)
        by (nonlinear_arith);
}

} // verus!
