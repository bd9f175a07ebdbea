use vstd::prelude::*;
use vstd::string::StringSliceAdditionalSpecFns;
use crate::text::{lines, views, split, signed_value, split_lines, split_bytes, parse_i64};

verus! {

/// A tile position: column `j`, row `i`.
#[derive(Debug, Clone, Copy, PartialEq, Eq, Structural)]
pub struct Point {
    pub j: i64,
    pub i: i64,
}

pub open spec fn abs(x: int) -> int {
    if x < 0 { -x } else { x }
}

/// The number of tiles of the rectangle with corners `a` and `b`, borders
/// included.
pub open spec fn rect_area(a: Point, b: Point) -> int {
    (abs(a.j - b.j) + 1) * (abs(a.i - b.i) + 1)
}

/// The rectangle's area fits in an `i64`.
pub open spec fn area_fits(a: Point, b: Point) -> bool {
    abs(a.j - b.j) <= i64::MAX && abs(a.i - b.i) <= i64::MAX && rect_area(a, b) <= i64::MAX
}

impl Point {
    pub fn new(j: i64, i: i64) -> (r: Point)
        ensures
            r == (Point { j, i }),
    {
        Point { j, i }
    }

    /// The componentwise distance to `o`.
    pub fn abs_dif(&self, o: &Point) -> (r: Point)
        requires
            abs(self.j - o.j) <= i64::MAX,
            abs(self.i - o.i) <= i64::MAX,
        ensures
            r.j == abs(self.j - o.j),
            r.i == abs(self.i - o.i),
    {
        let dj: i128 = self.j as i128 - o.j as i128;
        let di: i128 = self.i as i128 - o.i as i128;
        let aj: i128 = if dj < 0 { -dj } else { dj };
        let ai: i128 = if di < 0 { -di } else { di };
        Point { j: aj as i64, i: ai as i64 }
    }

    /// The number of tiles of the rectangle with corners `self` and `o`.
    pub fn area(&self, o: &Point) -> (r: i64)
        requires
            area_fits(*self, *o),
        ensures
            r == rect_area(*self, *o),
    {
        let rect = self.abs_dif(o);
        proof {
            let a = rect.j + 1;
            let b = rect.i + 1;
            assert(a * b >= b) by (nonlinear_arith)
                requires
                    a >= 1,
                    b >= 1,
            ;
            assert(a * b >= a) by (nonlinear_arith)
                requires
                    a >= 1,
                    b >= 1,
            ;
        }
        (rect.j + 1) * (rect.i + 1)
    }

    /// The rectangle's area, or `None` when it does not fit in an `i64`.
    pub fn checked_area(&self, o: &Point) -> (r: Option<i64>)
        ensures
            area_fits(*self, *o) ==> r == Some(rect_area(*self, *o) as i64),
            !area_fits(*self, *o) ==> r is None,
    {
        let dj: i128 = self.j as i128 - o.j as i128;
        let di: i128 = self.i as i128 - o.i as i128;
        let aj: i128 = if dj < 0 { -dj } else { dj };
        let ai: i128 = if di < 0 { -di } else { di };
        if aj > i64::MAX as i128 || ai > i64::MAX as i128 {
            return None;
        }
        let w: i64 = aj as i64;
        let h: i64 = ai as i64;
        if w == i64::MAX || h == i64::MAX {
            proof {
                let a = aj + 1;
                let b = ai + 1;
                assert(a * b >= b && a * b >= a) by (nonlinear_arith)
                    requires
                        a >= 1,
                        b >= 1,
                ;
            }
            return None;
        }
        match (w + 1).checked_mul(h + 1) {
            Some(v) => Some(v),
            None => None,
        }
    }
}

/// The point that a line `j,i` spells.
pub open spec fn point_of(line: Seq<u8>) -> Option<Point> {
    let p = split(line, 44u8);
    if p.len() == 2 && signed_value(p[0]) is Some && signed_value(p[1]) is Some {
        Some(Point { j: signed_value(p[0]).unwrap(), i: signed_value(p[1]).unwrap() })
    } else {
        None
    }
}

/// The points of a text with one per line, or `None` when a line is not one.
pub open spec fn points_of(s: Seq<u8>) -> Option<Seq<Point>> {
    let ls = lines(s);
    if forall|i: int| 0 <= i < ls.len() ==> #[trigger] point_of(ls[i]) is Some {
        Some(Seq::new(ls.len(), |i: int| point_of(ls[i]).unwrap()))
    } else {
        None
    }
}

/// Reads one point per line.
pub fn get_points(input: &str) -> (r: Option<Vec<Point>>)
    ensures
        points_of(input.spec_bytes()) is None ==> r is None,
        points_of(input.spec_bytes()) is Some ==> r is Some && r.unwrap()@ == points_of(input.spec_bytes()).unwrap(),
{
    let ls = split_lines(input.as_bytes());
    let ghost lv = lines(input.spec_bytes());
    let mut points: Vec<Point> = Vec::new();
    let mut i: usize = 0;
    assert(views(ls@).len() == ls@.len());
    while i < ls.len()
        invariant
            views(ls@) == lv,
            lv == lines(input.spec_bytes()),
            ls@.len() == lv.len(),
            i <= lv.len(),
            points@.len() == i,
            forall|t: int| 0 <= t < i ==> #[trigger] point_of(lv[t]) == Some(points@[t]),
        decreases lv.len() - i,
    {
        assert(ls@[i as int]@ == lv[i as int]);
        let parts = split_bytes(ls[i].as_slice(), 44u8);
        let ghost pv = split(lv[i as int], 44u8);
        assert(views(parts@).len() == parts@.len());
        if parts.len() != 2 {
            assert(point_of(lv[i as int]) is None);
            assert(points_of(input.spec_bytes()) is None);
            return None;
        }
        assert(parts@[0]@ == pv[0] && parts@[1]@ == pv[1]);
        match (parse_i64(parts[0].as_slice()), parse_i64(parts[1].as_slice())) {
            (Some(j), Some(ii)) => {
                points.push(Point::new(j, ii));
            },
            _ => {
                assert(point_of(lv[i as int]) is None);
                assert(points_of(input.spec_bytes()) is None);
                return None;
            },
        }
        i = i + 1;
    }
    proof {
        assert(points@ =~= points_of(input.spec_bytes()).unwrap());
    }
    Some(points)
}

pub open spec fn max(a: int, b: int) -> int {
    if a > b { a } else { b }
}

/// The largest area of a rectangle with corners `i` and one of the points
/// `i + 1 .. j`; zero when there is none.
pub open spec fn row_best(pts: Seq<Point>, i: int, j: int) -> int
    decreases j - i,
{
    if j <= i + 1 {
        0
    } else {
        max(row_best(pts, i, j - 1), rect_area(pts[i], pts[j - 1]))
    }
}

/// The largest area of a rectangle with corners at two points, the first of
/// them below `i`; zero when there is none.
pub open spec fn rows_best(pts: Seq<Point>, i: int) -> int
    decreases i,
{
    if i <= 0 {
        0
    } else {
        max(rows_best(pts, i - 1), row_best(pts, i - 1, pts.len() as int))
    }
}

/// Every pair's area fits in an `i64`.
pub open spec fn all_areas_fit(pts: Seq<Point>) -> bool {
    forall|a: int, b: int| 0 <= a < b < pts.len() ==> #[trigger] area_fits(pts[a], pts[b])
}

/// The largest rectangle spanned by two of the points in `input`.
pub fn part_one(input: &str) -> (r: Option<i64>)
    ensures
        points_of(input.spec_bytes()) is None ==> r is None,
        points_of(input.spec_bytes()) is Some && all_areas_fit(points_of(input.spec_bytes()).unwrap()) ==> {
            let pts = points_of(input.spec_bytes()).unwrap();
            r == Some(rows_best(pts, pts.len() as int) as i64)
        },
        points_of(input.spec_bytes()) is Some && !all_areas_fit(points_of(input.spec_bytes()).unwrap()) ==> r is None,
{
    let points = match get_points(input) {
        Some(p) => p,
        None => {
            return None;
        },
    };
    let ghost pts = points@;
    let n = points.len();
    let mut best: i64 = 0;
    let mut i: usize = 0;
    while i < n
        invariant
            n == pts.len(),
            points@ == pts,
            points_of(input.spec_bytes()) is Some,
            pts == points_of(input.spec_bytes()).unwrap(),
            i <= n,
            best == rows_best(pts, i as int),
            0 <= best,
            forall|a: int, b: int| 0 <= a < i && a < b < n ==> #[trigger] area_fits(pts[a], pts[b]),
        decreases n - i,
    {
        let mut j: usize = i + 1;
        assert(row_best(pts, i as int, j as int) == 0);
        while j < n
            invariant
                n == pts.len(),
                points@ == pts,
                points_of(input.spec_bytes()) is Some,
                pts == points_of(input.spec_bytes()).unwrap(),
                i < n,
                i < j <= n,
                best == max(rows_best(pts, i as int), row_best(pts, i as int, j as int)),
                0 <= best,
                forall|a: int, b: int| 0 <= a < i && a < b < n ==> #[trigger] area_fits(pts[a], pts[b]),
                forall|b: int| i < b < j ==> #[trigger] area_fits(pts[i as int], pts[b]),
            decreases n - j,
        {
            match points[i].checked_area(&points[j]) {
                Some(a) => {
                    if a > best {
                        best = a;
                    }
                },
                None => {
                    assert(!area_fits(pts[i as int], pts[j as int]));
                    return None;
                },
            }
            j = j + 1;
        }
        i = i + 1;
    }
    Some(best)
}

/// The second half of the puzzle has no solution here.
pub fn part_two(_input: &str) -> (r: Option<i64>)
    ensures
        r is None,
{
    None
}

} // verus!
