use vstd::prelude::*;

verus! {

/// A point as a triple of mathematical integers.
pub type V3 = (int, int, int);

pub open spec fn abs(a: int) -> int {
    if a < 0 {
        -a
    } else {
        a
    }
}

/// The largest absolute value among the coordinates of `v`.
pub open spec fn mag(v: V3) -> int {
    let (a, b, c) = (abs(v.0), abs(v.1), abs(v.2));
    if a >= b && a >= c {
        a
    } else if b >= c {
        b
    } else {
        c
    }
}

pub open spec fn v_add(a: V3, b: V3) -> V3 {
    (a.0 + b.0, a.1 + b.1, a.2 + b.2)
}

pub open spec fn v_sub(a: V3, b: V3) -> V3 {
    (a.0 - b.0, a.1 - b.1, a.2 - b.2)
}

pub open spec fn v_neg(a: V3) -> V3 {
    (-a.0, -a.1, -a.2)
}

/// Quarter turn about the x axis.
pub open spec fn turn_x(v: V3) -> V3 {
    (v.0, -v.2, v.1)
}

/// Quarter turn about the y axis.
pub open spec fn turn_y(v: V3) -> V3 {
    (-v.2, v.1, v.0)
}

/// Quarter turn about the z axis.
pub open spec fn turn_z(v: V3) -> V3 {
    (-v.1, v.0, v.2)
}

/// The largest coordinate magnitude that a point may have so that its
/// negation stays representable.
pub const COORD_LIMIT: i64 = 0x7fff_ffff_ffff_ffff;

/// An exact integer point in three dimensions.
#[derive(Clone, Copy, Debug, PartialEq, Eq, Structural)]
pub struct Point {
    pub x: i64,
    pub y: i64,
    pub z: i64,
}

impl View for Point {
    type V = V3;

    open spec fn view(&self) -> V3 {
        (self.x as int, self.y as int, self.z as int)
    }
}

/// The model of a sequence of points.
pub open spec fn pts_view(s: Seq<Point>) -> Seq<V3> {
    s.map_values(|p: Point| p@)
}

impl Point {
    pub fn new(x: i64, y: i64, z: i64) -> (r: Point)
        ensures
            r@ == (x as int, y as int, z as int),
    {
        Point { x, y, z }
    }

    pub fn rot_along_x(&self) -> (r: Point)
        requires
            mag(self@) <= COORD_LIMIT,
        ensures
            r@ == turn_x(self@),
    {
        Point { x: self.x, y: -self.z, z: self.y }
    }

    pub fn rot_along_y(&self) -> (r: Point)
        requires
            mag(self@) <= COORD_LIMIT,
        ensures
            r@ == turn_y(self@),
    {
        Point { x: -self.z, y: self.y, z: self.x }
    }

    pub fn rot_along_z(&self) -> (r: Point)
        requires
            mag(self@) <= COORD_LIMIT,
        ensures
            r@ == turn_z(self@),
    {
        Point { x: -self.y, y: self.x, z: self.z }
    }

    pub fn add(&self, other: &Point) -> (r: Point)
        requires
            mag(self@) + mag(other@) <= COORD_LIMIT,
        ensures
            r@ == v_add(self@, other@),
    {
        Point { x: self.x + other.x, y: self.y + other.y, z: self.z + other.z }
    }

    pub fn sub(&self, other: &Point) -> (r: Point)
        requires
            mag(self@) + mag(other@) <= COORD_LIMIT,
        ensures
            r@ == v_sub(self@, other@),
    {
        Point { x: self.x - other.x, y: self.y - other.y, z: self.z - other.z }
    }

    pub fn neg(&self) -> (r: Point)
        requires
            mag(self@) <= COORD_LIMIT,
        ensures
            r@ == v_neg(self@),
    {
        Point { x: -self.x, y: -self.y, z: -self.z }
    }
}

/// An element-by-element copy of `points`.
pub fn copy_points(points: &Vec<Point>) -> (r: Vec<Point>)
    ensures
        r@ == points@,
{
    let mut out: Vec<Point> = Vec::new();
    let mut i: usize = 0;
    while i < points.len()
        invariant
            i <= points.len(),
            out@ == points@.take(i as int),
        decreases points.len() - i,
    {
        out.push(points[i]);
        i += 1;
        assert(out@ =~= points@.take(i as int));
    }
    assert(points@.take(i as int) =~= points@);
    out
}

} // verus!
