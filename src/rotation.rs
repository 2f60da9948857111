use vstd::prelude::*;
use vstd::multiset::Multiset;
use crate::point::{Point, V3, COORD_LIMIT, abs, mag, turn_x, turn_y, turn_z, pts_view, v_add, v_sub};

verus! {

/// The number of proper rotations of the cube.
pub const ROTATION_COUNT: usize = 24;

/// The quarter turns about the x axis applied first: `b` of them.
pub open spec fn base_turn(b: int, v: V3) -> V3 {
    if b == 0 {
        v
    } else if b == 1 {
        turn_x(v)
    } else if b == 2 {
        turn_x(turn_x(v))
    } else {
        turn_x(turn_x(turn_x(v)))
    }
}

/// The turn that then brings the x axis onto one of the six face directions.
pub open spec fn face_turn(s: int, v: V3) -> V3 {
    if s == 0 {
        v
    } else if s == 1 {
        turn_z(v)
    } else if s == 2 {
        turn_z(turn_z(v))
    } else if s == 3 {
        turn_z(turn_z(turn_z(v)))
    } else if s == 4 {
        turn_y(v)
    } else {
        turn_y(turn_y(turn_y(v)))
    }
}

/// Rotation number `k` (in `0..24`) applied to `v`.
pub open spec fn rotate(k: int, v: V3) -> V3 {
    face_turn(k % 6, base_turn(k / 6, v))
}

pub open spec fn rotate_all(k: int, s: Seq<V3>) -> Seq<V3> {
    s.map_values(|v: V3| rotate(k, v))
}

/// The multiset of the absolute values of a point's coordinates.
pub open spec fn abs_coords(v: V3) -> Multiset<int> {
    Multiset::empty().insert(abs(v.0)).insert(abs(v.1)).insert(abs(v.2))
}

/// Index of the rotation equal to a quarter turn about x after rotation `k`.
pub open spec fn then_x(k: int) -> int {
    seq![6int, 10, 20, 11, 9, 7, 12, 16, 2, 17, 15, 13, 18, 22, 8, 23, 21, 19, 0, 4, 14, 5, 3, 1][k]
}

/// Index of the rotation equal to a quarter turn about y after rotation `k`.
pub open spec fn then_y(k: int) -> int {
    seq![4int, 19, 17, 9, 14, 0, 10, 1, 23, 15, 20, 6, 16, 7, 5, 21, 2, 12, 22, 13, 11, 3, 8, 18][k]
}

/// Index of the rotation equal to a quarter turn about z after rotation `k`.
pub open spec fn then_z(k: int) -> int {
    seq![1int, 2, 3, 0, 10, 23, 7, 8, 9, 6, 16, 5, 13, 14, 15, 12, 22, 11, 19, 20, 21, 18, 4, 17][k]
}

proof fn lemma_then_x(k: int)
    requires
        0 <= k < 24,
    ensures
        0 <= then_x(k) < 24,
        forall|v: V3| #[trigger] turn_x(rotate(k, v)) == rotate(then_x(k), v),
{
}

proof fn lemma_then_y(k: int)
    requires
        0 <= k < 24,
    ensures
        0 <= then_y(k) < 24,
        forall|v: V3| #[trigger] turn_y(rotate(k, v)) == rotate(then_y(k), v),
{
}

proof fn lemma_then_z(k: int)
    requires
        0 <= k < 24,
    ensures
        0 <= then_z(k) < 24,
        forall|v: V3| #[trigger] turn_z(rotate(k, v)) == rotate(then_z(k), v),
{
}

/// Quarter turns about x, `b` of them, applied after rotation `k`.
proof fn lemma_base_after(b: int, k: int) -> (m: int)
    requires
        0 <= b < 4,
        0 <= k < 24,
    ensures
        0 <= m < 24,
        forall|v: V3| #[trigger] base_turn(b, rotate(k, v)) == rotate(m, v),
{
    lemma_then_x(k);
    if b == 0 {
        k
    } else if b == 1 {
        then_x(k)
    } else if b == 2 {
        lemma_then_x(then_x(k));
        then_x(then_x(k))
    } else {
        lemma_then_x(then_x(k));
        lemma_then_x(then_x(then_x(k)));
        then_x(then_x(then_x(k)))
    }
}

/// Face turn number `s` applied after rotation `k`.
proof fn lemma_face_after(s: int, k: int) -> (m: int)
    requires
        0 <= s < 6,
        0 <= k < 24,
    ensures
        0 <= m < 24,
        forall|v: V3| #[trigger] face_turn(s, rotate(k, v)) == rotate(m, v),
{
    lemma_then_z(k);
    lemma_then_y(k);
    if s == 0 {
        k
    } else if s == 1 {
        then_z(k)
    } else if s == 2 {
        lemma_then_z(then_z(k));
        then_z(then_z(k))
    } else if s == 3 {
        lemma_then_z(then_z(k));
        lemma_then_z(then_z(then_z(k)));
        then_z(then_z(then_z(k)))
    } else if s == 4 {
        then_y(k)
    } else {
        lemma_then_y(then_y(k));
        lemma_then_y(then_y(then_y(k)));
        then_y(then_y(then_y(k)))
    }
}

/// Index of the rotation that undoes rotation `k`.
pub open spec fn inverse_of(k: int) -> int {
    seq![0int, 3, 2, 1, 5, 4, 18, 22, 8, 23, 21, 19, 12, 13, 14, 15, 16, 17, 6, 11, 20, 10, 7, 9][k]
}

/// Every rotation has an inverse in the table.
pub proof fn lemma_inverse(k: int)
    requires
        0 <= k < 24,
    ensures
        0 <= inverse_of(k) < 24,
        forall|v: V3| #[trigger] rotate(inverse_of(k), rotate(k, v)) == v,
        forall|v: V3| #[trigger] rotate(k, rotate(inverse_of(k), v)) == v,
{
}

/// A rotation is linear.
pub proof fn lemma_rotate_linear(k: int)
    requires
        0 <= k < 24,
    ensures
        forall|u: V3, w: V3| #[trigger] rotate(k, v_add(u, w)) == v_add(rotate(k, u), rotate(k, w)),
        forall|u: V3, w: V3| #[trigger] rotate(k, v_sub(u, w)) == v_sub(rotate(k, u), rotate(k, w)),
{
}

/// Rotation number 0 is the identity.
pub proof fn lemma_rotation_identity(v: V3)
    ensures
        rotate(0, v) == v,
{
}

/// Rotation `k` equals rotation `i` followed by rotation `j`.
pub open spec fn is_composition(i: int, j: int, k: int) -> bool {
    forall|v: V3| #[trigger] rotate(k, v) == rotate(j, rotate(i, v))
}

/// The table is closed under composition: rotation `i` followed by rotation
/// `j` is again one rotation of the table.
pub proof fn lemma_rotations_compose(i: int, j: int)
    requires
        0 <= i < 24,
        0 <= j < 24,
    ensures
        exists|k: int| 0 <= k < 24 && #[trigger] is_composition(i, j, k),
{
    let m = lemma_base_after(j / 6, i);
    let k = lemma_face_after(j % 6, m);
    assert forall|v: V3| #[trigger] rotate(k, v) == rotate(j, rotate(i, v)) by {
        assert(base_turn(j / 6, rotate(i, v)) == rotate(m, v));
        assert(face_turn(j % 6, rotate(m, v)) == rotate(k, v));
    }
    assert(is_composition(i, j, k));
}

/// The 24 rotations are pairwise distinct: they send the asymmetric point
/// (1, 2, 3) to 24 different points.
pub proof fn lemma_rotations_distinct(i: int, j: int)
    requires
        0 <= i < 24,
        0 <= j < 24,
        i != j,
    ensures
        rotate(i, (1, 2, 3)) != rotate(j, (1, 2, 3)),
{
}

proof fn lemma_turns_keep_magnitudes(v: V3)
    ensures
        abs_coords(turn_x(v)) == abs_coords(v),
        abs_coords(turn_y(v)) == abs_coords(v),
        abs_coords(turn_z(v)) == abs_coords(v),
        mag(turn_x(v)) == mag(v),
        mag(turn_y(v)) == mag(v),
        mag(turn_z(v)) == mag(v),
{
    assert(abs_coords(turn_x(v)) =~= abs_coords(v));
    assert(abs_coords(turn_y(v)) =~= abs_coords(v));
    assert(abs_coords(turn_z(v)) =~= abs_coords(v));
}

/// A rotation permutes the absolute values of the coordinates.
pub proof fn lemma_rotation_keeps_magnitudes(k: int, v: V3)
    requires
        0 <= k < 24,
    ensures
        abs_coords(rotate(k, v)) == abs_coords(v),
        mag(rotate(k, v)) == mag(v),
{
    let x1 = turn_x(v);
    let x2 = turn_x(x1);
    let x3 = turn_x(x2);
    lemma_turns_keep_magnitudes(v);
    lemma_turns_keep_magnitudes(x1);
    lemma_turns_keep_magnitudes(x2);
    let w = base_turn(k / 6, v);
    assert(abs_coords(w) == abs_coords(v) && mag(w) == mag(v));
    let z1 = turn_z(w);
    let z2 = turn_z(z1);
    let y1 = turn_y(w);
    let y2 = turn_y(y1);
    lemma_turns_keep_magnitudes(w);
    lemma_turns_keep_magnitudes(z1);
    lemma_turns_keep_magnitudes(z2);
    lemma_turns_keep_magnitudes(y1);
    lemma_turns_keep_magnitudes(y2);
}

/// Applies rotation number `index` to `p`, as quarter turns about x followed
/// by the turn to one of the six faces.
pub fn rotate_point(index: usize, p: &Point) -> (r: Point)
    requires
        index < ROTATION_COUNT,
        mag(p@) <= COORD_LIMIT,
    ensures
        r@ == rotate(index as int, p@),
{
    proof {
        lemma_turns_keep_magnitudes(p@);
        lemma_turns_keep_magnitudes(turn_x(p@));
        lemma_turns_keep_magnitudes(turn_x(turn_x(p@)));
    }
    let b = index / 6;
    let w = if b == 0 {
        *p
    } else if b == 1 {
        p.rot_along_x()
    } else if b == 2 {
        p.rot_along_x().rot_along_x()
    } else {
        p.rot_along_x().rot_along_x().rot_along_x()
    };
    assert(w@ == base_turn(index as int / 6, p@));
    proof {
        lemma_turns_keep_magnitudes(w@);
        lemma_turns_keep_magnitudes(turn_z(w@));
        lemma_turns_keep_magnitudes(turn_z(turn_z(w@)));
        lemma_turns_keep_magnitudes(turn_y(w@));
        lemma_turns_keep_magnitudes(turn_y(turn_y(w@)));
    }
    let s = index % 6;
    if s == 0 {
        w
    } else if s == 1 {
        w.rot_along_z()
    } else if s == 2 {
        w.rot_along_z().rot_along_z()
    } else if s == 3 {
        w.rot_along_z().rot_along_z().rot_along_z()
    } else if s == 4 {
        w.rot_along_y()
    } else {
        w.rot_along_y().rot_along_y().rot_along_y()
    }
}

/// Applies rotation number `index` to every point, keeping their order.
pub fn get_rotated_points(index: usize, points: &Vec<Point>) -> (r: Vec<Point>)
    requires
        index < ROTATION_COUNT,
        forall|i: int| 0 <= i < points.len() ==> mag(#[trigger] points[i]@) <= COORD_LIMIT,
    ensures
        pts_view(r@) == rotate_all(index as int, pts_view(points@)),
{
    let mut rotated: Vec<Point> = Vec::new();
    let mut i: usize = 0;
    while i < points.len()
        invariant
            i <= points.len(),
            index < ROTATION_COUNT,
            forall|j: int| 0 <= j < points.len() ==> mag(#[trigger] points[j]@) <= COORD_LIMIT,
            rotated.len() == i,
            forall|j: int| 0 <= j < i ==> #[trigger] rotated[j]@ == rotate(index as int, points[j]@),
        decreases points.len() - i,
    {
        let q = rotate_point(index, &points[i]);
        rotated.push(q);
        i += 1;
    }
    assert(pts_view(rotated@) =~= rotate_all(index as int, pts_view(points@)));
    rotated
}

} // verus!
