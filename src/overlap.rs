use vstd::prelude::*;
use array_tool::vec::Intersect;
use crate::point::{Point, V3, COORD_LIMIT, mag, v_add, v_sub, pts_view};
use vstd::set_lib::{lemma_map_size, lemma_len_subset};
use vstd::seq_lib::seq_to_set_is_finite;
use crate::rotation::{
    ROTATION_COUNT, rotate, rotate_all, get_rotated_points, inverse_of, lemma_inverse,
    lemma_rotate_linear, lemma_rotation_keeps_magnitudes,
};

verus! {

/// The number of coincident points from which two clouds count as overlapping.
pub const MIN_OVERLAP: usize = 12;

pub open spec fn translate_all(s: Seq<V3>, t: V3) -> Seq<V3> {
    s.map_values(|v: V3| v_add(v, t))
}

/// The number of distinct points of `r` that `q` shifted by `t` hits.
pub open spec fn shared_count(r: Seq<V3>, q: Seq<V3>, t: V3) -> nat {
    r.to_set().intersect(translate_all(q, t).to_set()).len()
}

/// The shift that puts `q[j]` onto `r[i]`.
pub open spec fn shift_of(r: Seq<V3>, q: Seq<V3>, i: int, j: int) -> V3 {
    v_sub(r[i], q[j])
}

/// Shifting `q` so that `q[j]` lands on `r[i]` makes enough points coincide.
pub open spec fn pair_hits(r: Seq<V3>, q: Seq<V3>, i: int, j: int) -> bool {
    &&& 0 <= i < r.len()
    &&& 0 <= j < q.len()
    &&& shared_count(r, q, shift_of(r, q, i, j)) >= MIN_OVERLAP
}

/// `(i, j)` is the first hitting pair, in the order in which they are tried.
pub open spec fn first_pair(r: Seq<V3>, q: Seq<V3>, i: int, j: int) -> bool {
    &&& pair_hits(r, q, i, j)
    &&& forall|i2: int, j2: int|
        (i2 < i || (i2 == i && j2 < j)) ==> !#[trigger] pair_hits(r, q, i2, j2)
}

/// Rotating `c` by rotation `k`, then shifting it so that its point `j`
/// lands on `r[i]`, makes enough points coincide.
pub open spec fn trial_hits(r: Seq<V3>, c: Seq<V3>, k: int, i: int, j: int) -> bool {
    0 <= k < ROTATION_COUNT && pair_hits(r, rotate_all(k, c), i, j)
}

pub open spec fn earlier(k2: int, i2: int, j2: int, k: int, i: int, j: int) -> bool {
    k2 < k || (k2 == k && (i2 < i || (i2 == i && j2 < j)))
}

/// `(k, i, j)` is the first hitting trial, in the order in which they are tried.
pub open spec fn first_hit(r: Seq<V3>, c: Seq<V3>, k: int, i: int, j: int) -> bool {
    &&& trial_hits(r, c, k, i, j)
    &&& forall|k2: int, i2: int, j2: int|
        earlier(k2, i2, j2, k, i, j) ==> !#[trigger] trial_hits(r, c, k2, i2, j2)
}

/// Some rotation and translation of `c` makes enough of its points fall on points of `r`.
pub open spec fn overlaps(r: Seq<V3>, c: Seq<V3>) -> bool {
    exists|k: int, i: int, j: int| #[trigger] trial_hits(r, c, k, i, j)
}

/// The alignment of `c` onto `r` found by the first hitting trial: the
/// position of `c`'s origin in `r`'s frame, and `c`'s points in that frame.
pub open spec fn alignment(r: Seq<V3>, c: Seq<V3>) -> Option<(V3, Seq<V3>)> {
    if exists|k: int, i: int, j: int| #[trigger] first_hit(r, c, k, i, j) {
        let (k, i, j) = choose|k: int, i: int, j: int| #[trigger] first_hit(r, c, k, i, j);
        let q = rotate_all(k, c);
        let t = shift_of(r, q, i, j);
        Some((t, translate_all(q, t)))
    } else {
        None
    }
}

/// No sum of three coordinate magnitudes, one from `r` and two from `c`,
/// leaves the range of a coordinate.
pub open spec fn fits(r: Seq<V3>, c: Seq<V3>) -> bool {
    forall|i: int, j: int, l: int|
        0 <= i < r.len() && 0 <= j < c.len() && 0 <= l < c.len() ==> mag(#[trigger] r[i]) + mag(
            #[trigger] c[j],
        ) + mag(#[trigger] c[l]) <= COORD_LIMIT
}

pub open spec fn found_view(f: Option<(Point, Vec<Point>)>) -> Option<(V3, Seq<V3>)> {
    match f {
        Some((t, moved)) => Some((t@, pts_view(moved@))),
        None => None,
    }
}

pub proof fn lemma_mag_add_sub(a: V3, b: V3)
    ensures
        mag(v_add(a, b)) <= mag(a) + mag(b),
        mag(v_sub(a, b)) <= mag(a) + mag(b),
        mag(a) >= 0,
{
}

/// Relies on `array_tool`'s `Intersect::intersect`, which returns the distinct
/// values of the first vector that occur in the second; only its length is kept.
#[verifier::external_body]
fn shared_points(reference: &Vec<Point>, moved: &Vec<Point>) -> (r: usize)
    ensures
        r == pts_view(reference@).to_set().intersect(pts_view(moved@).to_set()).len(),
{
    let a: Vec<(i64, i64, i64)> = reference.iter().map(|p| (p.x, p.y, p.z)).collect();
    let b: Vec<(i64, i64, i64)> = moved.iter().map(|p| (p.x, p.y, p.z)).collect();
    a.intersect(b).len()
}

/// Shifts every point by `t`.
pub fn translate_points(points: &Vec<Point>, t: &Point) -> (r: Vec<Point>)
    requires
        forall|l: int| 0 <= l < points.len() ==> mag(#[trigger] points[l]@) + mag(t@) <= COORD_LIMIT,
    ensures
        pts_view(r@) == translate_all(pts_view(points@), t@),
{
    let mut moved: Vec<Point> = Vec::new();
    let mut l: usize = 0;
    while l < points.len()
        invariant
            l <= points.len(),
            forall|m: int| 0 <= m < points.len() ==> mag(#[trigger] points[m]@) + mag(t@) <= COORD_LIMIT,
            moved.len() == l,
            forall|m: int| 0 <= m < l ==> #[trigger] moved[m]@ == v_add(points[m]@, t@),
        decreases points.len() - l,
    {
        moved.push(points[l].add(t));
        l += 1;
    }
    assert(pts_view(moved@) =~= translate_all(pts_view(points@), t@));
    moved
}

/// Tries every shift that puts a point of `rotated` onto a point of
/// `reference`, reference points outermost, and returns the first shift under
/// which at least `MIN_OVERLAP` reference points are hit, with the shifted points.
pub fn points_overlap(reference: &Vec<Point>, rotated: &Vec<Point>) -> (found: Option<(Point, Vec<Point>)>)
    requires
        fits(pts_view(reference@), pts_view(rotated@)),
    ensures
        ({
            let r = pts_view(reference@);
            let q = pts_view(rotated@);
            match found {
                Some((t, moved)) => exists|i: int, j: int|
                    #[trigger] first_pair(r, q, i, j) && t@ == shift_of(r, q, i, j) && pts_view(moved@)
                        == translate_all(q, t@),
                None => forall|i: int, j: int| !#[trigger] pair_hits(r, q, i, j),
            }
        }),
{
    let ghost r = pts_view(reference@);
    let ghost q = pts_view(rotated@);
    let mut i: usize = 0;
    while i < reference.len()
        invariant
            i <= reference.len(),
            r == pts_view(reference@),
            q == pts_view(rotated@),
            fits(r, q),
            forall|i2: int, j2: int| i2 < i ==> !#[trigger] pair_hits(r, q, i2, j2),
        decreases reference.len() - i,
    {
        let mut j: usize = 0;
        while j < rotated.len()
            invariant
                i < reference.len(),
                j <= rotated.len(),
                r == pts_view(reference@),
                q == pts_view(rotated@),
                fits(r, q),
                forall|i2: int, j2: int|
                    (i2 < i || (i2 == i && j2 < j)) ==> !#[trigger] pair_hits(r, q, i2, j2),
            decreases rotated.len() - j,
        {
            proof {
                assert(r[i as int] == reference[i as int]@);
                assert(q[j as int] == rotated[j as int]@);
                assert(mag(r[i as int]) + mag(q[j as int]) + mag(q[j as int]) <= COORD_LIMIT);
                lemma_mag_add_sub(r[i as int], q[j as int]);
                lemma_mag_add_sub(q[j as int], q[j as int]);
            }
            let t = reference[i].sub(&rotated[j]);
            proof {
                assert forall|l: int| 0 <= l < rotated.len() implies mag(#[trigger] rotated[l]@) + mag(t@)
                    <= COORD_LIMIT by {
                    assert(q[l] == rotated[l]@);
                    assert(mag(r[i as int]) + mag(q[j as int]) + mag(q[l]) <= COORD_LIMIT);
                }
            }
            let moved = translate_points(rotated, &t);
            let count = shared_points(reference, &moved);
            if count >= MIN_OVERLAP {
                assert(first_pair(r, q, i as int, j as int));
                return Some((t, moved));
            }
            j += 1;
        }
        i += 1;
    }
    None
}

proof fn lemma_least(p: spec_fn(int) -> bool, n: int) -> (m: int)
    requires
        0 <= n,
        p(n),
    ensures
        0 <= m <= n,
        p(m),
        forall|l: int| 0 <= l < m ==> !#[trigger] p(l),
    decreases n,
{
    if exists|l: int| 0 <= l < n && #[trigger] p(l) {
        let l = choose|l: int| 0 <= l < n && #[trigger] p(l);
        lemma_least(p, l)
    } else {
        n
    }
}

/// Where any trial hits, a first one does.
pub proof fn lemma_first_hit_exists(r: Seq<V3>, c: Seq<V3>, k: int, i: int, j: int)
    requires
        trial_hits(r, c, k, i, j),
    ensures
        exists|k1: int, i1: int, j1: int| #[trigger] first_hit(r, c, k1, i1, j1),
{
    let pk = |k0: int| exists|i0: int, j0: int| #[trigger] trial_hits(r, c, k0, i0, j0);
    assert(pk(k));
    let k1 = lemma_least(pk, k);
    let (i0, j0) = choose|i0: int, j0: int| #[trigger] trial_hits(r, c, k1, i0, j0);
    let pi = |i2: int| exists|j2: int| #[trigger] trial_hits(r, c, k1, i2, j2);
    assert(pi(i0));
    let i1 = lemma_least(pi, i0);
    let j2 = choose|j2: int| #[trigger] trial_hits(r, c, k1, i1, j2);
    let pj = |j3: int| trial_hits(r, c, k1, i1, j3);
    assert(pj(j2));
    let j1 = lemma_least(pj, j2);
    assert forall|k2: int, i2: int, j3: int| earlier(k2, i2, j3, k1, i1, j1) implies !#[trigger] trial_hits(
        r,
        c,
        k2,
        i2,
        j3,
    ) by {
        if trial_hits(r, c, k2, i2, j3) {
            if k2 < k1 {
                assert(pk(k2));
            } else if i2 < i1 {
                assert(pi(i2));
            } else {
                assert(pj(j3));
            }
        }
    }
    assert(first_hit(r, c, k1, i1, j1));
}

proof fn lemma_first_hit_unique(r: Seq<V3>, c: Seq<V3>, k: int, i: int, j: int, k1: int, i1: int, j1: int)
    requires
        first_hit(r, c, k, i, j),
        first_hit(r, c, k1, i1, j1),
    ensures
        k == k1 && i == i1 && j == j1,
{
    if earlier(k, i, j, k1, i1, j1) {
        assert(!trial_hits(r, c, k, i, j));
    } else if earlier(k1, i1, j1, k, i, j) {
        assert(!trial_hits(r, c, k1, i1, j1));
    }
}

/// An alignment is found exactly where the clouds overlap.
pub proof fn lemma_alignment_iff_overlaps(r: Seq<V3>, c: Seq<V3>)
    ensures
        alignment(r, c) is Some <==> overlaps(r, c),
{
    if overlaps(r, c) {
        let (k, i, j) = choose|k: int, i: int, j: int| #[trigger] trial_hits(r, c, k, i, j);
        lemma_first_hit_exists(r, c, k, i, j);
    }
    if alignment(r, c) is Some {
        let (k, i, j) = choose|k: int, i: int, j: int| #[trigger] first_hit(r, c, k, i, j);
        assert(trial_hits(r, c, k, i, j));
    }
}

/// Searches the rotations in table order for the first rotation and shift
/// that make at least `MIN_OVERLAP` points of `candidate` coincide with points
/// of `reference`. Returns the candidate's origin in the reference frame and
/// its points in that frame.
pub fn find_overlap(reference: &Vec<Point>, candidate: &Vec<Point>) -> (found: Option<(Point, Vec<Point>)>)
    requires
        fits(pts_view(reference@), pts_view(candidate@)),
    ensures
        found_view(found) == alignment(pts_view(reference@), pts_view(candidate@)),
{
    let ghost r = pts_view(reference@);
    let ghost c = pts_view(candidate@);
    if reference.len() == 0 {
        proof {
            if exists|k1: int, i1: int, j1: int| #[trigger] first_hit(r, c, k1, i1, j1) {
                let (k1, i1, j1) = choose|k1: int, i1: int, j1: int| #[trigger] first_hit(r, c, k1, i1, j1);
                assert(trial_hits(r, c, k1, i1, j1));
            }
        }
        return None;
    }
    let mut k: usize = 0;
    while k < ROTATION_COUNT
        invariant
            k <= ROTATION_COUNT,
            reference.len() > 0,
            r == pts_view(reference@),
            c == pts_view(candidate@),
            fits(r, c),
            forall|k2: int, i2: int, j2: int| k2 < k ==> !#[trigger] trial_hits(r, c, k2, i2, j2),
        decreases ROTATION_COUNT - k,
    {
        proof {
            assert forall|l: int| 0 <= l < candidate.len() implies mag(#[trigger] candidate[l]@) <= COORD_LIMIT by {
                assert(c[l] == candidate[l]@);
                lemma_mag_add_sub(c[l], c[l]);
                lemma_mag_add_sub(r[0], r[0]);
                assert(mag(r[0]) + mag(c[l]) + mag(c[l]) <= COORD_LIMIT);
            }
        }
        let rotated = get_rotated_points(k, candidate);
        let ghost q = pts_view(rotated@);
        proof {
            assert forall|i: int, j: int, l: int|
                0 <= i < r.len() && 0 <= j < q.len() && 0 <= l < q.len() implies mag(#[trigger] r[i]) + mag(
                #[trigger] q[j],
            ) + mag(#[trigger] q[l]) <= COORD_LIMIT by {
                lemma_rotation_keeps_magnitudes(k as int, c[j]);
                lemma_rotation_keeps_magnitudes(k as int, c[l]);
            }
        }
        match points_overlap(reference, &rotated) {
            Some(hit) => {
                proof {
                    let (i, j) = choose|i: int, j: int|
                        #[trigger] first_pair(r, q, i, j) && hit.0@ == shift_of(r, q, i, j)
                            && pts_view(hit.1@) == translate_all(q, hit.0@);
                    assert forall|k2: int, i2: int, j2: int| earlier(k2, i2, j2, k as int, i, j) implies !#[trigger] trial_hits(
                        r,
                        c,
                        k2,
                        i2,
                        j2,
                    ) by {
                        if k2 == k {
                            assert(!pair_hits(r, q, i2, j2));
                        }
                    }
                    assert(first_hit(r, c, k as int, i, j));
                    let (k1, i1, j1) = choose|k1: int, i1: int, j1: int| #[trigger] first_hit(r, c, k1, i1, j1);
                    lemma_first_hit_unique(r, c, k as int, i, j, k1, i1, j1);
                }
                return Some(hit);
            },
            None => {
                assert forall|k2: int, i2: int, j2: int| k2 < k + 1 implies !#[trigger] trial_hits(r, c, k2, i2, j2) by {
                    if k2 == k {
                        assert(!pair_hits(r, q, i2, j2));
                    }
                }
            },
        }
        k += 1;
    }
    proof {
        if exists|k1: int, i1: int, j1: int| #[trigger] first_hit(r, c, k1, i1, j1) {
            let (k1, i1, j1) = choose|k1: int, i1: int, j1: int| #[trigger] first_hit(r, c, k1, i1, j1);
            assert(trial_hits(r, c, k1, i1, j1));
        }
    }
    None
}

/// Whether two clouds overlap does not depend on which one is the reference.
pub proof fn lemma_overlap_symmetric(a: Seq<V3>, b: Seq<V3>)
    requires
        alignment(a, b) is Some,
    ensures
        alignment(b, a) is Some,
{
    broadcast use seq_to_set_is_finite;
    broadcast use vstd::set::group_set_axioms;

    lemma_alignment_iff_overlaps(a, b);
    lemma_alignment_iff_overlaps(b, a);
    let (k, i, j) = choose|k: int, i: int, j: int| #[trigger] trial_hits(a, b, k, i, j);
    let q = rotate_all(k, b);
    let t = shift_of(a, q, i, j);
    let moved = translate_all(q, t);
    let s = a.to_set().intersect(moved.to_set());
    let ki = inverse_of(k);
    lemma_inverse(k);
    lemma_rotate_linear(ki);
    let p = rotate_all(ki, a);
    let t2 = shift_of(b, p, j, i);
    let moved2 = translate_all(p, t2);
    let s2 = b.to_set().intersect(moved2.to_set());
    let g = |x: V3| v_add(rotate(ki, x), t2);
    assert(rotate(ki, t) == v_sub(rotate(ki, a[i]), b[j])) by {
        assert(rotate(ki, q[j]) == b[j]);
    }
    assert forall|x: V3| s.contains(x) implies s2.contains(#[trigger] g(x)) by {
        let l = choose|l: int| 0 <= l < a.len() && a[l] == x;
        assert(moved2[l] == g(x));
        let m = choose|m: int| 0 <= m < moved.len() && moved[m] == x;
        assert(rotate(ki, x) == v_add(rotate(ki, rotate(k, b[m])), rotate(ki, t)));
        assert(g(x) == b[m]);
    }
    assert forall|x: V3, y: V3| s.contains(x) && s.contains(y) && #[trigger] g(x) == #[trigger] g(y) implies x == y by {
        assert(rotate(k, rotate(ki, x)) == rotate(k, rotate(ki, y)));
    }
    let image = s.map(g);
    lemma_map_size(s, image, g);
    assert(image.subset_of(s2));
    lemma_len_subset(image, s2);
    assert(trial_hits(b, a, ki, j, i));
}

/// Clouds that share at most `MIN_OVERLAP - 1` points under every rotation
/// and shift are not aligned.
pub proof fn lemma_below_threshold_not_aligned(r: Seq<V3>, c: Seq<V3>)
    requires
        forall|k: int, i: int, j: int|
            0 <= k < ROTATION_COUNT && 0 <= i < r.len() && 0 <= j < c.len() ==> shared_count(
                r,
                rotate_all(k, c),
                #[trigger] shift_of(r, rotate_all(k, c), i, j),
            ) < MIN_OVERLAP,
    ensures
        alignment(r, c) is None,
{
    lemma_alignment_iff_overlaps(r, c);
    if overlaps(r, c) {
        let (k, i, j) = choose|k: int, i: int, j: int| #[trigger] trial_hits(r, c, k, i, j);
        assert(shared_count(r, rotate_all(k, c), shift_of(r, rotate_all(k, c), i, j)) < MIN_OVERLAP);
    }
}

/// The aligned points and the position stay within the sum of the
/// magnitudes they were computed from.
pub proof fn lemma_alignment_bounds(r: Seq<V3>, c: Seq<V3>, mr: int, mc: int)
    requires
        forall|i: int| 0 <= i < r.len() ==> mag(#[trigger] r[i]) <= mr,
        forall|j: int| 0 <= j < c.len() ==> mag(#[trigger] c[j]) <= mc,
        alignment(r, c) is Some,
    ensures
        ({
            let (t, moved) = alignment(r, c)->Some_0;
            &&& mag(t) <= mr + mc
            &&& moved.len() == c.len()
            &&& forall|l: int| 0 <= l < moved.len() ==> mag(#[trigger] moved[l]) <= mr + 2 * mc
        }),
{
    let (k, i, j) = choose|k: int, i: int, j: int| #[trigger] first_hit(r, c, k, i, j);
    let q = rotate_all(k, c);
    let t = shift_of(r, q, i, j);
    lemma_rotation_keeps_magnitudes(k, c[j]);
    lemma_mag_add_sub(r[i], q[j]);
    assert forall|l: int| 0 <= l < q.len() implies mag(#[trigger] translate_all(q, t)[l]) <= mr + 2 * mc by {
        lemma_rotation_keeps_magnitudes(k, c[l]);
        lemma_mag_add_sub(q[l], t);
    }
}

} // verus!
