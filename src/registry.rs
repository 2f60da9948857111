use vstd::prelude::*;
use crate::point::{Point, V3, abs, mag, pts_view, copy_points};
use crate::overlap::{alignment, fits, find_overlap, found_view, lemma_alignment_bounds};
use crate::beacons::BeaconSet;

verus! {

/// The largest coordinate magnitude of a point in a scanner's own frame.
pub const LOCAL_LIMIT: i64 = 0x8000_0000;

/// The largest number of scanners that one registration takes.
pub const MAX_SCANNERS: usize = 0x4000_0000;

/// A scanner: its beacons in its own frame and, once registered, its
/// position and its beacons in the global frame.
#[derive(Debug)]
pub struct Scanner {
    pub num: u8,
    pub points: Vec<Point>,
    pub location: Option<Point>,
    pub global_points: Option<Vec<Point>>,
}

impl Scanner {
    /// Either not registered, or registered with one global point per local one.
    pub open spec fn wf(&self) -> bool {
        match (self.location, self.global_points) {
            (None, None) => true,
            (Some(_), Some(g)) => g.len() == self.points.len(),
            _ => false,
        }
    }

    pub open spec fn is_registered(&self) -> bool {
        self.location is Some
    }

    pub fn new(num: u8) -> (r: Scanner)
        ensures
            r.num == num,
            r.points@ == Seq::<Point>::empty(),
            !r.is_registered(),
            r.wf(),
    {
        Scanner { num, points: Vec::new(), location: None, global_points: None }
    }

    pub fn add_point(&mut self, point: Point)
        ensures
            final(self).num == old(self).num,
            final(self).points@ == old(self).points@.push(point),
            final(self).location == old(self).location,
            final(self).global_points == old(self).global_points,
    {
        self.points.push(Point { x: point.x, y: point.y, z: point.z });
    }
}

/// The outcome of a registration that placed every scanner.
pub struct Registration {
    /// The scanners in the order in which they were registered.
    pub scanners: Vec<Scanner>,
    pub beacons: BeaconSet,
}

#[derive(Debug, Clone, Copy, PartialEq, Eq, Structural)]
pub enum RegistrationError {
    /// A full pass found no new alignment while scanners were still pending.
    UnsolvableOverlapGraph { unregistered: usize },
}

/// A registered scanner in the model: its index in the input, its position,
/// and its beacons in the global frame.
pub type Placed = (int, V3, Seq<V3>);

pub open spec fn local_view(sc: Seq<Scanner>, u: int) -> Seq<V3> {
    pts_view(sc[u].points@)
}

/// One pass of the pending scanners, in order, against one reference: those
/// that align are placed, the others stay pending.
pub open spec fn sweep(sc: Seq<Scanner>, reference: Seq<V3>, pending: Seq<int>) -> (Seq<Placed>, Seq<int>)
    decreases pending.len(),
{
    if pending.len() == 0 {
        (Seq::empty(), Seq::empty())
    } else {
        let (placed, rest) = sweep(sc, reference, pending.drop_last());
        let u = pending.last();
        match alignment(reference, local_view(sc, u)) {
            Some((pos, glob)) => (placed.push((u, pos, glob)), rest),
            None => (placed, rest.push(u)),
        }
    }
}

/// Each registered scanner in turn, from `next` on, serves once as the
/// reference for a pass over the pending ones.
pub open spec fn propagate(sc: Seq<Scanner>, fixed: Seq<Placed>, next: int, pending: Seq<int>) -> Result<Seq<Placed>, nat>
    decreases sc.len() - next,
{
    if pending.len() == 0 {
        Ok(fixed)
    } else if next < 0 || next >= fixed.len() || next >= sc.len() {
        Err(pending.len())
    } else {
        let (placed, rest) = sweep(sc, fixed[next].2, pending);
        propagate(sc, fixed + placed, next + 1, rest)
    }
}

/// The registration of the scanners `sc`: the last one is the origin, with
/// its own frame as the global frame; the others are pending in input order.
pub open spec fn registration(sc: Seq<Scanner>) -> Result<Seq<Placed>, nat> {
    if sc.len() == 0 {
        Ok(Seq::empty())
    } else {
        let o = sc.len() - 1;
        propagate(sc, seq![(o, (0int, 0int, 0int), local_view(sc, o))], 0, Seq::new(o as nat, |u: int| u))
    }
}

/// The beacons of all placed scanners.
pub open spec fn beacons_of(placed: Seq<Placed>) -> Set<V3>
    decreases placed.len(),
{
    if placed.len() == 0 {
        Set::empty()
    } else {
        beacons_of(placed.drop_last()) + placed.last().2.to_set()
    }
}

/// `s` is input scanner `pl.0` registered as `pl` says.
pub open spec fn describes(sc: Seq<Scanner>, s: Scanner, pl: Placed) -> bool {
    &&& 0 <= pl.0 < sc.len()
    &&& s.num == sc[pl.0].num
    &&& s.points@ == sc[pl.0].points@
    &&& s.location matches Some(p) && p@ == pl.1
    &&& s.global_points matches Some(g) && pts_view(g@) == pl.2
}

/// Every point of every scanner fits a coordinate of a 32-bit integer.
pub open spec fn input_ok(sc: Seq<Scanner>) -> bool {
    &&& sc.len() <= MAX_SCANNERS
    &&& forall|u: int, l: int|
        0 <= u < sc.len() && 0 <= l < sc[u].points.len() ==> mag(#[trigger] sc[u].points[l]@) <= LOCAL_LIMIT
}

/// `r` is what registering `sc` gives.
pub open spec fn outcome_of(sc: Seq<Scanner>, r: Result<Registration, RegistrationError>) -> bool {
    match registration(sc) {
        Ok(placed) => r matches Ok(reg) && {
            &&& reg.scanners.len() == placed.len()
            &&& forall|m: int| 0 <= m < placed.len() ==> describes(sc, #[trigger] reg.scanners[m], placed[m])
            &&& reg.beacons.wf()
            &&& reg.beacons@ == beacons_of(placed)
        },
        Err(n) => r == Err::<Registration, RegistrationError>(
            RegistrationError::UnsolvableOverlapGraph { unregistered: n as usize },
        ),
    }
}

pub open spec fn idx_view(p: Seq<usize>) -> Seq<int> {
    p.map_values(|u: usize| u as int)
}

/// Registers all scanners: the last one is fixed at the origin, and each
/// registered scanner in turn is tried, once, as the reference for every
/// scanner still pending. Fails when the registered scanners run out while
/// some are still pending.
pub fn register_scanners(scanners: &Vec<Scanner>) -> (r: Result<Registration, RegistrationError>)
    requires
        input_ok(scanners@),
    ensures
        outcome_of(scanners@, r),
        r matches Ok(reg) ==> reg.scanners.len() == scanners.len(),
{
    let ghost sc = scanners@;
    proof {
        lemma_all_registered(sc);
    }
    let n = scanners.len();
    if n == 0 {
        let reg = Registration { scanners: Vec::new(), beacons: BeaconSet::new() };
        return Ok(reg);
    }
    let o = n - 1;
    let origin = Scanner {
        num: scanners[o].num,
        points: copy_points(&scanners[o].points),
        location: Some(Point::new(0, 0, 0)),
        global_points: Some(copy_points(&scanners[o].points)),
    };
    let mut globals: Vec<Vec<Point>> = Vec::new();
    globals.push(copy_points(&scanners[o].points));
    let mut fixed: Vec<Scanner> = Vec::new();
    fixed.push(origin);
    let mut beacons = BeaconSet::new();
    beacons.add_all(&scanners[o].points);
    let ghost mut gfixed: Seq<Placed> = seq![(o as int, (0int, 0int, 0int), local_view(sc, o as int))];
    let mut pending: Vec<usize> = Vec::new();
    let mut u: usize = 0;
    while u < o
        invariant
            u <= o,
            pending.len() == u,
            forall|v: int| 0 <= v < u ==> pending[v] == v,
        decreases o - u,
    {
        pending.push(u);
        u += 1;
    }
    assert(idx_view(pending@) =~= Seq::new(o as nat, |v: int| v));
    let ghost mut gpending: Seq<int> = idx_view(pending@);
    proof {
        assert(gfixed.drop_last() =~= Seq::<Placed>::empty());
        assert(beacons_of(Seq::<Placed>::empty()) == Set::<V3>::empty());
        assert(beacons@ =~= beacons_of(gfixed));
    }
    let mut next: usize = 0;
    while pending.len() > 0
        invariant
            sc == scanners@,
            input_ok(sc),
            n == sc.len(),
            n > 0,
            fixed.len() == gfixed.len(),
            globals.len() == gfixed.len(),
            forall|m: int| 0 <= m < gfixed.len() ==> describes(sc, #[trigger] fixed[m], gfixed[m]),
            forall|m: int| 0 <= m < gfixed.len() ==> pts_view(#[trigger] globals[m]@) == gfixed[m].2,
            forall|m: int, l: int|
                0 <= m < gfixed.len() && 0 <= l < gfixed[m].2.len() ==> mag(#[trigger] gfixed[m].2[l])
                    <= (2 * m + 1) * LOCAL_LIMIT,
            idx_view(pending@) == gpending,
            forall|l: int| 0 <= l < gpending.len() ==> 0 <= #[trigger] gpending[l] < n,
            gfixed.len() + gpending.len() == n,
            next <= gfixed.len(),
            beacons.wf(),
            beacons@ == beacons_of(gfixed),
            propagate(sc, gfixed, next as int, gpending) == registration(sc),
        decreases n - next,
    {
        if next >= fixed.len() {
            return Err(RegistrationError::UnsolvableOverlapGraph { unregistered: pending.len() });
        }
        let ghost reference = gfixed[next as int].2;
        let mut rest: Vec<usize> = Vec::new();
        let mut new_fixed: Vec<Scanner> = Vec::new();
        let mut new_globals: Vec<Vec<Point>> = Vec::new();
        let ghost mut placed: Seq<Placed> = Seq::empty();
        let ghost mut grest: Seq<int> = Seq::empty();
        let mut idx: usize = 0;
        proof {
            assert(gpending.take(0) =~= Seq::<int>::empty());
            assert(gfixed + placed =~= gfixed);
        }
        while idx < pending.len()
            invariant
                sc == scanners@,
                input_ok(sc),
                n == sc.len(),
                next < gfixed.len(),
                gfixed.len() <= n,
                globals.len() == gfixed.len(),
                pts_view(globals[next as int]@) == reference,
                reference == gfixed[next as int].2,
                forall|l: int| 0 <= l < reference.len() ==> mag(#[trigger] reference[l]) <= (2 * next + 1) * LOCAL_LIMIT,
                idx <= pending.len(),
                idx_view(pending@) == gpending,
                forall|l: int| 0 <= l < gpending.len() ==> 0 <= #[trigger] gpending[l] < n,
                (placed, grest) == sweep(sc, reference, gpending.take(idx as int)),
                placed.len() + grest.len() == idx,
                new_fixed.len() == placed.len(),
                new_globals.len() == placed.len(),
                forall|m: int| 0 <= m < placed.len() ==> describes(sc, #[trigger] new_fixed[m], placed[m]),
                forall|m: int| 0 <= m < placed.len() ==> pts_view(#[trigger] new_globals[m]@) == placed[m].2,
                forall|m: int, l: int|
                    0 <= m < placed.len() && 0 <= l < placed[m].2.len() ==> mag(#[trigger] placed[m].2[l])
                        <= (2 * next + 3) * LOCAL_LIMIT,
                idx_view(rest@) == grest,
                forall|l: int| 0 <= l < grest.len() ==> 0 <= #[trigger] grest[l] < n,
                beacons.wf(),
                beacons@ == beacons_of(gfixed + placed),
            decreases pending.len() - idx,
        {
            let u = pending[idx];
            let ghost gu = gpending[idx as int];
            assert(gu == u as int);
            let ghost local = local_view(sc, gu);
            proof {
                assert(forall|l: int| 0 <= l < local.len() ==> mag(#[trigger] local[l]) <= LOCAL_LIMIT) by {
                    assert forall|l: int| 0 <= l < local.len() implies mag(#[trigger] local[l]) <= LOCAL_LIMIT by {
                        assert(local[l] == sc[gu].points[l]@);
                    }
                }
                assert(fits(reference, local));
                assert(gpending.take(idx + 1).drop_last() =~= gpending.take(idx as int));
                assert(gpending.take(idx + 1).last() == gu);
            }
            let found = find_overlap(&globals[next], &scanners[u].points);
            match found {
                Some((pos, glob)) => {
                    proof {
                        lemma_alignment_bounds(reference, local, (2 * next + 1) * LOCAL_LIMIT, LOCAL_LIMIT as int);
                    }
                    beacons.add_all(&glob);
                    let s = Scanner {
                        num: scanners[u].num,
                        points: copy_points(&scanners[u].points),
                        location: Some(pos),
                        global_points: Some(copy_points(&glob)),
                    };
                    new_fixed.push(s);
                    new_globals.push(glob);
                    proof {
                        let old_placed = placed;
                        placed = placed.push((gu, pos@, pts_view(glob@)));
                        assert(gfixed + placed =~= (gfixed + old_placed).push((gu, pos@, pts_view(glob@))));
                        assert((gfixed + placed).drop_last() =~= gfixed + old_placed);
                    }
                },
                None => {
                    rest.push(u);
                    proof {
                        grest = grest.push(gu);
                        assert(idx_view(rest@) =~= grest);
                    }
                },
            }
            idx += 1;
        }
        proof {
            assert(gpending.take(idx as int) =~= gpending);
            assert(propagate(sc, gfixed, next as int, gpending) == propagate(sc, gfixed + placed, next + 1, grest));
            assert forall|m: int, l: int|
                0 <= m < (gfixed + placed).len() && 0 <= l < (gfixed + placed)[m].2.len() implies mag(
                #[trigger] (gfixed + placed)[m].2[l],
            ) <= (2 * m + 1) * LOCAL_LIMIT by {
                if m >= gfixed.len() {
                    assert((gfixed + placed)[m] == placed[m - gfixed.len()]);
                }
            }
        }
        let ghost nf = new_fixed@;
        let ghost ng = new_globals@;
        fixed.append(&mut new_fixed);
        globals.append(&mut new_globals);
        pending = rest;
        proof {
            assert forall|m: int| 0 <= m < gfixed.len() + placed.len() implies describes(
                sc,
                #[trigger] fixed[m],
                (gfixed + placed)[m],
            ) by {
                if m >= gfixed.len() {
                    assert(fixed[m] == nf[m - gfixed.len()]);
                }
            }
            assert forall|m: int| 0 <= m < gfixed.len() + placed.len() implies pts_view(#[trigger] globals[m]@)
                == (gfixed + placed)[m].2 by {
                if m >= gfixed.len() {
                    assert(globals[m] == ng[m - gfixed.len()]);
                }
            }
            gfixed = gfixed + placed;
            gpending = grest;
        }
        next += 1;
    }
    Ok(Registration { scanners: fixed, beacons })
}

/// What a registration shows: for each registered scanner in order its id,
/// position and global beacons, and the set of all beacons; or the error.
pub open spec fn summary(r: Result<Registration, RegistrationError>) -> Result<(Seq<(u8, V3, Seq<V3>)>, Set<V3>), RegistrationError> {
    match r {
        Ok(reg) => Ok((
            Seq::new(
                reg.scanners.len() as nat,
                |m: int|
                    (
                        reg.scanners[m].num,
                        reg.scanners[m].location->Some_0@,
                        pts_view(reg.scanners[m].global_points->Some_0@),
                    ),
            ),
            reg.beacons@,
        )),
        Err(e) => Err(e),
    }
}

/// Registration is deterministic: two runs on the same scanners give the
/// same ids, positions and global beacons in the same order, and the same
/// beacons, hence the same beacon count.
pub proof fn lemma_registration_deterministic(
    sc: Seq<Scanner>,
    a: Result<Registration, RegistrationError>,
    b: Result<Registration, RegistrationError>,
)
    requires
        outcome_of(sc, a),
        outcome_of(sc, b),
    ensures
        summary(a) == summary(b),
        a is Ok ==> a->Ok_0.beacons@.len() == b->Ok_0.beacons@.len(),
{
    if let Ok(placed) = registration(sc) {
        let ra = a->Ok_0;
        let rb = b->Ok_0;
        let sa = summary(a)->Ok_0.0;
        let sb = summary(b)->Ok_0.0;
        assert forall|m: int| 0 <= m < sa.len() implies sa[m] == sb[m] by {
            assert(describes(sc, ra.scanners[m], placed[m]));
            assert(describes(sc, rb.scanners[m], placed[m]));
        }
        assert(sa =~= sb);
    }
}

/// Two scanners whose clouds do not align under any rotation and shift
/// leave registration unsolvable, with one scanner unregistered.
pub proof fn lemma_disjoint_pair_unsolvable(sc: Seq<Scanner>)
    requires
        sc.len() == 2,
        alignment(local_view(sc, 1), local_view(sc, 0)) is None,
    ensures
        registration(sc) == Err::<Seq<Placed>, nat>(1),
{
    let fixed = seq![(1int, (0int, 0int, 0int), local_view(sc, 1))];
    let pending = Seq::new(1, |u: int| u);
    assert(pending.drop_last() =~= Seq::<int>::empty());
    assert(pending.last() == 0);
    assert(sweep(sc, local_view(sc, 1), Seq::<int>::empty()) == (Seq::<Placed>::empty(), Seq::<int>::empty()));
    let (placed, rest) = sweep(sc, local_view(sc, 1), pending);
    assert(placed =~= Seq::<Placed>::empty());
    assert(rest =~= seq![0int]);
    assert(fixed + placed =~= fixed);
    assert(propagate(sc, fixed, 0, pending) == propagate(sc, fixed, 1, rest));
}

/// Input scanner `u` is among `placed`.
pub open spec fn is_placed(placed: Seq<Placed>, u: int) -> bool {
    exists|m: int| 0 <= m < placed.len() && (#[trigger] placed[m]).0 == u
}

/// Input scanner `u` is among `pending`.
pub open spec fn is_pending(pending: Seq<int>, u: int) -> bool {
    exists|l: int| 0 <= l < pending.len() && #[trigger] pending[l] == u
}

proof fn lemma_sweep_keeps(sc: Seq<Scanner>, reference: Seq<V3>, pending: Seq<int>)
    ensures
        ({
            let (placed, rest) = sweep(sc, reference, pending);
            &&& placed.len() + rest.len() == pending.len()
            &&& forall|l: int|
                0 <= l < pending.len() ==> is_placed(placed, #[trigger] pending[l]) || is_pending(rest, pending[l])
        }),
    decreases pending.len(),
{
    if pending.len() > 0 {
        let front = pending.drop_last();
        lemma_sweep_keeps(sc, reference, front);
        let (placed, rest) = sweep(sc, reference, pending);
        let (head_placed, head_rest) = sweep(sc, reference, front);
        assert forall|l: int| 0 <= l < pending.len() implies is_placed(placed, #[trigger] pending[l]) || is_pending(
            rest,
            pending[l],
        ) by {
            if l == pending.len() - 1 {
                if placed.len() > head_placed.len() {
                    assert(placed[head_placed.len() as int].0 == pending[l]);
                } else {
                    assert(rest[head_rest.len() as int] == pending[l]);
                }
            } else {
                assert(front[l] == pending[l]);
                if is_placed(head_placed, front[l]) {
                    let m = choose|m: int| 0 <= m < head_placed.len() && (#[trigger] head_placed[m]).0 == front[l];
                    assert(placed[m] == head_placed[m]);
                } else {
                    let m = choose|m: int| 0 <= m < head_rest.len() && #[trigger] head_rest[m] == front[l];
                    assert(rest[m] == head_rest[m]);
                }
            }
        }
    }
}

proof fn lemma_propagate_places_all(sc: Seq<Scanner>, fixed: Seq<Placed>, next: int, pending: Seq<int>)
    requires
        fixed.len() + pending.len() == sc.len(),
        forall|u: int| 0 <= u < sc.len() ==> is_placed(fixed, u) || is_pending(pending, u),
    ensures
        propagate(sc, fixed, next, pending) matches Ok(f) ==> f.len() == sc.len() && forall|u: int|
            0 <= u < sc.len() ==> #[trigger] is_placed(f, u),
    decreases sc.len() - next,
{
    if pending.len() > 0 && !(next < 0 || next >= fixed.len() || next >= sc.len()) {
        let (placed, rest) = sweep(sc, fixed[next].2, pending);
        lemma_sweep_keeps(sc, fixed[next].2, pending);
        let f2 = fixed + placed;
        assert forall|u: int| 0 <= u < sc.len() implies is_placed(f2, u) || is_pending(rest, u) by {
            if is_placed(fixed, u) {
                let m = choose|m: int| 0 <= m < fixed.len() && (#[trigger] fixed[m]).0 == u;
                assert(f2[m] == fixed[m]);
            } else {
                let l = choose|l: int| 0 <= l < pending.len() && #[trigger] pending[l] == u;
                if is_placed(placed, pending[l]) {
                    let m = choose|m: int| 0 <= m < placed.len() && (#[trigger] placed[m]).0 == u;
                    assert(f2[fixed.len() + m] == placed[m]);
                }
            }
        }
        lemma_propagate_places_all(sc, f2, next + 1, rest);
    } else if pending.len() == 0 {
        assert forall|u: int| 0 <= u < sc.len() implies #[trigger] is_placed(fixed, u) by {
            assert(!is_pending(pending, u));
        }
    }
}

/// A registration that succeeds places every input scanner, and places as
/// many scanners as there are.
pub proof fn lemma_all_registered(sc: Seq<Scanner>)
    ensures
        registration(sc) matches Ok(placed) ==> {
            &&& placed.len() == sc.len()
            &&& forall|u: int| 0 <= u < sc.len() ==> #[trigger] is_placed(placed, u)
        },
{
    if sc.len() > 0 {
        let o = sc.len() - 1;
        let fixed = seq![(o, (0int, 0int, 0int), local_view(sc, o))];
        let pending = Seq::new(o as nat, |u: int| u);
        assert forall|u: int| 0 <= u < sc.len() implies is_placed(fixed, u) || is_pending(pending, u) by {
            if u == o {
                assert(fixed[0].0 == u);
            } else {
                assert(pending[u] == u);
            }
        }
        lemma_propagate_places_all(sc, fixed, 0, pending);
    }
}

pub open spec fn manhattan(a: V3, b: V3) -> int {
    abs(a.0 - b.0) + abs(a.1 - b.1) + abs(a.2 - b.2)
}

/// The largest Manhattan distance between two of the given positions, or 0
/// where there are none.
pub fn max_manhattan_distance(positions: &Vec<Point>) -> (r: u128)
    ensures
        forall|i: int, j: int|
            0 <= i < positions.len() && 0 <= j < positions.len() ==> r >= manhattan(
                #[trigger] positions[i]@,
                #[trigger] positions[j]@,
            ),
        positions.len() == 0 ==> r == 0,
        positions.len() > 0 ==> exists|i: int, j: int|
            0 <= i < positions.len() && 0 <= j < positions.len() && r == manhattan(
                #[trigger] positions[i]@,
                #[trigger] positions[j]@,
            ),
{
    let mut best: u128 = 0;
    let mut i: usize = 0;
    while i < positions.len()
        invariant
            i <= positions.len(),
            forall|i2: int, j2: int|
                0 <= i2 < i && 0 <= j2 < positions.len() ==> best >= manhattan(
                    #[trigger] positions[i2]@,
                    #[trigger] positions[j2]@,
                ),
            i == 0 ==> best == 0,
            i > 0 ==> exists|i2: int, j2: int|
                0 <= i2 < positions.len() && 0 <= j2 < positions.len() && best == manhattan(
                    #[trigger] positions[i2]@,
                    #[trigger] positions[j2]@,
                ),
        decreases positions.len() - i,
    {
        let mut j: usize = 0;
        let ghost first = i == 0;
        while j < positions.len()
            invariant
                i < positions.len(),
                j <= positions.len(),
                forall|i2: int, j2: int|
                    0 <= i2 < i && 0 <= j2 < positions.len() ==> best >= manhattan(
                        #[trigger] positions[i2]@,
                        #[trigger] positions[j2]@,
                    ),
                forall|j2: int| 0 <= j2 < j ==> best >= manhattan(positions[i as int]@, #[trigger] positions[j2]@),
                (i == 0 && j == 0) ==> best == 0,
                (i > 0 || j > 0) ==> exists|i2: int, j2: int|
                    0 <= i2 < positions.len() && 0 <= j2 < positions.len() && best == manhattan(
                        #[trigger] positions[i2]@,
                        #[trigger] positions[j2]@,
                    ),
            decreases positions.len() - j,
        {
            let a = positions[i];
            let b = positions[j];
            let dx: i128 = a.x as i128 - b.x as i128;
            let dy: i128 = a.y as i128 - b.y as i128;
            let dz: i128 = a.z as i128 - b.z as i128;
            let ax: i128 = if dx < 0 { -dx } else { dx };
            let ay: i128 = if dy < 0 { -dy } else { dy };
            let az: i128 = if dz < 0 { -dz } else { dz };
            let d = (ax + ay + az) as u128;
            assert(d == manhattan(positions[i as int]@, positions[j as int]@));
            if d > best || (i == 0 && j == 0) {
                best = d;
            }
            j += 1;
        }
        i += 1;
    }
    best
}

} // verus!
