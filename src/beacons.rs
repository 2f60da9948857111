use vstd::prelude::*;
use crate::point::{Point, V3, pts_view};

verus! {

/// The distinct beacon positions found so far, in the global frame.
pub struct BeaconSet {
    points: Vec<Point>,
}

impl View for BeaconSet {
    type V = Set<V3>;

    closed spec fn view(&self) -> Set<V3> {
        pts_view(self.points@).to_set()
    }
}

impl BeaconSet {
    /// No position is held twice.
    pub closed spec fn wf(&self) -> bool {
        pts_view(self.points@).no_duplicates()
    }

    pub fn new() -> (r: BeaconSet)
        ensures
            r.wf(),
            r@ == Set::<V3>::empty(),
    {
        let r = BeaconSet { points: Vec::new() };
        assert(pts_view(r.points@).to_set() =~= Set::<V3>::empty());
        r
    }

    pub fn contains(&self, p: &Point) -> (r: bool)
        ensures
            r == self@.contains(p@),
    {
        let mut i: usize = 0;
        while i < self.points.len()
            invariant
                i <= self.points.len(),
                forall|j: int| 0 <= j < i ==> self.points[j]@ != p@,
            decreases self.points.len() - i,
        {
            if self.points[i] == *p {
                assert(pts_view(self.points@)[i as int] == p@);
                return true;
            }
            i += 1;
        }
        proof {
            if self@.contains(p@) {
                let j = choose|j: int| 0 <= j < pts_view(self.points@).len() && pts_view(self.points@)[j] == p@;
                assert(self.points[j]@ == p@);
            }
        }
        false
    }

    /// Inserts `p` unless an equal position is already held.
    pub fn add(&mut self, p: Point)
        requires
            old(self).wf(),
        ensures
            final(self).wf(),
            final(self)@ == old(self)@.insert(p@),
    {
        if !self.contains(&p) {
            let ghost before = pts_view(self.points@);
            self.points.push(p);
            assert(pts_view(self.points@) =~= before.push(p@));
            proof {
                before.lemma_push_to_set_commute(p@);
            }
        } else {
            assert(old(self)@.insert(p@) =~= old(self)@);
        }
    }

    /// Inserts each point that is not held yet.
    pub fn add_all(&mut self, points: &Vec<Point>)
        requires
            old(self).wf(),
        ensures
            final(self).wf(),
            final(self)@ == old(self)@ + pts_view(points@).to_set(),
    {
        let mut i: usize = 0;
        while i < points.len()
            invariant
                i <= points.len(),
                self.wf(),
                self@ == old(self)@ + pts_view(points@.take(i as int)).to_set(),
            decreases points.len() - i,
        {
            self.add(points[i]);
            proof {
                assert(pts_view(points@.take(i + 1)) =~= pts_view(points@.take(i as int)).push(points[i as int]@));
                pts_view(points@.take(i as int)).lemma_push_to_set_commute(points[i as int]@);
            }
            i += 1;
            proof {
                assert(self@ =~= old(self)@ + pts_view(points@.take(i as int)).to_set());
            }
        }
        assert(points@.take(i as int) =~= points@);
    }

    /// The number of distinct positions held.
    pub fn count(&self) -> (r: usize)
        requires
            self.wf(),
        ensures
            r == self@.len(),
    {
        proof {
            pts_view(self.points@).unique_seq_to_set();
        }
        self.points.len()
    }
}

} // verus!
