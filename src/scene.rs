//! The linear scene: primitives in insertion order, scanned one by one.
use vstd::prelude::*;
use crate::aabb::{AABB, surrounding_box};
use crate::bvh::union_all;
use crate::hits::{HitInfo, valid_t, time_of};

verus! {

/// Nearest valid hit found by scanning `ts` in order; a later hit replaces
/// the current one only when strictly nearer.
pub open spec fn scan_time(ts: Seq<Option<i64>>, tmin: i64, tmax: i64) -> Option<i64>
    decreases ts.len(),
{
    if ts.len() == 0 {
        None
    } else {
        let rest = scan_time(ts.drop_last(), tmin, tmax);
        let o = ts.last();
        if valid_t(o, tmin, tmax) && (rest is None || o->0 < rest->0) {
            o
        } else {
            rest
        }
    }
}

/// The scan finds the least valid hit, and nothing when there is none.
pub proof fn lemma_scan_min(ts: Seq<Option<i64>>, tmin: i64, tmax: i64)
    ensures
        (scan_time(ts, tmin, tmax) is None) == (forall|p: int|
            0 <= p < ts.len() ==> !valid_t(#[trigger] ts[p], tmin, tmax)),
        scan_time(ts, tmin, tmax) is Some ==> (exists|p: int|
            0 <= p < ts.len() && #[trigger] ts[p] == scan_time(ts, tmin, tmax)
            && valid_t(ts[p], tmin, tmax)),
        scan_time(ts, tmin, tmax) is Some ==> (forall|p: int|
            0 <= p < ts.len() && valid_t(#[trigger] ts[p], tmin, tmax)
            ==> scan_time(ts, tmin, tmax)->0 <= ts[p]->0),
    decreases ts.len(),
{
    if ts.len() > 0 {
        let init = ts.drop_last();
        lemma_scan_min(init, tmin, tmax);
        assert forall|p: int| 0 <= p < init.len() implies #[trigger] init[p] == ts[p] by {}
        let t = scan_time(ts, tmin, tmax);
        let rest = scan_time(init, tmin, tmax);
        if rest is Some {
            let q = choose|q: int| 0 <= q < init.len() && init[q] == rest && valid_t(init[q], tmin, tmax);
            assert(ts[q] == rest);
        }
        if t is None {
            assert forall|p: int| 0 <= p < ts.len() implies !valid_t(#[trigger] ts[p], tmin, tmax) by {
                if p < init.len() {
                    assert(init[p] == ts[p]);
                }
            }
        }
        assert forall|p: int| 0 <= p < ts.len() && valid_t(#[trigger] ts[p], tmin, tmax) && t is Some
            implies t->0 <= ts[p]->0 by {
            if p < init.len() {
                assert(init[p] == ts[p]);
            }
        }
        if t is Some && t == ts.last() {
            assert(ts[ts.len() - 1] == t);
        }
    }
}

/// Primitives in insertion order, each known by its bounding box.
pub struct Scene {
    pub hitables: Vec<AABB>,
}

impl Scene {
    pub fn new() -> (r: Scene)
        ensures
            r.hitables@ == Seq::<AABB>::empty(),
    {
        Scene { hitables: Vec::new() }
    }

    /// Appends a primitive with box `hitable`.
    pub fn add(&mut self, hitable: AABB)
        ensures
            final(self).hitables@ == old(self).hitables@.push(hitable),
    {
        self.hitables.push(hitable);
    }

    /// The nearest hit in `(time_min, time_max)`, where `prim_t[i]` is where
    /// primitive `i` was hit, if at all; the first of equal hits is kept.
    pub fn hit(&self, prim_t: &Vec<Option<i64>>, time_min: i64, time_max: i64) -> (res: Option<
        HitInfo,
    >)
        requires
            prim_t.len() == self.hitables.len(),
        ensures
            time_of(res) == scan_time(prim_t@, time_min, time_max),
            res matches Some(h) ==> h.prim < prim_t.len() && prim_t[h.prim as int] == Some(h.time),
            res is None <==> forall|p: int|
                0 <= p < prim_t.len() ==> !valid_t(#[trigger] prim_t[p], time_min, time_max),
            res matches Some(h) ==> valid_t(prim_t[h.prim as int], time_min, time_max),
            res matches Some(h) ==> forall|p: int|
                0 <= p < prim_t.len() && valid_t(#[trigger] prim_t[p], time_min, time_max)
                    ==> h.time <= prim_t[p]->0,
            res matches Some(h) ==> forall|p: int|
                0 <= p < h.prim && valid_t(#[trigger] prim_t[p], time_min, time_max) ==> prim_t[p]->0
                    > h.time,
    {
        let mut closest = time_max;
        let mut temp_info: Option<HitInfo> = None;
        let mut i: usize = 0;
        while i < prim_t.len()
            invariant
                i <= prim_t.len(),
                time_of(temp_info) == scan_time(prim_t@.subrange(0, i as int), time_min, time_max),
                temp_info matches Some(h) ==> h.prim < prim_t.len() && prim_t[h.prim as int] == Some(
                    h.time,
                ) && closest == h.time,
                temp_info is None ==> closest == time_max,
                closest <= time_max,
                temp_info matches Some(h) ==> h.prim < i,
                temp_info is None ==> forall|p: int|
                    0 <= p < i ==> !valid_t(#[trigger] prim_t[p], time_min, time_max),
                temp_info matches Some(h) ==> forall|p: int|
                    0 <= p < i && valid_t(#[trigger] prim_t[p], time_min, time_max) ==> prim_t[p]->0
                        >= h.time,
                temp_info matches Some(h) ==> forall|p: int|
                    0 <= p < h.prim && valid_t(#[trigger] prim_t[p], time_min, time_max)
                        ==> prim_t[p]->0 > h.time,
            decreases prim_t.len() - i,
        {
            let ghost prev = prim_t@.subrange(0, i as int);
            assert(prim_t@.subrange(0, i + 1).drop_last() =~= prev);
            if let Some(t) = prim_t[i] {
                if time_min < t && t < closest {
                    closest = t;
                    temp_info = Some(HitInfo { time: t, prim: i });
                }
            }
            i = i + 1;
        }
        assert(prim_t@.subrange(0, i as int) =~= prim_t@);
        proof {
            lemma_scan_min(prim_t@, time_min, time_max);
        }
        temp_info
    }

    /// The union of the boxes of all primitives; `None` for an empty scene.
    pub fn bounding_box(&self) -> (r: Option<AABB>)
        ensures
            self.hitables.len() == 0 ==> r is None,
            self.hitables.len() > 0 ==> r == Some(union_all(self.hitables@)),
    {
        if self.hitables.len() == 0 {
            return None;
        }
        let ghost bs = self.hitables@;
        let mut bb = self.hitables[0];
        let mut i: usize = 1;
        assert(bs.subrange(0, 1).drop_last().len() == 0);
        while i < self.hitables.len()
            invariant
                1 <= i <= self.hitables.len(),
                bs == self.hitables@,
                bb == union_all(bs.subrange(0, i as int)),
            decreases self.hitables.len() - i,
        {
            bb = surrounding_box(&bb, &self.hitables[i]);
            assert(bs.subrange(0, i + 1).drop_last() =~= bs.subrange(0, i as int));
            i = i + 1;
        }
        assert(bs.subrange(0, i as int) =~= bs);
        Some(bb)
    }
}

} // verus!
