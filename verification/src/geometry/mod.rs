//! What a ray can hit: the hit record, the capability of being hit, and the
//! scene as a list of such things.
use vstd::prelude::*;
use core::ops::Neg;
use crate::fixed::{SCALE, WIDE};
use crate::geometry::interval::Interval;
use crate::geometry::nearest::{inside, lemma_nearest, lemma_nearest_concat,
    lemma_nearest_parameter_unordered, lemma_nearest_unordered, nearest};
use crate::ray::{Ray, RayView};
use crate::vector::{Point, Vec3, V3};

pub mod interval;
pub mod nearest;
pub mod sphere;

verus! {

/// The mathematical value of a [`HitRecord`]: one crossing of a ray with a
/// surface.
pub struct HitView {
    /// The point of the crossing.
    pub point: V3,
    /// The unit normal of the surface there, turned against the ray.
    pub normal: V3,
    /// The parameter of the ray at the crossing, rounded to millionths.
    pub t: int,
    /// Whether the ray meets the surface from outside.
    pub front_face: bool,
}

/// A thing that a ray can hit.
pub trait Hittable {
    /// The thing is within the range that the intersection test accepts.
    spec fn valid(&self) -> bool;

    /// Every crossing of `ray` with the surface, at whatever parameter.
    spec fn crossings(&self, ray: RayView) -> Seq<HitView>;

    /// Looks for the nearest crossing of `ray` whose parameter lies strictly
    /// inside `t_range`. Where there is one, writes it to `hits` and returns
    /// `true`; where there is none, leaves `hits` as it was and returns
    /// `false`.
    fn hit(&self, ray: &Ray, t_range: &Interval, hits: &mut HitRecord) -> (found: bool)
        requires
            self.valid(),
            ray.in_limit(),
        ensures
            found == (nearest(self.crossings(ray@), t_range.lo(), t_range.hi()) is Some),
            found ==> final(hits)@ == nearest(
                self.crossings(ray@),
                t_range.lo(),
                t_range.hi(),
            ).unwrap(),
            found ==> t_range.holds(final(hits).hit_t as int),
            found ==> final(hits).has_unit_normal(),
            !found ==> *final(hits) == *old(hits),
    ;
}

/// Where a ray met a surface.
#[derive(Debug, Clone, Copy)]
pub struct HitRecord {
    /// The point of the crossing.
    pub point: Point,
    /// The unit normal of the surface there, turned against the ray.
    pub normal: Vec3,
    /// The parameter of the ray at the crossing, rounded to millionths.
    pub hit_t: i64,
    /// Whether the ray meets the surface from outside.
    pub front_face: bool,
}

impl View for HitRecord {
    type V = HitView;

    open spec fn view(&self) -> HitView {
        HitView {
            point: self.point@,
            normal: self.normal@,
            t: self.hit_t as int,
            front_face: self.front_face,
        }
    }
}

impl HitRecord {
    /// The normal has length one, as far as millionths can tell, and no
    /// component beyond one.
    pub open spec fn has_unit_normal(&self) -> bool {
        self.normal@.within(SCALE as int) && self.normal@.is_unit()
    }

    /// Records the side from which `ray` meets the surface and the normal that
    /// points against the ray, given the normal that points outward.
    pub fn set_face_normal(&mut self, ray: &Ray, outward_normal: &Vec3)
        requires
            ray.direction@.within(WIDE as int),
            outward_normal@.within(WIDE as int),
        ensures
            final(self).front_face == (ray.direction@.dot_exact(outward_normal@) < 0),
            final(self).normal@ == facing(ray.direction@, outward_normal@),
            final(self).point == old(self).point,
            final(self).hit_t == old(self).hit_t,
    {
        self.front_face = ray.direction().dot_exact(outward_normal) < 0;
        self.normal = if self.front_face {
            outward_normal.clone()
        } else {
            outward_normal.clone().neg()
        }
    }

    /// The recorded normal.
    pub fn get_normal(&self) -> (n: Vec3)
        ensures
            n == self.normal,
    {
        self.normal.clone()
    }

    /// The recorded point.
    pub fn point(&self) -> (p: Vec3)
        ensures
            p == self.point,
    {
        self.point
    }
}

/// The normal that points against a ray of direction `direction`: the outward
/// normal where the ray comes from outside, its opposite otherwise.
pub open spec fn facing(direction: V3, outward: V3) -> V3 {
    if direction.dot_exact(outward) < 0 {
        outward
    } else {
        outward.negated()
    }
}

/// Turning a normal against the ray changes neither its length nor the size
/// of its components.
pub proof fn lemma_facing_keeps_length(direction: V3, outward: V3)
    ensures
        facing(direction, outward).dot_exact(facing(direction, outward)) == outward.dot_exact(
            outward,
        ),
        forall|m: int| outward.within(m) ==> facing(direction, outward).within(m),
{
    let n = outward.negated();
    assert(n.dot_exact(n) == outward.dot_exact(outward)) by (nonlinear_arith)
        requires
            n.x == -outward.x,
            n.y == -outward.y,
            n.z == -outward.z,
            n.dot_exact(n) == n.x * n.x + n.y * n.y + n.z * n.z,
            outward.dot_exact(outward) == outward.x * outward.x + outward.y * outward.y
                + outward.z * outward.z,
    ;
}

impl Default for HitRecord {
    fn default() -> (r: HitRecord)
        ensures
            r@ == (HitView { point: V3::of(0, 0, 0), normal: V3::of(0, 0, 0), t: 0, front_face: false }),
    {
        HitRecord { point: Point::zero(), normal: Vec3::zero(), hit_t: 0, front_face: false }
    }
}

/// The things of a scene, in the order in which they were added.
pub struct HittableList {
    pub list: Vec<Box<dyn Hittable>>,
}

/// The crossings of `ray` with each of `things`, joined in their order.
pub open spec fn all_crossings(things: Seq<Box<dyn Hittable>>, ray: RayView) -> Seq<HitView>
    decreases things.len(),
{
    if things.len() == 0 {
        Seq::empty()
    } else {
        all_crossings(things.drop_last(), ray) + things.last().crossings(ray)
    }
}

impl HittableList {
    /// The empty scene.
    pub fn new() -> (r: HittableList)
        ensures
            r.list@ == Seq::<Box<dyn Hittable>>::empty(),
    {
        HittableList { list: Vec::new() }
    }

    /// Adds `hittable` behind the things already there.
    pub fn add(&mut self, hittable: Box<dyn Hittable>)
        ensures
            final(self).list@ == old(self).list@.push(hittable),
    {
        self.list.push(hittable);
    }

    /// Takes the thing that was added last out of the scene, if there is one.
    pub fn next(&mut self) -> (r: Option<Box<dyn Hittable>>)
        ensures
            old(self).list@.len() == 0 ==> r is None && final(self).list@ == old(self).list@,
            old(self).list@.len() > 0 ==> r == Some(old(self).list@.last()),
            old(self).list@.len() > 0 ==> final(self).list@ == old(self).list@.drop_last(),
    {
        proof {
            let all = self.list@;
            if all.len() > 0 {
                assert(all.subrange(0, all.len() - 1) == all.drop_last());
                assert(all.last() == all[all.len() - 1]);
            }
        }
        self.list.pop()
    }
}

impl Hittable for HittableList {
    open spec fn valid(&self) -> bool {
        forall|i: int| 0 <= i < self.list@.len() ==> (#[trigger] self.list@[i]).valid()
    }

    open spec fn crossings(&self, ray: RayView) -> Seq<HitView> {
        all_crossings(self.list@, ray)
    }

    fn hit(&self, ray: &Ray, t_range: &Interval, hit_record: &mut HitRecord) -> (found: bool) {
        let mut hit_anything = false;
        let mut closest_so_far = t_range.range.end;
        let mut tmp_hit_rec: HitRecord = HitRecord::default();
        let ghost lo = t_range.lo();
        let ghost hi = t_range.hi();
        let mut i: usize = 0;
        while i < self.list.len()
            invariant
                i <= self.list@.len(),
                self.valid(),
                ray.in_limit(),
                lo == t_range.lo(),
                hi == t_range.hi(),
                nearest(all_crossings(self.list@.take(i as int), ray@), lo, hi) == if hit_anything {
                    Some(hit_record@)
                } else {
                    None
                },
                hit_anything ==> closest_so_far == hit_record.hit_t && lo < closest_so_far < hi
                    && hit_record.has_unit_normal(),
                !hit_anything ==> closest_so_far == t_range.range.end && *hit_record == *old(
                    hit_record,
                ),
            decreases self.list@.len() - i,
        {
            let shrunk = Interval { range: t_range.range.start..closest_so_far };
            proof {
                let before = self.list@.take(i as int);
                let upto = self.list@.take(i + 1);
                assert(upto.drop_last() == before);
                assert(upto.last() == self.list@[i as int]);
                lemma_nearest_concat(
                    all_crossings(before, ray@),
                    self.list@[i as int].crossings(ray@),
                    lo,
                    hi,
                );
            }
            if self.list[i].hit(ray, &shrunk, &mut tmp_hit_rec) {
                hit_anything = true;
                closest_so_far = tmp_hit_rec.hit_t;
                *hit_record = tmp_hit_rec.clone();
            }
            i += 1;
        }
        proof {
            assert(self.list@.take(i as int) == self.list@);
        }
        hit_anything
    }
}

/// A crossing belongs to a scene exactly when it is a crossing of one of its
/// things.
pub proof fn lemma_all_crossings_contains(
    things: Seq<Box<dyn Hittable>>,
    ray: RayView,
    c: HitView,
)
    ensures
        all_crossings(things, ray).contains(c) <==> exists|i: int|
            0 <= i < things.len() && (#[trigger] things[i]).crossings(ray).contains(c),
    decreases things.len(),
{
    if things.len() > 0 {
        let front = things.drop_last();
        let head = all_crossings(front, ray);
        let tail = things.last().crossings(ray);
        lemma_all_crossings_contains(front, ray, c);
        if (head + tail).contains(c) {
            let k = choose|k: int| 0 <= k < (head + tail).len() && (head + tail)[k] == c;
            if k < head.len() {
                assert(head[k] == c);
                let i = choose|i: int|
                    0 <= i < front.len() && (#[trigger] front[i]).crossings(ray).contains(c);
                assert(things[i] == front[i]);
            } else {
                assert(tail[k - head.len()] == c);
                assert(things[things.len() - 1].crossings(ray).contains(c));
            }
        }
        if exists|i: int|
            0 <= i < things.len() && (#[trigger] things[i]).crossings(ray).contains(c) {
            let i = choose|i: int|
                0 <= i < things.len() && (#[trigger] things[i]).crossings(ray).contains(c);
            if i < front.len() {
                assert(front[i] == things[i]);
                let k = choose|k: int| 0 <= k < head.len() && head[k] == c;
                assert((head + tail)[k] == c);
            } else {
                let k = choose|k: int| 0 <= k < tail.len() && tail[k] == c;
                assert((head + tail)[head.len() + k] == c);
            }
        }
    }
}

/// `b` holds the things of `a` in another order: the thing at index `i` of
/// `b` is the one at index `p[i]` of `a`, and `p` reaches every index of `a`.
pub open spec fn is_reordering(
    p: Seq<int>,
    a: Seq<Box<dyn Hittable>>,
    b: Seq<Box<dyn Hittable>>,
) -> bool {
    &&& p.len() == a.len()
    &&& b.len() == a.len()
    &&& forall|i: int| 0 <= i < b.len() ==> 0 <= #[trigger] p[i] < a.len() && b[i] == a[p[i]]
    &&& forall|k: int| 0 <= k < a.len() ==> #[trigger] reaches(p, k)
}

/// Some entry of `p` is `k`.
pub open spec fn reaches(p: Seq<int>, k: int) -> bool {
    exists|i: int| 0 <= i < p.len() && #[trigger] p[i] == k
}

/// A scene and a reordering of it have the same crossings, in some order.
pub proof fn lemma_same_things_same_crossings(
    p: Seq<int>,
    a: Seq<Box<dyn Hittable>>,
    b: Seq<Box<dyn Hittable>>,
    ray: RayView,
)
    requires
        is_reordering(p, a, b),
    ensures
        forall|c: HitView|
            all_crossings(a, ray).contains(c) <==> all_crossings(b, ray).contains(c),
{
    assert forall|c: HitView|
        all_crossings(a, ray).contains(c) <==> all_crossings(b, ray).contains(c) by {
        lemma_all_crossings_contains(a, ray, c);
        lemma_all_crossings_contains(b, ray, c);
        if all_crossings(a, ray).contains(c) {
            let k = choose|k: int|
                0 <= k < a.len() && (#[trigger] a[k]).crossings(ray).contains(c);
            assert(reaches(p, k));
            let i = choose|i: int| 0 <= i < p.len() && #[trigger] p[i] == k;
            assert(b[i] == a[p[i]]);
            assert(b[i].crossings(ray).contains(c));
        }
        if all_crossings(b, ray).contains(c) {
            let i = choose|i: int|
                0 <= i < b.len() && (#[trigger] b[i]).crossings(ray).contains(c);
            assert(b[i] == a[p[i]]);
            assert(a[p[i]].crossings(ray).contains(c));
        }
    }
}

/// Whether a scene is hit, and at which parameter, does not depend on the
/// order in which its things were added.
pub proof fn lemma_order_keeps_parameter(
    p: Seq<int>,
    a: Seq<Box<dyn Hittable>>,
    b: Seq<Box<dyn Hittable>>,
    ray: RayView,
    lo: int,
    hi: int,
)
    requires
        is_reordering(p, a, b),
    ensures
        nearest(all_crossings(a, ray), lo, hi) is Some <==> nearest(
            all_crossings(b, ray),
            lo,
            hi,
        ) is Some,
        nearest(all_crossings(a, ray), lo, hi) is Some ==> nearest(
            all_crossings(a, ray),
            lo,
            hi,
        ).unwrap().t == nearest(all_crossings(b, ray), lo, hi).unwrap().t,
{
    lemma_same_things_same_crossings(p, a, b, ray);
    lemma_nearest_parameter_unordered(all_crossings(a, ray), all_crossings(b, ray), lo, hi);
}

/// The nearest hit of a scene does not depend on the order in which its
/// things were added, as long as no two different crossings inside the bounds
/// share a parameter. (Where two do, the thing added first wins.)
pub proof fn lemma_order_keeps_hit(
    p: Seq<int>,
    a: Seq<Box<dyn Hittable>>,
    b: Seq<Box<dyn Hittable>>,
    ray: RayView,
    lo: int,
    hi: int,
)
    requires
        is_reordering(p, a, b),
        forall|i: int, j: int|
            inside(all_crossings(a, ray), lo, hi, i) && inside(all_crossings(a, ray), lo, hi, j)
                && all_crossings(a, ray)[i].t == all_crossings(a, ray)[j].t ==> all_crossings(
                a,
                ray,
            )[i] == all_crossings(a, ray)[j],
    ensures
        nearest(all_crossings(a, ray), lo, hi) == nearest(all_crossings(b, ray), lo, hi),
{
    lemma_same_things_same_crossings(p, a, b, ray);
    lemma_nearest_unordered(all_crossings(a, ray), all_crossings(b, ray), lo, hi);
}

/// A scene without things is never hit.
pub proof fn lemma_empty_scene_misses(ray: RayView, lo: int, hi: int)
    ensures
        nearest(all_crossings(Seq::<Box<dyn Hittable>>::empty(), ray), lo, hi) is None,
{
    lemma_nearest(all_crossings(Seq::<Box<dyn Hittable>>::empty(), ray), lo, hi);
}

} // verus!
