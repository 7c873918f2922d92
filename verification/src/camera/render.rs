//! Rays through the pixels, their colours, and the image as text.
use vstd::prelude::*;
use core::ops::AddAssign;
use crate::camera::sampler::{in_unit_square, Sampler};
use crate::camera::{lemma_reciprocal, Camera, SPAN};
use crate::color::{color_line, Color, Presets};
use crate::fixed::{abs, fixed_mul, fmul, SCALE};
use crate::fixed::{lemma_fmul_bound, lemma_quot_bounds, lemma_quot_exact, lemma_quot_le};
use crate::geometry::interval::Interval;
use crate::geometry::nearest::nearest;
use crate::geometry::{all_crossings, HitRecord, Hittable, HittableList};
use crate::ray::{Ray, RayView};
use crate::text::{decimal, push_decimal};
use crate::vector::{lemma_normalized_unit, Point, Vec3, V3};

verus! {

/// The largest magnitude that a component of the colour of one ray can have:
/// one.
pub const COLOR_LIMIT: i64 = 1_000_000;

/// The colour that shows a normal: each component brought from `[-1, 1]` to
/// `[0, 1]`.
pub open spec fn normal_color(normal: V3) -> V3 {
    normal.plus(V3::of(SCALE as int, SCALE as int, SCALE as int)).scaled(SCALE / 2)
}

/// How far a ray of direction `direction` points upward, from zero (straight
/// down) to one (straight up).
pub open spec fn sky_blend(direction: V3) -> int {
    fmul(SCALE / 2, direction.normalized().y + SCALE)
}

/// The colour of the sky in `direction`: white toward the ground, blue toward
/// the zenith.
pub open spec fn sky_color(direction: V3) -> V3 {
    let a = sky_blend(direction);
    V3::of(SCALE as int, SCALE as int, SCALE as int).scaled(SCALE - a).plus(
        V3::of(500_000, 700_000, 1_000_000).scaled(a),
    )
}

impl Camera {
    /// The point of the viewport that the sample at `offset` within the pixel
    /// in column `i` and row `j` looks at.
    pub open spec fn sample_point(&self, i: int, j: int, offset: V3) -> V3 {
        self.pixel00_loc@.plus(self.pixel_delta_u@.scaled(i * SCALE + offset.x)).plus(
            self.pixel_delta_v@.scaled(j * SCALE + offset.y),
        )
    }

    /// The ray from the camera through that point.
    pub open spec fn ray_through(&self, i: int, j: int, offset: V3) -> RayView {
        RayView {
            origin: self.camera_origin@,
            direction: self.sample_point(i, j, offset).minus(self.camera_origin@),
        }
    }

    /// The colour that `ray` brings back from the scene: that of the normal at
    /// the nearest hit between zero and the limit of sight, or that of the sky.
    pub open spec fn shade(&self, things: Seq<Box<dyn Hittable>>, ray: RayView) -> V3 {
        match nearest(all_crossings(things, ray), 0, self.t_max as int) {
            Some(hit) => normal_color(hit.normal),
            None => sky_color(ray.direction),
        }
    }

    /// The sum of the colours of the samples at `offsets` of one pixel.
    pub open spec fn gathered(
        &self,
        things: Seq<Box<dyn Hittable>>,
        i: int,
        j: int,
        offsets: Seq<V3>,
    ) -> V3
        decreases offsets.len(),
    {
        if offsets.len() == 0 {
            V3::of(0, 0, 0)
        } else {
            self.gathered(things, i, j, offsets.drop_last()).plus(
                self.shade(things, self.ray_through(i, j, offsets.last())),
            )
        }
    }

    /// The colour of one pixel: the gathered colours times the cached
    /// reciprocal of the sample count.
    pub open spec fn pixel_value(
        &self,
        things: Seq<Box<dyn Hittable>>,
        i: int,
        j: int,
        offsets: Seq<V3>,
    ) -> V3 {
        self.gathered(things, i, j, offsets).scaled(self.pixel_sample_scale as int)
    }

    /// The ray through the sample at `offset` within the pixel in column `i`
    /// and row `j`. An offset of zero aims at the center of the pixel.
    pub fn get_ray(&self, i: u32, j: u32, offset: &Point) -> (r: Ray)
        requires
            self.wf(),
            i < self.image_width,
            j < self.image_height,
            0 <= offset.x <= SCALE,
            0 <= offset.y <= SCALE,
        ensures
            r@ == self.ray_through(i as int, j as int, offset@),
            r.in_limit(),
    {
        proof {
            self.lemma_steps(i as int, j as int, offset@);
        }
        let pixel_sample = self.pixel00_loc + (((i as i64) * SCALE + offset.x())
            * self.pixel_delta_u) + (((j as i64) * SCALE + offset.y()) * self.pixel_delta_v);

        let ray_origin = self.camera_origin;
        let ray_direction = pixel_sample - ray_origin;

        Ray::new(ray_origin, ray_direction)
    }

    /// The steps from the first pixel to a sample stay within one span each.
    pub proof fn lemma_steps(&self, i: int, j: int, offset: V3)
        requires
            self.wf(),
            0 <= i < self.image_width,
            0 <= j < self.image_height,
            0 <= offset.x <= SCALE,
            0 <= offset.y <= SCALE,
        ensures
            self.pixel_delta_u@.scaled(i * SCALE + offset.x).within(SPAN as int),
            self.pixel_delta_v@.scaled(j * SCALE + offset.y).within(SPAN as int),
    {
        let du = self.pixel_delta_u@;
        let dv = self.pixel_delta_v@;
        lemma_step(i * SCALE + offset.x, du.x, self.image_width as int);
        lemma_step(i * SCALE + offset.x, du.y, self.image_width as int);
        lemma_step(i * SCALE + offset.x, du.z, self.image_width as int);
        lemma_step(j * SCALE + offset.y, dv.x, self.image_height as int);
        lemma_step(j * SCALE + offset.y, dv.y, self.image_height as int);
        lemma_step(j * SCALE + offset.y, dv.z, self.image_height as int);
    }

    /// The colour that `ray` brings back from `world`.
    pub fn ray_color(&self, ray: &Ray, world: &HittableList) -> (c: Color)
        requires
            ray.in_limit(),
            world.valid(),
        ensures
            c@ == self.shade(world.list@, ray@),
            c@.within(COLOR_LIMIT as int),
    {
        let mut tmp_hit_rec = HitRecord::default();

        if world.hit(ray, &Interval { range: 0..self.t_max }, &mut tmp_hit_rec) {
            proof {
                lemma_normal_color(tmp_hit_rec.normal@);
            }
            return (SCALE / 2) * (tmp_hit_rec.get_normal() + Color::new(SCALE, SCALE, SCALE));
        }
        let unit_direction: Vec3 = ray.direction().normalize();
        proof {
            lemma_sky_color(ray.direction@);
        }
        let a: i64 = fixed_mul(SCALE / 2, unit_direction.y() + SCALE);
        return ((SCALE - a) * Color::colors(Presets::White)) + (a * Color::new(
            500_000,
            700_000,
            1_000_000,
        ));
    }

    /// The colour of the pixel in column `i` and row `j`, from one ray for
    /// each of `offsets`.
    pub fn pixel_color(&self, world: &HittableList, i: u32, j: u32, offsets: &Vec<Point>) -> (c:
        Color)
        requires
            self.wf(),
            world.valid(),
            i < self.image_width,
            j < self.image_height,
            offsets@.len() <= u32::MAX,
            forall|k: int| 0 <= k < offsets@.len() ==> in_unit_square(#[trigger] offsets@[k]@),
        ensures
            c@ == self.pixel_value(world.list@, i as int, j as int, views(offsets@)),
            c@.within(COLOR_LIMIT * offsets@.len()),
    {
        let mut pixel_color = Color::new(0, 0, 0);
        let mut k: usize = 0;
        while k < offsets.len()
            invariant
                k <= offsets@.len(),
                self.wf(),
                world.valid(),
                i < self.image_width,
                j < self.image_height,
                offsets@.len() <= u32::MAX,
                forall|k: int| 0 <= k < offsets@.len() ==> in_unit_square(#[trigger] offsets@[k]@),
                pixel_color@ == self.gathered(
                    world.list@,
                    i as int,
                    j as int,
                    views(offsets@).take(k as int),
                ),
                pixel_color@.within(COLOR_LIMIT * k),
            decreases offsets@.len() - k,
        {
            assert(in_unit_square(offsets@[k as int]@));
            let r: Ray = self.get_ray(i, j, &offsets[k]);
            let sample = self.ray_color(&r, world);
            proof {
                let upto = views(offsets@).take(k + 1);
                assert(upto.drop_last() == views(offsets@).take(k as int));
                assert(upto.last() == offsets@[k as int]@);
                assert(COLOR_LIMIT * (k + 1) == COLOR_LIMIT * k + COLOR_LIMIT) by (nonlinear_arith);
                assert(COLOR_LIMIT * (k + 1) <= COLOR_LIMIT * 0x1_0000_0000) by (nonlinear_arith)
                    requires
                        k + 1 <= 0x1_0000_0000,
                ;
            }
            pixel_color.add_assign(sample);
            k += 1;
        }
        proof {
            assert(views(offsets@).take(k as int) == views(offsets@));
            lemma_reciprocal(self.samples_per_pixel as int);
            let m = COLOR_LIMIT * offsets@.len();
            lemma_fmul_bound(self.pixel_sample_scale as int, pixel_color@.x, m);
            lemma_fmul_bound(self.pixel_sample_scale as int, pixel_color@.y, m);
            lemma_fmul_bound(self.pixel_sample_scale as int, pixel_color@.z, m);
            assert(m <= COLOR_LIMIT * 0x1_0000_0000) by (nonlinear_arith)
                requires
                    m == COLOR_LIMIT * offsets@.len(),
                    offsets@.len() <= 0x1_0000_0000,
            ;
        }
        pixel_color = self.pixel_sample_scale * pixel_color;
        pixel_color
    }

    /// The first lines of the image: the format, the width and the height,
    /// and the largest value of a channel.
    pub open spec fn header(&self) -> Seq<u8> {
        seq![80u8, 51u8, 10u8] + decimal(self.image_width as nat) + seq![32u8] + decimal(
            self.image_height as nat,
        ) + seq![10u8, 50u8, 53u8, 53u8, 10u8]
    }

    /// The image up to and without the pixel of index `count`, rows from the
    /// top and each row from the left, where the pixel of index `p` was
    /// sampled at the offsets `drawn[p]`.
    pub open spec fn image_text(
        &self,
        things: Seq<Box<dyn Hittable>>,
        drawn: Seq<Seq<V3>>,
        count: nat,
    ) -> Seq<u8>
        decreases count,
    {
        if count == 0 {
            self.header()
        } else {
            let p = count - 1;
            self.image_text(things, drawn, p as nat) + color_line(
                self.pixel_value(
                    things,
                    p % (self.image_width as int),
                    p / (self.image_width as int),
                    drawn[p],
                ),
            )
        }
    }

    /// `offsets` can be the samples of one pixel of this camera: as many
    /// as it takes, each in the unit square, and the single sample of a
    /// camera that takes one at the center of the pixel.
    pub open spec fn well_sampled(&self, offsets: Seq<V3>) -> bool {
        &&& offsets.len() == self.samples_per_pixel
        &&& forall|k: int| 0 <= k < offsets.len() ==> in_unit_square(#[trigger] offsets[k])
        &&& self.samples_per_pixel == 1 ==> offsets[0] == V3::of(0, 0, 0)
    }

    /// `drawn` holds samples for every pixel of this camera.
    pub open spec fn well_drawn(&self, drawn: Seq<Seq<V3>>) -> bool {
        &&& drawn.len() == self.image_width * self.image_height
        &&& forall|p: int| 0 <= p < drawn.len() ==> self.well_sampled(#[trigger] drawn[p])
    }

    /// Renders `world` as a plain-text pixel map. A camera that takes one
    /// sample casts it through the center of each pixel; one that takes more
    /// draws the offset of each from `sampler`.
    pub fn render(&self, world: &HittableList, sampler: &mut Sampler) -> (out: Vec<u8>)
        requires
            self.wf(),
            world.valid(),
        ensures
            exists|drawn: Seq<Seq<V3>>|
                self.well_drawn(drawn) && out@ == #[trigger] self.image_text(
                    world.list@,
                    drawn,
                    (self.image_width * self.image_height) as nat,
                ),
    {
        let mut out: Vec<u8> = Vec::new();
        out.push(80u8);
        out.push(51u8);
        out.push(10u8);
        push_decimal(&mut out, self.image_width as u64);
        out.push(32u8);
        push_decimal(&mut out, self.image_height as u64);
        out.push(10u8);
        out.push(50u8);
        out.push(53u8);
        out.push(53u8);
        out.push(10u8);
        assert(out@ == self.header());
        let ghost mut drawn: Seq<Seq<V3>> = Seq::empty();
        let ghost width = self.image_width as int;

        let mut j: u32 = 0;
        while j < self.image_height
            invariant
                j <= self.image_height,
                self.wf(),
                world.valid(),
                width == self.image_width,
                drawn.len() == j * width,
                forall|p: int| 0 <= p < drawn.len() ==> self.well_sampled(#[trigger] drawn[p]),
                out@ == self.image_text(world.list@, drawn, drawn.len()),
            decreases self.image_height - j,
        {
            let mut i: u32 = 0;
            while i < self.image_width
                invariant
                    i <= self.image_width,
                    j < self.image_height,
                    self.wf(),
                    world.valid(),
                    width == self.image_width,
                    drawn.len() == j * width + i,
                    forall|p: int| 0 <= p < drawn.len() ==> self.well_sampled(#[trigger] drawn[p]),
                    out@ == self.image_text(world.list@, drawn, drawn.len()),
                decreases self.image_width - i,
            {
                let offsets = self.draw_offsets(sampler);
                let pixel_color = self.pixel_color(world, i, j, &offsets);
                pixel_color.write_color(&mut out);
                proof {
                    let p = drawn.len() as int;
                    let next = drawn.push(views(offsets@));
                    vstd::arithmetic::div_mod::lemma_fundamental_div_mod_converse(
                        p,
                        width,
                        j as int,
                        i as int,
                    );
                    self.lemma_same_samples_same_image(world.list@, drawn, next, drawn.len());
                    drawn = next;
                }
                i += 1;
            }
            proof {
                assert((j + 1) * width == j * width + width) by (nonlinear_arith);
            }
            j += 1;
        }
        proof {
            assert(drawn.len() == self.image_height * width);
            assert(self.image_height * width == self.image_width * self.image_height)
                by (nonlinear_arith)
                requires
                    width == self.image_width,
            ;
            assert(self.well_drawn(drawn));
            assert(out@ == self.image_text(
                world.list@,
                drawn,
                (self.image_width * self.image_height) as nat,
            ));
        }
        out
    }

    /// The offsets of the samples of one pixel: the center for a camera that
    /// takes one sample, else as many draws from `sampler` as it takes.
    pub fn draw_offsets(&self, sampler: &mut Sampler) -> (offsets: Vec<Point>)
        requires
            self.samples_per_pixel >= 1,
        ensures
            self.well_sampled(views(offsets@)),
            offsets@.len() == self.samples_per_pixel,
            forall|k: int| 0 <= k < offsets@.len() ==> in_unit_square(#[trigger] offsets@[k]@),
    {
        let mut offsets: Vec<Point> = Vec::new();
        if self.samples_per_pixel == 1 {
            offsets.push(Point::zero());
        } else {
            let mut k: u32 = 0;
            while k < self.samples_per_pixel
                invariant
                    k <= self.samples_per_pixel,
                    offsets@.len() == k,
                    forall|m: int|
                        0 <= m < offsets@.len() ==> in_unit_square(#[trigger] offsets@[m]@),
                decreases self.samples_per_pixel - k,
            {
                let offset = sampler.sample_square();
                offsets.push(offset);
                k += 1;
            }
        }
        offsets
    }

    /// The image is a function of the camera, the scene and the samples: two
    /// renderings that drew the same offsets for the first `count` pixels
    /// agree on the text of those pixels, byte for byte.
    pub proof fn lemma_same_samples_same_image(
        &self,
        things: Seq<Box<dyn Hittable>>,
        a: Seq<Seq<V3>>,
        b: Seq<Seq<V3>>,
        count: nat,
    )
        requires
            count <= a.len(),
            count <= b.len(),
            forall|p: int| 0 <= p < count ==> a[p] == b[p],
        ensures
            self.image_text(things, a, count) == self.image_text(things, b, count),
        decreases count,
    {
        if count > 0 {
            self.lemma_same_samples_same_image(things, a, b, (count - 1) as nat);
        }
    }

    /// A camera that takes one sample per pixel can render a scene in one way
    /// only, whatever its sampler holds.
    pub proof fn lemma_single_sample_image(
        &self,
        things: Seq<Box<dyn Hittable>>,
        a: Seq<Seq<V3>>,
        b: Seq<Seq<V3>>,
    )
        requires
            self.samples_per_pixel == 1,
            self.well_drawn(a),
            self.well_drawn(b),
        ensures
            self.image_text(things, a, a.len()) == self.image_text(things, b, b.len()),
    {
        assert forall|p: int| 0 <= p < a.len() implies a[p] == b[p] by {
            assert(self.well_sampled(a[p]) && self.well_sampled(b[p]));
            assert(a[p] =~= b[p]);
        }
        self.lemma_same_samples_same_image(things, a, b, a.len());
    }
}

/// The mathematical values of a sequence of vectors.
pub open spec fn views(vs: Seq<Vec3>) -> Seq<V3> {
    Seq::new(vs.len(), |k: int| vs[k]@)
}

/// A step `d` taken up to `count` times, the last time in part, stays within
/// what `count` whole steps span.
proof fn lemma_step(m: int, d: int, count: int)
    requires
        0 <= m <= count * SCALE,
        abs(d) * count <= SPAN,
    ensures
        abs(fmul(m, d)) <= SPAN,
{
    let ad = abs(d);
    assert(abs(m * d) == m * ad) by (nonlinear_arith)
        requires
            m >= 0,
            ad == abs(d),
    ;
    assert(m * ad <= SPAN * SCALE) by (nonlinear_arith)
        requires
            0 <= m <= count * SCALE,
            ad * count <= SPAN,
            ad >= 0,
    ;
    lemma_quot_le(m * d, SCALE as int, SPAN as int);
}

/// The colour of a normal without a component beyond one has no component
/// beyond [`COLOR_LIMIT`].
pub proof fn lemma_normal_color(normal: V3)
    requires
        normal.within(SCALE as int),
    ensures
        normal_color(normal).within(COLOR_LIMIT as int),
{
    lemma_half_of_two(normal.x + SCALE);
    lemma_half_of_two(normal.y + SCALE);
    lemma_half_of_two(normal.z + SCALE);
}

/// Half of a number of at most two is at most one.
proof fn lemma_half_of_two(x: int)
    requires
        abs(x) <= 2 * SCALE,
    ensures
        abs(fmul(SCALE / 2, x)) <= SCALE,
{
    assert(abs((SCALE / 2) * x) <= SCALE * SCALE) by (nonlinear_arith)
        requires
            abs(x) <= 2 * SCALE,
            SCALE == 1_000_000,
    ;
    lemma_quot_le((SCALE / 2) * x, SCALE as int, SCALE as int);
}

/// The sky is a blend of white and blue: the blend factor lies between zero
/// and one, and no component of the colour leaves that range.
pub proof fn lemma_sky_color(direction: V3)
    ensures
        direction.normalized().within(SCALE as int),
        0 <= sky_blend(direction) <= SCALE,
        0 <= sky_color(direction).x <= SCALE,
        0 <= sky_color(direction).y <= SCALE,
        0 <= sky_color(direction).z <= SCALE,
{
    let sc = SCALE as int;
    lemma_normalized_unit(direction);
    let u = direction.normalized();
    let a = sky_blend(direction);
    lemma_fmul_bound(sc / 2, u.y + sc, 2 * sc);
    lemma_quot_bounds((sc / 2) * (u.y + sc), sc);
    assert((sc / 2) * (u.y + sc) >= 0) by (nonlinear_arith)
        requires
            u.y + sc >= 0,
            sc / 2 >= 0,
    ;
    assert((sc / 2) * (u.y + sc) <= sc * sc) by (nonlinear_arith)
        requires
            0 <= u.y + sc <= 2 * sc,
            sc / 2 == 500_000,
            sc == 1_000_000,
    ;
    lemma_quot_le((sc / 2) * (u.y + sc), sc, sc);
    assert(0 <= a <= sc);
    lemma_quot_exact(sc - a, sc);
    lemma_part(a, 500_000);
    lemma_part(a, 700_000);
    lemma_part(a, 1_000_000);
}

/// A share `b` of at most one of a non-negative `a` lies between zero and
/// `a`.
proof fn lemma_part(a: int, b: int)
    requires
        0 <= a,
        0 <= b <= SCALE,
    ensures
        0 <= fmul(a, b) <= a,
{
    assert(0 <= a * b <= a * SCALE) by (nonlinear_arith)
        requires
            0 <= a,
            0 <= b <= SCALE,
    ;
    lemma_quot_bounds(a * b, SCALE as int);
    lemma_quot_le(a * b, SCALE as int, a);
}

} // verus!
