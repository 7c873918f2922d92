//! The camera: its settings, the pixel grid derived from them, the rays through
//! the pixels and the image they give.
use vstd::prelude::*;
use crate::fixed::{abs, fdiv, fixed_div, quot, quot_wide, SCALE};
use crate::fixed::{lemma_fmul_bound, lemma_quot_abs, lemma_quot_bounds, lemma_quot_exact,
    lemma_quot_le};
use crate::vector::{lemma_product_bound, Point, Vec3, V3};

pub mod render;
pub mod sampler;

verus! {

/// The largest magnitude of the viewport's sides and of the focal length
/// (`250.0`): a quarter of [`crate::fixed::LIMIT`], so that every ray through
/// the viewport has a direction within that limit.
pub const SPAN: i64 = 250_000_000;

/// What a camera is made from.
#[derive(Debug, Clone, Copy)]
pub struct CameraSettings {
    /// The number of pixels in a row.
    pub image_width: u32,
    /// Width over height, as a fixed-point number.
    pub aspect_ratio: i64,
    /// The number of rays cast through each pixel.
    pub samples_per_pixel: u32,
    /// The height of the viewport.
    pub viewport_height: i64,
    /// The distance from the camera to the viewport.
    pub focal_length: i64,
    /// Where the camera stands.
    pub camera_origin: Point,
    /// The parameter beyond which nothing is seen.
    pub t_max: i64,
}

/// Why settings do not make a camera.
#[derive(Debug, Clone, Copy, PartialEq, Eq, Structural)]
pub enum ConfigError {
    /// The image has no pixels in a row.
    ZeroWidth,
    /// No ray is cast through a pixel.
    ZeroSamples,
    /// The aspect ratio is zero or negative.
    BadAspectRatio,
    /// The image is too tall to count its rows, or the viewport, the focal
    /// length or the origin exceeds the range of the arithmetic.
    OutOfRange,
}

impl CameraSettings {
    /// The number of rows: the width divided by the aspect ratio, and at least
    /// one.
    pub open spec fn image_height(&self) -> int {
        let rows = quot(self.image_width * SCALE, self.aspect_ratio as int);
        if rows < 1 {
            1
        } else {
            rows
        }
    }

    /// The width of the viewport: its height times the ratio of columns to
    /// rows.
    pub open spec fn viewport_width(&self) -> int {
        quot(self.viewport_height * self.image_width, self.image_height())
    }

    /// The viewport's horizontal edge, left to right.
    pub open spec fn viewport_u(&self) -> V3 {
        V3::of(self.viewport_width(), 0, 0)
    }

    /// The viewport's vertical edge, top to bottom.
    pub open spec fn viewport_v(&self) -> V3 {
        V3::of(0, -self.viewport_height, 0)
    }

    /// The step from one pixel to the next in its row.
    pub open spec fn pixel_delta_u(&self) -> V3 {
        self.viewport_u().over(self.image_width * SCALE)
    }

    /// The step from one pixel to the one below it.
    pub open spec fn pixel_delta_v(&self) -> V3 {
        self.viewport_v().over(self.image_height() * SCALE)
    }

    /// The upper left corner of the viewport.
    pub open spec fn viewport_upper_left(&self) -> V3 {
        self.camera_origin@.minus(V3::of(0, 0, self.focal_length as int)).minus(
            self.viewport_u().over(2 * SCALE),
        ).minus(self.viewport_v().over(2 * SCALE))
    }

    /// The center of the pixel in the upper left corner.
    pub open spec fn pixel00_loc(&self) -> V3 {
        self.viewport_upper_left().plus(
            self.pixel_delta_u().plus(self.pixel_delta_v()).scaled(SCALE / 2),
        )
    }

    /// One over the number of samples.
    pub open spec fn pixel_sample_scale(&self) -> int {
        reciprocal(self.samples_per_pixel as int)
    }

    /// The sizes are within the range of the arithmetic.
    pub open spec fn in_range(&self) -> bool {
        &&& self.image_height() <= u32::MAX
        &&& abs(self.viewport_height as int) <= SPAN
        &&& abs(self.focal_length as int) <= SPAN
        &&& abs(self.viewport_width()) <= SPAN
        &&& self.camera_origin.in_limit()
    }

    /// The error that these settings give, if any. Of several faults the first
    /// in the order of [`ConfigError`] is reported.
    pub open spec fn fault(&self) -> Option<ConfigError> {
        if self.image_width == 0 {
            Some(ConfigError::ZeroWidth)
        } else if self.samples_per_pixel == 0 {
            Some(ConfigError::ZeroSamples)
        } else if self.aspect_ratio <= 0 {
            Some(ConfigError::BadAspectRatio)
        } else if !self.in_range() {
            Some(ConfigError::OutOfRange)
        } else {
            None
        }
    }

    /// The settings of the standard camera: 480 pixels wide at 16:9, a hundred
    /// samples per pixel, a viewport of height two at distance one from the
    /// origin, and sight up to `1000.0`.
    pub open spec fn standard_values() -> CameraSettings {
        CameraSettings {
            image_width: 480,
            aspect_ratio: 1_777_777,
            samples_per_pixel: 100,
            viewport_height: 2_000_000,
            focal_length: 1_000_000,
            camera_origin: Vec3 { x: 0, y: 0, z: 0 },
            t_max: 1_000_000_000,
        }
    }

    /// The settings of the standard camera.
    pub fn standard() -> (s: CameraSettings)
        ensures
            s == Self::standard_values(),
    {
        CameraSettings {
            image_width: 480,
            aspect_ratio: fixed_div(16 * SCALE, 9 * SCALE),
            samples_per_pixel: 100,
            viewport_height: 2 * SCALE,
            focal_length: SCALE,
            camera_origin: Point::new(0, 0, 0),
            t_max: 1000 * SCALE,
        }
    }
}

/// A camera: the pixel grid in space, and how many rays go through each
/// pixel.
#[derive(Debug, Clone, Copy)]
pub struct Camera {
    /// The number of pixels in a row.
    pub image_width: u32,
    /// Width over height, as a fixed-point number.
    pub aspect_ratio: i64,
    /// Where the camera stands: the origin of every ray.
    pub camera_origin: Point,
    /// The number of rows.
    pub image_height: u32,
    /// The center of the pixel in the upper left corner.
    pub pixel00_loc: Point,
    /// The step from one pixel to the next in its row.
    pub pixel_delta_u: Vec3,
    /// The step from one pixel to the one below it.
    pub pixel_delta_v: Vec3,
    /// One over the number of samples.
    pub pixel_sample_scale: i64,
    /// The number of rays cast through each pixel.
    pub samples_per_pixel: u32,
    /// The parameter beyond which nothing is seen.
    pub t_max: i64,
}

/// One over the whole number `count`, as a fixed-point number.
pub open spec fn reciprocal(count: int) -> int {
    fdiv(SCALE as int, count * SCALE)
}

/// The reciprocal of a count of at least one lies between zero and one.
pub proof fn lemma_reciprocal(count: int)
    requires
        count >= 1,
    ensures
        0 <= reciprocal(count) <= SCALE,
{
    let sc = SCALE as int;
    assert(abs(sc * sc) <= sc * (count * sc)) by (nonlinear_arith)
        requires
            count >= 1,
            sc == 1_000_000,
    ;
    lemma_quot_le(sc * sc, count * sc, sc);
    lemma_quot_bounds(sc * sc, count * sc);
}

/// `count` steps of `delta` stay within [`SPAN`] along every axis.
pub open spec fn spans(delta: V3, count: int) -> bool {
    abs(delta.x) * count <= SPAN && abs(delta.y) * count <= SPAN && abs(delta.z) * count <= SPAN
}

impl Camera {
    /// The camera can render: it has pixels and samples, and every ray through
    /// its grid stays within the range of the intersection test.
    pub open spec fn wf(&self) -> bool {
        &&& self.image_width >= 1
        &&& self.image_height >= 1
        &&& self.samples_per_pixel >= 1
        &&& self.camera_origin.in_limit()
        &&& self.pixel00_loc@.minus(self.camera_origin@).within(2 * SPAN)
        &&& spans(self.pixel_delta_u@, self.image_width as int)
        &&& spans(self.pixel_delta_v@, self.image_height as int)
        &&& self.pixel_sample_scale == reciprocal(self.samples_per_pixel as int)
    }

    /// Every field is what `settings` derive.
    pub open spec fn derived_from(&self, settings: CameraSettings) -> bool {
        &&& self.image_width == settings.image_width
        &&& self.aspect_ratio == settings.aspect_ratio
        &&& self.camera_origin == settings.camera_origin
        &&& self.image_height == settings.image_height()
        &&& self.pixel00_loc@ == settings.pixel00_loc()
        &&& self.pixel_delta_u@ == settings.pixel_delta_u()
        &&& self.pixel_delta_v@ == settings.pixel_delta_v()
        &&& self.pixel_sample_scale == settings.pixel_sample_scale()
        &&& self.samples_per_pixel == settings.samples_per_pixel
        &&& self.t_max == settings.t_max
    }

    /// The camera with the given fields.
    fn new(
        image_width: u32,
        aspect_ratio: i64,
        camera_origin: Point,
        image_height: u32,
        pixel00_loc: Point,
        pixel_delta_u: Vec3,
        pixel_delta_v: Vec3,
        pixel_sample_scale: i64,
        samples_per_pixel: u32,
        t_max: i64,
    ) -> (c: Camera)
        ensures
            c.image_width == image_width,
            c.aspect_ratio == aspect_ratio,
            c.camera_origin == camera_origin,
            c.image_height == image_height,
            c.pixel00_loc == pixel00_loc,
            c.pixel_delta_u == pixel_delta_u,
            c.pixel_delta_v == pixel_delta_v,
            c.pixel_sample_scale == pixel_sample_scale,
            c.samples_per_pixel == samples_per_pixel,
            c.t_max == t_max,
    {
        Camera {
            image_width,
            aspect_ratio,
            camera_origin,
            image_height,
            pixel00_loc,
            pixel_delta_u,
            pixel_delta_v,
            pixel_sample_scale,
            samples_per_pixel,
            t_max,
        }
    }

    /// Derives the camera from `settings`, or says what is wrong with them.
    pub fn from_settings(settings: &CameraSettings) -> (r: Result<Camera, ConfigError>)
        ensures
            match r {
                Ok(camera) => settings.fault() is None && camera.derived_from(*settings)
                    && camera.wf(),
                Err(e) => settings.fault() == Some(e),
            },
    {
        if settings.image_width == 0 {
            return Err(ConfigError::ZeroWidth);
        }
        if settings.samples_per_pixel == 0 {
            return Err(ConfigError::ZeroSamples);
        }
        if settings.aspect_ratio <= 0 {
            return Err(ConfigError::BadAspectRatio);
        }
        let samples_per_pixel: i64 = settings.samples_per_pixel as i64;
        let image_width: i64 = settings.image_width as i64;
        let aspect_ratio: i64 = settings.aspect_ratio;

        // Image dimensions
        let rows: i128 = quot_wide((image_width as i128) * (SCALE as i128), aspect_ratio as i128);
        proof {
            lemma_quot_bounds(image_width * SCALE, aspect_ratio as int);
        }
        let image_height: i64 = if rows < 1 {
            1
        } else if rows > u32::MAX as i128 {
            return Err(ConfigError::OutOfRange);
        } else {
            rows as i64
        };

        // Camera settings
        let view_port_height: i64 = settings.viewport_height;
        let focal_length: i64 = settings.focal_length;
        let camera_origin: Point = settings.camera_origin;
        if view_port_height < -SPAN || view_port_height > SPAN || focal_length < -SPAN
            || focal_length > SPAN {
            return Err(ConfigError::OutOfRange);
        }
        proof {
            lemma_product_bound(
                view_port_height as int,
                image_width as int,
                SPAN as int,
                u32::MAX as int,
            );
        }
        let wide_width: i128 = quot_wide(
            (view_port_height as i128) * (image_width as i128),
            image_height as i128,
        );
        if wide_width < -(SPAN as i128) || wide_width > SPAN as i128 {
            return Err(ConfigError::OutOfRange);
        }
        if !camera_origin.is_in_limit() {
            return Err(ConfigError::OutOfRange);
        }
        let view_port_width: i64 = wide_width as i64;

        let viewport_u: Vec3 = Vec3::new(view_port_width, 0, 0);
        let viewport_v: Vec3 = Vec3::new(0, -view_port_height, 0);

        proof {
            lemma_derived_bounds(*settings);
        }
        let pixel_delta_u: Vec3 = viewport_u / (image_width * SCALE);
        let pixel_delta_v: Vec3 = viewport_v / (image_height * SCALE);

        let viewport_upper_left = camera_origin - Point::new(0, 0, focal_length) - (viewport_u / (2
            * SCALE)) - (viewport_v / (2 * SCALE));

        let pixel00_loc: Point = viewport_upper_left + (SCALE / 2) * (pixel_delta_u
            + pixel_delta_v);
        let pixel_sample_scale: i64 = fixed_div(SCALE, samples_per_pixel * SCALE);

        Ok(
            Camera::new(
                settings.image_width,
                aspect_ratio,
                camera_origin,
                image_height as u32,
                pixel00_loc,
                pixel_delta_u,
                pixel_delta_v,
                pixel_sample_scale,
                settings.samples_per_pixel,
                settings.t_max,
            ),
        )
    }
}

impl Default for Camera {
    /// The camera of the standard settings.
    fn default() -> (c: Camera)
        ensures
            c.derived_from(CameraSettings::standard_values()),
            c.wf(),
            c.image_height == 270,
    {
        let settings = CameraSettings::standard();
        proof {
            lemma_quot_bounds(480 * SCALE, 1_777_777);
            assert(settings.image_height() == 270);
            assert(settings.viewport_width() == 3_555_555);
            assert(settings.fault() is None);
        }
        match Camera::from_settings(&settings) {
            Ok(camera) => camera,
            Err(_) => vstd::pervasive::unreached(),
        }
    }
}

/// What admissible settings derive stays small: the steps span at most the
/// viewport, the first pixel lies within two spans of the origin, and the
/// reciprocal of the sample count is at most one.
pub proof fn lemma_derived_bounds(s: CameraSettings)
    requires
        s.fault() is None,
    ensures
        s.viewport_u().over(2 * SCALE).within(SPAN as int),
        s.viewport_v().over(2 * SCALE).within(SPAN as int),
        s.pixel_delta_u().within(SPAN as int),
        s.pixel_delta_v().within(SPAN as int),
        spans(s.pixel_delta_u(), s.image_width as int),
        spans(s.pixel_delta_v(), s.image_height()),
        s.pixel_delta_u().plus(s.pixel_delta_v()).scaled(SCALE / 2).within(SPAN as int),
        s.viewport_upper_left().minus(s.camera_origin@).within(SPAN as int),
        s.pixel00_loc().minus(s.camera_origin@).within(2 * SPAN),
        0 <= s.pixel_sample_scale() <= SCALE,
{
    let w = s.image_width as int;
    let h = s.image_height();
    let vw = s.viewport_width();
    let vh = s.viewport_height as int;
    let sc = SCALE as int;
    lemma_quot_exact(0, w * sc);
    lemma_quot_exact(0, h * sc);
    lemma_quot_exact(0, 2 * sc);
    assert(0 * sc == 0);
    lemma_step_spans(vw, w);
    lemma_step_spans(-vh, h);
    lemma_half(vw);
    lemma_half(-vh);
    let du = s.pixel_delta_u();
    let dv = s.pixel_delta_v();
    assert(du.y == 0 && du.z == 0 && dv.x == 0 && dv.z == 0);
    lemma_fmul_bound(sc / 2, du.x + dv.x, SPAN as int);
    lemma_fmul_bound(sc / 2, du.y + dv.y, SPAN as int);
    lemma_fmul_bound(sc / 2, du.z + dv.z, SPAN as int);
    lemma_reciprocal(s.samples_per_pixel as int);
}

/// A side of the viewport divided into `count` steps: the steps together are
/// no longer than the side.
proof fn lemma_step_spans(side: int, count: int)
    requires
        count >= 1,
        abs(side) <= SPAN,
    ensures
        abs(fdiv(side, count * SCALE)) * count <= abs(side),
        abs(fdiv(side, count * SCALE)) <= SPAN,
{
    let sc = SCALE as int;
    let step = fdiv(side, count * sc);
    lemma_quot_abs(side * sc, count * sc);
    assert(abs(side * sc) == abs(side) * sc) by (nonlinear_arith)
        requires
            sc > 0,
    ;
    assert(abs(step) * count <= abs(side)) by (nonlinear_arith)
        requires
            abs(step) * (count * sc) <= abs(side) * sc,
            sc > 0,
    ;
    assert(abs(step) <= abs(step) * count) by (nonlinear_arith)
        requires
            count >= 1,
            abs(step) >= 0,
    ;
}

/// Half of a side is no longer than the side.
proof fn lemma_half(side: int)
    ensures
        abs(fdiv(side, 2 * SCALE)) <= abs(side),
{
    let sc = SCALE as int;
    assert(abs(side * sc) <= abs(side) * (2 * sc)) by (nonlinear_arith)
        requires
            sc > 0,
    ;
    lemma_quot_le(side * sc, 2 * sc, abs(side));
}

} // verus!
