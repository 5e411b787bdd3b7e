//! The renderer: rays through the samples of a pixel, the shading of a
//! sample, and the filling of the image.

use crate::chance::{processors, random_jitter, shuffle};
use crate::imaging::{image_is_rgb8, image_pixels, new_rgb8, put_pixel};
use crate::primitives::light::Light;
use crate::scalar::{abs, floor_div, lemma_mul_within, sqrt_floor, ONE};
use crate::utils::bounding_volume_hierarchy::HitInfo;
use crate::utils::color::{Color, CHANNEL_MAX};
use crate::utils::ray::Ray;
use crate::utils::scene::Scene;
use crate::vector::{distance, lemma_direction_dot, lemma_direction_within, V3};
use vstd::prelude::*;

verus! {

/// Rays for each pixel.
pub const NB_RAY: u32 = 25;

/// Jitters in the pool that `render` draws.
pub const NB_RAND_SAMPLE: u32 = 2000000;

/// Every jitter of the pool lies in `[0, ONE)`, along both axes.
pub open spec fn jitters(samples: Seq<(i64, i64)>) -> bool {
    forall|i: int|
        0 <= i < samples.len() ==> 0 <= (#[trigger] samples[i]).0 < ONE && 0 <= samples[i].1 < ONE
}

/// The place in a pool of `pool` jitters of the jitter for ray `i` of
/// the pixel `(px, py)`.
pub open spec fn sample_slot(px: u32, py: u32, width: u32, i: int, pool: int) -> int {
    (px * width + py + i) % pool
}

/// Ray `i` of the pixel `(px, py)`: from the eye through the pixel,
/// moved by its jitter.
pub open spec fn sample_ray(scene: &Scene, px: u32, py: u32, samples: Seq<(i64, i64)>, i: int) -> Ray {
    let j = samples[sample_slot(px, py, scene.width, i, samples.len() as int)];
    Ray::along(
        scene.camera.eye,
        scene.camera.sample_direction(px, py, j.0, j.1, scene.width, scene.height),
    )
}

/// The ray from a hit toward the light.
pub open spec fn shadow_ray(light: &Light, h: HitInfo) -> Ray {
    Ray::along(h.p_hit, light.position@.minus(h.p_hit@))
}

/// The distance from a hit to the light, rounded down.
pub open spec fn light_distance(light: &Light, h: HitInfo) -> int {
    sqrt_floor(light.position@.minus(h.p_hit@).norm2())
}

/// Whether something stands between a hit and the light: whether the
/// ray toward the light hits the scene nearer than the light.
pub open spec fn occluded(scene: &Scene, h: HitInfo) -> bool {
    match scene.bvh.hit(&shadow_ray(&scene.light, h)) {
        Some(x) => x.distance < light_distance(&scene.light, h),
        None => false,
    }
}

/// The share of the light that a surface with unit normal `normal`
/// receives from the unit direction `toward`: the magnitude of their
/// dot product.
pub open spec fn lambert(normal: V3, toward: V3) -> int {
    abs(normal.dot(toward)) / (ONE as int)
}

/// A colour scaled by `factor`, channel by channel, rounded down.
pub open spec fn scaled(c: Color, factor: int) -> Color {
    Color {
        red: ((c.red * factor) / (ONE as int)) as i64,
        green: ((c.green * factor) / (ONE as int)) as i64,
        blue: ((c.blue * factor) / (ONE as int)) as i64,
    }
}

/// What one ray contributes. Black when the ray hits nothing, or hits a
/// point that the light does not reach; else the colour of the surface
/// scaled by the share of the light that it receives.
pub open spec fn shaded(scene: &Scene, ray: &Ray) -> Color {
    match scene.bvh.hit(ray) {
        None => Color { red: 0, green: 0, blue: 0 },
        Some(h) => if occluded(scene, h) {
            Color { red: 0, green: 0, blue: 0 }
        } else {
            scaled(h.color, lambert(h.normal@, shadow_ray(&scene.light, h).direction@))
        },
    }
}

/// The sums, channel by channel, of what the first `n` rays of the
/// pixel `(px, py)` contribute.
pub open spec fn sample_sum(scene: &Scene, px: u32, py: u32, samples: Seq<(i64, i64)>, n: nat) -> (
    int,
    int,
    int,
)
    decreases n,
{
    if n == 0 {
        (0, 0, 0)
    } else {
        let s = sample_sum(scene, px, py, samples, (n - 1) as nat);
        let c = shaded(scene, &sample_ray(scene, px, py, samples, n - 1));
        (s.0 + c.red, s.1 + c.green, s.2 + c.blue)
    }
}

/// The colour of the pixel `(px, py)`: the mean of what its `NB_RAY`
/// rays contribute, rounded down.
pub open spec fn pixel_color(scene: &Scene, px: u32, py: u32, samples: Seq<(i64, i64)>) -> Color {
    let s = sample_sum(scene, px, py, samples, NB_RAY as nat);
    Color {
        red: (s.0 / (NB_RAY as int)) as i64,
        green: (s.1 / (NB_RAY as int)) as i64,
        blue: (s.2 / (NB_RAY as int)) as i64,
    }
}

/// The rays of the pixel `(px, py)`.
pub fn create_rays(px: u32, py: u32, scene: &Scene, random_samples: &Vec<(i64, i64)>) -> (rays: Vec<
    Ray,
>)
    requires
        scene.wf(),
        random_samples@.len() > 0,
        jitters(random_samples@),
    ensures
        rays@.len() == NB_RAY,
        forall|i: int|
            0 <= i < NB_RAY ==> (#[trigger] rays@[i]) == sample_ray(
                scene,
                px,
                py,
                random_samples@,
                i,
            ) && rays@[i].wf(),
{
    let mut rays: Vec<Ray> = Vec::with_capacity(NB_RAY as usize);
    let mut i: u32 = 0;
    while i < NB_RAY
        invariant
            i <= NB_RAY,
            scene.wf(),
            random_samples@.len() > 0,
            jitters(random_samples@),
            rays@.len() == i,
            forall|k: int|
                0 <= k < i ==> (#[trigger] rays@[k]) == sample_ray(
                    scene,
                    px,
                    py,
                    random_samples@,
                    k,
                ) && rays@[k].wf(),
        decreases NB_RAY - i,
    {
        proof {
            lemma_mul_within(px as int, scene.width as int, 4294967295, 4294967295);
        }
        let place: u64 = (px as u64) * (scene.width as u64) + (py as u64) + (i as u64);
        let slot: usize = (place % (random_samples.len() as u64)) as usize;
        let jitter: (i64, i64) = random_samples[slot];
        let ray = scene.camera.generate_ray(px, py, jitter.0, jitter.1, scene.width, scene.height);
        rays.push(ray);
        i = i + 1;
    }
    rays
}

/// Whether something stands between a hit and the light.
pub fn is_occluded(scene: &Scene, hit: &HitInfo) -> (b: bool)
    requires
        scene.wf(),
        hit.wf(),
    ensures
        b == occluded(scene, *hit),
{
    let r_to_light = Ray::new(hit.p_hit, scene.light.position.minus(&hit.p_hit));
    let distance_to_light: i64 = distance(&scene.light.position, &hit.p_hit);
    match scene.bvh.intersect(&r_to_light) {
        Some(x) => x.distance < distance_to_light,
        None => false,
    }
}

fn scale_channel(c: i64, factor: i64) -> (r: i64)
    requires
        0 <= c <= CHANNEL_MAX,
        0 <= factor <= ONE,
    ensures
        r == (c * factor) / (ONE as int),
        0 <= r <= c,
{
    proof {
        lemma_mul_within(c as int, factor as int, CHANNEL_MAX as int, ONE as int);
        assert(0 <= c * factor <= c * ONE) by (nonlinear_arith)
            requires
                0 <= c,
                0 <= factor <= ONE,
        ;
        vstd::arithmetic::div_mod::lemma_div_pos_is_pos(c * factor, ONE as int);
        vstd::arithmetic::div_mod::lemma_div_is_ordered(c * factor, c * ONE, ONE as int);
        vstd::arithmetic::div_mod::lemma_div_multiples_vanish(c as int, ONE as int);
    }
    (c * factor) / ONE
}

/// What one ray contributes to its pixel.
pub fn shade(scene: &Scene, ray: &Ray) -> (c: Color)
    requires
        scene.wf(),
        ray.wf(),
    ensures
        c == shaded(scene, ray),
        c.wf(),
{
    match scene.bvh.intersect(ray) {
        None => Color::new_black(),
        Some(hit_info) => {
            let r_to_light = Ray::new(hit_info.p_hit, scene.light.position.minus(&hit_info.p_hit));
            let distance_to_light: i64 = distance(&scene.light.position, &hit_info.p_hit);
            let in_shadow: bool = match scene.bvh.intersect(&r_to_light) {
                Some(x) => x.distance < distance_to_light,
                None => false,
            };
            if in_shadow {
                Color::new_black()
            } else {
                proof {
                    lemma_direction_within(hit_info.normal@);
                    lemma_direction_within(r_to_light.direction@);
                    lemma_direction_dot(hit_info.normal@, r_to_light.direction@);
                }
                let dot: i128 = hit_info.normal.dot(&r_to_light.direction);
                let magnitude: i128 = if dot < 0 {
                    -dot
                } else {
                    dot
                };
                let light_norm_dot: i64 = floor_div(magnitude, ONE as i128) as i64;
                proof {
                    vstd::arithmetic::div_mod::lemma_div_pos_is_pos(magnitude as int, ONE as int);
                    vstd::arithmetic::div_mod::lemma_div_is_ordered(
                        magnitude as int,
                        ONE * ONE,
                        ONE as int,
                    );
                }
                Color {
                    red: scale_channel(hit_info.color.red, light_norm_dot),
                    green: scale_channel(hit_info.color.green, light_norm_dot),
                    blue: scale_channel(hit_info.color.blue, light_norm_dot),
                }
            }
        },
    }
}

/// The colour of the pixel `(px, py)`.
pub fn render_pixel(px: u32, py: u32, scene: &Scene, random_samples: &Vec<(i64, i64)>) -> (c: Color)
    requires
        scene.wf(),
        random_samples@.len() > 0,
        jitters(random_samples@),
    ensures
        c == pixel_color(scene, px, py, random_samples@),
        c.wf(),
{
    let rays: Vec<Ray> = create_rays(px, py, scene, random_samples);
    let mut red: i64 = 0;
    let mut green: i64 = 0;
    let mut blue: i64 = 0;
    let mut i: usize = 0;
    while i < rays.len()
        invariant
            i <= rays@.len(),
            rays@.len() == NB_RAY,
            scene.wf(),
            forall|k: int|
                0 <= k < NB_RAY ==> (#[trigger] rays@[k]) == sample_ray(
                    scene,
                    px,
                    py,
                    random_samples@,
                    k,
                ) && rays@[k].wf(),
            (red as int, green as int, blue as int) == sample_sum(
                scene,
                px,
                py,
                random_samples@,
                i as nat,
            ),
            0 <= red <= i * CHANNEL_MAX,
            0 <= green <= i * CHANNEL_MAX,
            0 <= blue <= i * CHANNEL_MAX,
        decreases rays@.len() - i,
    {
        let color = shade(scene, &rays[i]);
        red = red + color.red;
        green = green + color.green;
        blue = blue + color.blue;
        i = i + 1;
    }
    Color { red: red / (NB_RAY as i64), green: green / (NB_RAY as i64), blue: blue / (NB_RAY as i64) }
}

/// The row of the image that holds the row `y` of the rendering: the
/// rendering counts rows from the bottom, the image from the top.
pub open spec fn image_row(height: u32, y: u32) -> u32 {
    (height - 1 - y) as u32
}

/// The red, green and blue bytes of the display encoding of a colour.
pub open spec fn bytes(c: Color) -> (u8, u8, u8) {
    (c.encoded().0, c.encoded().1, c.encoded().2)
}

/// The pixels of an image of `width` by `height`, column after column.
pub open spec fn grid(width: u32, height: u32) -> Seq<(u32, u32)> {
    Seq::new((width * height) as nat, |k: int| ((k / (height as int)) as u32, (k % (height as int)) as u32))
}

/// Where the slice of worker `i` starts, when `len` pixels are shared
/// among `workers` workers; the slice ends where the next one starts.
pub open spec fn slice_start(i: int, len: int, workers: int) -> int {
    (i * len) / workers
}

/// Whether one of the first `n` pixels of `pixels` is written at `at`.
pub open spec fn painted_by(pixels: Seq<(u32, u32)>, n: int, height: u32, at: (u32, u32)) -> bool {
    exists|k: int|
        0 <= k < n && (#[trigger] pixels[k]).0 == at.0 && image_row(height, pixels[k].1) == at.1
}

/// What an image holds when the first `n` pixels of `pixels` have been
/// rendered and written: at each of their places the colour of the
/// pixel, and black elsewhere.
pub open spec fn partly_rendered(
    held: Map<(u32, u32), (u8, u8, u8)>,
    scene: &Scene,
    samples: Seq<(i64, i64)>,
    pixels: Seq<(u32, u32)>,
    n: int,
) -> bool {
    &&& forall|at: (u32, u32)|
        (#[trigger] held.dom().contains(at)) <==> (at.0 < scene.width && at.1 < scene.height)
    &&& forall|at: (u32, u32)|
        at.0 < scene.width && at.1 < scene.height ==> (#[trigger] held[at]) == (if painted_by(
            pixels,
            n,
            scene.height,
            at,
        ) {
            bytes(pixel_color(scene, at.0, image_row(scene.height, at.1), samples))
        } else {
            (0u8, 0u8, 0u8)
        })
}

/// What an image holds when every pixel has been rendered and written:
/// the colour of the pixel `(x, y)` at column `x` and row
/// `height - 1 - y`.
pub open spec fn rendered(
    held: Map<(u32, u32), (u8, u8, u8)>,
    scene: &Scene,
    samples: Seq<(i64, i64)>,
) -> bool {
    &&& forall|at: (u32, u32)|
        (#[trigger] held.dom().contains(at)) <==> (at.0 < scene.width && at.1 < scene.height)
    &&& forall|x: u32, y: u32|
        x < scene.width && y < scene.height ==> (#[trigger] held[(x, image_row(scene.height, y))])
            == bytes(pixel_color(scene, x, y, samples))
}

/// What a map of pixels holds after the first `n` entries of `cols`
/// have been written into it, one after the other.
pub open spec fn painted(
    before: Map<(u32, u32), (u8, u8, u8)>,
    cols: Seq<(u32, u32, Color)>,
    height: u32,
    n: int,
) -> Map<(u32, u32), (u8, u8, u8)>
    decreases n,
{
    if n <= 0 {
        before
    } else {
        painted(before, cols, height, n - 1).insert(
            (cols[n - 1].0, image_row(height, cols[n - 1].1)),
            bytes(cols[n - 1].2),
        )
    }
}

/// All pixels of an image of `width` by `height`, column after column.
pub fn pixel_grid(width: u32, height: u32) -> (pixels: Vec<(u32, u32)>)
    requires
        width * height <= usize::MAX,
    ensures
        pixels@ == grid(width, height),
{
    let mut pixels: Vec<(u32, u32)> = Vec::new();
    let mut px: u32 = 0;
    while px < width
        invariant
            px <= width,
            pixels@.len() == px * height,
            forall|k: int|
                0 <= k < pixels@.len() ==> (#[trigger] pixels@[k]) == (
                    (k / (height as int)) as u32,
                    (k % (height as int)) as u32,
                ),
        decreases width - px,
    {
        let mut py: u32 = 0;
        while py < height
            invariant
                px < width,
                py <= height,
                pixels@.len() == px * height + py,
                forall|k: int|
                    0 <= k < pixels@.len() ==> (#[trigger] pixels@[k]) == (
                        (k / (height as int)) as u32,
                        (k % (height as int)) as u32,
                    ),
            decreases height - py,
        {
            proof {
                let k: int = px * height + py;
                assert(k == height * px + py) by (nonlinear_arith)
                    requires
                        k == px * height + py,
                ;
                vstd::arithmetic::div_mod::lemma_fundamental_div_mod_converse(
                    k,
                    height as int,
                    px as int,
                    py as int,
                );
            }
            pixels.push((px, py));
            py = py + 1;
        }
        proof {
            assert((px + 1) * height == px * height + height) by (nonlinear_arith);
        }
        px = px + 1;
    }
    proof {
        assert(pixels@ =~= grid(width, height));
    }
    pixels
}

/// The slice of the pixels that worker `i` of `workers` renders: where
/// it starts and where it ends.
pub fn slice_bounds(i: usize, len: usize, workers: usize) -> (b: (usize, usize))
    requires
        i < workers,
    ensures
        b.0 == slice_start(i as int, len as int, workers as int),
        b.1 == slice_start(i + 1, len as int, workers as int),
        b.0 <= b.1 <= len,
{
    proof {
        lemma_slices_ordered(i as int, len as int, workers as int);
        lemma_mul_within(i as int, len as int, 18446744073709551615, 18446744073709551615);
        lemma_mul_within(i + 1, len as int, 18446744073709551615, 18446744073709551615);
    }
    let start: u128 = ((i as u128) * (len as u128)) / (workers as u128);
    let end: u128 = (((i as u128) + 1) * (len as u128)) / (workers as u128);
    (start as usize, end as usize)
}

/// The slices follow one another and stay within the pixels.
pub proof fn lemma_slices_ordered(i: int, len: int, workers: int)
    requires
        0 <= i < workers,
        0 <= len,
    ensures
        0 <= slice_start(i, len, workers) <= slice_start(i + 1, len, workers) <= len,
{
    assert(0 <= i * len <= (i + 1) * len <= workers * len) by (nonlinear_arith)
        requires
            0 <= i < workers,
            0 <= len,
    ;
    vstd::arithmetic::div_mod::lemma_div_pos_is_pos(i * len, workers);
    vstd::arithmetic::div_mod::lemma_div_is_ordered(i * len, (i + 1) * len, workers);
    vstd::arithmetic::div_mod::lemma_div_is_ordered((i + 1) * len, workers * len, workers);
    vstd::arithmetic::div_mod::lemma_div_multiples_vanish(len, workers);
    assert(workers * len == len * workers) by (nonlinear_arith);
}

/// The first slice starts with the first pixel and the last one ends
/// with the last: together the slices hold every pixel once.
pub proof fn lemma_slices_cover(len: int, workers: int)
    requires
        0 < workers,
        0 <= len,
    ensures
        slice_start(0, len, workers) == 0,
        slice_start(workers, len, workers) == len,
{
    assert(0 * len == 0);
    vstd::arithmetic::div_mod::lemma_div_multiples_vanish(len, workers);
    assert(workers * len == len * workers) by (nonlinear_arith);
}

/// The colours of the pixels of the slice of worker `i`, each with its
/// pixel.
pub fn render_slice(
    scene: &Scene,
    pixels: &Vec<(u32, u32)>,
    random_samples: &Vec<(i64, i64)>,
    i: usize,
    workers: usize,
) -> (cols: Vec<(u32, u32, Color)>)
    requires
        scene.wf(),
        random_samples@.len() > 0,
        jitters(random_samples@),
        i < workers,
    ensures
        cols@.len() == slice_start(i + 1, pixels@.len() as int, workers as int) - slice_start(
            i as int,
            pixels@.len() as int,
            workers as int,
        ),
        forall|k: int|
            0 <= k < cols@.len() ==> (#[trigger] cols@[k]) == ({
                let p = pixels@[slice_start(i as int, pixels@.len() as int, workers as int) + k];
                (p.0, p.1, pixel_color(scene, p.0, p.1, random_samples@))
            }),
{
    let (start, end) = slice_bounds(i, pixels.len(), workers);
    let mut cols: Vec<(u32, u32, Color)> = Vec::with_capacity(end - start);
    let mut at: usize = start;
    while at < end
        invariant
            start <= at <= end <= pixels@.len(),
            scene.wf(),
            random_samples@.len() > 0,
            jitters(random_samples@),
            cols@.len() == at - start,
            forall|k: int|
                0 <= k < cols@.len() ==> (#[trigger] cols@[k]) == ({
                    let p = pixels@[start + k];
                    (p.0, p.1, pixel_color(scene, p.0, p.1, random_samples@))
                }),
        decreases end - at,
    {
        let pixel: (u32, u32) = pixels[at];
        let color = render_pixel(pixel.0, pixel.1, scene, random_samples);
        cols.push((pixel.0, pixel.1, color));
        at = at + 1;
    }
    cols
}

/// A black image of `width` by `height` pixels.
pub fn blank_image(width: u32, height: u32) -> (img: image::DynamicImage)
    requires
        3 * width * height <= isize::MAX,
    ensures
        image_is_rgb8(img),
        forall|at: (u32, u32)|
            (#[trigger] image_pixels(img).dom().contains(at)) <==> (at.0 < width && at.1 < height),
        forall|at: (u32, u32)|
            at.0 < width && at.1 < height ==> (#[trigger] image_pixels(img)[at]) == (0u8, 0u8, 0u8),
{
    new_rgb8(width, height)
}

/// Writes the colours of a slice into the image, each at the column of
/// its pixel and at the row `height - 1 - y` for the pixel's row `y`.
pub fn write_slice(img: &mut image::DynamicImage, height: u32, cols: &Vec<(u32, u32, Color)>)
    requires
        image_is_rgb8(*old(img)),
        forall|k: int|
            0 <= k < cols@.len() ==> (#[trigger] cols@[k]).1 < height && image_pixels(
                *old(img),
            ).dom().contains((cols@[k].0, image_row(height, cols@[k].1))),
    ensures
        image_is_rgb8(*final(img)),
        image_pixels(*final(img)) == painted(
            image_pixels(*old(img)),
            cols@,
            height,
            cols@.len() as int,
        ),
{
    let ghost before = image_pixels(*img);
    let mut k: usize = 0;
    while k < cols.len()
        invariant
            k <= cols@.len(),
            image_is_rgb8(*img),
            image_pixels(*img) == painted(before, cols@, height, k as int),
            image_pixels(*img).dom() =~= before.dom(),
            forall|j: int|
                0 <= j < cols@.len() ==> (#[trigger] cols@[j]).1 < height && before.dom().contains(
                    (cols@[j].0, image_row(height, cols@[j].1)),
                ),
        decreases cols@.len() - k,
    {
        let c: (u32, u32, Color) = cols[k];
        put_pixel(img, c.0, height - 1 - c.1, c.2.to_rgba());
        k = k + 1;
    }
}

/// Every pixel of `pixels` lies in an image of `width` by `height`.
pub open spec fn in_image(pixels: Seq<(u32, u32)>, width: u32, height: u32) -> bool {
    forall|k: int| 0 <= k < pixels.len() ==> (#[trigger] pixels[k]).0 < width && pixels[k].1 < height
}

/// `cols` holds the colours of the pixels of `pixels` from `start` on.
pub open spec fn colours_of(
    cols: Seq<(u32, u32, Color)>,
    scene: &Scene,
    samples: Seq<(i64, i64)>,
    pixels: Seq<(u32, u32)>,
    start: int,
) -> bool {
    forall|k: int|
        0 <= k < cols.len() ==> (#[trigger] cols[k]) == ({
            let p = pixels[start + k];
            (p.0, p.1, pixel_color(scene, p.0, p.1, samples))
        })
}

/// Writing the colours of the next pixels into an image that holds the
/// pixels before them gives an image that holds them all.
pub proof fn lemma_paint_slice(
    held: Map<(u32, u32), (u8, u8, u8)>,
    scene: &Scene,
    samples: Seq<(i64, i64)>,
    pixels: Seq<(u32, u32)>,
    start: int,
    cols: Seq<(u32, u32, Color)>,
    j: int,
)
    requires
        partly_rendered(held, scene, samples, pixels, start),
        0 <= start,
        0 <= j <= cols.len(),
        start + cols.len() <= pixels.len(),
        colours_of(cols, scene, samples, pixels, start),
        in_image(pixels, scene.width, scene.height),
    ensures
        partly_rendered(painted(held, cols, scene.height, j), scene, samples, pixels, start + j),
    decreases j,
{
    if j > 0 {
        lemma_paint_slice(held, scene, samples, pixels, start, cols, j - 1);
        let earlier = painted(held, cols, scene.height, j - 1);
        let now = painted(held, cols, scene.height, j);
        let entry = cols[j - 1];
        let pixel = pixels[start + j - 1];
        assert(entry == (pixel.0, pixel.1, pixel_color(scene, pixel.0, pixel.1, samples)));
        let target = (pixel.0, image_row(scene.height, pixel.1));
        assert(now == earlier.insert(target, bytes(entry.2)));
        assert(pixel.0 < scene.width && pixel.1 < scene.height);
        assert forall|at: (u32, u32)| at.0 < scene.width && at.1 < scene.height implies (
        #[trigger] now[at]) == (if painted_by(pixels, start + j, scene.height, at) {
            bytes(pixel_color(scene, at.0, image_row(scene.height, at.1), samples))
        } else {
            (0u8, 0u8, 0u8)
        }) by {
            if at == target {
                assert(pixels[start + j - 1].0 == at.0);
                assert(painted_by(pixels, start + j, scene.height, at));
                assert(image_row(scene.height, at.1) == pixel.1);
            } else {
                assert(now[at] == earlier[at]);
                if painted_by(pixels, start + j, scene.height, at) {
                    let k = choose|k: int|
                        0 <= k < start + j && (#[trigger] pixels[k]).0 == at.0 && image_row(
                            scene.height,
                            pixels[k].1,
                        ) == at.1;
                    assert(k != start + j - 1);
                    assert(painted_by(pixels, start + j - 1, scene.height, at));
                }
                if painted_by(pixels, start + j - 1, scene.height, at) {
                    let k = choose|k: int|
                        0 <= k < start + j - 1 && (#[trigger] pixels[k]).0 == at.0 && image_row(
                            scene.height,
                            pixels[k].1,
                        ) == at.1;
                    assert(painted_by(pixels, start + j, scene.height, at));
                }
            }
        }
        assert forall|at: (u32, u32)| (#[trigger] now.dom().contains(at)) <==> (at.0 < scene.width
            && at.1 < scene.height) by {
            assert(earlier.dom().contains(at) <==> (at.0 < scene.width && at.1 < scene.height));
        }
    }
}

/// An image that holds every pixel of `pixels`, where every pixel of the
/// grid occurs, is the rendering.
pub proof fn lemma_all_painted(
    held: Map<(u32, u32), (u8, u8, u8)>,
    scene: &Scene,
    samples: Seq<(i64, i64)>,
    pixels: Seq<(u32, u32)>,
)
    requires
        partly_rendered(held, scene, samples, pixels, pixels.len() as int),
        forall|x: u32, y: u32|
            x < scene.width && y < scene.height ==> #[trigger] pixels.contains((x, y)),
    ensures
        rendered(held, scene, samples),
{
    assert forall|x: u32, y: u32| x < scene.width && y < scene.height implies (#[trigger] held[(
        x,
        image_row(scene.height, y),
    )]) == bytes(pixel_color(scene, x, y, samples)) by {
        let at = (x, image_row(scene.height, y));
        assert(pixels.contains((x, y)));
        let k = choose|k: int| 0 <= k < pixels.len() && pixels[k] == (x, y);
        assert(pixels[k].0 == at.0 && image_row(scene.height, pixels[k].1) == at.1);
        assert(painted_by(pixels, pixels.len() as int, scene.height, at));
        assert(image_row(scene.height, at.1) == y);
        assert(at.0 < scene.width && at.1 < scene.height);
    }
}

/// Renders the pixels of `pixels`, in that order and in `workers`
/// slices, with the jitters of `random_samples`, into a black image.
pub fn render_with(
    scene: &Scene,
    pixels: &Vec<(u32, u32)>,
    random_samples: &Vec<(i64, i64)>,
    workers: usize,
) -> (img: image::DynamicImage)
    requires
        scene.wf(),
        3 * scene.width * scene.height <= isize::MAX,
        random_samples@.len() > 0,
        jitters(random_samples@),
        in_image(pixels@, scene.width, scene.height),
        workers > 0,
    ensures
        image_is_rgb8(img),
        partly_rendered(image_pixels(img), scene, random_samples@, pixels@, pixels@.len() as int),
{
    let mut img = blank_image(scene.width, scene.height);
    let mut i: usize = 0;
    proof {
        lemma_slices_cover(pixels@.len() as int, workers as int);
    }
    while i < workers
        invariant
            i <= workers,
            workers > 0,
            scene.wf(),
            random_samples@.len() > 0,
            jitters(random_samples@),
            in_image(pixels@, scene.width, scene.height),
            image_is_rgb8(img),
            partly_rendered(
                image_pixels(img),
                scene,
                random_samples@,
                pixels@,
                slice_start(i as int, pixels@.len() as int, workers as int),
            ),
        decreases workers - i,
    {
        let cols = render_slice(scene, pixels, random_samples, i, workers);
        let ghost start = slice_start(i as int, pixels@.len() as int, workers as int);
        let ghost held = image_pixels(img);
        proof {
            lemma_slices_ordered(i as int, pixels@.len() as int, workers as int);
            assert forall|k: int| 0 <= k < cols@.len() implies (#[trigger] cols@[k]).1
                < scene.height && held.dom().contains(
                (cols@[k].0, image_row(scene.height, cols@[k].1)),
            ) by {
                let p = pixels@[start + k];
                assert(p.0 < scene.width && p.1 < scene.height);
            }
        }
        write_slice(&mut img, scene.height, &cols);
        proof {
            lemma_paint_slice(
                held,
                scene,
                random_samples@,
                pixels@,
                start,
                cols@,
                cols@.len() as int,
            );
        }
        i = i + 1;
    }
    img
}

/// A pool of `count` jitters, drawn at random.
pub fn draw_samples(count: u32) -> (samples: Vec<(i64, i64)>)
    ensures
        samples@.len() == count,
        jitters(samples@),
{
    let mut samples: Vec<(i64, i64)> = Vec::with_capacity(count as usize);
    let mut i: u32 = 0;
    while i < count
        invariant
            i <= count,
            samples@.len() == i,
            jitters(samples@),
        decreases count - i,
    {
        let u: i64 = random_jitter();
        let v: i64 = random_jitter();
        samples.push((u, v));
        i = i + 1;
    }
    samples
}

/// Renders the scene. The pixels are rendered in a random order, in as
/// many slices as the machine has processors, each with `NB_RAY` rays
/// whose jitters come from a pool drawn at random. The image holds the
/// colour of the pixel `(x, y)` at column `x` and row `height - 1 - y`.
pub fn render(scene: &Scene) -> (img: image::DynamicImage)
    requires
        scene.wf(),
        3 * scene.width * scene.height <= isize::MAX,
    ensures
        image_is_rgb8(img),
        exists|samples: Seq<(i64, i64)>|
            samples.len() == NB_RAND_SAMPLE && jitters(samples) && #[trigger] rendered(
                image_pixels(img),
                scene,
                samples,
            ),
{
    proof {
        let w = scene.width as int;
        let h = scene.height as int;
        assert(w * h <= 3 * w * h) by (nonlinear_arith)
            requires
                0 <= w,
                0 <= h,
        ;
    }
    let mut pixels: Vec<(u32, u32)> = pixel_grid(scene.width, scene.height);
    let random_samples: Vec<(i64, i64)> = draw_samples(NB_RAND_SAMPLE);
    let ghost ordered = pixels@;
    shuffle(&mut pixels);
    let found: usize = processors();
    let workers: usize = if found == 0 {
        1
    } else {
        found
    };
    proof {
        lemma_shuffled_grid(scene.width, scene.height, pixels@);
    }
    let img = render_with(scene, &pixels, &random_samples, workers);
    proof {
        lemma_all_painted(image_pixels(img), scene, random_samples@, pixels@);
    }
    img
}

/// A rearrangement of the grid holds every pixel of the image, and no
/// other.
pub proof fn lemma_shuffled_grid(width: u32, height: u32, pixels: Seq<(u32, u32)>)
    requires
        pixels.to_multiset() == grid(width, height).to_multiset(),
    ensures
        in_image(pixels, width, height),
        forall|x: u32, y: u32| x < width && y < height ==> #[trigger] pixels.contains((x, y)),
{
    let g = grid(width, height);
    assert forall|k: int| 0 <= k < pixels.len() implies (#[trigger] pixels[k]).0 < width
        && pixels[k].1 < height by {
        let p = pixels[k];
        assert(pixels.contains(p));
        vstd::seq_lib::to_multiset_contains(pixels, p);
        vstd::seq_lib::to_multiset_contains(g, p);
        assert(g.contains(p));
        let i = choose|i: int| 0 <= i < g.len() && g[i] == p;
        lemma_grid_entry(width, height, i);
    }
    assert forall|x: u32, y: u32| x < width && y < height implies #[trigger] pixels.contains(
        (x, y),
    ) by {
        let i: int = x * height + y;
        assert(i == height * x + y) by (nonlinear_arith)
            requires
                i == x * height + y,
        ;
        assert(0 <= i < width * height) by (nonlinear_arith)
            requires
                i == x * height + y,
                0 <= x < width,
                0 <= y < height,
        ;
        vstd::arithmetic::div_mod::lemma_fundamental_div_mod_converse(
            i,
            height as int,
            x as int,
            y as int,
        );
        assert(g[i] == (x, y));
        assert(g.contains((x, y)));
        vstd::seq_lib::to_multiset_contains(g, (x, y));
        vstd::seq_lib::to_multiset_contains(pixels, (x, y));
    }
}

proof fn lemma_grid_entry(width: u32, height: u32, i: int)
    requires
        0 <= i < width * height,
    ensures
        0 <= i / (height as int) < width,
        0 <= i % (height as int) < height,
{
    assert(height > 0) by (nonlinear_arith)
        requires
            0 <= i < width * height,
            0 <= height,
    ;
    let h = height as int;
    vstd::arithmetic::div_mod::lemma_fundamental_div_mod(i, h);
    vstd::arithmetic::div_mod::lemma_mod_bound(i, h);
    vstd::arithmetic::div_mod::lemma_div_pos_is_pos(i, h);
    let q = i / h;
    assert(q < width) by (nonlinear_arith)
        requires
            i == h * q + i % h,
            0 <= i % h,
            i < width * h,
            h > 0,
    ;
}

/// The rendering of a scene with a pool of jitters is one image: it
/// does not depend on the order in which the pixels were rendered, nor
/// on the number of workers that shared them.
pub proof fn lemma_rendering_is_unique(
    first: Map<(u32, u32), (u8, u8, u8)>,
    second: Map<(u32, u32), (u8, u8, u8)>,
    scene: &Scene,
    samples: Seq<(i64, i64)>,
)
    requires
        rendered(first, scene, samples),
        rendered(second, scene, samples),
    ensures
        first == second,
{
    assert forall|at: (u32, u32)| first.dom().contains(at) implies #[trigger] first[at]
        == second[at] by {
        let y = image_row(scene.height, at.1);
        assert((at.0, image_row(scene.height, y)) == at);
        assert(first[(at.0, image_row(scene.height, y))] == bytes(
            pixel_color(scene, at.0, y, samples),
        ));
        assert(second[(at.0, image_row(scene.height, y))] == bytes(
            pixel_color(scene, at.0, y, samples),
        ));
    }
    assert(first.dom() =~= second.dom());
    assert(first =~= second);
}

/// Later workers start later.
pub proof fn lemma_slices_monotone(i: int, j: int, len: int, workers: int)
    requires
        0 <= i <= j,
        0 < workers,
        0 <= len,
    ensures
        slice_start(i, len, workers) <= slice_start(j, len, workers),
{
    assert(i * len <= j * len) by (nonlinear_arith)
        requires
            0 <= i <= j,
            0 <= len,
    ;
    vstd::arithmetic::div_mod::lemma_div_is_ordered(i * len, j * len, workers);
}

/// Whether the pixel at place `k` belongs to the slice of worker `i`.
pub open spec fn in_slice(i: int, k: int, len: int, workers: int) -> bool {
    slice_start(i, len, workers) <= k < slice_start(i + 1, len, workers)
}

/// Every pixel belongs to the slice of exactly one worker: no pixel is
/// left out and none is rendered twice.
pub proof fn lemma_slices_partition(k: int, len: int, workers: int)
    requires
        0 < workers,
        0 <= k < len,
    ensures
        exists|i: int| 0 <= i < workers && #[trigger] in_slice(i, k, len, workers),
        forall|i: int, j: int|
            0 <= i < workers && 0 <= j < workers && #[trigger] in_slice(i, k, len, workers)
                && #[trigger] in_slice(j, k, len, workers) ==> i == j,
{
    lemma_slices_cover(len, workers);
    let i = lemma_owner_from(0, k, len, workers);
    assert(in_slice(i, k, len, workers));
    assert forall|i: int, j: int|
        0 <= i < workers && 0 <= j < workers && #[trigger] in_slice(i, k, len, workers)
            && #[trigger] in_slice(j, k, len, workers) implies i == j by {
        if i < j {
            lemma_slices_monotone(i + 1, j, len, workers);
        } else if j < i {
            lemma_slices_monotone(j + 1, i, len, workers);
        }
    }
}

proof fn lemma_owner_from(from: int, k: int, len: int, workers: int) -> (i: int)
    requires
        0 <= from < workers,
        0 <= k < len,
        slice_start(from, len, workers) <= k,
    ensures
        from <= i < workers,
        in_slice(i, k, len, workers),
    decreases workers - from,
{
    if k < slice_start(from + 1, len, workers) {
        from
    } else {
        if from + 1 == workers {
            lemma_slices_cover(len, workers);
        }
        lemma_owner_from(from + 1, k, len, workers)
    }
}

} // verus!
