use image::GenericImageView;
use tracer::primitives::light::Light;
use tracer::primitives::sphere::Sphere;
use tracer::primitives::Primitive;
use tracer::renderer::{
    blank_image, create_rays, draw_samples, is_occluded, pixel_grid, render, render_pixel,
    render_slice, render_with, shade, slice_bounds, write_slice, NB_RAY,
};
use tracer::scalar::ONE;
use tracer::utils::bounding_volume_hierarchy::BoundingVolumeHierarchy;
use tracer::utils::camera::Camera;
use tracer::utils::color::{gamma_encode, Color};
use tracer::utils::ray::Ray;
use tracer::utils::scene::Scene;
use tracer::vector::{Point3, Vector3};

fn world(x: i64) -> i64 {
    x * ONE
}

fn point(x: i64, y: i64, z: i64) -> Point3 {
    Point3::new(world(x), world(y), world(z))
}

fn red_ball() -> Primitive {
    Primitive::Sphere(Sphere::new(world(100), point(0, 0, 0), Color::new(ONE, 0, 0)))
}

fn scene_of(primitives: Vec<Primitive>, light: Point3, width: u32, height: u32) -> Scene {
    Scene {
        width,
        height,
        light: Light { position: light, primitives: Vec::new() },
        camera: Camera::new(point(0, 0, 500), point(0, 0, 0), Vector3::new(0, ONE, 0), world(100)),
        bvh: BoundingVolumeHierarchy::new(primitives),
    }
}

fn single_sphere_scene() -> Scene {
    scene_of(vec![red_ball()], point(0, 1000, 1000), 100, 100)
}

#[test]
fn camera_frame_is_orthonormal() {
    let c = Camera::new(point(0, 0, 500), point(0, 0, 0), Vector3::new(0, 5, 0), world(100));
    assert_eq!(c.w, Vector3::new(0, 0, ONE));
    assert_eq!(c.u, Vector3::new(ONE, 0, 0));
    assert_eq!(c.v, Vector3::new(0, -ONE, 0));
    assert_eq!(c.up_vector, Vector3::new(0, ONE, 0));
    assert_eq!(c.eye, point(0, 0, 500));
    assert_eq!(c.look_at, point(0, 0, 0));
    assert_eq!(c.distance, world(100));
}

#[test]
fn camera_generates_rays_through_pixels() {
    let c = Camera::new(point(0, 0, 500), point(0, 0, 0), Vector3::new(0, ONE, 0), world(100));
    let middle = c.generate_ray(50, 50, 0, 0, 100, 100);
    assert_eq!(middle.origin, point(0, 0, 500));
    assert_eq!(middle.direction, Vector3::new(0, 0, -ONE));
    let right = c.generate_ray(150, 50, 0, 0, 100, 100);
    assert_eq!(right, Ray::new(point(0, 0, 500), Vector3::new(world(100), 0, world(-100))));
    let jittered = c.generate_ray(50, 50, ONE / 2, ONE / 4, 100, 100);
    assert_eq!(
        jittered,
        Ray::new(point(0, 0, 500), Vector3::new(ONE / 2, -ONE / 4, world(-100)))
    );
}

#[test]
fn rays_of_a_pixel_take_their_jitter_from_the_pool() {
    let scene = single_sphere_scene();
    let pool: Vec<(i64, i64)> = (0..7).map(|i| (i * 1000, i * 2000)).collect();
    let rays = create_rays(3, 4, &scene, &pool);
    assert_eq!(rays.len(), NB_RAY as usize);
    for (i, ray) in rays.iter().enumerate() {
        let slot = (3 * 100 + 4 + i) % 7;
        let expected = scene.camera.generate_ray(3, 4, pool[slot].0, pool[slot].1, 100, 100);
        assert_eq!(*ray, expected);
    }
}

#[test]
fn lit_surface_is_scaled_by_the_share_of_light() {
    let scene = scene_of(vec![red_ball()], point(300, 0, 500), 100, 100);
    let ray = Ray::new(point(0, 0, 500), Vector3::new(0, 0, -1));
    assert_eq!(shade(&scene, &ray), Color::new(52428, 0, 0));
    let overhead = scene_of(vec![red_ball()], point(0, 0, 1000), 100, 100);
    assert_eq!(shade(&overhead, &ray), Color::new(ONE, 0, 0));
}

#[test]
fn ray_that_hits_nothing_is_black() {
    let scene = single_sphere_scene();
    let ray = Ray::new(point(0, 0, 500), Vector3::new(0, 0, 1));
    assert_eq!(shade(&scene, &ray), Color::new_black());
}

#[test]
fn single_sphere_center_is_red_and_corner_is_black() {
    let scene = single_sphere_scene();
    let pool = draw_samples(1000);
    let center = render_pixel(50, 50, &scene, &pool);
    assert!(center.red > 0);
    assert_eq!(center.green, 0);
    assert_eq!(center.blue, 0);
    let corner = render_pixel(0, 0, &scene, &pool);
    assert_eq!(corner, Color::new_black());
}

#[test]
fn pixel_is_the_mean_of_its_rays() {
    let scene = scene_of(vec![red_ball()], point(300, 0, 500), 100, 100);
    let pool = vec![(0, 0)];
    let ray = scene.camera.generate_ray(50, 50, 0, 0, 100, 100);
    assert_eq!(render_pixel(50, 50, &scene, &pool), shade(&scene, &ray));
    let pool = vec![(0, 0), (ONE - 1, ONE - 1), (300, 7)];
    let rays = create_rays(48, 52, &scene, &pool);
    let mut sum = (0, 0, 0);
    for r in &rays {
        let c = shade(&scene, r);
        sum = (sum.0 + c.red, sum.1 + c.green, sum.2 + c.blue);
    }
    assert_eq!(
        render_pixel(48, 52, &scene, &pool),
        Color::new(sum.0 / 25, sum.1 / 25, sum.2 / 25)
    );
}

#[test]
fn occluded_point_is_black() {
    let receiver = red_ball();
    let occluder =
        Primitive::Sphere(Sphere::new(world(50), point(0, 530, 40), Color::new(0, ONE, 0)));
    let light = point(0, 1000, 0);
    let ray = Ray::new(point(0, 60, 500), Vector3::new(0, 0, -1));

    let open = scene_of(vec![receiver], light, 100, 100);
    let hit = open.bvh.intersect(&ray).unwrap();
    assert_eq!(hit.p_hit, point(0, 60, 80));
    assert!(!is_occluded(&open, &hit));
    assert!(shade(&open, &ray).red > 0);

    let shadowed = scene_of(vec![receiver, occluder], light, 100, 100);
    let hit = shadowed.bvh.intersect(&ray).unwrap();
    assert_eq!(hit.p_hit, point(0, 60, 80));
    assert_eq!(hit.color, Color::new(ONE, 0, 0));
    let to_light = Ray::new(hit.p_hit, Vector3::new(0, world(940), world(-80)));
    let blocker = shadowed.bvh.intersect(&to_light).unwrap();
    assert_eq!(blocker.color, Color::new(0, ONE, 0));
    assert!(blocker.distance < world(943));
    assert!(is_occluded(&shadowed, &hit));
    assert_eq!(shade(&shadowed, &ray), Color::new_black());
}

#[test]
fn occluder_beyond_the_light_casts_no_shadow() {
    let receiver = red_ball();
    let beyond =
        Primitive::Sphere(Sphere::new(world(50), point(0, 2000, -85), Color::new(0, ONE, 0)));
    let scene = scene_of(vec![receiver, beyond], point(0, 1000, 0), 100, 100);
    let ray = Ray::new(point(0, 60, 500), Vector3::new(0, 0, -1));
    let hit = scene.bvh.intersect(&ray).unwrap();
    assert!(!is_occluded(&scene, &hit));
}

#[test]
fn gamma_encoding_rounds_down() {
    assert_eq!(gamma_encode(0), 0);
    assert_eq!(gamma_encode(-3), 0);
    assert_eq!(gamma_encode(1), 1);
    assert_eq!(gamma_encode(10), 4);
    assert_eq!(gamma_encode(655), 31);
    assert_eq!(gamma_encode(ONE / 4), 135);
    assert_eq!(gamma_encode(ONE / 2), 186);
    assert_eq!(gamma_encode(43690), 212);
    assert_eq!(gamma_encode(ONE - 1), 254);
    assert_eq!(gamma_encode(ONE), 255);
    assert_eq!(gamma_encode(ONE + 5), 255);
    assert_eq!(gamma_encode(i64::MAX), 255);
    assert_eq!(gamma_encode(i64::MIN), 0);
}

#[test]
fn color_constructors_and_encoding() {
    let c = Color::new(ONE, ONE / 2, 0);
    assert_eq!((c.red, c.green, c.blue), (ONE, ONE / 2, 0));
    assert_eq!(Color::new_copy(&c), c);
    assert_eq!(Color::new_black(), Color::new(0, 0, 0));
    assert_eq!(c.to_rgba(), image::Rgba([255, 186, 0, 255]));
    assert_eq!(Color::new_black().to_rgba(), image::Rgba([0, 0, 0, 255]));
    assert_eq!(Color::new(5 * ONE, -ONE, ONE / 4).to_rgba(), image::Rgba([255, 0, 135, 255]));
}

#[test]
fn grid_lists_every_pixel_column_by_column() {
    let g = pixel_grid(3, 2);
    assert_eq!(g, vec![(0, 0), (0, 1), (1, 0), (1, 1), (2, 0), (2, 1)]);
    assert_eq!(pixel_grid(0, 5), Vec::new());
    assert_eq!(pixel_grid(5, 0), Vec::new());
}

#[test]
fn slices_share_all_pixels() {
    assert_eq!(slice_bounds(0, 10, 3), (0, 3));
    assert_eq!(slice_bounds(1, 10, 3), (3, 6));
    assert_eq!(slice_bounds(2, 10, 3), (6, 10));
    assert_eq!(slice_bounds(0, 2, 4), (0, 0));
    assert_eq!(slice_bounds(3, 2, 4), (1, 2));
    for workers in 1..9usize {
        for len in 0..40usize {
            let mut at = 0;
            for i in 0..workers {
                let (start, end) = slice_bounds(i, len, workers);
                assert_eq!(start, at);
                assert!(end >= start);
                at = end;
            }
            assert_eq!(at, len);
        }
    }
}

#[test]
fn blank_image_is_black_and_of_the_size_asked() {
    let img = blank_image(4, 3);
    assert_eq!(img.dimensions(), (4, 3));
    assert!(img.as_rgb8().is_some());
    for x in 0..4 {
        for y in 0..3 {
            assert_eq!(img.get_pixel(x, y), image::Rgba([0, 0, 0, 255]));
        }
    }
}

#[test]
fn slice_is_written_with_rows_flipped() {
    let mut img = blank_image(4, 3);
    let cols = vec![(1, 0, Color::new(ONE, 0, 0)), (3, 2, Color::new(0, ONE / 2, ONE))];
    write_slice(&mut img, 3, &cols);
    assert_eq!(img.get_pixel(1, 2), image::Rgba([255, 0, 0, 255]));
    assert_eq!(img.get_pixel(3, 0), image::Rgba([0, 186, 255, 255]));
    let mut changed = 0;
    for x in 0..4 {
        for y in 0..3 {
            if img.get_pixel(x, y) != image::Rgba([0, 0, 0, 255]) {
                changed += 1;
            }
        }
    }
    assert_eq!(changed, 2);
}

#[test]
fn drawn_jitters_lie_within_a_pixel() {
    let pool = draw_samples(5000);
    assert_eq!(pool.len(), 5000);
    assert!(pool.iter().all(|j| 0 <= j.0 && j.0 < ONE && 0 <= j.1 && j.1 < ONE));
    assert!(pool.iter().any(|j| j.0 != pool[0].0));
    assert!(pool.iter().any(|j| j.1 != pool[0].1));
}

#[test]
fn slice_of_a_worker_holds_its_pixels_in_order() {
    let scene = scene_of(vec![red_ball()], point(0, 1000, 1000), 8, 8);
    let pixels = pixel_grid(8, 8);
    let pool = vec![(0, 0), (100, 200), (300, 50)];
    let cols = render_slice(&scene, &pixels, &pool, 1, 3);
    let (start, end) = slice_bounds(1, 64, 3);
    assert_eq!(cols.len(), end - start);
    for (k, c) in cols.iter().enumerate() {
        let (x, y) = pixels[start + k];
        assert_eq!(*c, (x, y, render_pixel(x, y, &scene, &pool)));
    }
}

fn small_scene() -> Scene {
    let mut scene = scene_of(vec![red_ball()], point(0, 1000, 1000), 12, 10);
    scene.camera = Camera::new(point(0, 0, 500), point(0, 0, 0), Vector3::new(0, ONE, 0), world(10));
    scene
}

#[test]
fn image_holds_every_pixel_whatever_the_order_and_the_slices() {
    let scene = small_scene();
    let pool = vec![(0, 0), (ONE / 2, ONE / 3), (7, 60000)];
    let ordered = pixel_grid(12, 10);
    let mut reversed = ordered.clone();
    reversed.reverse();
    let first = render_with(&scene, &ordered, &pool, 1);
    let second = render_with(&scene, &reversed, &pool, 7);
    let mut lit = 0;
    for x in 0..12 {
        for y in 0..10 {
            let expected = render_pixel(x, y, &scene, &pool).to_rgba();
            assert_eq!(first.get_pixel(x, 9 - y), expected);
            assert_eq!(second.get_pixel(x, 9 - y), expected);
            if expected.0[0] > 0 {
                lit += 1;
            }
        }
    }
    assert!(lit > 0 && lit < 120);
}

#[test]
fn pixels_left_out_stay_black() {
    let scene = small_scene();
    let pool = vec![(0, 0)];
    let img = render_with(&scene, &vec![(6, 5)], &pool, 2);
    let c = render_pixel(6, 5, &scene, &pool).to_rgba();
    assert!(c.0[0] > 0);
    for x in 0..12 {
        for y in 0..10 {
            let expected = if (x, y) == (6, 4) {
                c
            } else {
                image::Rgba([0, 0, 0, 255])
            };
            assert_eq!(img.get_pixel(x, y), expected);
        }
    }
}

#[test]
fn rendering_fills_the_image() {
    let scene = small_scene();
    let img = render(&scene);
    assert_eq!(img.dimensions(), (12, 10));
    assert!(img.as_rgb8().is_some());
    let middle = img.get_pixel(6, 4);
    assert!(middle.0[0] > 0);
    assert_eq!((middle.0[1], middle.0[2], middle.0[3]), (0, 0, 255));
    for corner in [(0, 0), (11, 0), (0, 9), (11, 9)] {
        assert_eq!(img.get_pixel(corner.0, corner.1), image::Rgba([0, 0, 0, 255]));
    }
    for x in 0..12 {
        for y in 0..10 {
            let p = img.get_pixel(x, y);
            assert_eq!((p.0[1], p.0[2]), (0, 0));
        }
    }
}
