use raytracer::base::{check_color, Material, Object, Ray};
use raytracer::camera::Camera;
use raytracer::color::{channel_byte, clamp_color, to_rgb};
use raytracer::fixed::Fixed;
use raytracer::materials::{AnyMaterial, DielectricMaterial, LambertianMaterial, MetalMaterial};
use raytracer::render::{
    background, hit_list, image_height, mean, ray_color, render, render_entry, render_pixel,
    sample_coordinate, sample_pixel,
};
use raytracer::shapes::Sphere;
use raytracer::vec3::Vec3;

const ONE: i64 = 65536;

fn v(x: i64, y: i64, z: i64) -> Vec3 {
    Vec3::new(Fixed::from_raw(x), Fixed::from_raw(y), Fixed::from_raw(z))
}

fn raws(u: Vec3) -> (i64, i64, i64) {
    (u.x.raw, u.y.raw, u.z.raw)
}

fn t_min() -> Fixed {
    Fixed::from_ratio(1, 1000)
}

fn t_max() -> Fixed {
    Fixed::from_int(100)
}

fn mirror(albedo: Vec3) -> MetalMaterial {
    MetalMaterial { albedo, fuzz: Fixed::zero() }
}

fn ball(center: Vec3, radius: Fixed, albedo: Vec3) -> Object<Sphere, MetalMaterial> {
    Object { geometry: Sphere { center, radius }, material: mirror(albedo) }
}

fn single_sphere() -> Vec<Object<Sphere, MetalMaterial>> {
    vec![ball(v(0, 0, -ONE), Fixed::from_ratio(1, 2), v(ONE / 2, ONE / 2, ONE / 2))]
}

fn diffuse_scene() -> Vec<Object<Sphere, LambertianMaterial>> {
    let grey = LambertianMaterial { albedo: v(ONE / 2, ONE / 2, ONE / 2) };
    let ground = Sphere { center: v(0, -100 * ONE - ONE / 2, -ONE), radius: Fixed::from_int(100) };
    let centre = Sphere { center: v(0, 0, -ONE), radius: Fixed::from_ratio(1, 2) };
    vec![Object { geometry: ground, material: grey }, Object { geometry: centre, material: grey }]
}

#[test]
fn camera_spans_the_viewport() {
    let camera = Camera::new(Fixed::from_ratio(16, 9));
    assert!(camera.is_wf());
    assert_eq!(raws(camera.origin), (0, 0, 0));
    assert_eq!(raws(camera.horizontal), (233016, 0, 0));
    assert_eq!(raws(camera.vertical), (0, 131072, 0));
    assert_eq!(raws(camera.lower_left_corner), (-116508, -ONE, -ONE));
}

#[test]
fn camera_ray_through_the_centre_looks_down_the_negative_z_axis() {
    let camera = Camera::new(Fixed::from_ratio(16, 9));
    let half = Fixed::from_ratio(1, 2);
    let ray = camera.get_ray(half, half);
    assert_eq!(raws(ray.origin), (0, 0, 0));
    assert_eq!(raws(ray.direction), (0, 0, -ONE));
}

#[test]
fn camera_rays_through_the_corners() {
    let camera = Camera::new(Fixed::from_ratio(16, 9));
    let low = camera.get_ray(Fixed::zero(), Fixed::zero());
    assert_eq!(raws(low.direction), (-116508, -ONE, -ONE));
    let high = camera.get_ray(Fixed::one(), Fixed::one());
    assert_eq!(raws(high.direction), (116508, ONE, -ONE));
    let nearly = camera.get_ray(Fixed { raw: ONE - 1 }, Fixed { raw: ONE - 1 });
    assert_eq!(raws(nearly.direction), (116504, 65534, -ONE));
}

#[test]
fn square_camera_has_a_square_viewport() {
    let camera = Camera::new(Fixed::one());
    assert_eq!(raws(camera.horizontal), (2 * ONE, 0, 0));
    assert_eq!(raws(camera.lower_left_corner), (-ONE, -ONE, -ONE));
}

#[test]
fn channel_byte_takes_the_square_root_and_scales() {
    assert_eq!(channel_byte(Fixed::one()), 255);
    assert_eq!(channel_byte(Fixed::zero()), 0);
    assert_eq!(channel_byte(Fixed::from_ratio(1, 4)), 127);
    assert_eq!(channel_byte(Fixed::from_ratio(1, 2)), 180);
    assert_eq!(channel_byte(Fixed { raw: ONE - 1 }), 254);
}

#[test]
fn channel_byte_is_the_truncated_value_of_255_times_the_root() {
    assert_eq!(channel_byte(Fixed { raw: 122 }), 11);
    assert_eq!(channel_byte(Fixed { raw: 121 }), 10);
    assert_eq!(channel_byte(Fixed { raw: 630 }), 25);
    assert_eq!(channel_byte(Fixed { raw: 1 }), 0);
    assert_eq!(channel_byte(Fixed { raw: 2 }), 1);
    let mut raw: i64 = 0;
    while raw <= ONE {
        let b = channel_byte(Fixed { raw }) as i64;
        assert!(b * b * 65536 <= 65025 * raw);
        assert!(65025 * raw < (b + 1) * (b + 1) * 65536);
        let real = (255.0 * (raw as f64 / 65536.0).sqrt()).floor() as i64;
        assert!((b - real).abs() <= 1);
        raw += 1;
    }
}

#[test]
fn channel_byte_clamps_first() {
    assert_eq!(channel_byte(Fixed::from_int(-3)), 0);
    assert_eq!(channel_byte(Fixed { raw: -1 }), 0);
    assert_eq!(channel_byte(Fixed::from_int(2)), 255);
    assert_eq!(channel_byte(Fixed { raw: i64::MAX }), 255);
}

#[test]
fn to_rgb_encodes_the_three_channels() {
    assert_eq!(to_rgb(v(ONE, 0, ONE / 4)), [255, 0, 127]);
    assert_eq!(to_rgb(v(49152, 55705, ONE)), [220, 235, 255]);
}

#[test]
fn color_mapping_is_monotone() {
    let mut last = 0;
    let mut raw = -1000;
    while raw <= ONE + 1000 {
        let b = channel_byte(Fixed { raw });
        assert!(b >= last);
        last = b;
        raw += 37;
    }
    assert_eq!(last, 255);
}

#[test]
fn color_mapping_ignores_a_second_clamp() {
    let colors =
        [v(-5, 70000, 1234), v(0, ONE, ONE / 3), v(-ONE, 2 * ONE, ONE + 1), v(17, 65535, 40000)];
    for c in colors {
        let once = clamp_color(c);
        assert!(check_color(&once));
        assert_eq!(raws(clamp_color(once)), raws(once));
        assert_eq!(to_rgb(once), to_rgb(c));
        assert_eq!(to_rgb(clamp_color(once)), to_rgb(once));
    }
    assert_eq!(raws(clamp_color(v(-5, 70000, 1234))), (0, ONE, 1234));
}

#[test]
fn hit_list_of_an_empty_scene_is_none() {
    let world: Vec<Object<Sphere, MetalMaterial>> = Vec::new();
    let ray = Ray { origin: v(0, 0, 0), direction: v(0, 0, -ONE) };
    assert!(hit_list(&ray, &world, t_min(), t_max()).is_none());
}

#[test]
fn hit_list_finds_the_nearest_object_in_any_order() {
    let near = || ball(v(0, 0, -2 * ONE), Fixed::from_ratio(1, 2), v(ONE, 0, 0));
    let far = || ball(v(0, 0, -5 * ONE), Fixed::one(), v(0, ONE, 0));
    let aside = || ball(v(10 * ONE, 0, -2 * ONE), Fixed::one(), v(0, 0, ONE));
    let ray = Ray { origin: v(0, 0, 0), direction: v(0, 0, -ONE) };
    let orders = [
        vec![near(), far(), aside()],
        vec![far(), aside(), near()],
        vec![aside(), near(), far()],
        vec![far(), near(), aside()],
    ];
    for world in orders {
        let (object, hit) = hit_list(&ray, &world, t_min(), t_max()).unwrap();
        assert_eq!(raws(object.material.albedo), (ONE, 0, 0));
        assert_eq!(raws(object.geometry.center), (0, 0, -2 * ONE));
        assert_eq!(hit.t.raw, 98304);
        assert_eq!(raws(hit.p), (0, 0, -98304));
    }
}

#[test]
fn hit_list_keeps_the_first_of_two_equally_near_objects() {
    let first = || ball(v(0, 0, -2 * ONE), Fixed::one(), v(ONE, 0, 0));
    let second = || ball(v(0, 0, -2 * ONE), Fixed::one(), v(0, ONE, 0));
    let ray = Ray { origin: v(0, 0, 0), direction: v(0, 0, -ONE) };
    let world = vec![first(), second()];
    let (object, hit) = hit_list(&ray, &world, t_min(), t_max()).unwrap();
    assert_eq!(raws(object.material.albedo), (ONE, 0, 0));
    assert_eq!(hit.t.raw, ONE);
    let world = vec![second(), first()];
    let (object, _) = hit_list(&ray, &world, t_min(), t_max()).unwrap();
    assert_eq!(raws(object.material.albedo), (0, ONE, 0));
}

#[test]
fn hit_list_respects_the_interval() {
    let world = vec![ball(v(0, 0, -2 * ONE), Fixed::from_ratio(1, 2), v(ONE, 0, 0))];
    let ray = Ray { origin: v(0, 0, 0), direction: v(0, 0, -ONE) };
    assert!(hit_list(&ray, &world, t_min(), Fixed::from_int(1)).is_none());
    assert!(hit_list(&ray, &world, Fixed::from_int(3), t_max()).is_none());
    let (_, hit) = hit_list(&ray, &world, Fixed::from_int(2), t_max()).unwrap();
    assert_eq!(hit.t.raw, 163840);
}

#[test]
fn background_blends_white_into_blue_with_height() {
    let along = |d: Vec3| raws(background(&Ray { origin: v(0, 0, 0), direction: d }));
    assert_eq!(along(v(0, 0, -ONE)), (49152, 55705, ONE));
    assert_eq!(along(v(0, 5 * ONE, 0)), (32768, 45875, ONE));
    assert_eq!(along(v(0, -ONE, 0)), (ONE, ONE, ONE));
    assert_eq!(along(v(7, 0, 0)), (49152, 55705, ONE));
    assert_eq!(along(v(0, 0, 0)), (49152, 55705, ONE));
}

#[test]
fn ray_color_with_no_bounce_left_is_black() {
    let world = single_sphere();
    let ray = Ray { origin: v(0, 0, 0), direction: v(0, 0, -ONE) };
    assert_eq!(raws(ray_color(&ray, &world, 0)), (0, 0, 0));
    let miss = Ray { origin: v(0, 0, 0), direction: v(0, ONE, 0) };
    assert_eq!(raws(ray_color(&miss, &world, 0)), (0, 0, 0));
}

#[test]
fn ray_color_of_an_empty_scene_is_the_background() {
    let world: Vec<Object<Sphere, MetalMaterial>> = Vec::new();
    for d in [v(0, 0, -ONE), v(0, ONE, 0), v(-ONE, -ONE, 3)] {
        let ray = Ray { origin: v(0, 0, 0), direction: d };
        assert_eq!(raws(ray_color(&ray, &world, 5)), raws(background(&ray)));
    }
}

#[test]
fn ray_color_of_a_mirror_is_the_attenuated_sky() {
    let world = single_sphere();
    let ray = Ray { origin: v(0, 0, 0), direction: v(0, 0, -ONE) };
    let (object, hit) = hit_list(&ray, &world, t_min(), t_max()).unwrap();
    let (child, attenuation) = object.material.scatter(&ray, &hit).unwrap();
    assert_eq!(raws(child.origin), (0, 0, -32768));
    assert_eq!(raws(child.direction), (0, 0, ONE));
    assert_eq!(raws(attenuation), (ONE / 2, ONE / 2, ONE / 2));
    assert_eq!(raws(ray_color(&ray, &world, 1)), (0, 0, 0));
    assert_eq!(raws(ray_color(&ray, &world, 2)), (24576, 27852, 32768));
    assert_eq!(raws(ray_color(&ray, &world, 10)), (24576, 27852, 32768));
}

#[test]
fn ray_color_is_black_where_the_material_absorbs() {
    let world = vec![ball(v(0, 0, -ONE), Fixed::from_ratio(-1, 2), v(ONE, ONE, ONE))];
    let ray = Ray { origin: v(0, 0, 0), direction: v(0, 0, -ONE) };
    let (object, hit) = hit_list(&ray, &world, t_min(), t_max()).unwrap();
    assert!(!hit.front_face);
    assert!(object.material.scatter(&ray, &hit).is_some());
    let grazing = Ray { origin: v(32768, 0, 0), direction: v(0, 0, -ONE) };
    let solid = single_sphere();
    let (object, hit) = hit_list(&grazing, &solid, t_min(), t_max()).unwrap();
    assert!(object.material.scatter(&grazing, &hit).is_none());
    assert_eq!(raws(ray_color(&grazing, &solid, 10)), (0, 0, 0));
}

#[test]
fn ray_color_is_always_a_colour() {
    let world = diffuse_scene();
    let camera = Camera::new(Fixed::from_ratio(16, 9));
    for k in 0..200 {
        let u = Fixed { raw: (k * 327) % ONE };
        let w = Fixed { raw: (k * 1201) % ONE };
        let c = ray_color(&camera.get_ray(u, w), &world, 10);
        assert!(check_color(&c));
    }
}

#[test]
fn ray_color_through_glass_is_a_colour() {
    let glass = DielectricMaterial { ir: Fixed::from_ratio(3, 2) };
    let shell = Sphere { center: v(0, 0, -ONE), radius: Fixed::from_ratio(1, 2) };
    let hollow = Sphere { center: v(0, 0, -ONE), radius: Fixed::from_ratio(-2, 5) };
    let world = vec![
        Object { geometry: shell, material: glass },
        Object { geometry: hollow, material: glass },
    ];
    let camera = Camera::new(Fixed::one());
    for k in 0..200 {
        let u = Fixed { raw: (k * 327) % ONE };
        let w = Fixed { raw: (k * 1201) % ONE };
        let c = ray_color(&camera.get_ray(u, w), &world, 10);
        assert!(check_color(&c));
    }
}

#[test]
fn end_to_end_centre_pixel_hits_and_corner_pixel_sees_the_sky() {
    let camera = Camera::new(Fixed::from_ratio(16, 9));
    let world = single_sphere();
    let half = Fixed::from_ratio(1, 2);
    let centre = camera.get_ray(half, half);
    let (object, hit) = hit_list(&centre, &world, t_min(), t_max()).unwrap();
    assert_eq!(raws(object.geometry.center), (0, 0, -ONE));
    assert_eq!(hit.t.raw, 32768);
    assert!(hit.front_face);
    assert_eq!(raws(ray_color(&centre, &world, 0)), (0, 0, 0));
    assert_eq!(raws(ray_color(&centre, &world, 2)), (24576, 27852, 32768));
    let corner = camera.get_ray(Fixed::zero(), Fixed::zero());
    assert!(hit_list(&corner, &world, t_min(), t_max()).is_none());
    assert_eq!(raws(ray_color(&corner, &world, 10)), raws(background(&corner)));
    assert_eq!(raws(background(&corner)), (56364, 60033, ONE));
    let other = camera.get_ray(Fixed::one(), Fixed::one());
    assert!(hit_list(&other, &world, t_min(), t_max()).is_none());
    assert_eq!(raws(ray_color(&other, &world, 10)), raws(background(&other)));
}

#[test]
fn end_to_end_pixels_of_a_mirror_scene() {
    let camera = Camera::new(Fixed::one());
    let world = single_sphere();
    assert_eq!(render_pixel(&camera, &world, 50, 50, 101, 101, 4, 0), [0, 0, 0]);
    let centre = render_pixel(&camera, &world, 50, 50, 101, 101, 4, 10);
    let corner = render_pixel(&camera, &world, 0, 0, 101, 101, 4, 10);
    let sky = to_rgb(background(&camera.get_ray(Fixed::zero(), Fixed::zero())));
    for k in 0..3 {
        assert!((corner[k] as i32 - sky[k] as i32).abs() <= 2);
    }
    let mirrored = to_rgb(v(24576, 27852, 32768));
    for k in 0..3 {
        assert!((centre[k] as i32 - mirrored[k] as i32).abs() <= 8);
    }
    assert!(centre[0] < corner[0]);
}

#[test]
fn sample_coordinate_divides_the_jittered_pixel_by_the_extent() {
    assert_eq!(sample_coordinate(0, Fixed::zero(), 400).raw, 0);
    assert_eq!(sample_coordinate(200, Fixed::zero(), 400).raw, 32768);
    assert_eq!(sample_coordinate(399, Fixed { raw: ONE - 1 }, 400).raw, 65535);
    assert_eq!(sample_coordinate(1, Fixed::from_ratio(1, 2), 3).raw, 32768);
    assert_eq!(sample_coordinate(0, Fixed { raw: 5 }, 1).raw, 5);
    assert_eq!(sample_coordinate(4_000_000_000, Fixed { raw: 7 }, u32::MAX).raw, 61035);
}

#[test]
fn mean_averages_channel_by_channel() {
    let samples = vec![v(ONE, 0, 10), v(0, 0, 20), v(ONE / 2, 3, 31)];
    assert_eq!(raws(mean(&samples)), (32768, 1, 20));
    assert_eq!(raws(mean(&vec![v(7, 8, 9)])), (7, 8, 9));
    assert_eq!(raws(mean(&vec![v(-1, -2, -3), v(0, 0, 0)])), (0, -1, -1));
}

#[test]
fn sample_pixel_is_a_colour() {
    let camera = Camera::new(Fixed::from_ratio(16, 9));
    let world = diffuse_scene();
    for _ in 0..100 {
        assert!(check_color(&sample_pixel(&camera, &world, 200, 100, 400, 225, 10)));
    }
    assert_eq!(raws(sample_pixel(&camera, &world, 200, 100, 400, 225, 0)), (0, 0, 0));
}

#[test]
fn render_entry_places_the_pixel_top_down() {
    let camera = Camera::new(Fixed::one());
    let world = single_sphere();
    let (x, y, _) = render_entry(&camera, &world, 0, 4, 3, 1, 0);
    assert_eq!((x, y), (0, 2));
    let (x, y, _) = render_entry(&camera, &world, 3, 4, 3, 1, 0);
    assert_eq!((x, y), (3, 2));
    let (x, y, _) = render_entry(&camera, &world, 4, 4, 3, 1, 0);
    assert_eq!((x, y), (0, 1));
    let (x, y, rgb) = render_entry(&camera, &world, 11, 4, 3, 1, 0);
    assert_eq!((x, y), (3, 0));
    assert_eq!(rgb, [0, 0, 0]);
}

#[test]
fn render_fills_every_pixel_once() {
    let camera = Camera::new(Fixed::from_ratio(4, 3));
    let world = single_sphere();
    let image = render(&camera, &world, 8, 6, 2, 5);
    assert_eq!(image.len(), 48);
    for (idx, (x, y, _)) in image.iter().enumerate() {
        assert_eq!(*x as usize, idx % 8);
        assert_eq!(*y as usize, 6 - 1 - idx / 8);
    }
    let top = image[47].2;
    let bottom = image[0].2;
    assert!(top[0] < bottom[0]);
    assert_eq!(top[2], 255);
}

#[test]
fn render_of_an_empty_image_is_empty() {
    let camera = Camera::new(Fixed::one());
    let world = single_sphere();
    assert!(render(&camera, &world, 0, 7, 1, 1).is_empty());
    assert!(render(&camera, &world, 7, 0, 1, 1).is_empty());
}

#[test]
fn render_with_no_bounce_is_black() {
    let camera = Camera::new(Fixed::one());
    let world = single_sphere();
    for (_, _, rgb) in render(&camera, &world, 5, 4, 3, 0) {
        assert_eq!(rgb, [0, 0, 0]);
    }
}

#[test]
fn image_height_follows_the_aspect_ratio() {
    assert_eq!(image_height(400, Fixed::from_ratio(16, 9)), 225);
    assert_eq!(image_height(400, Fixed::one()), 400);
    assert_eq!(image_height(400, Fixed::from_int(2)), 200);
    assert_eq!(image_height(400, Fixed::from_ratio(1, 2)), 800);
    assert_eq!(image_height(0, Fixed::one()), 0);
    assert_eq!(image_height(u32::MAX, Fixed { raw: 1 }), u32::MAX);
}

fn deviation(values: &[f64]) -> f64 {
    let n = values.len() as f64;
    let m = values.iter().sum::<f64>() / n;
    (values.iter().map(|x| (x - m) * (x - m)).sum::<f64>() / n).sqrt()
}

#[test]
fn more_samples_per_pixel_reduce_the_spread_of_repeated_renders() {
    let camera = Camera::new(Fixed::from_ratio(16, 9));
    let world = diffuse_scene();
    let pixels = [(200, 112), (180, 100), (230, 95)];
    let mut few_total = 0.0;
    let mut many_total = 0.0;
    for (x, y) in pixels {
        let mut few = Vec::new();
        let mut many = Vec::new();
        for _ in 0..40 {
            few.push(render_pixel(&camera, &world, x, y, 400, 225, 1, 10)[1] as f64);
            many.push(render_pixel(&camera, &world, x, y, 400, 225, 100, 10)[1] as f64);
        }
        few_total += deviation(&few);
        many_total += deviation(&many);
    }
    assert!(few_total > 0.0);
    assert!(many_total < few_total / 2.0);
}

#[test]
fn renders_a_scene_of_mixed_materials() {
    let ball = |x: i64, y: i64, radius: Fixed, material: AnyMaterial| Object {
        geometry: Sphere { center: v(x, y, -ONE), radius },
        material,
    };
    let diffuse = |r: i64, g: i64, b: i64| {
        AnyMaterial::Lambertian(LambertianMaterial {
            albedo: Vec3::new(Fixed::from_ratio(r, 10), Fixed::from_ratio(g, 10), Fixed::from_ratio(b, 10)),
        })
    };
    let glass = AnyMaterial::Dielectric(DielectricMaterial { ir: Fixed::from_ratio(3, 2) });
    let metal = AnyMaterial::Metal(MetalMaterial {
        albedo: Vec3::new(Fixed::from_ratio(8, 10), Fixed::from_ratio(6, 10), Fixed::from_ratio(2, 10)),
        fuzz: Fixed::from_ratio(3, 10),
    });
    let world = vec![
        ball(0, -100 * ONE - ONE / 2, Fixed::from_int(100), diffuse(8, 8, 0)),
        ball(0, 0, Fixed::from_ratio(1, 2), diffuse(7, 3, 3)),
        ball(-ONE, 0, Fixed::from_ratio(1, 2), glass),
        ball(-ONE, 0, Fixed::from_ratio(-2, 5), glass),
        ball(ONE, 0, Fixed::from_ratio(1, 2), metal),
    ];
    for object in &world {
        assert!(object.geometry.is_wf() && object.material.is_wf());
    }
    let aspect = Fixed::from_ratio(16, 9);
    let width = 48;
    let height = image_height(width, aspect);
    assert_eq!(height, 27);
    let camera = Camera::new(aspect);
    let image = render(&camera, &world, width, height, 4, 10);
    assert_eq!(image.len(), (width * height) as usize);
    let sky = image[(height as usize - 1) * width as usize].2;
    assert_eq!(sky[2], 255);
    let ground = image[width as usize / 2].2;
    assert!(ground[2] < 128 && ground[0] > ground[2]);
    let mut distinct = std::collections::HashSet::new();
    for (_, _, rgb) in &image {
        distinct.insert(*rgb);
    }
    assert!(distinct.len() > 50);
}
