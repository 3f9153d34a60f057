use nalgebra::{Point3, Vector3};
use raycaster::camera::PlanePoint;
use raycaster::geometry::{Hit, ScaledNormal};
use raycaster::render::render;
use raycaster::visual::RGB;

struct Ball {
    radius: f64,
    origin: Point3<f64>,
}

/// An integer that keeps the order and the sign of `t`.
fn order_key(t: f64) -> i64 {
    if t >= 0.0 {
        t.to_bits() as i64
    } else {
        -((-t).to_bits() as i64)
    }
}

/// The nearer root of the ray from the world's origin through `point`, one
/// unit in front of it, against `ball`.
fn meet(ball: &Ball, point: &PlanePoint) -> Option<Hit> {
    let origin = Point3::new(0.0, 0.0, 0.0);
    let direction = Vector3::new(point.x as f64 / point.den as f64, point.y as f64 / point.den as f64, -1.0);
    let oc = origin - ball.origin;
    let a = direction.dot(&direction);
    let b = 2.0 * oc.dot(&direction);
    let c = oc.dot(&oc) - ball.radius * ball.radius;
    let discriminant = b * b - 4.0 * a * c;
    if discriminant < 0.0 {
        return None;
    }
    let t = (-b - discriminant.sqrt()) / (2.0 * a);
    let n = (origin + t * direction - ball.origin).normalize();
    Some(Hit {
        t: order_key(t),
        surface_normal: ScaledNormal { x: (n.x * 255.0) as i64, y: (n.y * 255.0) as i64, z: (n.z * 255.0) as i64 },
    })
}

const BLACK: RGB = RGB { r: 0, g: 0, b: 0 };

#[test]
fn render_gives_one_pixel_per_pixel() {
    let scene = vec![Ball { radius: 0.33, origin: Point3::new(0.0, 0.0, -1.0) }];
    for (width, height) in [(1usize, 1usize), (2, 3), (16, 9), (20, 20)] {
        assert_eq!(render(width, height, &scene, meet).len(), width * height);
    }
}

#[test]
fn render_of_an_empty_scene_is_black() {
    let scene: Vec<Ball> = vec![];
    assert_eq!(render(3, 2, &scene, meet), vec![BLACK; 6]);
}

#[test]
fn render_paints_by_the_point_of_each_pixel() {
    // each pixel's colour tells the point that its ray went through
    let scene = vec![()];
    let pixels = render(4, 2, &scene, |_o: &(), p: &PlanePoint| {
        Some(Hit { t: 0, surface_normal: ScaledNormal { x: p.x as i64, y: p.y as i64, z: p.den as i64 } })
    });
    let expected: Vec<RGB> = [(4, 2), (2, 2), (0, 2), (2, 2), (4, 0), (2, 0), (0, 0), (2, 0)]
        .iter()
        .map(|&(r, g)| RGB { r, g, b: 4 })
        .collect();
    assert_eq!(pixels, expected);
}

#[test]
fn render_shows_the_nearest_object() {
    // three objects at depths 5, 2 and 2 in front of every ray, one behind
    let scene: Vec<(i64, i64)> = vec![(5, 10), (2, 20), (2, 30), (-1, 40)];
    let pixels = render(2, 2, &scene, |o: &(i64, i64), _p: &PlanePoint| {
        Some(Hit { t: o.0, surface_normal: ScaledNormal { x: o.1, y: 0, z: 0 } })
    });
    assert_eq!(pixels, vec![RGB { r: 20, g: 0, b: 0 }; 4]);
}

#[test]
fn a_ray_that_meets_nothing_is_black() {
    // balls along -z only, and far from the rays through the outer pixels
    let scene = vec![
        Ball { radius: 0.05, origin: Point3::new(0.0, 0.0, -1.0) },
        Ball { radius: 0.05, origin: Point3::new(0.0, 0.0, -3.0) },
    ];
    let pixels = render(4, 4, &scene, meet);
    for h in 0..4 {
        for w in 0..4 {
            if (w, h) == (2, 2) {
                assert_eq!(pixels[h * 4 + w], RGB { r: 0, g: 0, b: 255 });
            } else {
                assert_eq!(pixels[h * 4 + w], BLACK);
            }
        }
    }
}

#[test]
fn a_ball_behind_the_camera_is_not_seen() {
    let scene = vec![Ball { radius: 0.33, origin: Point3::new(0.0, 0.0, 1.0) }];
    assert_eq!(render(4, 4, &scene, meet), vec![BLACK; 16]);
}

#[test]
fn a_ball_on_the_axis_is_seen_head_on() {
    let scene = vec![Ball { radius: 0.33, origin: Point3::new(0.0, 0.0, -1.0) }];
    let (width, height) = (40usize, 40usize);
    let pixels = render(width, height, &scene, meet);
    // the ray along the axis meets the ball where its normal points back at the camera
    assert_eq!(pixels[20 * width + 20], RGB { r: 0, g: 0, b: 255 });
    // the corners of the image look past the ball
    assert_eq!(pixels[0], BLACK);
    assert_eq!(pixels[width - 1], BLACK);
    assert_eq!(pixels[(height - 1) * width], BLACK);
    assert_eq!(pixels[height * width - 1], BLACK);
    // to the right of the centre the normal leans to the right, above it upwards
    let right = pixels[20 * width + 30];
    let above = pixels[10 * width + 20];
    assert!(right.r > 100 && right.g == 0 && right.b > 100);
    assert!(above.g > 100 && above.r == 0 && above.b > 100);
}

#[test]
fn image_of_a_ball_on_the_axis_is_symmetric() {
    let scene = vec![Ball { radius: 0.33, origin: Point3::new(0.0, 0.0, -1.0) }];
    for (width, height) in [(40usize, 40usize), (31, 31), (32, 18)] {
        let pixels = render(width, height, &scene, meet);
        let mut seen = 0;
        for h in 1..height {
            for w in 1..width {
                let p = pixels[h * width + w];
                assert_eq!(p, pixels[(height - h) * width + (width - w)]);
                assert_eq!(p, pixels[h * width + (width - w)]);
                assert_eq!(p, pixels[(height - h) * width + w]);
                if p != BLACK {
                    seen += 1;
                }
            }
        }
        assert!(seen > 0);
    }
}
