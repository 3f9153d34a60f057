//! The camera's image plane, in exact arithmetic.
//!
//! The plane is a rectangle centred on the optical axis. Its size follows the
//! pixel aspect ratio in lowest terms: an image of 1920 by 1080 pixels gets a
//! plane 16 wide and 9 high, and so does one of 160 by 90. The size of the
//! plane is thus tied to the shape of the image and not to its pixel counts.
//! All coordinates here are rational numbers, held as numerators over a common
//! positive denominator; how far the plane lies in front of the camera is not
//! part of them.

use vstd::prelude::*;
use vstd::arithmetic::div_mod::{lemma_fundamental_div_mod, lemma_fundamental_div_mod_converse, lemma_small_mod};
use crate::geometry::lemma_row_major_index;

verus! {

/// Whether `g` is the greatest common divisor of `a` and `b`.
pub open spec fn is_gcd(g: int, a: int, b: int) -> bool {
    &&& g > 0
    &&& a % g == 0
    &&& b % g == 0
    &&& forall|d: int| d > 0 && #[trigger] (a % d) == 0 && b % d == 0 ==> d <= g
}

/// The greatest common divisor of `a` and `b`, where they have one.
pub open spec fn gcd(a: int, b: int) -> int {
    choose|g: int| is_gcd(g, a, b)
}

/// Two numbers have at most one greatest common divisor.
pub proof fn lemma_gcd_unique(g: int, a: int, b: int)
    requires
        is_gcd(g, a, b),
    ensures
        g == gcd(a, b),
{
    let c = gcd(a, b);
    assert(is_gcd(c, a, b));
    assert(a % c == 0);
    assert(a % g == 0);
}

/// The greatest of the numbers from 1 to `n` that divide both `a` and `b`.
spec fn greatest_divisor_upto(a: int, b: int, n: int) -> int
    decreases n,
{
    if n <= 1 {
        1
    } else if a % n == 0 && b % n == 0 {
        n
    } else {
        greatest_divisor_upto(a, b, n - 1)
    }
}

proof fn lemma_greatest_divisor_upto(a: int, b: int, n: int)
    requires
        n >= 1,
    ensures
        1 <= greatest_divisor_upto(a, b, n) <= n,
        a % greatest_divisor_upto(a, b, n) == 0,
        b % greatest_divisor_upto(a, b, n) == 0,
        forall|d: int| 0 < d <= n && #[trigger] (a % d) == 0 && b % d == 0 ==> d <= greatest_divisor_upto(a, b, n),
    decreases n,
{
    if n > 1 && !(a % n == 0 && b % n == 0) {
        lemma_greatest_divisor_upto(a, b, n - 1);
    }
}

/// Every positive number has a greatest common divisor with every number
/// that is not negative.
pub proof fn lemma_gcd_exists(a: int, b: int)
    requires
        a > 0,
        b >= 0,
    ensures
        is_gcd(gcd(a, b), a, b),
        1 <= gcd(a, b) <= a,
{
    let g = greatest_divisor_upto(a, b, a);
    lemma_greatest_divisor_upto(a, b, a);
    assert forall|d: int| d > 0 && #[trigger] (a % d) == 0 && b % d == 0 implies d <= g by {
        if d > a {
            lemma_small_mod(a as nat, d as nat);
        }
    }
    assert(is_gcd(g, a, b));
    lemma_gcd_unique(g, a, b);
}

/// The greatest common divisor of two numbers, by `num::integer::gcd`.
///
/// Claims of it that the result is the greatest number that divides both
/// arguments, and zero where both are zero.
#[verifier::external_body]
fn gcd_of(a: usize, b: usize) -> (g: usize)
    ensures
        a > 0 || b > 0 ==> is_gcd(g as int, a as int, b as int),
        a == 0 && b == 0 ==> g == 0,
{
    num::integer::gcd(a, b)
}

/// A point of the image plane: `x / den` to the right of the optical axis and
/// `y / den` above it.
#[derive(Clone, Copy, Debug, PartialEq, Eq, Structural)]
pub struct PlanePoint {
    pub x: i128,
    pub y: i128,
    pub den: i128,
}

impl PlanePoint {
    /// Whether two points are the same point of the plane.
    pub open spec fn same_point(self, other: PlanePoint) -> bool {
        &&& self.den > 0
        &&& other.den > 0
        &&& self.x * other.den == other.x * self.den
        &&& self.y * other.den == other.y * self.den
    }
}

/// The width of the image plane for an image of `width` by `height` pixels:
/// the width of the pixel aspect ratio in lowest terms.
pub open spec fn plane_width(width: int, height: int) -> int {
    width / gcd(width, height)
}

/// The height of the image plane for an image of `width` by `height` pixels.
pub open spec fn plane_height(width: int, height: int) -> int {
    height / gcd(width, height)
}

/// The corner of the image plane on the given sides: the plane is centred on
/// the optical axis, so a corner lies half the plane's width and half its
/// height away from it.
pub open spec fn corner_of(width: int, height: int, right: bool, upper: bool) -> PlanePoint {
    PlanePoint {
        x: (if right { plane_width(width, height) } else { -plane_width(width, height) }) as i128,
        y: (if upper { plane_height(width, height) } else { -plane_height(width, height) }) as i128,
        den: 2,
    }
}

/// The four corners of the image plane: lower right, upper right, lower left,
/// upper left.
pub open spec fn corners_of(width: int, height: int) -> Seq<PlanePoint> {
    seq![
        corner_of(width, height, true, false),
        corner_of(width, height, true, true),
        corner_of(width, height, false, false),
        corner_of(width, height, false, true),
    ]
}

/// What the reduction of a pixel aspect ratio to lowest terms gives.
pub proof fn lemma_plane_size(width: int, height: int)
    requires
        width > 0,
        height > 0,
    ensures
        1 <= gcd(width, height) <= width,
        gcd(width, height) <= height,
        1 <= plane_width(width, height) <= width,
        1 <= plane_height(width, height) <= height,
        plane_width(width, height) * gcd(width, height) == width,
        plane_height(width, height) * gcd(width, height) == height,
        width / plane_width(width, height) == gcd(width, height),
{
    lemma_gcd_exists(width, height);
    let g = gcd(width, height);
    assert(g <= height) by {
        if g > height {
            lemma_small_mod(height as nat, g as nat);
        }
    }
    lemma_fundamental_div_mod(width, g);
    lemma_fundamental_div_mod(height, g);
    let a = width / g;
    let b = height / g;
    assert(a * g == width && 1 <= a <= width) by (nonlinear_arith)
        requires
            width == g * a + 0,
            1 <= g <= width,
    ;
    assert(b * g == height && 1 <= b <= height) by (nonlinear_arith)
        requires
            height == g * b + 0,
            1 <= g <= height,
    ;
    assert(width == a * g + 0) by (nonlinear_arith)
        requires
            a * g == width,
    ;
    lemma_fundamental_div_mod_converse(width, a, g, 0);
}

/// Computes the four corners of the image plane for an image of `width` by
/// `height` pixels, in the order lower right, upper right, lower left, upper
/// left.
pub fn generate_viewport_corners(width: usize, height: usize) -> (corners: Vec<PlanePoint>)
    requires
        width > 0,
        height > 0,
    ensures
        corners@ == corners_of(width as int, height as int),
{
    let g: usize = gcd_of(width, height);
    proof {
        lemma_gcd_unique(g as int, width as int, height as int);
        lemma_plane_size(width as int, height as int);
    }
    let width_ratio: i128 = (width / g) as i128;
    let height_ratio: i128 = (height / g) as i128;

    let mut corners: Vec<PlanePoint> = Vec::new();
    corners.push(PlanePoint { x: width_ratio, y: -height_ratio, den: 2 });
    corners.push(PlanePoint { x: width_ratio, y: height_ratio, den: 2 });
    corners.push(PlanePoint { x: -width_ratio, y: -height_ratio, den: 2 });
    corners.push(PlanePoint { x: -width_ratio, y: height_ratio, den: 2 });
    assert(corners@ =~= corners_of(width as int, height as int));
    corners
}

/// The image plane: its centre, where the optical axis meets it, and its four
/// corners. Left is negative x, upper is positive y.
#[derive(Clone, Copy, Debug, PartialEq, Eq, Structural)]
pub struct ViewFrame {
    pub origin: PlanePoint,
    pub upper_left: PlanePoint,
    pub upper_right: PlanePoint,
    pub lower_left: PlanePoint,
    pub lower_right: PlanePoint,
}

/// The image plane for an image of `width` by `height` pixels.
pub open spec fn frame_of(width: int, height: int) -> ViewFrame {
    ViewFrame {
        origin: PlanePoint { x: 0, y: 0, den: 2 },
        upper_left: corner_of(width, height, false, true),
        upper_right: corner_of(width, height, true, true),
        lower_left: corner_of(width, height, false, false),
        lower_right: corner_of(width, height, true, false),
    }
}

impl ViewFrame {
    /// Whether the frame is a rectangle centred on the optical axis: the
    /// corners of one side share that side's coordinate, and opposite sides
    /// lie equally far from the centre.
    pub open spec fn well_formed(self) -> bool {
        &&& self.origin == (PlanePoint { x: 0, y: 0, den: 2 })
        &&& self.upper_right.den == 2
        &&& self.upper_right.x > 0
        &&& self.upper_right.y > 0
        &&& self.upper_left == (PlanePoint { x: (-self.upper_right.x) as i128, ..self.upper_right })
        &&& self.lower_right == (PlanePoint { y: (-self.upper_right.y) as i128, ..self.upper_right })
        &&& self.lower_left == (PlanePoint { x: (-self.upper_right.x) as i128, ..self.lower_right })
    }

    /// Lays out the image plane for an image of `width` by `height` pixels.
    pub fn new(width: usize, height: usize) -> (frame: ViewFrame)
        requires
            width > 0,
            height > 0,
        ensures
            frame == frame_of(width as int, height as int),
            frame.well_formed(),
    {
        let corners = generate_viewport_corners(width, height);
        proof {
            lemma_plane_size(width as int, height as int);
        }
        ViewFrame {
            origin: PlanePoint { x: 0, y: 0, den: 2 },
            upper_left: corners[3],
            lower_left: corners[2],
            upper_right: corners[1],
            lower_right: corners[0],
        }
    }
}

/// The image plane has the shape of the image: its sides are in the ratio of
/// the pixel counts, in lowest terms.
pub proof fn lemma_frame_keeps_aspect_ratio(width: int, height: int)
    requires
        width > 0,
        height > 0,
    ensures
        plane_width(width, height) * height == plane_height(width, height) * width,
        is_gcd(1, plane_width(width, height), plane_height(width, height)),
{
    lemma_plane_size(width, height);
    lemma_gcd_exists(width, height);
    let g = gcd(width, height);
    let a = plane_width(width, height);
    let b = plane_height(width, height);
    assert(a * height == b * width) by (nonlinear_arith)
        requires
            a * g == width,
            b * g == height,
    ;
    assert forall|d: int| d > 0 && #[trigger] (a % d) == 0 && b % d == 0 implies d <= 1 by {
        lemma_fundamental_div_mod(a, d);
        lemma_fundamental_div_mod(b, d);
        let dg = d * g;
        assert(dg > 0) by (nonlinear_arith)
            requires
                dg == d * g,
                d > 0,
                g > 0,
        ;
        assert(width == dg * (a / d) + 0) by (nonlinear_arith)
            requires
                a == d * (a / d) + 0,
                a * g == width,
                dg == d * g,
        ;
        assert(height == dg * (b / d) + 0) by (nonlinear_arith)
            requires
                b == d * (b / d) + 0,
                b * g == height,
                dg == d * g,
        ;
        lemma_fundamental_div_mod_converse(width, dg, a / d, 0);
        lemma_fundamental_div_mod_converse(height, dg, b / d, 0);
        assert(dg <= g);
        assert(d <= 1) by (nonlinear_arith)
            requires
                d * g <= g,
                g > 0,
        ;
    }
    assert(a % 1 == 0 && b % 1 == 0);
}

/// A pinhole camera that looks along the optical axis at an image plane of
/// `width` by `height` pixels.
#[derive(Clone, Copy, Debug, PartialEq, Eq, Structural)]
pub struct Camera {
    pub width: usize,
    pub height: usize,
    pub viewframe: ViewFrame,
}

/// The point of the image plane through which the ray of pixel `(w, h)`
/// passes, `w` counted from the left and `h` from the top: the pixels of a
/// row divide the plane's width evenly, beginning at its left edge, and the
/// rows divide its height evenly, beginning at its upper edge.
pub open spec fn pixel_point(width: int, height: int, w: int, h: int) -> PlanePoint {
    PlanePoint { x: (2 * w - width) as i128, y: (height - 2 * h) as i128, den: (2 * gcd(width, height)) as i128 }
}

impl Camera {
    /// Whether the camera's image plane is the one that belongs to its image.
    pub open spec fn well_formed(self) -> bool {
        &&& self.width > 0
        &&& self.height > 0
        &&& self.viewframe == frame_of(self.width as int, self.height as int)
    }

    /// A camera for an image of `width` by `height` pixels.
    pub fn new(width: usize, height: usize) -> (camera: Camera)
        requires
            width > 0,
            height > 0,
        ensures
            camera.width == width,
            camera.height == height,
            camera.well_formed(),
    {
        Camera { width, height, viewframe: ViewFrame::new(width, height) }
    }

    /// The points of the image plane through which the rays pass, one for
    /// each pixel, row by row from the top, each row from the left.
    pub fn generate_viewframe_points(&self) -> (points: Vec<PlanePoint>)
        requires
            self.well_formed(),
        ensures
            points.len() == self.width * self.height,
            forall|w: int, h: int| 0 <= w < self.width && 0 <= h < self.height
                ==> #[trigger] points[h * self.width + w] == pixel_point(self.width as int, self.height as int, w, h),
    {
        let width: usize = self.width;
        let height: usize = self.height;
        proof {
            lemma_plane_size(width as int, height as int);
        }
        let scale: i128 = (width as i128) / self.viewframe.upper_right.x;
        let den: i128 = 2 * scale;

        let mut points: Vec<PlanePoint> = Vec::new();
        let mut h: usize = 0;
        while h < height
            invariant
                h <= height,
                width > 0,
                den == 2 * gcd(width as int, height as int),
                points.len() == h * width,
                forall|k: int| 0 <= k < points.len()
                    ==> #[trigger] points[k] == pixel_point(width as int, height as int, k % (width as int), k / (width as int)),
            decreases height - h,
        {
            let y: i128 = height as i128 - 2 * (h as i128);
            let mut w: usize = 0;
            while w < width
                invariant
                    h < height,
                    w <= width,
                    y == height - 2 * h,
                    den == 2 * gcd(width as int, height as int),
                    points.len() == h * width + w,
                    forall|k: int| 0 <= k < points.len()
                        ==> #[trigger] points[k] == pixel_point(width as int, height as int, k % (width as int), k / (width as int)),
                decreases width - w,
            {
                let x: i128 = 2 * (w as i128) - width as i128;
                proof {
                    lemma_row_major_index(h as int, w as int, width as int);
                }
                points.push(PlanePoint { x, y, den });
                w = w + 1;
            }
            proof {
                assert(h * width + width == (h + 1) * width) by (nonlinear_arith);
            }
            h = h + 1;
        }
        assert forall|w: int, h: int| 0 <= w < self.width && 0 <= h < self.height implies #[trigger] points[h
            * self.width + w] == pixel_point(self.width as int, self.height as int, w, h) by {
            lemma_row_major_index(h, w, width as int);
            assert((h + 1) * width <= height * width) by (nonlinear_arith)
                requires
                    h + 1 <= height,
                    0 <= width,
            ;
        }
        assert(height * width == width * height) by (nonlinear_arith);
        points
    }
}

/// Each pixel's point lies where linear interpolation between the corners
/// puts it: a fraction `w / width` of the way from the left edge to the right
/// one, and `h / height` of the way from the upper edge down to the lower
/// one. (Both equations are cleared of their denominators.)
pub proof fn lemma_pixel_point_interpolates(camera: Camera, w: int, h: int)
    requires
        camera.well_formed(),
        0 <= w < camera.width,
        0 <= h < camera.height,
    ensures
        pixel_point(camera.width as int, camera.height as int, w, h).den > 0,
        pixel_point(camera.width as int, camera.height as int, w, h).x * 2 * camera.width == pixel_point(
            camera.width as int,
            camera.height as int,
            w,
            h,
        ).den * (camera.viewframe.upper_left.x * camera.width + w * (camera.viewframe.upper_right.x
            - camera.viewframe.upper_left.x)),
        pixel_point(camera.width as int, camera.height as int, w, h).y * 2 * camera.height == pixel_point(
            camera.width as int,
            camera.height as int,
            w,
            h,
        ).den * (camera.viewframe.upper_left.y * camera.height - h * (camera.viewframe.upper_left.y
            - camera.viewframe.lower_left.y)),
{
    let width = camera.width as int;
    let height = camera.height as int;
    lemma_plane_size(width, height);
    let g = gcd(width, height);
    let a = plane_width(width, height);
    let b = plane_height(width, height);
    let p = pixel_point(width, height, w, h);
    let f = camera.viewframe;
    assert(p.x == 2 * w - width && p.y == height - 2 * h && p.den == 2 * g);
    assert(f.upper_left.x == -a && f.upper_right.x == a);
    assert(f.upper_left.y == b && f.lower_left.y == -b);
    let (px, py, pd) = (p.x as int, p.y as int, p.den as int);
    let (left, right) = (f.upper_left.x as int, f.upper_right.x as int);
    let (upper, lower) = (f.upper_left.y as int, f.lower_left.y as int);
    assert(px * 2 * width == pd * (left * width + w * (right - left))) by (nonlinear_arith)
        requires
            px == 2 * w - width,
            pd == 2 * g,
            left == -a,
            right == a,
            a * g == width,
    ;
    assert(py * 2 * height == pd * (upper * height - h * (upper - lower))) by (nonlinear_arith)
        requires
            py == height - 2 * h,
            pd == 2 * g,
            upper == b,
            lower == -b,
            b * g == height,
    ;
}

/// The first pixel's point is the upper left corner of the image plane, and
/// the last pixel's point lies one pixel's width to the left of the lower
/// right corner and one pixel's height above it. (Neighbouring pixels lie
/// two numerator units apart on either axis.)
pub proof fn lemma_corner_pixels(camera: Camera)
    requires
        camera.well_formed(),
    ensures
        ({
            let first = pixel_point(camera.width as int, camera.height as int, 0, 0);
            let last = pixel_point(camera.width as int, camera.height as int, camera.width - 1, camera.height - 1);
            let past = PlanePoint { x: (last.x + 2) as i128, y: (last.y - 2) as i128, den: last.den };
            &&& first.same_point(camera.viewframe.upper_left)
            &&& past.same_point(camera.viewframe.lower_right)
        }),
{
    let width = camera.width as int;
    let height = camera.height as int;
    lemma_plane_size(width, height);
    let g = gcd(width, height);
    let a = plane_width(width, height);
    let b = plane_height(width, height);
    assert((-width) * 2 == (-a) * (2 * g)) by (nonlinear_arith)
        requires
            a * g == width,
    ;
    assert(height * 2 == b * (2 * g)) by (nonlinear_arith)
        requires
            b * g == height,
    ;
    assert(width * 2 == a * (2 * g)) by (nonlinear_arith)
        requires
            a * g == width,
    ;
    assert((-height) * 2 == (-b) * (2 * g)) by (nonlinear_arith)
        requires
            b * g == height,
    ;
}

/// The point of the pixel in the middle of the image lies within half a
/// pixel of the optical axis, and on it where the pixel counts are even: a
/// ray from a camera on the axis through that point leaves the axis by no
/// more than that.
pub proof fn lemma_center_pixel_near_axis(width: int, height: int)
    requires
        width > 0,
        height > 0,
        width <= usize::MAX,
        height <= usize::MAX,
    ensures
        ({
            let c = pixel_point(width, height, width / 2, height / 2);
            &&& c.den >= 2
            &&& -1 <= c.x <= 0
            &&& 0 <= c.y <= 1
            &&& width % 2 == 0 ==> c.x == 0
            &&& height % 2 == 0 ==> c.y == 0
        }),
{
    lemma_gcd_exists(width, height);
}

/// The pixels' points lie mirrored about the optical axis: the point `w`
/// pixels from the left edge and the point `w` pixels from the right edge
/// are equally high and equally far from the axis on opposite sides, and so
/// for the rows.
pub proof fn lemma_grid_is_mirrored(width: int, height: int, w: int, h: int)
    requires
        0 <= w <= width <= usize::MAX,
        0 <= h <= height <= usize::MAX,
    ensures
        ({
            let p = pixel_point(width, height, w, h);
            let q = pixel_point(width, height, width - w, height - h);
            &&& q.den == p.den
            &&& q.x == -p.x
            &&& q.y == -p.y
        }),
{
}

} // verus!
