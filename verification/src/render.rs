//! The whole pipeline: from the pixels of an image to their colours.

use vstd::prelude::*;
use crate::camera::{pixel_point, Camera, PlanePoint};
use crate::geometry::{closest_hits, compute_object_intersections, is_choice_in, lemma_row_major_index, Hit};
use crate::visual::{colorize_hits, hit_color, RGB};

verus! {

/// Whether `pixels` is an image of `scene`, `width` by `height` pixels, row by
/// row from the top: there is a table of hit results, one for each pixel and
/// object, each of them what `intersect` gave for that object and that
/// pixel's point of the image plane, and each pixel has the colour of the
/// nearest hit of its row of the table.
pub open spec fn is_image_of<O, F: Fn(&O, &PlanePoint) -> Option<Hit>>(
    pixels: Seq<RGB>,
    width: int,
    height: int,
    scene: Seq<O>,
    intersect: F,
) -> bool {
    exists|hits: Seq<Option<Hit>>, chosen: Seq<Option<Hit>>|
        {
            &&& hits.len() == width * height * scene.len()
            &&& chosen.len() == width * height
            &&& pixels.len() == width * height
            &&& forall|w: int, h: int, j: int|
                0 <= w < width && 0 <= h < height && 0 <= j < scene.len() ==> call_ensures(
                    intersect,
                    (&scene[j], &pixel_point(width, height, w, h)),
                    #[trigger] hits[(h * width + w) * scene.len() + j],
                )
            &&& forall|i: int|
                0 <= i < chosen.len() ==> is_choice_in(
                    hits,
                    i * scene.len(),
                    i * scene.len() + scene.len(),
                    #[trigger] chosen[i],
                )
            &&& forall|i: int| 0 <= i < pixels.len() ==> #[trigger] pixels[i] == hit_color(chosen[i])
        }
}

/// Renders `scene` as an image of `width` by `height` pixels.
///
/// One ray is cast for each pixel, through that pixel's point of the image
/// plane. `intersect` says where such a ray meets an object, if it does. A
/// pixel gets the colour of the nearest hit in front of the camera; it is
/// black where there is none.
pub fn render<O, F>(width: usize, height: usize, scene: &Vec<O>, intersect: F) -> (pixels: Vec<RGB>)
    where F: Fn(&O, &PlanePoint) -> Option<Hit>
    requires
        width > 0,
        height > 0,
        forall|w: int, h: int, j: int|
            0 <= w < width && 0 <= h < height && 0 <= j < scene.len() ==> call_requires(
                intersect,
                (&scene[j], &#[trigger] pixel_point(width as int, height as int, w, h)),
            ),
    ensures
        pixels.len() == width * height,
        is_image_of(pixels@, width as int, height as int, scene@, intersect),
{
    let camera = Camera::new(width, height);
    let points = camera.generate_viewframe_points();
    let ghost n: int = scene.len() as int;
    assert forall|i: int, j: int| 0 <= i < points.len() && 0 <= j < scene.len() implies call_requires(
        intersect,
        (&scene[j], &points[i]),
    ) by {
        lemma_pixel_of_index(i, width as int, height as int);
        assert(points[(i / (width as int)) * width + i % (width as int)] == pixel_point(
            width as int,
            height as int,
            i % (width as int),
            i / (width as int),
        ));
    }
    let hits = compute_object_intersections(&points, scene, intersect);
    let nearest = closest_hits(&hits, points.len(), scene.len());
    let chosen = nearest.unwrap();
    let pixels = colorize_hits(&chosen);
    proof {
        assert forall|w: int, h: int, j: int|
            0 <= w < width && 0 <= h < height && 0 <= j < scene.len() implies call_ensures(
            intersect,
            (&scene[j], &pixel_point(width as int, height as int, w, h)),
            #[trigger] hits@[(h * width + w) * scene.len() + j],
        ) by {
            lemma_row_major_index(h, w, width as int);
            assert((h + 1) * width <= height * width) by (nonlinear_arith)
                requires
                    h + 1 <= height,
                    0 <= width,
            ;
            assert(height * width == width * height) by (nonlinear_arith);
            let i = h * width + w;
            assert(points[i] == pixel_point(width as int, height as int, w, h));
            assert(call_ensures(intersect, (&scene[j], &points[i]), hits[i * scene.len() + j]));
        }
        assert(is_image_of(pixels@, width as int, height as int, scene@, intersect)) by {
            let witness_hits = hits@;
            let witness_chosen = chosen@;
            assert(witness_hits.len() == width * height * scene.len());
            assert(forall|i: int|
                0 <= i < witness_chosen.len() ==> is_choice_in(
                    witness_hits,
                    i * scene.len(),
                    i * scene.len() + scene.len(),
                    #[trigger] witness_chosen[i],
                ));
            assert(forall|i: int| 0 <= i < pixels@.len() ==> #[trigger] pixels@[i] == hit_color(witness_chosen[i]));
        }
    }
    pixels
}

/// The row and the column of the pixel at a position of an image laid out
/// row by row.
proof fn lemma_pixel_of_index(i: int, width: int, height: int)
    requires
        width > 0,
        0 <= i < width * height,
    ensures
        0 <= i % width < width,
        0 <= i / width < height,
        (i / width) * width + i % width == i,
{
    vstd::arithmetic::div_mod::lemma_fundamental_div_mod(i, width);
    vstd::arithmetic::div_mod::lemma_mod_bound(i, width);
    assert(width * (i / width) == (i / width) * width) by (nonlinear_arith);
    assert(0 <= i / width < height) by (nonlinear_arith)
        requires
            (i / width) * width + i % width == i,
            0 <= i % width < width,
            0 <= i < width * height,
            width > 0,
    ;
}

} // verus!
