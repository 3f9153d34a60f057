//! Colours, and the mapping from hits to colours.

use vstd::prelude::*;
use crate::geometry::{in_front, is_choice_in, lemma_no_hit_no_choice, Hit, ScaledNormal};
use crate::utils::{append_decimal, decimal};

verus! {

/// A colour of three 8-bit channels.
#[derive(Clone, Copy, Debug, PartialEq, Eq, Structural)]
pub struct RGB {
    pub r: u8,
    pub g: u8,
    pub b: u8,
}

/// The line of a pixel file that holds one colour: the three channels in
/// decimal, red first, with a space between them and a line feed at the end.
pub open spec fn rgb_line(color: RGB) -> Seq<char> {
    decimal(color.r as nat) + seq![' '] + decimal(color.g as nat) + seq![' '] + decimal(color.b as nat) + seq!['\n']
}

/// The lines of a pixel file that hold the given colours, in their order.
pub open spec fn rgb_lines(colors: Seq<RGB>) -> Seq<char>
    decreases colors.len(),
{
    if colors.len() == 0 {
        Seq::empty()
    } else {
        rgb_lines(colors.drop_last()) + rgb_line(colors.last())
    }
}

/// One more colour adds its line at the end.
pub proof fn lemma_rgb_lines_push(colors: Seq<RGB>, color: RGB)
    ensures
        rgb_lines(colors.push(color)) == rgb_lines(colors) + rgb_line(color),
{
    assert(colors.push(color).drop_last() =~= colors);
}

/// Appends the line of `color` to `text`.
pub fn append_rgb_line(text: &mut String, color: RGB)
    ensures
        final(text)@ == old(text)@ + rgb_line(color),
{
    proof {
        reveal_strlit(" ");
        reveal_strlit("\n");
    }
    append_decimal(text, color.r as usize);
    text.append(" ");
    append_decimal(text, color.g as usize);
    text.append(" ");
    append_decimal(text, color.b as usize);
    text.append("\n");
    assert(final(text)@ =~= old(text)@ + rgb_line(color));
}

impl RGB {
    /// The colour as a line of a pixel file.
    pub fn to_string(&self) -> (line: String)
        ensures
            line@ == rgb_line(*self),
    {
        let mut line = String::new();
        append_rgb_line(&mut line, *self);
        assert(line@ =~= rgb_line(*self));
        line
    }
}

/// The pixel lines of a sequence of colours: one line for each, in order.
pub fn convert_rgb_vec_to_str(rgb_vec: &Vec<RGB>) -> (mega_string: String)
    ensures
        mega_string@ == rgb_lines(rgb_vec@),
{
    let mut mega_string = String::new();
    let mut i: usize = 0;
    assert(rgb_vec@.take(0) =~= Seq::<RGB>::empty());
    while i < rgb_vec.len()
        invariant
            i <= rgb_vec.len(),
            mega_string@ == rgb_lines(rgb_vec@.take(i as int)),
        decreases rgb_vec.len() - i,
    {
        proof {
            assert(rgb_vec@.take(i + 1) =~= rgb_vec@.take(i as int).push(rgb_vec@[i as int]));
            lemma_rgb_lines_push(rgb_vec@.take(i as int), rgb_vec@[i as int]);
        }
        let rgb_str = rgb_vec[i].to_string();
        mega_string.append(rgb_str.as_str());
        i = i + 1;
    }
    assert(rgb_vec@.take(rgb_vec.len() as int) =~= rgb_vec@);
    mega_string
}

/// The background colour, and the colour of every ray before shading.
pub open spec fn spec_black() -> RGB {
    RGB { r: 0, g: 0, b: 0 }
}

/// No light in any channel.
#[verifier::when_used_as_spec(spec_black)]
pub fn black() -> (c: RGB)
    ensures
        c == spec_black(),
{
    RGB { r: 0, g: 0, b: 0 }
}

/// All channels full.
pub fn white() -> (c: RGB)
    ensures
        c == (RGB { r: 255, g: 255, b: 255 }),
{
    RGB { r: 255, g: 255, b: 255 }
}

/// Red alone, full.
pub fn red() -> (c: RGB)
    ensures
        c == (RGB { r: 255, g: 0, b: 0 }),
{
    RGB { r: 255, g: 0, b: 0 }
}

/// Green alone, full.
pub fn green() -> (c: RGB)
    ensures
        c == (RGB { r: 0, g: 255, b: 0 }),
{
    RGB { r: 0, g: 255, b: 0 }
}

/// Blue alone, full.
pub fn blue() -> (c: RGB)
    ensures
        c == (RGB { r: 0, g: 0, b: 255 }),
{
    RGB { r: 0, g: 0, b: 255 }
}

/// The channel value of one scaled normal component: its magnitude, held to
/// 255 where it would be more.
pub open spec fn channel_of(component: int) -> int {
    if component >= 255 || component <= -255 {
        255
    } else if component < 0 {
        -component
    } else {
        component
    }
}

/// A channel never leaves its range: a component of magnitude 255, which
/// stands for a normal that points along an axis, gives 255, a greater
/// magnitude gives 255 too, and a smaller one is kept as it is.
pub proof fn lemma_channel_is_clamped(component: int)
    ensures
        0 <= channel_of(component) <= 255,
        channel_of(component) == channel_of(-component),
        0 <= component <= 255 ==> channel_of(component) == component,
        component >= 255 ==> channel_of(component) == 255,
{
}

/// The colour of a surface normal: one channel per axis.
pub open spec fn normal_color(n: ScaledNormal) -> RGB {
    RGB { r: channel_of(n.x as int) as u8, g: channel_of(n.y as int) as u8, b: channel_of(n.z as int) as u8 }
}

/// The colour of one hit result: the background where there is no hit.
pub open spec fn hit_color(hit: Option<Hit>) -> RGB {
    match hit {
        None => spec_black(),
        Some(h) => normal_color(h.surface_normal),
    }
}

fn channel(component: i64) -> (c: u8)
    ensures
        c == channel_of(component as int),
{
    if component >= 255 || component <= -255 {
        255
    } else if component < 0 {
        (-component) as u8
    } else {
        component as u8
    }
}

/// No hit is painted black.
pub proof fn lemma_no_hit_is_black(hits: Seq<Option<Hit>>, lo: int, hi: int, chosen: Option<Hit>)
    requires
        is_choice_in(hits, lo, hi, chosen),
        forall|k: int| lo <= k < hi ==> !in_front(#[trigger] hits[k]),
    ensures
        hit_color(chosen) == spec_black(),
{
    lemma_no_hit_no_choice(hits, lo, hi, chosen);
}

/// Maps a surface normal to a colour: x to red, y to green, z to blue, each
/// by its magnitude, clamped to the channel's range.
pub fn colorize_surface_normals(vec: &ScaledNormal) -> (c: RGB)
    ensures
        c == normal_color(*vec),
{
    RGB { r: channel(vec.x), g: channel(vec.y), b: channel(vec.z) }
}

/// Paints every ray black: one colour per ray, whatever the ray holds.
pub fn colorize_rays<R>(rays: &Vec<R>) -> (colors: Vec<RGB>)
    ensures
        colors.len() == rays.len(),
        forall|i: int| 0 <= i < colors.len() ==> colors[i] == spec_black(),
{
    let mut colors: Vec<RGB> = Vec::new();
    let mut i: usize = 0;
    while i < rays.len()
        invariant
            i <= rays.len(),
            colors.len() == i,
            forall|k: int| 0 <= k < colors.len() ==> colors[k] == spec_black(),
        decreases rays.len() - i,
    {
        colors.push(black());
        i = i + 1;
    }
    colors
}

/// Shades hit results one by one, in order: black where there is no hit,
/// else the colour of the hit's surface normal.
pub fn colorize_hits(hits: &Vec<Option<Hit>>) -> (colors: Vec<RGB>)
    ensures
        colors.len() == hits.len(),
        forall|i: int| 0 <= i < hits.len() ==> colors[i] == hit_color(hits[i]),
{
    let mut colors: Vec<RGB> = Vec::new();
    let mut i: usize = 0;
    while i < hits.len()
        invariant
            i <= hits.len(),
            colors.len() == i,
            forall|k: int| 0 <= k < i ==> colors[k] == hit_color(hits[k]),
        decreases hits.len() - i,
    {
        let color = match &hits[i] {
            None => black(),
            Some(h) => colorize_surface_normals(&h.surface_normal),
        };
        colors.push(color);
        i = i + 1;
    }
    colors
}

} // verus!
