//! Decimal numerals and the text of a plain-text pixel file.

use vstd::prelude::*;
use crate::geometry::lemma_row_major_index;
use crate::visual::{append_rgb_line, lemma_rgb_lines_push, rgb_line, rgb_lines, RGB};

verus! {

/// The decimal digit `d` as a character.
pub open spec fn digit_char(d: int) -> char {
    if d == 0 {
        '0'
    } else if d == 1 {
        '1'
    } else if d == 2 {
        '2'
    } else if d == 3 {
        '3'
    } else if d == 4 {
        '4'
    } else if d == 5 {
        '5'
    } else if d == 6 {
        '6'
    } else if d == 7 {
        '7'
    } else if d == 8 {
        '8'
    } else {
        '9'
    }
}

/// The decimal numeral of `n`, without leading zeros.
pub open spec fn decimal(n: nat) -> Seq<char>
    decreases n,
{
    if n < 10 {
        seq![digit_char(n as int)]
    } else {
        decimal(n / 10).push(digit_char((n % 10) as int))
    }
}

fn digit_str(d: usize) -> (s: &'static str)
    requires
        d < 10,
    ensures
        s@ == seq![digit_char(d as int)],
{
    proof {
        reveal_strlit("0");
        reveal_strlit("1");
        reveal_strlit("2");
        reveal_strlit("3");
        reveal_strlit("4");
        reveal_strlit("5");
        reveal_strlit("6");
        reveal_strlit("7");
        reveal_strlit("8");
        reveal_strlit("9");
    }
    let s = if d == 0 {
        "0"
    } else if d == 1 {
        "1"
    } else if d == 2 {
        "2"
    } else if d == 3 {
        "3"
    } else if d == 4 {
        "4"
    } else if d == 5 {
        "5"
    } else if d == 6 {
        "6"
    } else if d == 7 {
        "7"
    } else if d == 8 {
        "8"
    } else {
        "9"
    };
    assert(s@ =~= seq![digit_char(d as int)]);
    s
}

/// Appends the decimal numeral of `n` to `text`.
pub fn append_decimal(text: &mut String, n: usize)
    ensures
        final(text)@ == old(text)@ + decimal(n as nat),
    decreases n,
{
    if n >= 10 {
        append_decimal(text, n / 10);
    }
    text.append(digit_str(n % 10));
    assert(final(text)@ =~= old(text)@ + decimal(n as nat));
}

/// The three lines that open a pixel file: the format's name, the image's
/// width and height, and the greatest channel value.
pub open spec fn header_text(width: nat, height: nat) -> Seq<char> {
    seq!['P', '3', '\n'] + decimal(width) + seq![' '] + decimal(height) + seq!['\n', '2', '5', '5', '\n']
}

/// The header of a pixel file for an image of `width` by `height` pixels.
pub fn ppm_header(width: usize, height: usize) -> (header: String)
    ensures
        header@ == header_text(width as nat, height as nat),
{
    proof {
        reveal_strlit("P3\n");
        reveal_strlit(" ");
        reveal_strlit("\n255\n");
    }
    let mut header = String::new();
    header.append("P3\n");
    append_decimal(&mut header, width);
    header.append(" ");
    append_decimal(&mut header, height);
    header.append("\n255\n");
    assert(header@ =~= header_text(width as nat, height as nat));
    header
}

/// The whole text of a pixel file: the header for an image of `width` by
/// `height` pixels, then the pixel lines in `ppm_content`.
pub fn ppm_file_contents(ppm_content: &String, width: usize, height: usize) -> (contents: String)
    ensures
        contents@ == header_text(width as nat, height as nat) + ppm_content@,
{
    let mut contents = ppm_header(width, height);
    contents.append(ppm_content.as_str());
    contents
}

/// The colour of pixel `(w, h)` of the test image: red rises from left to
/// right and green from top to bottom, each in proportion to the pixel's
/// place and never reaching 255; blue is a quarter throughout.
pub open spec fn dummy_pixel(width: int, height: int, w: int, h: int) -> RGB {
    RGB { r: (255 * w / width) as u8, g: (255 * h / height) as u8, b: 63 }
}

/// The pixels of the test image of `width` by `height` pixels, row by row.
pub open spec fn dummy_pixels(width: int, height: int) -> Seq<RGB> {
    Seq::new((width * height) as nat, |i: int| dummy_pixel(width, height, i % width, i / width))
}

fn proportion(part: usize, whole: usize) -> (level: u8)
    requires
        part < whole,
    ensures
        level == 255 * part / (whole as int),
{
    let scaled: u128 = 255 * (part as u128);
    proof {
        assert(255 * part / (whole as int) < 255) by (nonlinear_arith)
            requires
                0 <= part < whole,
        ;
        assert(0 <= 255 * part / (whole as int)) by (nonlinear_arith)
            requires
                0 <= part < whole,
        ;
    }
    (scaled / (whole as u128)) as u8
}

/// The pixel lines of a test image of `width` by `height` pixels.
pub fn create_dummy_ppm_contents(width: usize, height: usize) -> (ppm_contents: String)
    ensures
        ppm_contents@ == rgb_lines(dummy_pixels(width as int, height as int)),
{
    let ghost pixels = dummy_pixels(width as int, height as int);
    let mut ppm_contents = String::new();
    assert(pixels.take(0) =~= Seq::<RGB>::empty());
    let mut h: usize = 0;
    while h < height
        invariant
            h <= height,
            pixels == dummy_pixels(width as int, height as int),
            h * width <= width * height,
            ppm_contents@ == rgb_lines(pixels.take(h * width)),
        decreases height - h,
    {
        let g: u8 = proportion(h, height);
        let mut w: usize = 0;
        while w < width
            invariant
                h < height,
                w <= width,
                g == 255 * h / (height as int),
                pixels == dummy_pixels(width as int, height as int),
                h * width + w <= width * height,
                ppm_contents@ == rgb_lines(pixels.take(h * width + w)),
            decreases width - w,
        {
            let r: u8 = proportion(w, width);
            let ghost k: int = h * width + w;
            proof {
                lemma_row_major_index(h as int, w as int, width as int);
                assert((h + 1) * width <= height * width) by (nonlinear_arith)
                    requires
                        h + 1 <= height,
                        0 <= width,
                ;
                assert(height * width == width * height) by (nonlinear_arith);
                assert(pixels[k] == (RGB { r, g, b: 63 }));
                assert(pixels.take(k + 1) =~= pixels.take(k).push(pixels[k]));
                lemma_rgb_lines_push(pixels.take(k), pixels[k]);
            }
            append_rgb_line(&mut ppm_contents, RGB { r, g, b: 63 });
            w = w + 1;
        }
        proof {
            assert(h * width + width == (h + 1) * width) by (nonlinear_arith);
        }
        h = h + 1;
    }
    proof {
        assert(height * width == width * height) by (nonlinear_arith);
        assert(pixels.take(width * height) =~= pixels);
    }
    ppm_contents
}

/// The number of line feeds in `text`: the number of its lines, where each
/// line ends with one.
pub open spec fn line_feeds(text: Seq<char>) -> nat
    decreases text.len(),
{
    if text.len() == 0 {
        0
    } else {
        line_feeds(text.drop_last()) + if text.last() == '\n' {
            1nat
        } else {
            0nat
        }
    }
}

/// The lines of two texts, one after the other, are the lines of both.
pub proof fn lemma_line_feeds_concat(first: Seq<char>, second: Seq<char>)
    ensures
        line_feeds(first + second) == line_feeds(first) + line_feeds(second),
    decreases second.len(),
{
    if second.len() == 0 {
        assert(first + second =~= first);
    } else {
        assert((first + second).drop_last() =~= first + second.drop_last());
        lemma_line_feeds_concat(first, second.drop_last());
    }
}

/// One more character adds a line where it is a line feed.
pub proof fn lemma_line_feeds_push(text: Seq<char>, c: char)
    ensures
        line_feeds(text.push(c)) == line_feeds(text) + if c == '\n' {
            1nat
        } else {
            0nat
        },
{
    assert(text.push(c).drop_last() =~= text);
}

proof fn lemma_line_feeds_of_one(c: char)
    ensures
        line_feeds(seq![c]) == if c == '\n' {
            1nat
        } else {
            0nat
        },
{
    assert(line_feeds(Seq::<char>::empty()) == 0);
    assert(seq![c] =~= Seq::<char>::empty().push(c));
    lemma_line_feeds_push(Seq::<char>::empty(), c);
}

/// A decimal numeral holds no line feed.
pub proof fn lemma_decimal_is_one_line(n: nat)
    ensures
        line_feeds(decimal(n)) == 0,
    decreases n,
{
    if n < 10 {
        lemma_line_feeds_of_one(digit_char(n as int));
    } else {
        lemma_decimal_is_one_line(n / 10);
        lemma_line_feeds_push(decimal(n / 10), digit_char((n % 10) as int));
    }
}

/// The line of a colour is one line.
pub proof fn lemma_rgb_line_is_one_line(color: RGB)
    ensures
        line_feeds(rgb_line(color)) == 1,
{
    let r = decimal(color.r as nat);
    let g = decimal(color.g as nat);
    let b = decimal(color.b as nat);
    lemma_decimal_is_one_line(color.r as nat);
    lemma_decimal_is_one_line(color.g as nat);
    lemma_decimal_is_one_line(color.b as nat);
    lemma_line_feeds_of_one(' ');
    lemma_line_feeds_of_one('\n');
    lemma_line_feeds_concat(r, seq![' ']);
    lemma_line_feeds_concat(r + seq![' '], g);
    lemma_line_feeds_concat(r + seq![' '] + g, seq![' ']);
    lemma_line_feeds_concat(r + seq![' '] + g + seq![' '], b);
    lemma_line_feeds_concat(r + seq![' '] + g + seq![' '] + b, seq!['\n']);
}

/// The lines of a sequence of colours are as many as the colours.
pub proof fn lemma_rgb_lines_count(colors: Seq<RGB>)
    ensures
        line_feeds(rgb_lines(colors)) == colors.len(),
    decreases colors.len(),
{
    if colors.len() > 0 {
        lemma_rgb_lines_count(colors.drop_last());
        lemma_rgb_line_is_one_line(colors.last());
        lemma_line_feeds_concat(rgb_lines(colors.drop_last()), rgb_line(colors.last()));
    }
}

/// A pixel file has three lines of header and then one line for each pixel.
pub proof fn lemma_file_line_count(width: nat, height: nat, colors: Seq<RGB>)
    ensures
        line_feeds(header_text(width, height)) == 3,
        line_feeds(header_text(width, height) + rgb_lines(colors)) == 3 + colors.len(),
{
    let magic = seq!['P', '3', '\n'];
    let depth = seq!['\n', '2', '5', '5', '\n'];
    assert(line_feeds(magic) == 1) by {
        lemma_line_feeds_of_one('P');
        lemma_line_feeds_push(seq!['P'], '3');
        lemma_line_feeds_push(seq!['P'].push('3'), '\n');
        assert(magic =~= seq!['P'].push('3').push('\n'));
    }
    assert(line_feeds(depth) == 2) by {
        lemma_line_feeds_of_one('\n');
        lemma_line_feeds_push(seq!['\n'], '2');
        lemma_line_feeds_push(seq!['\n'].push('2'), '5');
        lemma_line_feeds_push(seq!['\n'].push('2').push('5'), '5');
        lemma_line_feeds_push(seq!['\n'].push('2').push('5').push('5'), '\n');
        assert(depth =~= seq!['\n'].push('2').push('5').push('5').push('\n'));
    }
    lemma_decimal_is_one_line(width);
    lemma_decimal_is_one_line(height);
    lemma_line_feeds_of_one(' ');
    lemma_line_feeds_concat(magic, decimal(width));
    lemma_line_feeds_concat(magic + decimal(width), seq![' ']);
    lemma_line_feeds_concat(magic + decimal(width) + seq![' '], decimal(height));
    lemma_line_feeds_concat(magic + decimal(width) + seq![' '] + decimal(height), depth);
    lemma_rgb_lines_count(colors);
    lemma_line_feeds_concat(header_text(width, height), rgb_lines(colors));
}

} // verus!
