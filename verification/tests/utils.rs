use raycaster::utils::{append_decimal, create_dummy_ppm_contents, ppm_file_contents, ppm_header};
use raycaster::visual::{convert_rgb_vec_to_str, RGB};

fn decimal(n: usize) -> String {
    let mut text = String::new();
    append_decimal(&mut text, n);
    text
}

#[test]
fn decimal_numerals() {
    assert_eq!(decimal(0), "0");
    assert_eq!(decimal(7), "7");
    assert_eq!(decimal(9), "9");
    assert_eq!(decimal(10), "10");
    assert_eq!(decimal(255), "255");
    assert_eq!(decimal(1000), "1000");
    assert_eq!(decimal(1234567890), "1234567890");
    assert_eq!(decimal(usize::MAX), format!("{}", usize::MAX));
}

#[test]
fn decimal_is_appended() {
    let mut text = String::from("width ");
    append_decimal(&mut text, 400);
    assert_eq!(text, "width 400");
    append_decimal(&mut text, 0);
    assert_eq!(text, "width 4000");
}

#[test]
fn header_names_format_size_and_depth() {
    assert_eq!(ppm_header(400, 400), "P3\n400 400\n255\n");
    assert_eq!(ppm_header(1920, 1080), "P3\n1920 1080\n255\n");
    assert_eq!(ppm_header(0, 1), "P3\n0 1\n255\n");
}

#[test]
fn file_is_header_then_pixels() {
    let pixels = String::from("0 0 0\n255 255 255\n");
    assert_eq!(ppm_file_contents(&pixels, 2, 1), "P3\n2 1\n255\n0 0 0\n255 255 255\n");
    assert_eq!(ppm_file_contents(&String::new(), 0, 0), "P3\n0 0\n255\n");
}

#[test]
fn file_has_three_lines_and_one_per_pixel() {
    let (width, height) = (3usize, 2usize);
    let pixels: Vec<RGB> = (0..width * height).map(|i| RGB { r: i as u8, g: 100, b: 255 }).collect();
    let text = ppm_file_contents(&convert_rgb_vec_to_str(&pixels), width, height);
    assert_eq!(text.lines().count(), 3 + width * height);
    assert!(text.ends_with('\n'));
    let lines: Vec<&str> = text.lines().collect();
    assert_eq!(&lines[..4], &["P3", "3 2", "255", "0 100 255"]);
    assert_eq!(lines[8], "5 100 255");
}

#[test]
fn dummy_contents_of_a_small_image() {
    assert_eq!(create_dummy_ppm_contents(2, 2), "0 0 63\n127 0 63\n0 127 63\n127 127 63\n");
    assert_eq!(create_dummy_ppm_contents(1, 1), "0 0 63\n");
    assert_eq!(create_dummy_ppm_contents(3, 1), "0 0 63\n85 0 63\n170 0 63\n");
}

#[test]
fn dummy_contents_of_an_empty_image() {
    assert_eq!(create_dummy_ppm_contents(0, 0), "");
    assert_eq!(create_dummy_ppm_contents(0, 4), "");
    assert_eq!(create_dummy_ppm_contents(4, 0), "");
}

#[test]
fn dummy_contents_are_a_gradient() {
    for (width, height) in [(1usize, 1usize), (4, 3), (7, 5), (16, 9), (49, 3), (255, 2), (256, 1), (3, 100)] {
        let mut expected = String::new();
        for h in 0..height {
            for w in 0..width {
                let r = w as f64 / width as f64;
                let g = h as f64 / height as f64;
                let b = 0.25;
                expected.push_str(&format!("{} {} {}\n", (r * 255.0) as u8, (g * 255.0) as u8, (b * 255.0) as u8));
            }
        }
        assert_eq!(create_dummy_ppm_contents(width, height), expected);
    }
}
