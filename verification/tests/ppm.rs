use raytracer::buffer::Buffer;
use raytracer::pixel::Pixel;
use raytracer::ppm::{encode, push_decimal, push_header, push_line, Rgb};

fn decimal(n: usize) -> String {
    let mut text = Vec::new();
    push_decimal(&mut text, n);
    String::from_utf8(text).unwrap()
}

#[test]
fn decimal_digits() {
    assert_eq!(decimal(0), "0");
    assert_eq!(decimal(7), "7");
    assert_eq!(decimal(9), "9");
    assert_eq!(decimal(10), "10");
    assert_eq!(decimal(99), "99");
    assert_eq!(decimal(100), "100");
    assert_eq!(decimal(255), "255");
    assert_eq!(decimal(1920), "1920");
    assert_eq!(decimal(usize::MAX), format!("{}", usize::MAX));
}

#[test]
fn decimal_is_appended() {
    let mut text = b"x=".to_vec();
    push_decimal(&mut text, 42);
    assert_eq!(text, b"x=42".to_vec());
}

#[test]
fn header_lines() {
    let mut text = Vec::new();
    push_header(&mut text, 1920, 1080);
    assert_eq!(String::from_utf8(text).unwrap(), "P3\n1920 1080\n255\n");
    let mut none = Vec::new();
    push_header(&mut none, 0, 0);
    assert_eq!(String::from_utf8(none).unwrap(), "P3\n0 0\n255\n");
}

#[test]
fn pixel_line() {
    let mut text = Vec::new();
    push_line(&mut text, Rgb { r: 0, g: 128, b: 255 });
    push_line(&mut text, Rgb { r: 9, g: 10, b: 99 });
    assert_eq!(String::from_utf8(text).unwrap(), "0 128 255\n9 10 99\n");
}

#[test]
fn image_is_written_from_the_top_row_down() {
    let mut image = Buffer::new(3, 2, Rgb { r: 0, g: 0, b: 0 });
    for j in 0..2usize {
        for i in 0..3usize {
            let color = Rgb { r: (10 * j + i) as u8, g: 100, b: 200 + i as u8 };
            image.set(&Pixel::new(i, j), color);
        }
    }
    let text = String::from_utf8(encode(&image)).unwrap();
    let expected = "P3\n3 2\n255\n\
                    10 100 200\n11 100 201\n12 100 202\n\
                    0 100 200\n1 100 201\n2 100 202\n";
    assert_eq!(text, expected);
}

#[test]
fn image_without_pixels_is_its_header() {
    let image = Buffer::new(0, 0, Rgb { r: 1, g: 2, b: 3 });
    assert_eq!(String::from_utf8(encode(&image)).unwrap(), "P3\n0 0\n255\n");
    let flat = Buffer::new(5, 0, Rgb { r: 1, g: 2, b: 3 });
    assert_eq!(String::from_utf8(encode(&flat)).unwrap(), "P3\n5 0\n255\n");
}

#[test]
fn one_pixel_image() {
    let image = Buffer::new(1, 1, Rgb { r: 255, g: 0, b: 7 });
    assert_eq!(String::from_utf8(encode(&image)).unwrap(), "P3\n1 1\n255\n255 0 7\n");
}
