use blobvault::error::StoreError;
use blobvault::resize::{parse_resize_param, query_param, resize_image, target_dimensions};
use std::io::Cursor;

fn png(width: u32, height: u32) -> Vec<u8> {
    let img = image::DynamicImage::ImageRgb8(image::RgbImage::new(width, height));
    let mut out = Vec::new();
    img.write_to(&mut Cursor::new(&mut out), image::ImageOutputFormat::Png).unwrap();
    out
}

fn dims(bytes: &[u8]) -> (u32, u32) {
    let img = image::load_from_memory_with_format(bytes, image::ImageFormat::Jpeg).unwrap();
    (img.width(), img.height())
}

#[test]
fn parse_resize_param_reads_both_sides() {
    assert_eq!(parse_resize_param("50x50"), Some((50, 50)));
    assert_eq!(parse_resize_param("0x100"), Some((0, 100)));
    assert_eq!(parse_resize_param("+5x7"), Some((5, 7)));
}

#[test]
fn parse_resize_param_fills_missing_side_with_zero() {
    assert_eq!(parse_resize_param("x100"), Some((0, 100)));
    assert_eq!(parse_resize_param("200x"), Some((200, 0)));
    assert_eq!(parse_resize_param("abcx30"), Some((0, 30)));
    assert_eq!(parse_resize_param("4294967296x1"), Some((0, 1)));
    assert_eq!(parse_resize_param("4294967295x1"), Some((4294967295, 1)));
}

#[test]
fn parse_resize_param_rejects_malformed() {
    assert_eq!(parse_resize_param(""), None);
    assert_eq!(parse_resize_param("100"), None);
    assert_eq!(parse_resize_param("x"), None);
    assert_eq!(parse_resize_param("axb"), None);
    assert_eq!(parse_resize_param("1x2x3"), None);
    assert_eq!(parse_resize_param("-1x-2"), None);
}

#[test]
fn target_dimensions_keeps_aspect_for_open_side() {
    assert_eq!(target_dimensions(0, 100, 200, 100), (200, 100));
    assert_eq!(target_dimensions(100, 0, 200, 100), (100, 50));
    assert_eq!(target_dimensions(0, 10, 3, 7), (4, 10));
    assert_eq!(target_dimensions(1, 0, 1000, 10), (1, 1));
}

#[test]
fn target_dimensions_takes_explicit_sides() {
    assert_eq!(target_dimensions(50, 50, 200, 100), (50, 50));
    assert_eq!(target_dimensions(0, 0, 200, 100), (200, 100));
}

#[test]
fn resize_image_preserves_aspect_with_open_width() {
    let out = resize_image(&png(200, 100), 0, 100).unwrap();
    assert_eq!(dims(&out), (200, 100));
    let out = resize_image(&png(200, 100), 0, 50).unwrap();
    assert_eq!(dims(&out), (100, 50));
}

#[test]
fn resize_image_exact_size_ignores_aspect() {
    let out = resize_image(&png(200, 100), 50, 50).unwrap();
    assert_eq!(dims(&out), (50, 50));
}

#[test]
fn resize_image_rejects_non_image() {
    assert_eq!(resize_image(b"hello", 10, 10), Err(StoreError::DecodeError));
}

#[test]
fn query_param_finds_value() {
    assert_eq!(query_param("resize=0x100", "resize"), Some("0x100".to_string()));
    assert_eq!(query_param("a=1&resize=2x3", "resize"), Some("2x3".to_string()));
    assert_eq!(query_param("resize=1x2=3", "resize"), Some("1x2".to_string()));
    assert_eq!(query_param("resize=", "resize"), Some("".to_string()));
}

#[test]
fn query_param_last_repeat_wins() {
    assert_eq!(query_param("resize=2x3&resize=4x5", "resize"), Some("4x5".to_string()));
    assert_eq!(query_param("resize=2x3&resize", "resize"), Some("2x3".to_string()));
}

#[test]
fn query_param_absent() {
    assert_eq!(query_param("", "resize"), None);
    assert_eq!(query_param("resize", "resize"), None);
    assert_eq!(query_param("size=1x1&resizes=2x2", "resize"), None);
}
