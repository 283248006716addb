use std::borrow::Cow;
use std::io::Cursor;

use bubblepop::input::rgba8_source;
use bubblepop::layout::check_pixel_layout;
use bubblepop::{BubblePopError, ImageSource, IntoImageSource, PixelFormat, RawPixelView};

fn encode_png(width: u32, height: u32, pixels: Vec<u8>) -> Vec<u8> {
    let img = image::RgbaImage::from_raw(width, height, pixels).expect("buffer fits");
    let mut out = Cursor::new(Vec::new());
    img.write_to(&mut out, image::ImageFormat::Png).expect("encode png");
    out.into_inner()
}

fn invalid_message(r: Result<usize, BubblePopError>) -> String {
    match r {
        Err(BubblePopError::InvalidInput(m)) => m,
        other => panic!("expected InvalidInput, got {:?}", other),
    }
}

#[test]
fn bytes_per_pixel_of_each_format() {
    assert_eq!(PixelFormat::Rgba8.bytes_per_pixel(), 4);
    assert_eq!(PixelFormat::Bgra8.bytes_per_pixel(), 4);
    assert_eq!(PixelFormat::Argb8.bytes_per_pixel(), 4);
    assert_eq!(PixelFormat::Rgb8.bytes_per_pixel(), 3);
    assert_eq!(PixelFormat::Bgr8.bytes_per_pixel(), 3);
    assert_eq!(PixelFormat::Gray8.bytes_per_pixel(), 1);
}

#[test]
fn layout_rejects_zero_width() {
    let m = invalid_message(check_pixel_layout(100, 0, 100, PixelFormat::Rgb8, 0));
    assert_eq!(m, "Image dimensions must be positive");
}

#[test]
fn layout_rejects_zero_height() {
    let m = invalid_message(check_pixel_layout(100, 10, 0, PixelFormat::Gray8, 10));
    assert_eq!(m, "Image dimensions must be positive");
}

#[test]
fn layout_rejects_short_buffer() {
    // 100 x 100 RGB with the packed stride needs 99 * 300 + 300 bytes.
    let m = invalid_message(check_pixel_layout(10, 100, 100, PixelFormat::Rgb8, 300));
    assert_eq!(m, "Pixel buffer too small: expected at least 30000 bytes, got 10");
}

#[test]
fn layout_rejects_short_stride() {
    let m = invalid_message(check_pixel_layout(1000, 10, 10, PixelFormat::Rgba8, 39));
    assert_eq!(m, "Stride 39 bytes is smaller than row bytes 40");
}

#[test]
fn layout_rejects_overflowing_size() {
    let m = invalid_message(check_pixel_layout(usize::MAX, 1, u32::MAX, PixelFormat::Gray8, usize::MAX / 2));
    assert_eq!(m, "Image dimensions overflowed buffer size calculation");
}

#[test]
fn layout_accepts_padded_rows() {
    // Three rows of 4 RGBA pixels with 20-byte stride: the last row is not padded.
    assert_eq!(check_pixel_layout(56, 4, 3, PixelFormat::Rgba8, 20).unwrap(), 56);
    assert!(check_pixel_layout(55, 4, 3, PixelFormat::Rgba8, 20).is_err());
    assert_eq!(check_pixel_layout(1, 1, 1, PixelFormat::Gray8, 1).unwrap(), 1);
}

#[test]
fn raw_view_defaults_to_packed_stride() {
    let pixels = vec![255u8; 50 * 50 * 4];
    let raw = RawPixelView { pixels: &pixels, width: 50, height: 50, format: PixelFormat::Rgba8, stride_bytes: None };
    let source = raw.into_image_source().expect("raw view");
    assert_eq!(source.width, 50);
    assert_eq!(source.height, 50);
    assert_eq!(source.stride_bytes, 200);
    assert_eq!(source.format, PixelFormat::Rgba8);
    assert!(matches!(source.data, Cow::Borrowed(_)));
    assert_eq!(source.data.len(), 10000);
}

#[test]
fn raw_view_keeps_explicit_stride() {
    let pixels = vec![7u8; 64];
    let raw = RawPixelView { pixels: &pixels, width: 5, height: 4, format: PixelFormat::Rgb8, stride_bytes: Some(16) };
    let source = (&raw).into_image_source().expect("raw view");
    assert_eq!(source.stride_bytes, 16);
    assert_eq!(source.format, PixelFormat::Rgb8);
    assert_eq!(&source.data[..], &pixels[..]);
}

#[test]
fn image_source_borrows_into_itself() {
    let owned = ImageSource { width: 2, height: 1, format: PixelFormat::Gray8, data: Cow::Owned(vec![1, 2]), stride_bytes: 2 };
    let view = (&owned).into_image_source().expect("borrow");
    assert!(matches!(view.data, Cow::Borrowed(_)));
    assert_eq!(&view.data[..], &[1, 2]);
    assert_eq!(view.stride_bytes, 2);
    let same = owned.into_image_source().expect("identity");
    assert_eq!(same.width, 2);
}

#[test]
fn rgba8_source_packs_rows() {
    let source = rgba8_source(3, 2, vec![0u8; 24]);
    assert_eq!(source.stride_bytes, 12);
    assert_eq!(source.format, PixelFormat::Rgba8);
    assert_eq!(source.data.len(), 24);
}

#[test]
fn decodes_png_bytes_to_rgba() {
    let pixels = vec![10, 20, 30, 255, 40, 50, 60, 128];
    let png = encode_png(2, 1, pixels.clone());
    let source = png.as_slice().into_image_source().expect("decode &[u8]");
    assert_eq!(source.width, 2);
    assert_eq!(source.height, 1);
    assert_eq!(source.stride_bytes, 8);
    assert_eq!(source.format, PixelFormat::Rgba8);
    assert_eq!(&source.data[..], &pixels[..]);
    let from_vec = png.clone().into_image_source().expect("decode Vec<u8>");
    assert_eq!(&from_vec.data[..], &pixels[..]);
    let from_ref = (&png).into_image_source().expect("decode &Vec<u8>");
    assert_eq!(from_ref.width, 2);
}

#[test]
fn rejects_undecodable_bytes() {
    let garbage = vec![1u8, 2, 3, 4, 5];
    match garbage.as_slice().into_image_source() {
        Err(BubblePopError::ImageDecodeError(m)) => assert!(!m.is_empty()),
        Err(other) => panic!("unexpected error {:?}", other),
        Ok(_) => panic!("garbage decoded"),
    }
}

#[test]
fn converts_dynamic_images() {
    let gray = image::GrayImage::from_raw(2, 2, vec![0, 85, 170, 255]).unwrap();
    let dynamic = image::DynamicImage::ImageLuma8(gray);
    let borrowed = (&dynamic).into_image_source().expect("&DynamicImage");
    assert_eq!(borrowed.stride_bytes, 8);
    assert_eq!(&borrowed.data[..4], &[0, 0, 0, 255]);
    assert_eq!(&borrowed.data[4..8], &[85, 85, 85, 255]);
    let owned = dynamic.into_image_source().expect("DynamicImage");
    assert_eq!(owned.width, 2);
    assert_eq!(owned.data.len(), 16);

    let rgba = image::RgbaImage::from_raw(1, 1, vec![1, 2, 3, 4]).unwrap();
    let dynamic = image::DynamicImage::ImageRgba8(rgba);
    let view = (&dynamic).into_image_source().expect("&DynamicImage rgba");
    assert!(matches!(view.data, Cow::Borrowed(_)));
    assert_eq!(&view.data[..], &[1, 2, 3, 4]);
}

#[test]
fn test_invalid_dimensions_error() {
    let raw = RawPixelView { pixels: &[0u8; 100], width: 0, height: 100, format: PixelFormat::Rgb8, stride_bytes: None };
    let source = raw.into_image_source().expect("raw view");
    let err = check_pixel_layout(source.data.len(), source.width, source.height, source.format, source.stride_bytes)
        .unwrap_err();
    assert!(matches!(err, BubblePopError::InvalidInput(_)));
}

#[test]
fn test_buffer_too_short_error() {
    let raw = RawPixelView { pixels: &[0u8; 10], width: 100, height: 100, format: PixelFormat::Rgb8, stride_bytes: None };
    let source = raw.into_image_source().expect("raw view");
    let err = check_pixel_layout(source.data.len(), source.width, source.height, source.format, source.stride_bytes)
        .unwrap_err();
    assert!(matches!(err, BubblePopError::InvalidInput(_)));
}

#[test]
fn test_raw_pixel_view_into_image_source() {
    let width = 50;
    let height = 50;
    let pixels = vec![255u8; width * height * 4];
    let raw = RawPixelView {
        pixels: &pixels,
        width: width as u32,
        height: height as u32,
        format: PixelFormat::Rgba8,
        stride_bytes: Some(width * 4),
    };
    let source = raw.into_image_source().expect("detect(RawPixelView)");
    assert_eq!(source.width, width as u32);
    assert_eq!(source.height, height as u32);
    let spanned = check_pixel_layout(source.data.len(), source.width, source.height, source.format, source.stride_bytes);
    assert_eq!(spanned.unwrap(), width * height * 4);
}

#[test]
fn decoded_images_pass_the_layout_check() {
    let png = encode_png(3, 2, vec![9u8; 24]);
    let source = png.into_image_source().expect("decode");
    let spanned = check_pixel_layout(source.data.len(), source.width, source.height, source.format, source.stride_bytes);
    assert_eq!(spanned.unwrap(), 24);

    // A buffer longer than the image it holds still passes.
    let rgba = image::RgbaImage::from_raw(2, 2, vec![1u8; 20]).unwrap();
    let dynamic = image::DynamicImage::ImageRgba8(rgba);
    let view = (&dynamic).into_image_source().expect("&DynamicImage");
    assert_eq!(view.data.len(), 20);
    let spanned = check_pixel_layout(view.data.len(), view.width, view.height, view.format, view.stride_bytes);
    assert_eq!(spanned.unwrap(), 16);
}
