use std::borrow::Cow;

use vstd::prelude::*;

use crate::error::BubblePopError;
use crate::text::{decimal, owned_text, push_decimal};
use vstd::string::StringExecFns;

verus! {

/// Supported pixel memory layout formats.
#[derive(Debug, Clone, Copy, PartialEq, Eq, Structural)]
pub enum PixelFormat {
    /// 32-bit RGBA (4 bytes per pixel: Red, Green, Blue, Alpha).
    Rgba8,
    /// 24-bit RGB (3 bytes per pixel: Red, Green, Blue).
    Rgb8,
    /// 32-bit BGRA (4 bytes per pixel: Blue, Green, Red, Alpha).
    Bgra8,
    /// 24-bit BGR (3 bytes per pixel: Blue, Green, Red).
    Bgr8,
    /// 32-bit ARGB (4 bytes per pixel: Alpha, Red, Green, Blue).
    Argb8,
    /// 8-bit Grayscale (1 byte per pixel).
    Gray8,
}

/// Number of bytes one pixel of `format` occupies.
pub open spec fn spec_bytes_per_pixel(format: PixelFormat) -> nat {
    match format {
        PixelFormat::Rgba8 | PixelFormat::Bgra8 | PixelFormat::Argb8 => 4,
        PixelFormat::Rgb8 | PixelFormat::Bgr8 => 3,
        PixelFormat::Gray8 => 1,
    }
}

impl PixelFormat {
    /// Number of bytes one pixel occupies in this layout.
    #[inline]
    pub fn bytes_per_pixel(&self) -> (n: usize)
        ensures
            n == spec_bytes_per_pixel(*self),
            1 <= n <= 4,
    {
        match self {
            PixelFormat::Rgba8 | PixelFormat::Bgra8 | PixelFormat::Argb8 => 4,
            PixelFormat::Rgb8 | PixelFormat::Bgr8 => 3,
            PixelFormat::Gray8 => 1,
        }
    }
}

/// Decoded image view ready for letterbox preprocessing.
pub struct ImageSource<'a> {
    pub width: u32,
    pub height: u32,
    pub format: PixelFormat,
    pub data: Cow<'a, [u8]>,
    pub stride_bytes: usize,
}

/// View of a raw pixel buffer in memory without heap allocation.
pub struct RawPixelView<'a> {
    pub pixels: &'a [u8],
    pub width: u32,
    pub height: u32,
    pub format: PixelFormat,
    pub stride_bytes: Option<usize>,
}

/// Trait for types that can be converted into an image source.
pub trait IntoImageSource<'a> {
    fn into_image_source(self) -> Result<ImageSource<'a>, BubblePopError>;
}

/// The row stride of a tightly packed image `width` pixels wide, as a `usize` product
/// (wrapping, like release builds, where the product does not fit).
pub open spec fn packed_stride(width: u32, format: PixelFormat) -> usize {
    vstd::wrapping::usize_specs::wrapping_mul(width as usize, spec_bytes_per_pixel(format) as usize)
}

/// The row stride of an RGBA8 image `width` pixels wide, computed in `u32` (wrapping, like
/// release builds, where the product does not fit).
pub open spec fn rgba8_stride(width: u32) -> usize {
    vstd::wrapping::u32_specs::wrapping_mul(width, 4) as usize
}

/// Whether `source` is what a raw view with these fields becomes: same size, format and
/// pixels (borrowed, not copied), with the given stride or else the packed one.
pub open spec fn is_view_source(
    source: ImageSource,
    pixels: Seq<u8>,
    width: u32,
    height: u32,
    format: PixelFormat,
    stride_bytes: Option<usize>,
) -> bool {
    &&& source.width == width
    &&& source.height == height
    &&& source.format == format
    &&& source.data is Borrowed
    &&& source.data@ == pixels
    &&& source.stride_bytes == match stride_bytes {
        Some(s) => s,
        None => packed_stride(width, format),
    }
}

fn view_stride(width: u32, format: PixelFormat, stride_bytes: Option<usize>) -> (stride: usize)
    ensures
        stride == match stride_bytes {
            Some(s) => s,
            None => packed_stride(width, format),
        },
{
    let bpp = format.bytes_per_pixel();
    match stride_bytes {
        Some(s) => s,
        None => (width as usize).wrapping_mul(bpp),
    }
}

impl<'a> IntoImageSource<'a> for RawPixelView<'a> {
    fn into_image_source(self) -> (r: Result<ImageSource<'a>, BubblePopError>)
        ensures
            r matches Ok(s) && is_view_source(
                s,
                self.pixels@,
                self.width,
                self.height,
                self.format,
                self.stride_bytes,
            ),
    {
        let stride = view_stride(self.width, self.format, self.stride_bytes);
        Ok(
            ImageSource {
                width: self.width,
                height: self.height,
                format: self.format,
                stride_bytes: stride,
                data: Cow::Borrowed(self.pixels),
            },
        )
    }
}

impl<'a> IntoImageSource<'a> for &'a RawPixelView<'a> {
    fn into_image_source(self) -> (r: Result<ImageSource<'a>, BubblePopError>)
        ensures
            r matches Ok(s) && is_view_source(
                s,
                self.pixels@,
                self.width,
                self.height,
                self.format,
                self.stride_bytes,
            ),
    {
        let stride = view_stride(self.width, self.format, self.stride_bytes);
        Ok(
            ImageSource {
                width: self.width,
                height: self.height,
                format: self.format,
                stride_bytes: stride,
                data: Cow::Borrowed(self.pixels),
            },
        )
    }
}

impl<'a> IntoImageSource<'a> for ImageSource<'a> {
    fn into_image_source(self) -> (r: Result<ImageSource<'a>, BubblePopError>)
        ensures
            r matches Ok(s) && s == self,
    {
        Ok(self)
    }
}

impl<'a> IntoImageSource<'a> for &'a ImageSource<'a> {
    fn into_image_source(self) -> (r: Result<ImageSource<'a>, BubblePopError>)
        ensures
            r matches Ok(s) && s.width == self.width && s.height == self.height && s.format
                == self.format && s.stride_bytes == self.stride_bytes && s.data is Borrowed
                && s.data@ == self.data@,
    {
        Ok(
            ImageSource {
                width: self.width,
                height: self.height,
                format: self.format,
                stride_bytes: self.stride_bytes,
                data: match &self.data {
                    Cow::Borrowed(b) => Cow::Borrowed(*b),
                    Cow::Owned(v) => Cow::Borrowed(v.as_slice()),
                },
            },
        )
    }
}

/// The source for a decoded RGBA8 image of the given size and pixels.
pub fn rgba8_source<'a>(width: u32, height: u32, pixels: Vec<u8>) -> (source: ImageSource<'a>)
    ensures
        source.width == width,
        source.height == height,
        source.format == PixelFormat::Rgba8,
        source.stride_bytes == rgba8_stride(width),
        source.data is Owned,
        source.data@ == pixels@,
{
    ImageSource {
        width,
        height,
        format: PixelFormat::Rgba8,
        stride_bytes: width.wrapping_mul(4) as usize,
        data: Cow::Owned(pixels),
    }
}


/// Handle on `image::DynamicImage`, carried through opaque.
#[verifier::external_type_specification]
#[verifier::external_body]
pub struct ExDynamicImage(image::DynamicImage);

/// What `image::load_from_memory` makes of `bytes`, converted to RGBA8: the width, the
/// height and the pixel bytes row by row, or the text of the decoding error.
pub uninterp spec fn decoded_rgba8(bytes: Seq<u8>) -> Result<(u32, u32, Seq<u8>), Seq<char>>;

/// Calls `image::load_from_memory` on `bytes` and converts the image it returns to RGBA8
/// (`DynamicImage::into_rgba8`), handing out its size and raw pixels; a decoding error is
/// handed out as its `to_string()` text. The contract claims that the outcome is the one
/// `decoded_rgba8` names for these bytes, that is, that decoding depends on the bytes
/// alone, and that the raw pixels are exactly `width * height` pixels of four bytes: the
/// decoder's buffer is allocated at `total_bytes` (`decoder_to_vec`), and `into_rgba8`
/// either keeps that buffer of an RGBA8 image or converts into a new one of that size
/// (`ImageBuffer::new`).
#[verifier::external_body]
fn load_rgba8(bytes: &[u8]) -> (r: Result<(u32, u32, Vec<u8>), String>)
    ensures
        match r {
            Ok((w, h, d)) => decoded_rgba8(bytes@) == Ok::<(u32, u32, Seq<u8>), Seq<char>>((w, h, d@)),
            Err(m) => decoded_rgba8(bytes@) == Err::<(u32, u32, Seq<u8>), Seq<char>>(m@),
        },
        r matches Ok((w, h, d)) ==> w * h * 4 == d@.len(),
{
    match image::load_from_memory(bytes) {
        Ok(img) => {
            let rgba = img.into_rgba8();
            let (w, h) = rgba.dimensions();
            Ok((w, h, rgba.into_raw()))
        },
        Err(e) => Err(e.to_string()),
    }
}

/// What `DynamicImage::into_rgba8` makes of `img`: the width, the height and the raw
/// pixel buffer of the RGBA8 image. `DynamicImage::to_rgba8` makes the same (a clone of
/// the stored image when it is RGBA8 already, the same conversion otherwise), and an image
/// stored as RGBA8 (`DynamicImage::as_rgba8`) is that image itself.
pub uninterp spec fn rgba8_image(img: image::DynamicImage) -> (u32, u32, Seq<u8>);

/// Converts an owned `DynamicImage` to RGBA8 (`DynamicImage::into_rgba8`) and hands out its
/// size and raw pixels. The contract claims that these are what `rgba8_image` names for the
/// image, and that the raw pixels cover the image, at least `width * height` pixels of four
/// bytes, as every `ImageBuffer` holds (`ImageBuffer::new`, `from_raw`).
#[verifier::external_body]
fn dynamic_into_rgba8(img: image::DynamicImage) -> (r: (u32, u32, Vec<u8>))
    ensures
        (r.0, r.1, r.2@) == rgba8_image(img),
        r.0 * r.1 * 4 <= r.2@.len(),
{
    let rgba = img.into_rgba8();
    let (w, h) = rgba.dimensions();
    (w, h, rgba.into_raw())
}

/// Copies a borrowed `DynamicImage` into an RGBA8 image (`DynamicImage::to_rgba8`) and
/// hands out its size and raw pixels. The contract claims that these are what `rgba8_image`
/// names for the image, and that the raw pixels cover the image, as every `ImageBuffer`
/// holds.
#[verifier::external_body]
fn dynamic_to_rgba8(img: &image::DynamicImage) -> (r: (u32, u32, Vec<u8>))
    ensures
        (r.0, r.1, r.2@) == rgba8_image(*img),
        r.0 * r.1 * 4 <= r.2@.len(),
{
    let rgba = img.to_rgba8();
    let (w, h) = rgba.dimensions();
    (w, h, rgba.into_raw())
}

/// Whether `DynamicImage::as_rgba8` finds `img` stored as an RGBA8 image.
pub uninterp spec fn stored_as_rgba8(img: image::DynamicImage) -> bool;

/// Looks at how a borrowed `DynamicImage` is stored (`DynamicImage::as_rgba8`): when it is an
/// RGBA8 image, hands out its size and its raw buffer (`ImageBuffer::as_raw`), unconverted;
/// otherwise `None`. The contract claims that it hands out a buffer exactly when the image is
/// stored as RGBA8 (`stored_as_rgba8`), and that a buffer handed out is what `rgba8_image`
/// names for the image, covering the image as every `ImageBuffer` does.
#[verifier::external_body]
fn dynamic_as_rgba8<'a>(img: &'a image::DynamicImage) -> (r: Option<(u32, u32, &'a [u8])>)
    ensures
        r is Some <==> stored_as_rgba8(*img),
        r matches Some((w, h, d)) ==> (w, h, d@) == rgba8_image(*img) && w * h * 4 <= d@.len(),
{
    match img.as_rgba8() {
        Some(rgba) => {
            let (w, h) = rgba.dimensions();
            Some((w, h, rgba.as_raw().as_slice()))
        },
        None => None,
    }
}

/// Decodes an encoded image (PNG, JPEG, ...) into an RGBA8 source.
fn decode_memory<'a>(bytes: &[u8]) -> (r: Result<ImageSource<'a>, BubblePopError>)
    ensures
        is_decoded_source(r, decoded_rgba8(bytes@)),
{
    match load_rgba8(bytes) {
        Ok((width, height, pixels)) => Ok(rgba8_source(width, height, pixels)),
        Err(message) => Err(BubblePopError::ImageDecodeError(message)),
    }
}

/// Whether `r` is what decoding gives when the decoder's outcome is `decoded`: the RGBA8
/// source of the decoded pixels, or an image decode error with the decoder's text.
pub open spec fn is_decoded_source(
    r: Result<ImageSource, BubblePopError>,
    decoded: Result<(u32, u32, Seq<u8>), Seq<char>>,
) -> bool {
    match decoded {
        Ok((w, h, d)) => r matches Ok(s) && s.width == w && s.height == h && s.format
            == PixelFormat::Rgba8 && s.stride_bytes == rgba8_stride(w) && s.data@ == d && w * h * 4
            == d.len(),
        Err(m) => r matches Err(BubblePopError::ImageDecodeError(e)) && e@ == m,
    }
}

impl<'a> IntoImageSource<'a> for &'a [u8] {
    fn into_image_source(self) -> (r: Result<ImageSource<'a>, BubblePopError>)
        ensures
            is_decoded_source(r, decoded_rgba8(self@)),
    {
        decode_memory(self)
    }
}

impl<'a> IntoImageSource<'a> for Vec<u8> {
    fn into_image_source(self) -> (r: Result<ImageSource<'a>, BubblePopError>)
        ensures
            is_decoded_source(r, decoded_rgba8(self@)),
    {
        decode_memory(self.as_slice())
    }
}

impl<'a> IntoImageSource<'a> for &'a Vec<u8> {
    fn into_image_source(self) -> (r: Result<ImageSource<'a>, BubblePopError>)
        ensures
            is_decoded_source(r, decoded_rgba8(self@)),
    {
        decode_memory(self.as_slice())
    }
}

/// Whether `s` is laid out as decoding lays out an image: RGBA8 rows four bytes per pixel
/// apart, with pixels for the whole image.
pub open spec fn is_rgba8_image(s: ImageSource) -> bool {
    &&& s.format == PixelFormat::Rgba8
    &&& s.stride_bytes == rgba8_stride(s.width)
    &&& s.width * s.height * 4 <= s.data@.len()
}

impl<'a> IntoImageSource<'a> for image::DynamicImage {
    fn into_image_source(self) -> (r: Result<ImageSource<'a>, BubblePopError>)
        ensures
            r matches Ok(s) && is_rgba8_image(s) && (s.width, s.height, s.data@) == rgba8_image(self)
                && s.data is Owned,
    {
        let (width, height, pixels) = dynamic_into_rgba8(self);
        Ok(rgba8_source(width, height, pixels))
    }
}

impl<'a> IntoImageSource<'a> for &'a image::DynamicImage {
    /// An image stored as RGBA8 lends its buffer; any other is converted into a new one.
    fn into_image_source(self) -> (r: Result<ImageSource<'a>, BubblePopError>)
        ensures
            r matches Ok(s) && is_rgba8_image(s) && (s.width, s.height, s.data@) == rgba8_image(*self)
                && (s.data is Borrowed <==> stored_as_rgba8(*self)),
    {
        match dynamic_as_rgba8(self) {
            Some((width, height, pixels)) => Ok(
                ImageSource {
                    width,
                    height,
                    format: PixelFormat::Rgba8,
                    stride_bytes: width.wrapping_mul(4) as usize,
                    data: Cow::Borrowed(pixels),
                },
            ),
            None => {
                let (width, height, pixels) = dynamic_to_rgba8(self);
                Ok(rgba8_source(width, height, pixels))
            },
        }
    }
}

} // verus!
