use vstd::prelude::*;

use crate::error::BubblePopError;
use crate::input::{
    ImageSource, PixelFormat, is_rgba8_image, is_view_source, packed_stride, rgba8_stride,
    spec_bytes_per_pixel,
};
use crate::text::{decimal, owned_text, push_decimal};
use vstd::string::StringExecFns;

verus! {

/// Bytes one row of `width` pixels of `format` occupies, without padding.
pub open spec fn row_bytes(width: u32, format: PixelFormat) -> int {
    width * spec_bytes_per_pixel(format)
}

/// Bytes a buffer must hold for `height` rows `stride_bytes` apart, the last one unpadded.
pub open spec fn required_bytes(width: u32, height: u32, format: PixelFormat, stride_bytes: usize) -> int {
    (height - 1) * stride_bytes + row_bytes(width, format)
}

/// Message for a stride shorter than a row.
pub open spec fn stride_message(stride_bytes: nat, row: nat) -> Seq<char> {
    "Stride "@ + decimal(stride_bytes) + " bytes is smaller than row bytes "@ + decimal(row)
}

/// Message for a pixel buffer shorter than the layout needs.
pub open spec fn short_buffer_message(required: nat, len: nat) -> Seq<char> {
    "Pixel buffer too small: expected at least "@ + decimal(required) + " bytes, got "@ + decimal(len)
}

/// Whether `r` reports invalid input with message `m`.
pub open spec fn invalid_input(r: Result<usize, BubblePopError>, m: Seq<char>) -> bool {
    r matches Err(BubblePopError::InvalidInput(e)) && e@ == m
}

/// An image laid out as decoding lays it out passes the layout check (see
/// [`check_pixel_layout`]) unless it is empty or a row of it is longer than a `u32` can
/// count in bytes: its rows start a whole row apart and its pixels cover every row.
pub proof fn lemma_rgba8_image_fits(s: ImageSource)
    requires
        is_rgba8_image(s),
        s.width > 0,
        s.height > 0,
        s.width * 4 <= u32::MAX,
    ensures
        row_bytes(s.width, s.format) <= s.stride_bytes,
        required_bytes(s.width, s.height, s.format, s.stride_bytes) <= s.data@.len(),
{
    let w = s.width as int;
    let h = s.height as int;
    assert((w * 4) % 0x1_0000_0000 == w * 4) by {
        vstd::arithmetic::div_mod::lemma_small_mod((w * 4) as nat, 0x1_0000_0000);
    }
    assert(s.stride_bytes == w * 4);
    assert((h - 1) * (w * 4) + w * 4 == w * h * 4) by (nonlinear_arith);
}

/// A tightly packed image of any format, handed over as a raw view without a stride, is
/// laid out as its format says: each pixel takes 4 bytes in RGBA8, BGRA8 and ARGB8, 3 in
/// RGB8 and BGR8 and 1 in Gray8, the rows follow one another without padding, and the
/// layout check (see [`check_pixel_layout`]) accepts the buffer and finds that the image
/// spans all of it.
pub proof fn lemma_packed_view_accepted(
    s: ImageSource,
    pixels: Seq<u8>,
    width: u32,
    height: u32,
    format: PixelFormat,
    bpp: int,
)
    requires
        bpp == (match format {
            PixelFormat::Rgba8 | PixelFormat::Bgra8 | PixelFormat::Argb8 => 4int,
            PixelFormat::Rgb8 | PixelFormat::Bgr8 => 3int,
            PixelFormat::Gray8 => 1int,
        }),
        width > 0,
        height > 0,
        pixels.len() == height * (width * bpp),
        pixels.len() <= usize::MAX,
        is_view_source(s, pixels, width, height, format, None),
    ensures
        s.stride_bytes == width * bpp,
        row_bytes(width, format) == width * bpp,
        row_bytes(width, format) <= s.stride_bytes,
        required_bytes(width, height, format, s.stride_bytes) == pixels.len(),
{
    let w = width as int;
    let h = height as int;
    let row = w * bpp;
    assert(spec_bytes_per_pixel(format) == bpp);
    assert(row <= h * row) by (nonlinear_arith)
        requires
            h >= 1,
            row >= 0,
    ;
    assert((w * bpp) % (usize::MAX as int + 1) == w * bpp) by {
        vstd::arithmetic::div_mod::lemma_small_mod((w * bpp) as nat, (usize::MAX as int + 1) as nat);
    }
    assert(packed_stride(width, format) == row);
    assert((h - 1) * row + row == h * row) by (nonlinear_arith);
}

/// Checks that a buffer of `pixels_len` bytes holds a `width` x `height` image of `format`
/// whose rows start `stride_bytes` apart, as detection requires, and returns the number of
/// bytes the image spans. The first failing check decides the error.
pub fn check_pixel_layout(
    pixels_len: usize,
    width: u32,
    height: u32,
    format: PixelFormat,
    stride_bytes: usize,
) -> (r: Result<usize, BubblePopError>)
    ensures
        width == 0 || height == 0 ==> invalid_input(r, "Image dimensions must be positive"@),
        width > 0 && height > 0 && row_bytes(width, format) > usize::MAX ==> invalid_input(
            r,
            "Image width overflowed stride calculation"@,
        ),
        width > 0 && height > 0 && row_bytes(width, format) <= usize::MAX && stride_bytes < row_bytes(
            width,
            format,
        ) ==> invalid_input(r, stride_message(stride_bytes as nat, row_bytes(width, format) as nat)),
        width > 0 && height > 0 && row_bytes(width, format) <= stride_bytes && required_bytes(
            width,
            height,
            format,
            stride_bytes,
        ) > usize::MAX ==> invalid_input(r, "Image dimensions overflowed buffer size calculation"@),
        width > 0 && height > 0 && row_bytes(width, format) <= stride_bytes && required_bytes(
            width,
            height,
            format,
            stride_bytes,
        ) <= usize::MAX && pixels_len < required_bytes(width, height, format, stride_bytes)
            ==> invalid_input(
            r,
            short_buffer_message(
                required_bytes(width, height, format, stride_bytes) as nat,
                pixels_len as nat,
            ),
        ),
        r is Ok <==> (width > 0 && height > 0 && row_bytes(width, format) <= stride_bytes
            && required_bytes(width, height, format, stride_bytes) <= pixels_len),
        r matches Ok(n) ==> n == required_bytes(width, height, format, stride_bytes),
{
    if width == 0 || height == 0 {
        return Err(BubblePopError::InvalidInput(owned_text("Image dimensions must be positive")));
    }
    let bpp = format.bytes_per_pixel();
    let min_stride = match (width as usize).checked_mul(bpp) {
        Some(n) => n,
        None => {
            return Err(
                BubblePopError::InvalidInput(owned_text("Image width overflowed stride calculation")),
            );
        },
    };

    if stride_bytes < min_stride {
        let mut message = owned_text("Stride ");
        push_decimal(&mut message, stride_bytes as u64);
        message.append(" bytes is smaller than row bytes ");
        push_decimal(&mut message, min_stride as u64);
        return Err(BubblePopError::InvalidInput(message));
    }

    assert((height - 1) * stride_bytes >= 0) by (nonlinear_arith)
        requires
            height >= 1,
    ;
    let total = match ((height as usize) - 1).checked_mul(stride_bytes) {
        Some(row_offset) => row_offset.checked_add(min_stride),
        None => None,
    };
    let total_required_len = match total {
        Some(n) => n,
        None => {
            return Err(
                BubblePopError::InvalidInput(
                    owned_text("Image dimensions overflowed buffer size calculation"),
                ),
            );
        },
    };

    if pixels_len < total_required_len {
        let mut message = owned_text("Pixel buffer too small: expected at least ");
        push_decimal(&mut message, total_required_len as u64);
        message.append(" bytes, got ");
        push_decimal(&mut message, pixels_len as u64);
        return Err(BubblePopError::InvalidInput(message));
    }
    Ok(total_required_len)
}

} // verus!
