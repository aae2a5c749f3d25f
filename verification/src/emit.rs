//! Encoding of a finished intensity buffer as a single-channel 8-bit PNG.

use vstd::prelude::*;
use crate::raster::pixel_count;

verus! {

/// The error type of the `png` crate's encoder, carried through as an opaque value.
#[verifier::external_type_specification]
#[verifier::external_body]
pub struct ExEncodingError(png::EncodingError);

/// Why a buffer could not be turned into an image.
#[derive(Clone, Copy, Debug, PartialEq, Eq, Structural)]
pub enum EmitError {
    /// The declared width or height is zero.
    EmptyImage,
    /// The buffer does not hold exactly one byte per pixel.
    BufferLength,
    /// The encoder refused the image.
    Encoder,
}

/// The PNG stream that the `png` crate's encoder produces for an 8-bit
/// grayscale image of the given size and pixel data, or `None` where the
/// encoder reports an error.
pub uninterp spec fn gray8_png(width: u32, height: u32, pixels: Seq<u8>) -> Option<Seq<u8>>;

/// Runs `png::Encoder` (`new`, `set_color`, `set_depth`, `write_header`) and
/// `png::Writer` (`write_image_data`, `finish`) on an in-memory sink.
///
/// Trusted: Verus takes this contract as given and does not read the body.
/// The contract only gives the outcome its name, `gray8_png`: the bytes
/// written on success, and `None` on any encoder error. It rests on the
/// encoder being a function of the size and the pixel data alone; nothing
/// about the content of the stream is claimed.
#[verifier::external_body]
fn encode_gray8(width: u32, height: u32, pixels: &Vec<u8>) -> (r: Result<
    Vec<u8>,
    png::EncodingError,
>)
    ensures
        match r {
            Ok(bytes) => gray8_png(width, height, pixels@) == Some(bytes@),
            Err(_) => gray8_png(width, height, pixels@) is None,
        },
{
    let mut sink: Vec<u8> = Vec::new();
    let mut encoder = png::Encoder::new(&mut sink, width, height);
    encoder.set_color(png::ColorType::Grayscale);
    encoder.set_depth(png::BitDepth::Eight);
    let mut writer = encoder.write_header()?;
    writer.write_image_data(pixels.as_slice())?;
    writer.finish()?;
    Ok(sink)
}

/// What `encode_image` returns, given the encoder's outcome on the same input.
pub open spec fn emit_outcome(
    width: u32,
    height: u32,
    pixels: Seq<u8>,
    encoded: Option<Seq<u8>>,
) -> Result<Seq<u8>, EmitError> {
    if width == 0 || height == 0 {
        Err(EmitError::EmptyImage)
    } else if pixels.len() != width * height {
        Err(EmitError::BufferLength)
    } else {
        match encoded {
            Some(bytes) => Ok(bytes),
            None => Err(EmitError::Encoder),
        }
    }
}

/// The view of an encoding result: the bytes, or the error.
pub open spec fn outcome_view(r: Result<Vec<u8>, EmitError>) -> Result<Seq<u8>, EmitError> {
    match r {
        Ok(bytes) => Ok(bytes@),
        Err(e) => Err(e),
    }
}

/// Turns the encoder's own result into the library's: the stream is handed
/// on untouched, and every encoder error becomes `EmitError::Encoder`.
pub fn encoder_outcome(result: Result<Vec<u8>, png::EncodingError>) -> (r: Result<
    Vec<u8>,
    EmitError,
>)
    ensures
        match result {
            Ok(bytes) => r == Ok::<Vec<u8>, EmitError>(bytes),
            Err(_) => r == Err::<Vec<u8>, EmitError>(EmitError::Encoder),
        },
{
    match result {
        Ok(bytes) => Ok(bytes),
        Err(_) => Err(EmitError::Encoder),
    }
}

/// Encodes a row-major buffer of `width` × `height` intensities as a
/// single-channel 8-bit PNG stream.
///
/// An image without pixels and a buffer of the wrong length are rejected
/// before the encoder is asked; otherwise the result is the encoder's.
pub fn encode_image(width: u32, height: u32, pixels: &Vec<u8>) -> (r: Result<Vec<u8>, EmitError>)
    ensures
        outcome_view(r) == emit_outcome(width, height, pixels@, gray8_png(width, height, pixels@)),
{
    if width == 0 || height == 0 {
        return Err(EmitError::EmptyImage);
    }
    let expected: u64 = pixel_count(width, height);
    if pixels.len() as u64 != expected {
        return Err(EmitError::BufferLength);
    }
    encoder_outcome(encode_gray8(width, height, pixels))
}

} // verus!
