//! Framing an image as a PNG file.

use vstd::prelude::*;

verus! {

/// Why an image was not encoded.
#[derive(Clone, Copy, Debug, PartialEq, Eq, Structural)]
pub enum EncodeError {
    /// The image has no columns.
    ZeroWidth,
    /// The image has no rows.
    ZeroHeight,
    /// A dimension is beyond what the file format can hold.
    TooLarge,
    /// The data is not six bytes for every pixel.
    BufferSize,
    /// The encoder gave up.
    Rejected,
}

/// The error type of the `png` crate's encoder.
#[verifier::external_type_specification]
#[verifier::external_body]
pub struct ExEncodingError(png::EncodingError);

/// The PNG file that the `png` crate writes for an image of the given size
/// whose pixels are `data`, at sixteen bits a channel in RGB; `None` where
/// it reports an error instead.
pub uninterp spec fn png_rgb16(width: u32, height: u32, data: Seq<u8>) -> Option<Seq<u8>>;

/// Runs `png::Encoder` over a buffer in memory: `Encoder::new`, `set_color`
/// with `ColorType::Rgb`, `set_depth` with `BitDepth::Sixteen`,
/// `write_header` and `Writer::write_image_data`; the end of the file is
/// written when the writer is dropped. What the encoder writes depends on
/// the size and the data alone, and that is all the contract claims: the
/// file has the name `png_rgb16`. The encoder is only called with a size
/// that is not zero and with data of the length that it expects.
#[verifier::external_body]
fn png_encode_rgb16(width: u32, height: u32, data: &Vec<u8>) -> (r: Result<
    Vec<u8>,
    png::EncodingError,
>)
    requires
        width > 0,
        height > 0,
        data@.len() == 6 * width * height,
    ensures
        match r {
            Ok(file) => png_rgb16(width, height, data@) == Some(file@),
            Err(_) => png_rgb16(width, height, data@) is None,
        },
{
    let mut file: Vec<u8> = Vec::new();
    {
        let mut encoder = png::Encoder::new(&mut file, width, height);
        encoder.set_color(png::ColorType::Rgb);
        encoder.set_depth(png::BitDepth::Sixteen);
        let mut writer = encoder.write_header()?;
        writer.write_image_data(data)?;
    }
    Ok(file)
}

/// What the encoder's answer means to the caller: the file, or `Rejected`.
pub fn png_outcome(r: Result<Vec<u8>, png::EncodingError>) -> (res: Result<Vec<u8>, EncodeError>)
    ensures
        r matches Ok(file) ==> res == Ok::<Vec<u8>, EncodeError>(file),
        r is Err ==> res == Err::<Vec<u8>, EncodeError>(EncodeError::Rejected),
{
    match r {
        Ok(file) => Ok(file),
        Err(_) => Err(EncodeError::Rejected),
    }
}

/// The outcome of encoding `data` as an image of `width` by `height`
/// pixels.
pub open spec fn encoded(width: nat, height: nat, data: Seq<u8>) -> Result<Seq<u8>, EncodeError> {
    if width == 0 {
        Err(EncodeError::ZeroWidth)
    } else if height == 0 {
        Err(EncodeError::ZeroHeight)
    } else if width > u32::MAX || height > u32::MAX {
        Err(EncodeError::TooLarge)
    } else if data.len() != 6 * width * height {
        Err(EncodeError::BufferSize)
    } else {
        match png_rgb16(width as u32, height as u32, data) {
            Some(file) => Ok(file),
            None => Err(EncodeError::Rejected),
        }
    }
}

/// Encodes a stream of pixels, six bytes each and row after row, as a PNG
/// file of `width` by `height` pixels, and returns the bytes of the file.
pub fn encode_rgb16(width: usize, height: usize, data: &Vec<u8>) -> (res: Result<
    Vec<u8>,
    EncodeError,
>)
    ensures
        match res {
            Ok(file) => encoded(width as nat, height as nat, data@) == Ok::<Seq<u8>, EncodeError>(
                file@,
            ),
            Err(e) => encoded(width as nat, height as nat, data@) == Err::<Seq<u8>, EncodeError>(e),
        },
{
    if width == 0 {
        return Err(EncodeError::ZeroWidth);
    }
    if height == 0 {
        return Err(EncodeError::ZeroHeight);
    }
    if width > u32::MAX as usize || height > u32::MAX as usize {
        return Err(EncodeError::TooLarge);
    }
    proof {
        assert(6 * width * height <= 6 * 0xffff_ffff * 0xffff_ffff) by (nonlinear_arith)
            requires
                0 < width <= 0xffff_ffff,
                0 < height <= 0xffff_ffff,
        ;
    }
    let expected: u128 = 6 * (width as u128) * (height as u128);
    if data.len() as u128 != expected {
        return Err(EncodeError::BufferSize);
    }
    png_outcome(png_encode_rgb16(width as u32, height as u32, data))
}

} // verus!
