//! Decoding and encoding of PNG files, done by the `image` crate.
//!
//! Nothing here is proved about the codec itself. What it computes is given
//! a name, and the rest of the library states its results over these names.

use vstd::prelude::*;
use crate::raster::Raster;

verus! {

/// The error type of the `image` crate. Its values are only handed on.
#[verifier::external_type_specification]
#[verifier::external_body]
pub struct ExImageError(image::ImageError);

/// What `image::load_from_memory_with_format`, told that the format is PNG,
/// reads out of the file `bytes`, converted to RGBA with eight bits to a
/// channel: width, height and the samples row by row. `None` where it
/// reports an error.
pub uninterp spec fn decoded_rgba(bytes: Seq<u8>) -> Option<(u32, u32, Seq<u8>)>;

/// The PNG file that `image::write_buffer_with_format` writes for an RGBA
/// image of the given size and samples. `None` where it reports an error.
pub uninterp spec fn encoded_png(width: u32, height: u32, samples: Seq<u8>) -> Option<Seq<u8>>;

/// Calls `image::load_from_memory_with_format` on `bytes` with the PNG
/// format and `DynamicImage::into_rgba8` on the image, and hands out the
/// image's width, height and raw samples. With the format given, the
/// decoder is the crate's own PNG decoder with its default limits: no
/// format is guessed and no hook of the process is asked.
/// Trusted: the result is what `decoded_rgba` names, and an error is
/// returned exactly where `decoded_rgba` is `None`; and the decoder comes
/// back, with an error where need be, whatever the bytes are.
#[verifier::external_body]
pub(crate) fn load_rgba(bytes: &[u8]) -> (out: Result<(u32, u32, Vec<u8>), image::ImageError>)
    ensures
        match out {
            Ok((w, h, s)) => decoded_rgba(bytes@) == Some((w, h, s@)),
            Err(_) => decoded_rgba(bytes@) is None,
        },
{
    let rgba = image::load_from_memory_with_format(bytes, image::ImageFormat::Png)?.into_rgba8();
    Ok((rgba.width(), rgba.height(), rgba.into_raw()))
}

/// Calls `image::write_buffer_with_format` with the RGBA colour type and the
/// PNG format, writing into a fresh vector.
/// Trusted: the result is what `encoded_png` names, and an error is returned
/// exactly where `encoded_png` is `None`. The encoder panics on a buffer of
/// another length than `4 * width * height`, which `requires` leaves out.
#[verifier::external_body]
pub(crate) fn write_png(width: u32, height: u32, samples: &[u8]) -> (out: Result<
    Vec<u8>,
    image::ImageError,
>)
    requires
        samples@.len() == 4 * width * height,
    ensures
        match out {
            Ok(png) => encoded_png(width, height, samples@) == Some(png@),
            Err(_) => encoded_png(width, height, samples@) is None,
        },
{
    let mut png: Vec<u8> = Vec::new();
    image::write_buffer_with_format(
        &mut std::io::Cursor::new(&mut png),
        samples,
        width,
        height,
        image::ExtendedColorType::Rgba8,
        image::ImageFormat::Png,
    )?;
    Ok(png)
}

/// The raster that a PNG file holds: what the codec reads out of it, where
/// the samples fill the stated size exactly.
pub open spec fn decoded_image(bytes: Seq<u8>) -> Option<(u32, u32, Seq<u8>)> {
    match decoded_rgba(bytes) {
        Some((w, h, s)) => if s.len() == 4 * w * h {
            Some((w, h, s))
        } else {
            None
        },
        None => None,
    }
}

/// Decodes a PNG file into a raster. `None` where the codec rejects the
/// file.
pub fn decode(bytes: &[u8]) -> (out: Option<Raster>)
    ensures
        out is Some <==> decoded_image(bytes@) is Some,
        out matches Some(r) ==> r.wf() && decoded_image(bytes@) == Some(
            (r.w(), r.h(), r.samples()),
        ),
{
    match load_rgba(bytes) {
        Ok((w, h, s)) => Raster::from_samples(w, h, s),
        Err(_) => None,
    }
}

/// Encodes a raster as a PNG file. `None` where the codec reports an error.
pub fn encode(raster: &Raster) -> (out: Option<Vec<u8>>)
    requires
        raster.wf(),
    ensures
        match out {
            Some(png) => encoded_png(raster.w(), raster.h(), raster.samples())
                == Some(png@),
            None => encoded_png(raster.w(), raster.h(), raster.samples()) is None,
        },
{
    proof {
        assert(raster.h() * (4 * raster.w()) == 4 * raster.w() * raster.h()) by (nonlinear_arith);
    }
    match write_png(raster.width(), raster.height(), raster.as_bytes().as_slice()) {
        Ok(png) => Some(png),
        Err(_) => None,
    }
}

} // verus!
