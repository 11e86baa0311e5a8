//! PNG encoding, done by the `image` crate.
use vstd::prelude::*;

verus! {

/// `image`'s error type, carried through unopened.
#[verifier::external_type_specification]
#[verifier::external_body]
pub struct ExImageError(image::ImageError);

/// The PNG file that `image`'s encoder writes for an 8-bit RGBA raster of
/// `width × height` pixels whose raw bytes are `data`.
pub uninterp spec fn png_rgba8(width: u32, height: u32, data: Seq<u8>) -> Seq<u8>;

/// Relies on `image::codecs::png::PngEncoder::write_image` with `ExtendedColorType::Rgba8`:
/// it writes one PNG image of `data` (four bytes per pixel, row-major) into the buffer it
/// was made with, and panics unless `data` holds exactly `4 * width * height` bytes. The
/// encoder refuses a zero width or height and nothing else: writing into a `Vec` cannot fail.
#[verifier::external_body]
pub(crate) fn encode_png_rgba8(width: u32, height: u32, data: &[u8]) -> (r: Result<Vec<u8>, image::ImageError>)
    requires
        data@.len() == 4 * width * height,
    ensures
        width > 0 && height > 0 ==> r is Ok,
        width == 0 || height == 0 ==> r is Err,
        r matches Ok(b) ==> b@ == png_rgba8(width, height, data@),
{
    let mut bytes: Vec<u8> = Vec::new();
    let encoder = image::codecs::png::PngEncoder::new(&mut bytes);
    match image::ImageEncoder::write_image(encoder, data, width, height, image::ExtendedColorType::Rgba8) {
        Ok(()) => Ok(bytes),
        Err(e) => Err(e),
    }
}

} // verus!
