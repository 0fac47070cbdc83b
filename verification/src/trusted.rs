//! Calls into the `base64` and `image` crates. Verus reads the contracts of
//! the functions in this file and not their bodies: what a contract says
//! is taken from the documentation and source of the crate it calls.

use base64::Engine;
use vstd::prelude::*;
use crate::preprocess::GrayBuffer;

verus! {

#[verifier::external_type_specification]
#[verifier::external_body]
pub struct ExBase64DecodeError(base64::DecodeError);

#[verifier::external_type_specification]
#[verifier::external_body]
pub struct ExDynamicImage(image::DynamicImage);

#[verifier::external_type_specification]
#[verifier::external_body]
pub struct ExImageError(image::ImageError);

/// The bytes that `text` stands for in base64 with the standard alphabet and
/// padding, or `None` where `text` is not such an encoding.
pub uninterp spec fn base64_standard(text: Seq<char>) -> Option<Seq<u8>>;

/// `Engine::decode` of `base64` on the engine `general_purpose::STANDARD`.
/// The result depends on the text alone: the decoded bytes, or an error for
/// text that is not canonical padded base64 of the standard alphabet.
#[verifier::external_body]
pub(crate) fn base64_decode(text: &str) -> (r: Result<Vec<u8>, base64::DecodeError>)
    ensures
        r matches Ok(bytes) ==> base64_standard(text@) == Some(bytes@),
        r is Err ==> base64_standard(text@) is None,
{
    base64::engine::general_purpose::STANDARD.decode(text)
}

/// What a base64 error says of itself.
pub uninterp spec fn base64_error_words(e: base64::DecodeError) -> Seq<char>;

/// `Display` of `base64::DecodeError`: the error in words, which depend on
/// the error alone.
#[verifier::external_body]
pub(crate) fn base64_error_text(e: &base64::DecodeError) -> (text: String)
    ensures
        text@ == base64_error_words(*e),
{
    e.to_string()
}

/// `Display` of `image::ImageError`: the error in words. Such an error may
/// wrap one of the operating system, whose words the system chooses, so
/// nothing is said of the text.
#[verifier::external_body]
pub(crate) fn image_error_text(e: &image::ImageError) -> (text: String) {
    e.to_string()
}

/// `image::load_from_memory`: guesses the format of the bytes and decodes
/// them. Formats can be registered with the crate while the process runs, so
/// nothing is said of the outcome.
#[verifier::external_body]
pub(crate) fn parse_image(bytes: &Vec<u8>) -> (r: Result<image::DynamicImage, image::ImageError>) {
    image::load_from_memory(bytes)
}

/// The width and the height of an image.
pub uninterp spec fn image_size(img: image::DynamicImage) -> (u32, u32);

/// The raw buffer of an image that holds one 8-bit channel, and `None` for an
/// image of any other kind.
pub uninterp spec fn gray8_bytes(img: image::DynamicImage) -> Option<Seq<u8>>;

/// `DynamicImage::to_luma8` of `image`: the image as one 8-bit channel, with
/// the size and the raw buffer of what comes back.
///
/// The result has the size of the image. An image that holds one 8-bit
/// channel is copied, buffer and all. An image of another kind is converted
/// by a weighted sum that the crate's `multiply_accumulate` fuses on the
/// targets that can and does not on the others; the bytes may differ from one
/// target to another, so they are left open. An image buffer of the crate
/// holds at least one byte for each pixel of a single channel; one that was
/// built from a longer vector holds more.
#[verifier::external_body]
pub(crate) fn luma8(img: &image::DynamicImage) -> (out: GrayBuffer)
    ensures
        (out.width, out.height) == image_size(*img),
        gray8_bytes(*img) matches Some(bytes) ==> out.pixels@ == bytes,
        out.width * out.height <= out.pixels@.len(),
{
    let gray = img.to_luma8();
    GrayBuffer { width: gray.width(), height: gray.height(), pixels: gray.into_raw() }
}

/// `image::imageops::resize` with the Catmull-Rom filter. The result has the
/// size asked for. Its pixels come from arithmetic whose rounding std does
/// not fix, so they are left open. The crate allocates an intermediate image
/// of `src.width` by `new_h` pixels of four 32-bit channels, 16 bytes a
/// pixel, and the result of `new_w` by `new_h` bytes, and panics where one of
/// the two is more than a vector can hold.
#[verifier::external_body]
pub(crate) fn resample_catmull_rom(src: &GrayBuffer, new_w: u32, new_h: u32) -> (out: GrayBuffer)
    requires
        src.wf(),
        16 * src.width * new_h <= isize::MAX,
        new_w * new_h <= isize::MAX,
    ensures
        out.wf(),
        out.width == new_w,
        out.height == new_h,
{
    let view = image::ImageBuffer::<image::Luma<u8>, &[u8]>::from_raw(
        src.width,
        src.height,
        src.pixels.as_slice(),
    ).unwrap();
    let resized = image::imageops::resize(
        &view,
        new_w,
        new_h,
        image::imageops::FilterType::CatmullRom,
    );
    GrayBuffer { width: resized.width(), height: resized.height(), pixels: resized.into_raw() }
}

} // verus!
