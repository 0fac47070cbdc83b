//! Reading an encoded image: an optional data-URL prefix, base64, and the
//! image inside.

use vstd::prelude::*;
use crate::error::{DecodeFailure, DecodeFault};
use crate::preprocess::GrayBuffer;
use crate::trusted::{
    base64_decode,
    base64_error_text,
    base64_error_words,
    base64_standard,
    image_error_text,
    gray8_bytes,
    image_size,
    luma8,
    parse_image,
};

verus! {

/// What a data URL of a PNG image starts with.
pub const DATA_URL_PREFIX: &'static str = "data:image/png;base64,";

/// `s` begins with `prefix`.
pub open spec fn starts_with(s: Seq<char>, prefix: Seq<char>) -> bool {
    prefix.len() <= s.len() && s.subrange(0, prefix.len() as int) == prefix
}

/// `s` without the data-URL prefix, if it begins with it, else `s`.
pub open spec fn stripped(s: Seq<char>) -> Seq<char> {
    if starts_with(s, DATA_URL_PREFIX@) {
        s.subrange(DATA_URL_PREFIX@.len() as int, s.len() as int)
    } else {
        s
    }
}

/// Takes the data-URL prefix off the text if it is there.
pub fn strip_data_url_prefix(data_url: &str) -> (r: &str)
    ensures
        r@ == stripped(data_url@),
{
    let prefix: &str = DATA_URL_PREFIX;
    let n: usize = data_url.unicode_len();
    let m: usize = prefix.unicode_len();
    if n < m {
        return data_url;
    }
    let mut i: usize = 0;
    while i < m
        invariant
            m == prefix@.len(),
            m <= n,
            n == data_url@.len(),
            i <= m,
            prefix@ == DATA_URL_PREFIX@,
            forall|k: int| 0 <= k < i ==> data_url@[k] == prefix@[k],
        decreases m - i,
    {
        if data_url.get_char(i) != prefix.get_char(i) {
            assert(data_url@.subrange(0, m as int)[i as int] != prefix@[i as int]);
            return data_url;
        }
        i += 1;
    }
    assert(data_url@.subrange(0, m as int) =~= prefix@);
    data_url.substring_char(m, n)
}

/// Cuts the buffer of an image down to one byte for each pixel.
pub fn trimmed(buf: GrayBuffer) -> (out: GrayBuffer)
    requires
        buf.width * buf.height <= buf.pixels@.len(),
    ensures
        out.wf(),
        out.width == buf.width,
        out.height == buf.height,
        out.pixels@ == buf.pixels@.take(buf.width * buf.height),
{
    let mut buf = buf;
    proof {
        assert(buf.pixels@.len() == buf.pixels.len());
    }
    let area: usize = (buf.width as usize) * (buf.height as usize);
    buf.pixels.truncate(area);
    buf
}

/// Whether `out` can be the image as one 8-bit channel: it has the size of
/// the image and one byte for each pixel, and where the image itself holds
/// one 8-bit channel these are the first bytes of the image.
pub open spec fn is_gray_of(out: &GrayBuffer, img: image::DynamicImage) -> bool {
    let (width, height) = image_size(img);
    &&& out.wf()
    &&& out.width == width
    &&& out.height == height
    &&& gray8_bytes(img) matches Some(bytes) ==> out.pixels@ == bytes.take(width * height)
}

/// Turns what the image parser made of some bytes into a grayscale image:
/// an image fault where the parser gave up, and else the image as one 8-bit
/// channel with one byte for each pixel.
pub fn gray_image_of(parsed: Result<image::DynamicImage, image::ImageError>) -> (r: Result<
    GrayBuffer,
    DecodeFailure,
>)
    ensures
        parsed is Err ==> r is Err && r->Err_0.fault == DecodeFault::Image,
        parsed matches Ok(img) ==> r is Ok && is_gray_of(&r->Ok_0, img),
{
    match parsed {
        Ok(img) => Ok(trimmed(luma8(&img))),
        Err(e) => Err(DecodeFailure { fault: DecodeFault::Image, detail: image_error_text(&e) }),
    }
}

/// Which fault decoding ends with, as far as the text decides it: text that
/// is not base64 is a base64 fault.
pub open spec fn text_fault(data_url: Seq<char>) -> Option<DecodeFault> {
    if base64_standard(stripped(data_url)) is None {
        Some(DecodeFault::Base64)
    } else {
        None
    }
}

/// Whether `detail` is what a base64 error says of itself.
pub open spec fn is_base64_words(detail: Seq<char>) -> bool {
    exists|e: base64::DecodeError| detail == #[trigger] base64_error_words(e)
}

/// What decoding makes of the image parser's answer to the decoded bytes:
/// the grayscale of an image that the parser gave, or the fault; a base64
/// fault comes with the words of the base64 error.
pub open spec fn decode_outcome(r: Result<GrayBuffer, DecodeFailure>, data_url: Seq<char>) -> bool {
    match r {
        Ok(out) => text_fault(data_url) is None && out.wf() && exists|img: image::DynamicImage|
            #[trigger] is_gray_of(&out, img),
        Err(e) => e.fault == (match text_fault(data_url) {
            Some(f) => f,
            None => DecodeFault::Image,
        }) && (e.fault == DecodeFault::Base64 ==> is_base64_words(e.detail@)),
    }
}

/// Decodes an image given as base64 text, with or without the data-URL
/// prefix, into 8-bit grayscale.
///
/// Text that is not base64 gives a base64 fault. Otherwise the bytes go
/// to the image parser: what it rejects gives an image fault, and what it
/// accepts comes back as the grayscale of the image it gave. A fault carries
/// what the decoder said of it.
pub fn decode_data_url_to_image(data_url: &str) -> (r: Result<GrayBuffer, DecodeFailure>)
    ensures
        decode_outcome(r, data_url@),
{
    let raw: &str = strip_data_url_prefix(data_url);
    let bytes: Vec<u8> = match base64_decode(raw) {
        Ok(bytes) => bytes,
        Err(e) => {
            let detail = base64_error_text(&e);
            assert(detail@ == base64_error_words(e));
            return Err(DecodeFailure { fault: DecodeFault::Base64, detail });
        },
    };
    let parsed = parse_image(&bytes);
    let ghost given = parsed;
    let r = gray_image_of(parsed);
    proof {
        if given is Ok {
            assert(is_gray_of(&r->Ok_0, given->Ok_0));
        }
    }
    r
}

} // verus!
