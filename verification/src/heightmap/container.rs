//! PNG and WebP containers for RGB heightmap bytes, done by `image`.
//!
//! WebP is written lossless.
use vstd::prelude::*;

verus! {

/// What `image`'s PNG encoder makes of an RGB image: the file, or the text of its error.
pub uninterp spec fn png_result(rgb: Seq<u8>, width: u32, height: u32) -> Result<
    Seq<u8>,
    Seq<char>,
>;

/// What `image`'s lossless WebP encoder makes of an RGB image: the file, or the text of its
/// error.
pub uninterp spec fn webp_result(rgb: Seq<u8>, width: u32, height: u32) -> Result<
    Seq<u8>,
    Seq<char>,
>;

/// What `image` reads from an image file: the RGB bytes, the width and the height, or the text
/// of its error.
pub uninterp spec fn image_result(file: Seq<u8>) -> Result<(Seq<u8>, u32, u32), Seq<char>>;

/// The image is within the memory limit of `image`'s decoder, with room to spare.
pub open spec fn within_decode_limit(width: u32, height: u32) -> bool {
    3 * (width * height) <= 0x1000_0000
}

/// The file reads back as the given image.
pub open spec fn reads_as(file: Seq<u8>, rgb: Seq<u8>, width: u32, height: u32) -> bool {
    image_result(file) == Ok::<(Seq<u8>, u32, u32), Seq<char>>((rgb, width, height))
}

/// `file` starts with the mark of a PNG file.
pub open spec fn has_png_magic(file: Seq<u8>) -> bool {
    file.len() >= 8 && file.take(8) == seq![0x89u8, 0x50, 0x4e, 0x47, 0x0d, 0x0a, 0x1a, 0x0a]
}

/// `file` starts with the mark of a WebP file.
pub open spec fn has_webp_magic(file: Seq<u8>) -> bool {
    file.len() >= 12 && file.take(4) == seq![0x52u8, 0x49, 0x46, 0x46] && file.subrange(8, 12)
        == seq![0x57u8, 0x45, 0x42, 0x50]
}

/// Calls `image::codecs::png::PngEncoder` on a vector, for 8-bit RGB.
///
/// Trusted: the outcome depends on the arguments alone; it is a file exactly for an image
/// without empty sides, starts with the PNG mark then, and `image`'s decoder gives the image
/// back as long as it fits the decoder's memory limit.
#[verifier::external_body]
fn encode_png(rgb: &[u8], width: u32, height: u32) -> (file: Result<Vec<u8>, String>)
    requires
        rgb.len() == 3 * (width * height),
    ensures
        match file {
            Ok(bytes) => {
                &&& png_result(rgb@, width, height) == Ok::<Seq<u8>, Seq<char>>(bytes@)
                &&& width > 0 && height > 0
                &&& has_png_magic(bytes@)
                &&& within_decode_limit(width, height) ==> reads_as(bytes@, rgb@, width, height)
            },
            Err(text) => {
                &&& png_result(rgb@, width, height) == Err::<Seq<u8>, Seq<char>>(text@)
                &&& width == 0 || height == 0
            },
        },
{
    let mut out = Vec::new();
    let encoder = image::codecs::png::PngEncoder::new(&mut out);
    let rgb8 = image::ExtendedColorType::Rgb8;
    match image::ImageEncoder::write_image(encoder, rgb, width, height, rgb8) {
        Ok(()) => Ok(out),
        Err(e) => Err(e.to_string()),
    }
}

/// Calls `image::codecs::webp::WebPEncoder` on a vector, lossless, for 8-bit RGB.
///
/// Trusted: the outcome depends on the arguments alone; it is a file exactly for an image with
/// sides of 1 to 16384 pixels, starts with the WebP mark then, and `image`'s decoder gives the
/// image back as long as no side has 16384 pixels and it fits the decoder's memory limit. The
/// decoder takes a side of 16384 for an empty one, so nothing is said of reading such a file.
#[verifier::external_body]
fn encode_webp(rgb: &[u8], width: u32, height: u32) -> (file: Result<Vec<u8>, String>)
    requires
        rgb.len() == 3 * (width * height),
    ensures
        match file {
            Ok(bytes) => {
                &&& webp_result(rgb@, width, height) == Ok::<Seq<u8>, Seq<char>>(bytes@)
                &&& 1 <= width <= 16384 && 1 <= height <= 16384
                &&& has_webp_magic(bytes@)
                &&& width < 16384 && height < 16384 && within_decode_limit(width, height)
                    ==> reads_as(bytes@, rgb@, width, height)
            },
            Err(text) => {
                &&& webp_result(rgb@, width, height) == Err::<Seq<u8>, Seq<char>>(text@)
                &&& !(1 <= width <= 16384 && 1 <= height <= 16384)
            },
        },
{
    let mut out = Vec::new();
    let encoder = image::codecs::webp::WebPEncoder::new_lossless(&mut out);
    let rgb8 = image::ExtendedColorType::Rgb8;
    match image::ImageEncoder::write_image(encoder, rgb, width, height, rgb8) {
        Ok(()) => Ok(out),
        Err(e) => Err(e.to_string()),
    }
}

/// Calls `image::guess_format`, `image::load_from_memory_with_format` and
/// `image::DynamicImage::into_rgb8`.
///
/// Trusted: the outcome depends on the bytes alone, and an image has three bytes a pixel. What
/// it is, is named, not described: it follows the image formats. That a malformed file ends in
/// an error, not in a panic, is trusted as well. `image::load_from_memory` would not do: it asks
/// the hooks that a process has registered for the format.
#[verifier::external_body]
fn read_image(file: &[u8]) -> (found: Result<(Vec<u8>, u32, u32), String>)
    ensures
        match found {
            Ok(i) => {
                &&& image_result(file@) == Ok::<(Seq<u8>, u32, u32), Seq<char>>((i.0@, i.1, i.2))
                &&& i.0@.len() == 3 * (i.1 * i.2)
            },
            Err(text) => image_result(file@) == Err::<(Seq<u8>, u32, u32), Seq<char>>(text@),
        },
{
    let loaded = match image::guess_format(file) {
        Ok(format) => image::load_from_memory_with_format(file, format),
        Err(e) => Err(e),
    };
    match loaded {
        Ok(i) => {
            let (width, height) = (i.width(), i.height());
            Ok((i.into_rgb8().into_raw(), width, height))
        }
        Err(e) => Err(e.to_string()),
    }
}

/// Why an image cannot be written or read.
#[derive(Debug, Clone, PartialEq, Eq)]
pub struct ImageError {
    /// What `image` says.
    pub message: String,
}

/// An image.
#[derive(Debug, Clone)]
pub struct DecodedImage {
    /// Pixels, row by row, three bytes each.
    pub rgb: Vec<u8>,
    /// Pixels a row.
    pub width: u32,
    /// Number of rows.
    pub height: u32,
}

/// Wraps RGB bytes in a PNG file.
pub fn rgb_to_png(rgb: &[u8], width: u32, height: u32) -> (file: Result<Vec<u8>, ImageError>)
    requires
        rgb.len() == 3 * (width * height),
    ensures
        file is Ok <==> width > 0 && height > 0,
        match file {
            Ok(bytes) => {
                &&& png_result(rgb@, width, height) == Ok::<Seq<u8>, Seq<char>>(bytes@)
                &&& has_png_magic(bytes@)
                &&& within_decode_limit(width, height) ==> reads_as(bytes@, rgb@, width, height)
            },
            Err(e) => png_result(rgb@, width, height) == Err::<Seq<u8>, Seq<char>>(e.message@),
        },
{
    match encode_png(rgb, width, height) {
        Ok(bytes) => Ok(bytes),
        Err(message) => Err(ImageError { message }),
    }
}

/// Wraps RGB bytes in a lossless WebP file. One with a side of 16384 pixels can be written, but
/// [`decode_image`] need not read it.
pub fn rgb_to_webp(rgb: &[u8], width: u32, height: u32) -> (file: Result<Vec<u8>, ImageError>)
    requires
        rgb.len() == 3 * (width * height),
    ensures
        file is Ok <==> 1 <= width <= 16384 && 1 <= height <= 16384,
        match file {
            Ok(bytes) => {
                &&& webp_result(rgb@, width, height) == Ok::<Seq<u8>, Seq<char>>(bytes@)
                &&& has_webp_magic(bytes@)
                &&& width < 16384 && height < 16384 && within_decode_limit(width, height)
                    ==> reads_as(bytes@, rgb@, width, height)
            },
            Err(e) => webp_result(rgb@, width, height) == Err::<Seq<u8>, Seq<char>>(e.message@),
        },
{
    match encode_webp(rgb, width, height) {
        Ok(bytes) => Ok(bytes),
        Err(message) => Err(ImageError { message }),
    }
}

/// Reads a PNG or WebP file; the format is found from its first bytes. Alpha is dropped.
pub fn decode_image(bytes: &[u8]) -> (decoded: Result<DecodedImage, ImageError>)
    ensures
        match decoded {
            Ok(i) => {
                &&& reads_as(bytes@, i.rgb@, i.width, i.height)
                &&& i.rgb@.len() == 3 * (i.width * i.height)
            },
            Err(e) => image_result(bytes@) == Err::<(Seq<u8>, u32, u32), Seq<char>>(e.message@),
        },
{
    match read_image(bytes) {
        Ok((rgb, width, height)) => Ok(DecodedImage { rgb, width, height }),
        Err(message) => Err(ImageError { message }),
    }
}

} // verus!
