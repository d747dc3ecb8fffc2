//! Re-encoding of images that the image library reads (every source but
//! HEIC/HEIF) as JPEG, on bytes: the caller reads the source file and
//! writes the result.

use vstd::prelude::*;
use crate::paths::{extension, path_extension};

verus! {

broadcast use vstd::string::group_string_axioms;

#[verifier::external_type_specification]
#[verifier::external_body]
pub struct ExImageFormat(image::ImageFormat);

#[verifier::external_type_specification]
#[verifier::external_body]
pub struct ExDynamicImage(image::DynamicImage);

#[verifier::external_type_specification]
#[verifier::external_body]
pub struct ExImageError(image::ImageError);

/// `s` with ASCII capitals made lower case.
pub open spec fn ascii_lower(s: Seq<char>) -> Seq<char> {
    Seq::new(s.len(), |i: int| if 'A' <= s[i] <= 'Z' { ((s[i] as u32) + 32) as char } else { s[i] })
}

/// The extensions the image library maps to a format, compared after
/// ASCII lower-casing.
pub open spec fn known_image_extension(ext: Seq<char>) -> bool {
    let e = ascii_lower(ext);
    ||| e == seq!['a', 'v', 'i', 'f']
    ||| e == seq!['j', 'p', 'g']
    ||| e == seq!['j', 'p', 'e', 'g']
    ||| e == seq!['j', 'f', 'i', 'f']
    ||| e == seq!['p', 'n', 'g']
    ||| e == seq!['a', 'p', 'n', 'g']
    ||| e == seq!['g', 'i', 'f']
    ||| e == seq!['w', 'e', 'b', 'p']
    ||| e == seq!['t', 'i', 'f']
    ||| e == seq!['t', 'i', 'f', 'f']
    ||| e == seq!['t', 'g', 'a']
    ||| e == seq!['d', 'd', 's']
    ||| e == seq!['b', 'm', 'p']
    ||| e == seq!['i', 'c', 'o']
    ||| e == seq!['h', 'd', 'r']
    ||| e == seq!['e', 'x', 'r']
    ||| e == seq!['p', 'b', 'm']
    ||| e == seq!['p', 'a', 'm']
    ||| e == seq!['p', 'p', 'm']
    ||| e == seq!['p', 'g', 'm']
    ||| e == seq!['p', 'n', 'm']
    ||| e == seq!['f', 'f']
    ||| e == seq!['q', 'o', 'i']
}

/// Whether the image library picks a format for a path from its extension.
pub open spec fn format_known_for(path: Seq<char>) -> bool {
    match path_extension(path) {
        Some(ext) => known_image_extension(ext),
        None => false,
    }
}

/// What `ImageFormat::from_path` yields for a path: the format its
/// extension names, or the error that there is none.
pub uninterp spec fn format_from_path(path: Seq<char>) -> Result<image::ImageFormat, image::ImageError>;

/// What decoding bytes as a format yields: the image, or the first error.
pub uninterp spec fn decoding(data: Seq<u8>, format: image::ImageFormat) -> Result<image::DynamicImage, image::ImageError>;

/// What encoding an image as JPEG at a quality yields: the bytes, or the error.
pub uninterp spec fn jpeg_encoding(image: image::DynamicImage, quality: u8) -> Result<Seq<u8>, image::ImageError>;

/// The message of an image error.
pub uninterp spec fn error_text(error: image::ImageError) -> Seq<char>;

/// image `ImageFormat::from_path`: its result is the named `format_from_path`;
/// claims, as its source shows, that a format is found exactly when the
/// path has an extension that is one of the names in `known_image_extension`.
#[verifier::external_body]
fn image_format_from_path(path: &str) -> (format: Result<image::ImageFormat, image::ImageError>)
    ensures
        format == format_from_path(path@),
        format is Ok == format_known_for(path@),
{
    image::ImageFormat::from_path(path)
}

/// image `ImageReader::with_format(..).decode()` on in-memory bytes; its
/// result is the named `decoding` of the bytes and the format.
#[verifier::external_body]
fn decode_image(data: &[u8], format: image::ImageFormat) -> (image: Result<image::DynamicImage, image::ImageError>)
    ensures
        image == decoding(data@, format),
{
    image::ImageReader::with_format(std::io::Cursor::new(data), format).decode()
}

/// image `DynamicImage::write_with_encoder` with a `JpegEncoder` of the
/// given quality, into memory; its result is the named `jpeg_encoding`.
#[verifier::external_body]
fn encode_jpeg(image: &image::DynamicImage, quality: u8) -> (jpeg: Result<Vec<u8>, image::ImageError>)
    ensures
        match jpeg {
            Ok(bytes) => jpeg_encoding(*image, quality) == Ok::<Seq<u8>, image::ImageError>(bytes@),
            Err(e) => jpeg_encoding(*image, quality) == Err::<Seq<u8>, image::ImageError>(e),
        },
{
    let mut out: Vec<u8> = Vec::new();
    let encoder = image::codecs::jpeg::JpegEncoder::new_with_quality(&mut out, quality);
    image.write_with_encoder(encoder).map(|_| out)
}

/// The message of an image error (its `Display`); named `error_text`.
#[verifier::external_body]
fn image_error_text(error: &image::ImageError) -> (text: String)
    ensures
        text@ == error_text(*error),
{
    error.to_string()
}

/// The message when no image format can be determined for a source.
pub open spec fn undetermined_format_text() -> Seq<char> {
    "The image format could not be determined"@
}

/// The outcome of re-encoding `data`, read from `source`, as JPEG at
/// `quality`, as opening the file with the image library and encoding it
/// would give: the JPEG bytes, or the message of the first step that
/// fails. A source whose extension is empty has no format.
pub open spec fn jpeg_reencoding(data: Seq<u8>, source: Seq<char>, quality: u8) -> Result<Seq<u8>, Seq<char>> {
    if path_extension(source) == Some(Seq::<char>::empty()) {
        Err(undetermined_format_text())
    } else {
        match format_from_path(source) {
            Err(e) => Err(error_text(e)),
            Ok(format) => match decoding(data, format) {
                Err(e) => Err(error_text(e)),
                Ok(image) => match jpeg_encoding(image, quality) {
                    Err(e) => Err(error_text(e)),
                    Ok(bytes) => Ok(bytes),
                },
            },
        }
    }
}

/// Decodes `data` as the format that `source`'s extension names and
/// re-encodes it as JPEG at `quality` (see `jpeg_reencoding`). It fails
/// whenever the extension names no format the image library reads.
pub fn encode_as_jpeg(data: &[u8], source: &str, quality: u8) -> (jpeg: Result<Vec<u8>, String>)
    ensures
        match jpeg {
            Ok(bytes) => jpeg_reencoding(data@, source@, quality) == Ok::<Seq<u8>, Seq<char>>(bytes@),
            Err(text) => jpeg_reencoding(data@, source@, quality) == Err::<Seq<u8>, Seq<char>>(text@),
        },
        !format_known_for(source@) ==> jpeg is Err,
{
    match extension(source) {
        Some(ext) => {
            if ext.as_str().is_empty() {
                proof {
                    reveal_strlit("The image format could not be determined");
                    assert(ext@ =~= Seq::<char>::empty());
                }
                return Err("The image format could not be determined".to_string());
            }
        },
        None => {},
    }
    let format = match image_format_from_path(source) {
        Ok(format) => format,
        Err(e) => return Err(image_error_text(&e)),
    };
    let image = match decode_image(data, format) {
        Ok(image) => image,
        Err(e) => return Err(image_error_text(&e)),
    };
    match encode_jpeg(&image, quality) {
        Ok(bytes) => Ok(bytes),
        Err(e) => Err(image_error_text(&e)),
    }
}

} // verus!
