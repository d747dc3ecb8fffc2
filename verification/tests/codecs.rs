use convert_to_jpg::ffmpeg::{footer_size_offset, unpack_ffmpeg, UnpackError};
use convert_to_jpg::imaging::encode_as_jpeg;

fn png_bytes() -> Vec<u8> {
    let img = image::RgbImage::from_fn(4, 3, |x, y| image::Rgb([x as u8 * 60, y as u8 * 80, 128]));
    let mut buf = std::io::Cursor::new(Vec::new());
    img.write_to(&mut buf, image::ImageFormat::Png).unwrap();
    buf.into_inner()
}

#[test]
fn png_is_reencoded_as_jpeg() {
    let jpeg = encode_as_jpeg(&png_bytes(), "/pics/tiny.PNG", 90).unwrap();
    assert_eq!(&jpeg[..2], &[0xFF, 0xD8]);
    let back = image::load_from_memory_with_format(&jpeg, image::ImageFormat::Jpeg).unwrap();
    assert_eq!((back.width(), back.height()), (4, 3));
}

#[test]
fn unknown_extension_is_refused() {
    assert!(encode_as_jpeg(&png_bytes(), "tiny.xyz", 90).is_err());
    assert!(encode_as_jpeg(&png_bytes(), "tiny", 90).is_err());
}

#[test]
fn undecodable_bytes_are_refused() {
    assert!(encode_as_jpeg(b"not a png", "bad.png", 90).is_err());
}

#[test]
fn xz_archive_is_unpacked() {
    let program: Vec<u8> = (0..5000u32).map(|i| (i * 7 % 251) as u8).collect();
    let mut archive = Vec::new();
    lzma_rs::xz_compress(&mut &program[..], &mut archive).unwrap();
    assert_eq!(unpack_ffmpeg(&archive), Ok(program));
    assert_eq!(unpack_ffmpeg(b"not xz"), Err(UnpackError::CorruptArchive));
}

#[test]
fn format_errors_read_as_when_opening_the_file() {
    let undetermined = Err("The image format could not be determined".to_string());
    assert_eq!(encode_as_jpeg(&png_bytes(), "tiny.", 90), undetermined);
    assert_eq!(encode_as_jpeg(&png_bytes(), "tiny", 90), undetermined);
    let unknown = image::ImageFormat::from_path("tiny.xyz").unwrap_err().to_string();
    assert_eq!(encode_as_jpeg(&png_bytes(), "tiny.xyz", 90), Err(unknown));
}

#[test]
fn jpeg_is_encoded_at_the_given_quality() {
    let png = png_bytes();
    let decoded = image::load_from_memory_with_format(&png, image::ImageFormat::Png).unwrap();
    for quality in [10u8, 50, 100] {
        let mut expected = Vec::new();
        let encoder = image::codecs::jpeg::JpegEncoder::new_with_quality(&mut expected, quality);
        decoded.write_with_encoder(encoder).unwrap();
        assert_eq!(encode_as_jpeg(&png, "tiny.png", quality).unwrap(), expected);
    }
    assert_ne!(encode_as_jpeg(&png, "tiny.png", 10).unwrap(), encode_as_jpeg(&png, "tiny.png", 100).unwrap());
}

#[test]
fn all_ones_footer_size_is_refused_without_panic() {
    let mut archive = Vec::new();
    lzma_rs::xz_compress(&mut &b""[..], &mut archive).unwrap();
    assert_eq!(unpack_ffmpeg(&archive), Ok(Vec::new()));
    let n = archive.len();
    assert_eq!(footer_size_offset(&archive), Some(n - 8));
    for b in &mut archive[n - 8..n - 4] {
        *b = 0xFF;
    }
    assert_eq!(unpack_ffmpeg(&archive), Err(UnpackError::SaturatedFooterSize));
    // all-ones bytes where no footer size is read do not make an archive suspect
    let shifted = vec![0xFFu8; 16];
    assert_eq!(footer_size_offset(&shifted), None);
    assert_eq!(unpack_ffmpeg(&shifted), Err(UnpackError::CorruptArchive));
}

#[test]
fn footer_size_is_found_after_the_blocks() {
    let program: Vec<u8> = (0..70_000u32).map(|i| (i * 7 % 251) as u8).collect();
    let mut archive = Vec::new();
    lzma_rs::xz_compress(&mut &program[..], &mut archive).unwrap();
    assert_eq!(footer_size_offset(&archive), Some(archive.len() - 8));
    assert_eq!(unpack_ffmpeg(&archive), Ok(program));
    assert_eq!(footer_size_offset(b"not xz"), None);
    // cut short, the archive ends before the footer's size could be read
    assert_eq!(footer_size_offset(&archive[..archive.len() - 5]), None);
    let mut garbled = archive.clone();
    garbled[7] = 0x02;
    assert_eq!(footer_size_offset(&garbled), None);
}

#[test]
fn all_ones_words_inside_blocks_are_unpacked() {
    let program = vec![0xFFu8; 64];
    let mut archive = Vec::new();
    lzma_rs::xz_compress(&mut &program[..], &mut archive).unwrap();
    let aligned_all_ones = archive.chunks(4).any(|w| w == [0xFF, 0xFF, 0xFF, 0xFF]);
    assert!(aligned_all_ones);
    assert_eq!(footer_size_offset(&archive), Some(archive.len() - 8));
    assert_eq!(unpack_ffmpeg(&archive), Ok(program));
}
