use convert_to_jpg::config::{
    default_extensions, default_max_parallel, default_quality, ConversionConfig, FormatsConfig,
};
use convert_to_jpg::converter::output_path_candidate;
use convert_to_jpg::text::{chars_of, decimal_string};
use convert_to_jpg::tui::ImageEntry;
use convert_to_jpg::utils::is_convertible;

#[test]
fn default_settings() {
    assert_eq!(default_quality(), 90);
    assert_eq!(default_max_parallel(), 4);
    let c = ConversionConfig::default();
    assert_eq!(c.quality, 90);
    assert!(!c.delete_originals);
    assert_eq!(c.output_folder, "");
    assert_eq!(c.max_parallel, 4);
    let expected = ["png", "bmp", "tiff", "tif", "webp", "gif", "avif", "heic", "heif"];
    assert_eq!(default_extensions(), expected.iter().map(|s| s.to_string()).collect::<Vec<_>>());
    assert_eq!(FormatsConfig::default().extensions, default_extensions());
}

#[test]
fn convertible_extensions_ignore_case() {
    let exts = default_extensions();
    assert!(is_convertible("/x/photo.PNG", &exts));
    assert!(is_convertible("photo.heic", &exts));
    assert!(is_convertible("a.b.TiF", &exts));
    assert!(!is_convertible("photo.jpg", &exts));
    assert!(!is_convertible("png", &exts));
    assert!(!is_convertible(".png", &exts));
    assert!(!is_convertible("dir/", &exts));
    let upper = vec!["WEBP".to_string()];
    assert!(is_convertible("x.webp", &upper));
    assert!(!is_convertible("x.webp", &[]));
}

#[test]
fn path_parts_through_entries_and_outputs() {
    let e = ImageEntry::for_file("/a/b.tar.gz".to_string(), 0);
    assert_eq!((e.filename.as_str(), e.format.as_str()), ("b.tar.gz", "GZ"));
    let up = ImageEntry::for_file("/a/..".to_string(), 0);
    assert_eq!((up.filename.as_str(), up.format.as_str()), ("", "UNKNOWN"));
    let dot = ImageEntry::for_file("/a/b.".to_string(), 0);
    assert_eq!(dot.format, "");
    assert_eq!(output_path_candidate("/a/.bashrc", "", 0), "/a/.bashrc.jpg");
    assert_eq!(output_path_candidate("/a/b.tar.gz", "", 3), "/a/b.tar_3.jpg");
    assert_eq!(output_path_candidate("/", "", 0), "./.jpg");
    assert_eq!(output_path_candidate("b.png", "/abs/out", 0), "/abs/out/b.jpg");
    assert!(is_convertible("/a/b.", &["".to_string()]));
    assert!(!is_convertible("/a/.bashrc", &["bashrc".to_string()]));
}

#[test]
fn text_helpers() {
    assert_eq!(decimal_string(0), "0");
    assert_eq!(decimal_string(1234567890), "1234567890");
    assert_eq!(decimal_string(u64::MAX), u64::MAX.to_string());
    assert_eq!(chars_of("aé"), vec!['a', 'é']);
}

#[test]
fn whitespace_matches_std() {
    for c in (0u32..=0x10FFFF).filter_map(char::from_u32) {
        assert_eq!(convert_to_jpg::text::char_is_whitespace(c), c.is_whitespace(), "{:?}", c);
    }
}

#[test]
fn whole_config_defaults() {
    let c = convert_to_jpg::config::Config::default();
    assert_eq!(c.conversion.quality, 90);
    assert_eq!(c.conversion.max_parallel, 4);
    assert!(!c.conversion.delete_originals);
    assert_eq!(c.conversion.output_folder, "");
    assert_eq!(c.formats.extensions, default_extensions());
}
