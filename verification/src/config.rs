//! Settings of a conversion run, as read from `config.toml`.

use vstd::prelude::*;
use crate::text::string_texts;

verus! {

broadcast use vstd::string::group_string_axioms;

/// All settings.
#[derive(Debug)]
pub struct Config {
    /// How files are converted.
    pub conversion: ConversionConfig,
    /// Which files are converted.
    pub formats: FormatsConfig,
}

/// How files are converted.
#[derive(Debug)]
pub struct ConversionConfig {
    /// JPEG quality, 0 to 100.
    pub quality: u8,
    /// Whether a source file is deleted once it was converted.
    pub delete_originals: bool,
    /// Destination directory; empty means next to each source file.
    pub output_folder: String,
    /// Most conversions that run at once.
    pub max_parallel: usize,
}

/// Which files are converted.
#[derive(Debug)]
pub struct FormatsConfig {
    /// File extensions (compared without regard to case) that are converted.
    pub extensions: Vec<String>,
}

/// The extensions converted when the configuration names none.
pub open spec fn default_extension_texts() -> Seq<Seq<char>> {
    seq![
        seq!['p', 'n', 'g'],
        seq!['b', 'm', 'p'],
        seq!['t', 'i', 'f', 'f'],
        seq!['t', 'i', 'f'],
        seq!['w', 'e', 'b', 'p'],
        seq!['g', 'i', 'f'],
        seq!['a', 'v', 'i', 'f'],
        seq!['h', 'e', 'i', 'c'],
        seq!['h', 'e', 'i', 'f'],
    ]
}

/// JPEG quality used when the configuration names none.
pub fn default_quality() -> (quality: u8)
    ensures
        quality == 90,
{
    90
}

/// Conversions run at once when the configuration names no limit.
pub fn default_max_parallel() -> (limit: usize)
    ensures
        limit == 4,
{
    4
}

fn owned(s: &str) -> (owned: String)
    ensures
        owned@ == s@,
{
    s.to_string()
}

/// Extensions converted when the configuration names none.
pub fn default_extensions() -> (extensions: Vec<String>)
    ensures
        string_texts(extensions@) == default_extension_texts(),
{
    proof {
        reveal_strlit("png");
        reveal_strlit("bmp");
        reveal_strlit("tiff");
        reveal_strlit("tif");
        reveal_strlit("webp");
        reveal_strlit("gif");
        reveal_strlit("avif");
        reveal_strlit("heic");
        reveal_strlit("heif");
    }
    let mut extensions: Vec<String> = Vec::new();
    extensions.push(owned("png"));
    extensions.push(owned("bmp"));
    extensions.push(owned("tiff"));
    extensions.push(owned("tif"));
    extensions.push(owned("webp"));
    extensions.push(owned("gif"));
    extensions.push(owned("avif"));
    extensions.push(owned("heic"));
    extensions.push(owned("heif"));
    assert(string_texts(extensions@) =~~= default_extension_texts());
    extensions
}

impl Default for ConversionConfig {
    fn default() -> (config: Self)
        ensures
            config.quality == 90,
            !config.delete_originals,
            config.output_folder@ == Seq::<char>::empty(),
            config.max_parallel == 4,
    {
        ConversionConfig {
            quality: default_quality(),
            delete_originals: false,
            output_folder: String::new(),
            max_parallel: default_max_parallel(),
        }
    }
}

impl Default for Config {
    fn default() -> (config: Self)
        ensures
            config.conversion.quality == 90,
            !config.conversion.delete_originals,
            config.conversion.output_folder@ == Seq::<char>::empty(),
            config.conversion.max_parallel == 4,
            string_texts(config.formats.extensions@) == default_extension_texts(),
    {
        Config { conversion: ConversionConfig::default(), formats: FormatsConfig::default() }
    }
}

impl Default for FormatsConfig {
    fn default() -> (config: Self)
        ensures
            string_texts(config.extensions@) == default_extension_texts(),
    {
        FormatsConfig { extensions: default_extensions() }
    }
}

} // verus!
