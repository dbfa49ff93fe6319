//! The rules of the image tool: which files count as images, how the
//! answers to its questions are read, and which size and quality an image
//! is written with. Reading and writing images is the caller's.

use vstd::prelude::*;
use vstd::string::{StrSliceExecFns, StringExecFns};
use crate::path::{decimal_index, parse_index};
use crate::scan::{lowercase_is, lowercase_text};
use crate::text::{ends_with, has_suffix, same_text, trim, trimmed};

verus! {

/// The image tool and the directory it works in.
#[derive(Debug, PartialEq, Eq)]
pub struct ImageProcessor {
    pub imgwo_dir: String,
}

/// The ways to compress images.
#[derive(Clone, Copy, Debug, PartialEq, Eq, Structural)]
pub enum CompressionMethod {
    JpegQuality,
    PngOptimization,
    WebpConversion,
    ResizeBased,
    Auto,
    ProgressiveJpeg,
    Lossless,
    Adaptive,
    AdvancedFiltering,
    MultiPass,
}

/// The formats that keep every pixel.
#[derive(Clone, Copy, Debug, PartialEq, Eq, Structural)]
pub enum LosslessFormat {
    Png,
    Tiff,
    Webp,
}

/// The filters that can be laid over an image before it is compressed.
#[derive(Clone, Copy, Debug, PartialEq, Eq, Structural)]
pub enum FilterKind {
    Gaussian,
    Sharpen,
    NoiseReduction,
    EdgeEnhancement,
}

/// The things that the tool does with a set of images.
#[derive(Clone, Copy, Debug, PartialEq, Eq, Structural)]
pub enum Operation {
    Compress,
    CompressAuto,
    Resize,
    Convert,
    Metadata,
    Batch,
}

/// The encoders that write an image.
#[derive(Clone, Copy, Debug, PartialEq, Eq, Structural)]
pub enum Encoder {
    Jpeg,
    Png,
    Tiff,
}

/// A width and a height.
#[derive(Clone, Copy, Debug, PartialEq, Eq, Structural)]
pub struct Bounds {
    pub width: u32,
    pub height: u32,
}

/// How an image is to be written: within which bounds, if it is to be made
/// smaller, and with which JPEG quality.
#[derive(Clone, Copy, Debug, PartialEq, Eq, Structural)]
pub struct Recipe {
    pub resize: Option<Bounds>,
    pub quality: u8,
}

/// The text without every `suffix` at its end.
pub open spec fn without_suffix(s: Seq<char>, suffix: Seq<char>) -> Seq<char>
    decreases s.len(),
{
    if suffix.len() > 0 && has_suffix(s, suffix) {
        without_suffix(s.subrange(0, s.len() - suffix.len()), suffix)
    } else {
        s
    }
}

/// The name of an image file without the endings `.jpg`, `.jpeg`, `.png`,
/// `.bmp`, `.gif` and `.webp`, taken off in this order, each as often as it
/// stands at the end.
pub open spec fn image_stem(name: Seq<char>) -> Seq<char> {
    without_suffix(
        without_suffix(
            without_suffix(
                without_suffix(
                    without_suffix(without_suffix(name, ".jpg"@), ".jpeg"@),
                    ".png"@,
                ),
                ".bmp"@,
            ),
            ".gif"@,
        ),
        ".webp"@,
    )
}

/// The name, taken in lower case, has one of the endings of image files.
pub open spec fn is_image_name(name: Seq<char>) -> bool {
    let lower = lowercase_text(name);
    ||| has_suffix(lower, ".jpg"@)
    ||| has_suffix(lower, ".jpeg"@)
    ||| has_suffix(lower, ".png"@)
    ||| has_suffix(lower, ".bmp"@)
    ||| has_suffix(lower, ".gif"@)
    ||| has_suffix(lower, ".webp"@)
    ||| has_suffix(lower, ".tiff"@)
    ||| has_suffix(lower, ".tga"@)
}

/// The number that an answer gives: the decimal number that stands in it
/// between white space, if it is not above `max`; else the default.
pub open spec fn number_or(answer: Seq<char>, max: int, default: int) -> int {
    match decimal_index(trimmed(answer)) {
        Some(n) => if n <= max {
            n as int
        } else {
            default
        },
        None => default,
    }
}

/// The quality that an answer gives: a number from 1 to 100, the nearest of
/// them if the answer gives a number outside, the default if it gives none
/// that a byte can hold.
pub open spec fn quality_of(answer: Seq<char>, default: u8) -> int {
    let n = number_or(answer, 255, default as int);
    if n < 1 {
        1
    } else if n > 100 {
        100
    } else {
        n
    }
}

/// The bound that a size is held to: the limit if there is one and the size
/// is above it, else the size itself. A limit of 0 is no limit.
pub open spec fn bounded(size: u32, limit: u32) -> u32 {
    if limit > 0 && size > limit {
        limit
    } else {
        size
    }
}

/// The text without every `suffix` at its end.
pub fn trim_end_matches<'a>(text: &'a str, suffix: &str) -> (r: &'a str)
    requires
        suffix@.len() > 0,
    ensures
        r@ == without_suffix(text@, suffix@),
{
    let step = suffix.unicode_len();
    let mut end: usize = text.unicode_len();
    proof {
        assert(text@.subrange(0, end as int) == text@);
    }
    while ends_with(text.substring_char(0, end), suffix)
        invariant
            end <= text@.len(),
            step == suffix@.len(),
            step > 0,
            without_suffix(text@, suffix@) == without_suffix(
                text@.subrange(0, end as int),
                suffix@,
            ),
        decreases end,
    {
        proof {
            assert(text@.subrange(0, end as int).subrange(0, end - step) == text@.subrange(
                0,
                end - step,
            ));
        }
        end -= step;
    }
    text.substring_char(0, end)
}

/// Reads an answer as a number that is not above `max`.
fn read_number(answer: &str, max: usize, default: usize) -> (r: usize)
    requires
        default <= max,
    ensures
        r == number_or(answer@, max as int, default as int),
        r <= max,
{
    match parse_index(trim(answer)) {
        Some(n) => if n <= max {
            n
        } else {
            default
        },
        None => default,
    }
}

impl ImageProcessor {
    /// The image tool in its directory `imgwo`.
    pub fn new() -> (r: ImageProcessor)
        ensures
            r.imgwo_dir@ == "imgwo"@,
    {
        ImageProcessor { imgwo_dir: "imgwo".to_owned() }
    }

    /// Whether a file name is that of an image, by its ending; capital
    /// letters count as small ones.
    pub fn is_image_file(&self, name: &str) -> (r: bool)
        ensures
            r == is_image_name(name@),
    {
        let lower = crate::scan::to_lowercase(name);
        let lower = lower.as_str();
        ends_with(lower, ".jpg") || ends_with(lower, ".jpeg") || ends_with(lower, ".png")
            || ends_with(lower, ".bmp") || ends_with(lower, ".gif") || ends_with(lower, ".webp")
            || ends_with(lower, ".tiff") || ends_with(lower, ".tga")
    }

    /// The name of an image file without its ending.
    pub fn get_file_stem(&self, filename: &str) -> (r: String)
        ensures
            r@ == image_stem(filename@),
    {
        proof {
            reveal_strlit(".jpg");
            reveal_strlit(".jpeg");
            reveal_strlit(".png");
            reveal_strlit(".bmp");
            reveal_strlit(".gif");
            reveal_strlit(".webp");
        }
        let a = trim_end_matches(filename, ".jpg");
        let b = trim_end_matches(a, ".jpeg");
        let c = trim_end_matches(b, ".png");
        let d = trim_end_matches(c, ".bmp");
        let e = trim_end_matches(d, ".gif");
        let f = trim_end_matches(e, ".webp");
        f.to_owned()
    }

    /// The path under which a processed image is written: the stem and an
    /// ending, in the directory of the tool.
    pub fn output_path(&self, stem: &str, ending: &str) -> (r: String)
        ensures
            r@ == self.imgwo_dir@ + "/"@ + stem@ + ending@,
    {
        let mut path = self.imgwo_dir.clone();
        path.append("/");
        path.append(stem);
        path.append(ending);
        path
    }

    /// The way of compressing that an answer picks: `1` to `10` in the
    /// order of [`CompressionMethod`]; any other answer picks `Auto`.
    pub fn compression_method(answer: &str) -> (r: CompressionMethod)
        ensures
            r == method_of(trimmed(answer@)),
    {
        let answer = trim(answer);
        if same_text(answer, "1") {
            CompressionMethod::JpegQuality
        } else if same_text(answer, "2") {
            CompressionMethod::PngOptimization
        } else if same_text(answer, "3") {
            CompressionMethod::WebpConversion
        } else if same_text(answer, "4") {
            CompressionMethod::ResizeBased
        } else if same_text(answer, "5") {
            CompressionMethod::Auto
        } else if same_text(answer, "6") {
            CompressionMethod::ProgressiveJpeg
        } else if same_text(answer, "7") {
            CompressionMethod::Lossless
        } else if same_text(answer, "8") {
            CompressionMethod::Adaptive
        } else if same_text(answer, "9") {
            CompressionMethod::AdvancedFiltering
        } else if same_text(answer, "10") {
            CompressionMethod::MultiPass
        } else {
            CompressionMethod::Auto
        }
    }

    /// What an answer asks the tool to do: `1` to compress, `2` to resize,
    /// `3` to convert, `4` to show metadata, `5` to do several things in a
    /// row. `None` for any other answer.
    pub fn operation(answer: &str) -> (r: Option<Operation>)
        ensures
            r == if trimmed(answer@) == "1"@ {
                Some(Operation::Compress)
            } else if trimmed(answer@) == "2"@ {
                Some(Operation::Resize)
            } else if trimmed(answer@) == "3"@ {
                Some(Operation::Convert)
            } else if trimmed(answer@) == "4"@ {
                Some(Operation::Metadata)
            } else if trimmed(answer@) == "5"@ {
                Some(Operation::Batch)
            } else {
                None
            },
    {
        let answer = trim(answer);
        if same_text(answer, "1") {
            Some(Operation::Compress)
        } else if same_text(answer, "2") {
            Some(Operation::Resize)
        } else if same_text(answer, "3") {
            Some(Operation::Convert)
        } else if same_text(answer, "4") {
            Some(Operation::Metadata)
        } else if same_text(answer, "5") {
            Some(Operation::Batch)
        } else {
            None
        }
    }

    /// The things that a batch does, in order, by the answer that picks it:
    /// `1` compresses and resizes, `2` converts and compresses, `3` does
    /// all four things. No things for any other answer.
    pub fn batch_operations(answer: &str) -> (r: Vec<Operation>)
        ensures
            r@ == if trimmed(answer@) == "1"@ {
                seq![Operation::CompressAuto, Operation::Resize]
            } else if trimmed(answer@) == "2"@ {
                seq![Operation::Convert, Operation::CompressAuto]
            } else if trimmed(answer@) == "3"@ {
                seq![
                    Operation::CompressAuto,
                    Operation::Resize,
                    Operation::Convert,
                    Operation::Metadata,
                ]
            } else {
                Seq::<Operation>::empty()
            },
    {
        let answer = trim(answer);
        let mut r: Vec<Operation> = Vec::new();
        if same_text(answer, "1") {
            r.push(Operation::CompressAuto);
            r.push(Operation::Resize);
            assert(r@ =~= seq![Operation::CompressAuto, Operation::Resize]);
        } else if same_text(answer, "2") {
            r.push(Operation::Convert);
            r.push(Operation::CompressAuto);
            assert(r@ =~= seq![Operation::Convert, Operation::CompressAuto]);
        } else if same_text(answer, "3") {
            r.push(Operation::CompressAuto);
            r.push(Operation::Resize);
            r.push(Operation::Convert);
            r.push(Operation::Metadata);
            assert(r@ =~= seq![
                Operation::CompressAuto,
                Operation::Resize,
                Operation::Convert,
                Operation::Metadata,
            ]);
        } else {
            assert(r@ =~= Seq::<Operation>::empty());
        }
        r
    }

    /// The lossless format that an answer picks: `2` is TIFF, `3` is WebP,
    /// any other answer is PNG.
    pub fn lossless_format(answer: &str) -> (r: LosslessFormat)
        ensures
            r == if trimmed(answer@) == "2"@ {
                LosslessFormat::Tiff
            } else if trimmed(answer@) == "3"@ {
                LosslessFormat::Webp
            } else {
                LosslessFormat::Png
            },
    {
        let answer = trim(answer);
        if same_text(answer, "2") {
            LosslessFormat::Tiff
        } else if same_text(answer, "3") {
            LosslessFormat::Webp
        } else {
            LosslessFormat::Png
        }
    }

    /// The filter that an answer picks: `2` sharpens, `3` reduces noise, `4`
    /// enhances edges, any other answer blurs.
    pub fn filter_kind(answer: &str) -> (r: FilterKind)
        ensures
            r == if trimmed(answer@) == "2"@ {
                FilterKind::Sharpen
            } else if trimmed(answer@) == "3"@ {
                FilterKind::NoiseReduction
            } else if trimmed(answer@) == "4"@ {
                FilterKind::EdgeEnhancement
            } else {
                FilterKind::Gaussian
            },
    {
        let answer = trim(answer);
        if same_text(answer, "2") {
            FilterKind::Sharpen
        } else if same_text(answer, "3") {
            FilterKind::NoiseReduction
        } else if same_text(answer, "4") {
            FilterKind::EdgeEnhancement
        } else {
            FilterKind::Gaussian
        }
    }

    /// The encoder that writes a lossless format. WebP is written as PNG.
    pub fn lossless_encoder(format: LosslessFormat) -> (r: Encoder)
        ensures
            r == match format {
                LosslessFormat::Tiff => Encoder::Tiff,
                _ => Encoder::Png,
            },
    {
        match format {
            LosslessFormat::Tiff => Encoder::Tiff,
            _ => Encoder::Png,
        }
    }

    /// The ending of the files of a lossless format.
    pub fn lossless_ending(format: LosslessFormat) -> (r: &'static str)
        ensures
            r@ == match format {
                LosslessFormat::Png => ".png"@,
                LosslessFormat::Tiff => ".tiff"@,
                LosslessFormat::Webp => ".webp"@,
            },
    {
        match format {
            LosslessFormat::Png => ".png",
            LosslessFormat::Tiff => ".tiff",
            LosslessFormat::Webp => ".webp",
        }
    }

    /// The format that an answer asks images to be turned into, and the
    /// encoder that writes it: `jpg`, `png` or `webp`, in small or capital
    /// letters; WebP is written as PNG. `None` for any other answer.
    pub fn conversion_target(answer: &str) -> (r: Option<Encoder>)
        ensures
            r == if lowercase_text(trimmed(answer@)) == "jpg"@ {
                Some(Encoder::Jpeg)
            } else if lowercase_text(trimmed(answer@)) == "png"@ || lowercase_text(
                trimmed(answer@),
            ) == "webp"@ {
                Some(Encoder::Png)
            } else {
                None
            },
    {
        let answer = trim(answer);
        if lowercase_is(answer, "jpg") {
            Some(Encoder::Jpeg)
        } else if lowercase_is(answer, "png") || lowercase_is(answer, "webp") {
            Some(Encoder::Png)
        } else {
            None
        }
    }

    /// The JPEG quality that an answer gives, from 1 to 100.
    pub fn quality_from(answer: &str, default: u8) -> (r: u8)
        ensures
            r == quality_of(answer@, default),
            1 <= r <= 100,
    {
        let n = read_number(answer, 255, default as usize);
        if n < 1 {
            1
        } else if n > 100 {
            100
        } else {
            n as u8
        }
    }

    /// The width or height that an answer gives.
    pub fn dimension_from(answer: &str, default: u32) -> (r: u32)
        ensures
            r == number_or(answer@, u32::MAX as int, default as int),
    {
        read_number(answer, u32::MAX as usize, default as usize) as u32
    }

    /// The bounds within which an image of the given size is made smaller
    /// so that it keeps within the limits; `None` if it keeps within them
    /// as it is. A limit of 0 is no limit.
    pub fn resize_bounds(width: u32, height: u32, max_width: u32, max_height: u32) -> (r: Option<
        Bounds,
    >)
        ensures
            r == if bounded(width, max_width) != width || bounded(height, max_height) != height {
                Some(
                    (Bounds {
                        width: bounded(width, max_width),
                        height: bounded(height, max_height),
                    }),
                )
            } else {
                None
            },
    {
        let new_width = if max_width > 0 && width > max_width {
            max_width
        } else {
            width
        };
        let new_height = if max_height > 0 && height > max_height {
            max_height
        } else {
            height
        };
        if new_width != width || new_height != height {
            Some(Bounds { width: new_width, height: new_height })
        } else {
            None
        }
    }

    /// How an image is written when the tool decides by itself: an image
    /// wider than 1920 or higher than 1080 is made smaller to fit these and
    /// written with quality 80; any other image is written as it is, with
    /// quality 70 if its file is larger than a mebibyte, else with 85.
    pub fn auto_recipe(width: u32, height: u32, original_size: u64) -> (r: Recipe)
        ensures
            r == if width > 1920 || height > 1080 {
                (Recipe { resize: Some((Bounds { width: 1920, height: 1080 })), quality: 80 })
            } else if original_size > 1024 * 1024 {
                (Recipe { resize: None, quality: 70 })
            } else {
                (Recipe { resize: None, quality: 85 })
            },
    {
        if width > 1920 || height > 1080 {
            Recipe { resize: Some(Bounds { width: 1920, height: 1080 }), quality: 80 }
        } else if original_size > 1024 * 1024 {
            Recipe { resize: None, quality: 70 }
        } else {
            Recipe { resize: None, quality: 85 }
        }
    }

    /// How an image is written in several passes: made smaller to keep
    /// within 1920 by 1080 if it does not, and written with quality 75.
    pub fn multi_pass_recipe(width: u32, height: u32) -> (r: Recipe)
        ensures
            r == (Recipe {
                resize: if bounded(width, 1920) != width || bounded(height, 1080) != height {
                    Some((Bounds { width: bounded(width, 1920), height: bounded(height, 1080) }))
                } else {
                    None
                },
                quality: 75,
            }),
    {
        Recipe { resize: ImageProcessor::resize_bounds(width, height, 1920, 1080), quality: 75 }
    }
}

/// The way of compressing that an answer picks.
pub open spec fn method_of(answer: Seq<char>) -> CompressionMethod {
    if answer == "1"@ {
        CompressionMethod::JpegQuality
    } else if answer == "2"@ {
        CompressionMethod::PngOptimization
    } else if answer == "3"@ {
        CompressionMethod::WebpConversion
    } else if answer == "4"@ {
        CompressionMethod::ResizeBased
    } else if answer == "5"@ {
        CompressionMethod::Auto
    } else if answer == "6"@ {
        CompressionMethod::ProgressiveJpeg
    } else if answer == "7"@ {
        CompressionMethod::Lossless
    } else if answer == "8"@ {
        CompressionMethod::Adaptive
    } else if answer == "9"@ {
        CompressionMethod::AdvancedFiltering
    } else if answer == "10"@ {
        CompressionMethod::MultiPass
    } else {
        CompressionMethod::Auto
    }
}

} // verus!
