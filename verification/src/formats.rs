//! Image formats: their extensions, and what they can hold.
use image::{ColorType, ImageFormat};
use vstd::prelude::*;

verus! {

/// The formats that `image` knows.
#[verifier::external_type_specification]
pub struct ExImageFormat(image::ImageFormat);

/// The color types that `image` knows.
#[verifier::external_type_specification]
pub struct ExColorType(image::ColorType);

/// The extension that `image` names first for a format.
#[allow(deprecated)]
pub open spec fn first_extension(format: ImageFormat) -> Seq<char> {
    match format {
        ImageFormat::Png => "png"@,
        ImageFormat::Jpeg => "jpg"@,
        ImageFormat::Gif => "gif"@,
        ImageFormat::WebP => "webp"@,
        ImageFormat::Pnm => "pbm"@,
        ImageFormat::Tiff => "tiff"@,
        ImageFormat::Tga => "tga"@,
        ImageFormat::Dds => "dds"@,
        ImageFormat::Bmp => "bmp"@,
        ImageFormat::Ico => "ico"@,
        ImageFormat::Hdr => "hdr"@,
        ImageFormat::OpenExr => "exr"@,
        ImageFormat::Farbfeld => "ff"@,
        ImageFormat::Avif => "avif"@,
        ImageFormat::Qoi => "qoi"@,
        _ => "pcx"@,
    }
}

/// `image::ImageFormat::extensions_str`: the file extensions of a format, at least one. The first
/// of them is stated, the others are left unsaid.
pub assume_specification[ ImageFormat::extensions_str ](format: ImageFormat) -> (r: &'static [&'static str])
    ensures
        r@.len() >= 1,
        r@[0]@ == first_extension(format),
;

/// Whether `image`, with the formats that it enables by default, can write a format.
#[allow(deprecated)]
pub open spec fn writable(format: ImageFormat) -> bool {
    format != ImageFormat::Dds && format != ImageFormat::Pcx
}

/// `image::ImageFormat::writing_enabled`: whether the crate can write the format. As its default
/// formats are enabled, it can write all of them but DDS and PCX.
pub assume_specification[ ImageFormat::writing_enabled ](format: &ImageFormat) -> (r: bool)
    ensures
        r == writable(*format),
;

/// A character with `A` to `Z` made lower case.
pub open spec fn lower(c: char) -> char {
    if 'A' <= c <= 'Z' {
        ((c as u8) + 32) as u8 as char
    } else {
        c
    }
}

/// The format that `image` takes a lower case extension to stand for.
pub open spec fn format_named(ext: Seq<char>) -> Option<ImageFormat> {
    if ext == "avif"@ {
        Some(ImageFormat::Avif)
    } else if ext == "jpg"@ || ext == "jpeg"@ || ext == "jfif"@ {
        Some(ImageFormat::Jpeg)
    } else if ext == "png"@ || ext == "apng"@ {
        Some(ImageFormat::Png)
    } else if ext == "gif"@ {
        Some(ImageFormat::Gif)
    } else if ext == "webp"@ {
        Some(ImageFormat::WebP)
    } else if ext == "tif"@ || ext == "tiff"@ {
        Some(ImageFormat::Tiff)
    } else if ext == "tga"@ {
        Some(ImageFormat::Tga)
    } else if ext == "dds"@ {
        Some(ImageFormat::Dds)
    } else if ext == "bmp"@ {
        Some(ImageFormat::Bmp)
    } else if ext == "ico"@ {
        Some(ImageFormat::Ico)
    } else if ext == "hdr"@ {
        Some(ImageFormat::Hdr)
    } else if ext == "exr"@ {
        Some(ImageFormat::OpenExr)
    } else if ext == "pbm"@ || ext == "pam"@ || ext == "ppm"@ || ext == "pgm"@ || ext == "pnm"@ {
        Some(ImageFormat::Pnm)
    } else if ext == "ff"@ {
        Some(ImageFormat::Farbfeld)
    } else if ext == "qoi"@ {
        Some(ImageFormat::Qoi)
    } else {
        None
    }
}

/// `image::ImageFormat::from_extension` on a text: the format whose extension it is, whether in
/// upper or lower case.
#[verifier::external_body]
pub(crate) fn from_extension(ext: &str) -> (r: Option<ImageFormat>)
    ensures
        r == format_named(ext@.map_values(|c: char| lower(c))),
{
    ImageFormat::from_extension(ext)
}

/// The file extension that output in `format` gets.
pub fn preferred_extension(format: ImageFormat) -> (ext: &'static str)
    ensures
        ext@ == first_extension(format),
{
    let extensions = format.extensions_str();
    if extensions.len() > 0 {
        extensions[0]
    } else {
        "png"
    }
}

/// Whether re-encoding to `format` discards image data.
pub open spec fn lossy(format: ImageFormat) -> bool {
    format == ImageFormat::Jpeg || format == ImageFormat::Avif
}

/// Whether re-encoding to `format` discards image data. These are the lossy encoders `image` can
/// write; everything else it supports is lossless.
pub fn is_lossy_format(format: ImageFormat) -> (r: bool)
    ensures
        r == lossy(format),
        r <==> format is Jpeg || format is Avif,
{
    matches!(format, ImageFormat::Jpeg | ImageFormat::Avif)
}

/// Whether `format` has an alpha channel.
pub open spec fn has_alpha(format: ImageFormat) -> bool {
    ||| format == ImageFormat::Png
    ||| format == ImageFormat::Ico
    ||| format == ImageFormat::Tiff
    ||| format == ImageFormat::Tga
    ||| format == ImageFormat::Pnm
    ||| format == ImageFormat::Farbfeld
    ||| format == ImageFormat::Avif
    ||| format == ImageFormat::WebP
    ||| format == ImageFormat::OpenExr
    ||| format == ImageFormat::Qoi
}

/// Whether `format` has an alpha channel.
pub fn format_supports_alpha(format: ImageFormat) -> (r: bool)
    ensures
        r == has_alpha(format),
        r ==> !(format is Jpeg || format is Bmp || format is Gif || format is Hdr || format is Dds),
        !r ==> !(format is Png || format is Ico || format is Tiff || format is Tga || format is Pnm
            || format is Farbfeld || format is Avif || format is WebP || format is OpenExr
            || format is Qoi),
{
    matches!(
        format,
        ImageFormat::Png
            | ImageFormat::Ico
            | ImageFormat::Tiff
            | ImageFormat::Tga
            | ImageFormat::Pnm
            | ImageFormat::Farbfeld
            | ImageFormat::Avif
            | ImageFormat::WebP
            | ImageFormat::OpenExr
            | ImageFormat::Qoi
    )
}

/// The depth at which a source is cropped and written.
#[derive(Clone, Copy, Debug, PartialEq, Eq, Structural)]
pub enum ChannelDepth {
    U8,
    U16,
}

/// The depth of an 8-bit or 16-bit color type; of any other, nothing.
pub open spec fn depth_of(color: ColorType) -> Option<ChannelDepth> {
    match color {
        ColorType::L8 | ColorType::La8 | ColorType::Rgb8 | ColorType::Rgba8 => Some(
            ChannelDepth::U8,
        ),
        ColorType::L16 | ColorType::La16 | ColorType::Rgb16 | ColorType::Rgba16 => Some(
            ChannelDepth::U16,
        ),
        _ => None,
    }
}

/// The depth at which a source of color type `color` is written, or the color type itself where
/// writing it would lose precision.
pub fn channel_depth(color: ColorType) -> (r: Result<ChannelDepth, ColorType>)
    ensures
        r matches Ok(d) ==> depth_of(color) == Some(d),
        r matches Err(c) ==> c == color && depth_of(color) is None,
        r == Ok::<ChannelDepth, ColorType>(ChannelDepth::U8) <==> color is L8 || color is La8
            || color is Rgb8 || color is Rgba8,
        r == Ok::<ChannelDepth, ColorType>(ChannelDepth::U16) <==> color is L16 || color is La16
            || color is Rgb16 || color is Rgba16,
{
    match color {
        ColorType::L8 | ColorType::La8 | ColorType::Rgb8 | ColorType::Rgba8 => Ok(ChannelDepth::U8),
        ColorType::L16 | ColorType::La16 | ColorType::Rgb16 | ColorType::Rgba16 => Ok(
            ChannelDepth::U16,
        ),
        other => Err(other),
    }
}

} // verus!
