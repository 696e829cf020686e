//! Output planning: where each object of an input is written, and in which format.
use crate::formats::{
    first_extension, format_named, format_supports_alpha, from_extension, has_alpha,
    is_lossy_format, lossy, lower, preferred_extension, writable,
};
use crate::paths::{
    extension_text, suffixed_parts, suffixed_path, with_extension, FileName, FilePath, PathParts,
};
use crate::text::{decimal, decimal_of};
use image::ImageFormat;
use vstd::prelude::*;
use vstd::string::StringExecFns;

verus! {

/// Where the objects of one input go: the path that their numbers are added to, and the format.
#[derive(Debug)]
pub struct OutputPlan {
    pub base: FilePath,
    pub format: ImageFormat,
}

/// Why there is no output plan for an input.
#[derive(Debug, PartialEq, Eq)]
pub enum PlanError {
    /// The input is a directory and no output directory is given.
    OutputDirRequired,
    /// The input is a directory and a single output path is given.
    OutputForDirectory,
    /// The input has no file name to be kept under the output directory.
    NoFileName,
    /// The input is a single file and an output directory is given.
    OutputDirForFile,
    /// Images of this format cannot be written.
    NotWritable(ImageFormat),
}

/// Whether output is redirected to PNG: alpha needs a channel that the format lacks, or a lossy
/// target would recompress the crop and the user hasn't opted in.
pub open spec fn needs_png(format: ImageFormat, alpha: bool, allow_lossy: bool) -> bool {
    (alpha && !has_alpha(format)) || (!allow_lossy && lossy(format))
}

/// The format that output asked for in `format` is written in.
pub open spec fn resolved(format: ImageFormat, alpha: bool, allow_lossy: bool) -> ImageFormat {
    if needs_png(format, alpha, allow_lossy) {
        ImageFormat::Png
    } else {
        format
    }
}

/// The path `base` for output asked for in `format`: redirected output gets the extension of PNG,
/// other output keeps its extension if it has one and otherwise gets the first one of the format.
pub open spec fn aligned(
    base: PathParts,
    format: ImageFormat,
    alpha: bool,
    allow_lossy: bool,
) -> PathParts {
    if needs_png(format, alpha, allow_lossy) {
        with_extension(base, "png"@)
    } else if !(base.1 matches Some((_, Some(_)))) {
        with_extension(base, first_extension(format))
    } else {
        base
    }
}

/// Resolve the final output format and align `base`'s extension to it. A lossy target is
/// redirected to lossless PNG (unless `allow_lossy` is set) so crops aren't silently recompressed;
/// lossless targets are kept as is. Alpha output likewise falls back to PNG when the chosen format
/// has no alpha channel.
pub fn resolve_format(
    base: &mut FilePath,
    format: ImageFormat,
    alpha: bool,
    allow_lossy: bool,
) -> (r: ImageFormat)
    ensures
        r == resolved(format, alpha, allow_lossy),
        final(base)@ == aligned(old(base)@, format, alpha, allow_lossy),
{
    if (alpha && !format_supports_alpha(format)) || (!allow_lossy && is_lossy_format(format)) {
        base.set_extension("png");
        return ImageFormat::Png;
    }
    if !base.has_extension() {
        base.set_extension(preferred_extension(format));
    }
    format
}

/// The format that the extension of a path stands for.
pub open spec fn format_of(path: PathParts) -> Option<ImageFormat> {
    match extension_text(path) {
        Some(ext) => format_named(ext.map_values(|c: char| lower(c))),
        None => None,
    }
}

/// The format that the extension of `path` stands for, in upper or lower case.
pub fn format_from_path(path: &FilePath) -> (r: Option<ImageFormat>)
    ensures
        r == format_of(path@),
{
    match &path.name {
        Some(FileName { extension: Some(Some(ext)), .. }) => from_extension(ext.as_str()),
        _ => None,
    }
}

/// The path that an input's output is named after, before its extension is aligned.
pub open spec fn start_of(
    input: PathParts,
    output: Option<PathParts>,
    output_dir: Option<Seq<char>>,
    input_is_dir: bool,
) -> PathParts {
    match (input_is_dir, output_dir, output) {
        (true, Some(dir), _) => (dir, input.1),
        (false, _, Some(path)) => path,
        _ => input,
    }
}

/// The format that an input's output is asked for in: that of an explicit output path, if its
/// extension names one, and otherwise that of the input.
pub open spec fn requested(
    output: Option<PathParts>,
    input_format: ImageFormat,
    input_is_dir: bool,
) -> ImageFormat {
    match (input_is_dir, output) {
        (false, Some(path)) => match format_of(path) {
            Some(format) => format,
            None => input_format,
        },
        _ => input_format,
    }
}

/// Why there is no output plan, if there is none.
pub open spec fn refusal(
    input: PathParts,
    output: Option<PathParts>,
    output_dir: Option<Seq<char>>,
    format: ImageFormat,
    input_is_dir: bool,
) -> Option<PlanError> {
    if input_is_dir && output_dir is None {
        Some(PlanError::OutputDirRequired)
    } else if input_is_dir && output is Some {
        Some(PlanError::OutputForDirectory)
    } else if input_is_dir && input.1 is None {
        Some(PlanError::NoFileName)
    } else if !input_is_dir && output_dir is Some {
        Some(PlanError::OutputDirForFile)
    } else if !writable(format) {
        Some(PlanError::NotWritable(format))
    } else {
        None
    }
}

/// The parts of a path that may not be given.
pub open spec fn parts_of(path: Option<&FilePath>) -> Option<PathParts> {
    match path {
        Some(p) => Some(p@),
        None => None,
    }
}

/// What a text that may not be given holds.
pub open spec fn held(s: Option<&str>) -> Option<Seq<char>> {
    match s {
        Some(s) => Some(s@),
        None => None,
    }
}

impl OutputPlan {
    /// Plan the output of one input. A single file is written next to itself, or to `output`; a
    /// file of an input directory keeps its own name under `output_dir`.
    pub fn new(
        input: &FilePath,
        output: Option<&FilePath>,
        output_dir: Option<&str>,
        alpha: bool,
        allow_lossy: bool,
        input_format: ImageFormat,
        input_is_dir: bool,
    ) -> (r: Result<OutputPlan, PlanError>)
        ensures
            ({
                let wanted = requested(parts_of(output), input_format, input_is_dir);
                let refused = refusal(
                    input@,
                    parts_of(output),
                    held(output_dir),
                    resolved(wanted, alpha, allow_lossy),
                    input_is_dir,
                );
                match r {
                    Ok(plan) => {
                        &&& refused is None
                        &&& plan.format == resolved(wanted, alpha, allow_lossy)
                        &&& plan.base@ == aligned(
                            start_of(input@, parts_of(output), held(output_dir), input_is_dir),
                            wanted,
                            alpha,
                            allow_lossy,
                        )
                    },
                    Err(e) => refused == Some(e),
                }
            }),
    {
        if input_is_dir {
            let dir = match output_dir {
                Some(dir) => dir,
                None => {
                    return Err(PlanError::OutputDirRequired);
                },
            };
            if output.is_some() {
                return Err(PlanError::OutputForDirectory);
            }
            if input.name.is_none() {
                return Err(PlanError::NoFileName);
            }
            let mut base = input.copy();
            base.parent = dir.to_owned();
            let format = resolve_format(&mut base, input_format, alpha, allow_lossy);
            if !format.writing_enabled() {
                return Err(PlanError::NotWritable(format));
            }
            return Ok(OutputPlan { base, format });
        }
        if output_dir.is_some() {
            return Err(PlanError::OutputDirForFile);
        }
        let mut base = match output {
            Some(path) => path.copy(),
            None => input.copy(),
        };
        let wanted = match output {
            Some(path) => match format_from_path(path) {
                Some(format) => format,
                None => input_format,
            },
            None => input_format,
        };
        let format = resolve_format(&mut base, wanted, alpha, allow_lossy);
        if !format.writing_enabled() {
            return Err(PlanError::NotWritable(format));
        }
        Ok(OutputPlan { base, format })
    }

    /// The path of object number `idx`.
    pub fn object_path(&self, idx: usize) -> (path: FilePath)
        ensures
            path@ == suffixed_parts(self.base@, "_"@ + decimal_of(idx as int)),
    {
        let mut suffix = "_".to_owned();
        suffix.append(decimal(idx as u64).as_str());
        suffixed_path(&self.base, suffix.as_str())
    }
}

} // verus!
