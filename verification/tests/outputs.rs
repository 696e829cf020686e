use image::{ColorType, ImageFormat};
use kropp::debug_overlay::debug_image_path;
use kropp::formats::{
    channel_depth, format_supports_alpha, is_lossy_format, preferred_extension, ChannelDepth,
};
use kropp::output::{format_from_path, OutputPlan, PlanError};
use kropp::paths::{suffixed_path, FileName, FilePath};
use kropp::pipeline::{output_dir_has_prefix, DirEntry};
use std::path::{Path, PathBuf};

fn file(p: &str) -> FilePath {
    let path = Path::new(p);
    match path.file_name() {
        Some(name) => FilePath {
            parent: path.parent().unwrap().to_str().unwrap().to_string(),
            name: Some(FileName::parse(name.to_str().unwrap())),
        },
        None => FilePath { parent: p.to_string(), name: None },
    }
}

fn path(p: &FilePath) -> PathBuf {
    match &p.name {
        Some(name) => Path::new(&p.parent).join(name.text().unwrap()),
        None => PathBuf::from(&p.parent),
    }
}

#[test]
fn lossy_input_converts_to_png_by_default() {
    let plan = OutputPlan::new(
        &file("fixtures/photo.jpeg"),
        None,
        None,
        false,
        false,
        ImageFormat::Jpeg,
        false,
    )
    .unwrap();

    assert_eq!(path(&plan.object_path(3)), PathBuf::from("fixtures/photo_3.png"));
    assert_eq!(plan.format, ImageFormat::Png);
}

#[test]
fn allow_lossy_conversion_keeps_lossy_format() {
    let plan = OutputPlan::new(
        &file("fixtures/photo.jpeg"),
        None,
        None,
        false,
        true,
        ImageFormat::Jpeg,
        false,
    )
    .unwrap();

    assert_eq!(path(&plan.object_path(3)), PathBuf::from("fixtures/photo_3.jpeg"));
    assert_eq!(plan.format, ImageFormat::Jpeg);
}

#[test]
fn lossless_input_keeps_its_format() {
    let plan = OutputPlan::new(
        &file("scan.tiff"),
        None,
        None,
        false,
        false,
        ImageFormat::Tiff,
        false,
    )
    .unwrap();

    assert_eq!(path(&plan.object_path(0)), PathBuf::from("scan_0.tiff"));
    assert_eq!(plan.format, ImageFormat::Tiff);
}

#[test]
fn alpha_output_falls_back_to_png_when_format_lacks_alpha() {
    let plan = OutputPlan::new(
        &file("photo.jpg"),
        None,
        None,
        true,
        false,
        ImageFormat::Jpeg,
        false,
    )
    .unwrap();

    assert_eq!(path(&plan.object_path(0)), PathBuf::from("photo_0.png"));
    assert_eq!(plan.format, ImageFormat::Png);
}

#[test]
fn alpha_output_keeps_alpha_capable_format() {
    let plan = OutputPlan::new(
        &file("photo.tiff"),
        None,
        None,
        true,
        false,
        ImageFormat::Tiff,
        false,
    )
    .unwrap();

    assert_eq!(path(&plan.object_path(0)), PathBuf::from("photo_0.tiff"));
    assert_eq!(plan.format, ImageFormat::Tiff);
}

#[test]
fn dir_input_uses_output_dir_for_each_object_path() {
    let plan = OutputPlan::new(
        &file("inputs/photo.jpg"),
        None,
        Some("out"),
        false,
        true,
        ImageFormat::Jpeg,
        true,
    )
    .unwrap();

    assert_eq!(path(&plan.object_path(2)), PathBuf::from("out/photo_2.jpg"));
}

#[test]
fn dir_input_converts_lossy_to_png_by_default() {
    let plan = OutputPlan::new(
        &file("inputs/photo.jpg"),
        None,
        Some("out"),
        false,
        false,
        ImageFormat::Jpeg,
        true,
    )
    .unwrap();

    assert_eq!(path(&plan.object_path(2)), PathBuf::from("out/photo_2.png"));
    assert_eq!(plan.format, ImageFormat::Png);
}

#[test]
fn refused_plans_say_why() {
    let input = file("a/b.png");
    let new = |input: &FilePath, output: Option<&FilePath>, dir, format, is_dir| {
        OutputPlan::new(input, output, dir, false, false, format, is_dir).err()
    };
    let png = ImageFormat::Png;
    assert_eq!(new(&input, None, None, png, true), Some(PlanError::OutputDirRequired));
    assert_eq!(new(&input, Some(&input), None, png, true), Some(PlanError::OutputDirRequired));
    assert_eq!(new(&input, Some(&input), Some("o"), png, true), Some(PlanError::OutputForDirectory));
    assert_eq!(new(&file(".."), None, Some("o"), png, true), Some(PlanError::NoFileName));
    assert_eq!(new(&input, None, Some("o"), png, false), Some(PlanError::OutputDirForFile));
    assert_eq!(
        new(&input, None, None, ImageFormat::Dds, false),
        Some(PlanError::NotWritable(ImageFormat::Dds))
    );
    assert_eq!(
        new(&input, None, Some("o"), ImageFormat::Dds, true),
        Some(PlanError::NotWritable(ImageFormat::Dds))
    );
    assert_eq!(new(&input, None, Some("o"), png, true), None);
}

#[test]
fn explicit_output_picks_the_format() {
    let plan = OutputPlan::new(
        &file("photo.jpg"),
        Some(&file("x/cropped.TIF")),
        None,
        false,
        false,
        ImageFormat::Jpeg,
        false,
    )
    .unwrap();
    assert_eq!(plan.format, ImageFormat::Tiff);
    assert_eq!(path(&plan.object_path(12)), PathBuf::from("x/cropped_12.TIF"));

    // A lossy one is redirected too.
    let plan = OutputPlan::new(
        &file("photo.png"),
        Some(&file("cropped.jpg")),
        None,
        false,
        false,
        ImageFormat::Png,
        false,
    )
    .unwrap();
    assert_eq!(plan.format, ImageFormat::Png);
    assert_eq!(path(&plan.object_path(0)), PathBuf::from("cropped_0.png"));

    // An unknown or missing extension leaves the format of the input.
    let plan = OutputPlan::new(
        &file("photo.bmp"),
        Some(&file("cropped.dat")),
        None,
        false,
        false,
        ImageFormat::Bmp,
        false,
    )
    .unwrap();
    assert_eq!(plan.format, ImageFormat::Bmp);
    assert_eq!(path(&plan.object_path(0)), PathBuf::from("cropped_0.dat"));
    let plan = OutputPlan::new(
        &file("photo.pnm"),
        Some(&file("cropped")),
        None,
        false,
        false,
        ImageFormat::Pnm,
        false,
    )
    .unwrap();
    assert_eq!(path(&plan.object_path(0)), PathBuf::from("cropped_0.pbm"));
}

#[test]
fn suffixes_go_before_the_extension() {
    let with = |p: &str, s: &str| path(&suffixed_path(&file(p), s));
    assert_eq!(with("a/b.tar.gz", "_7"), PathBuf::from("a/b.tar_7.gz"));
    assert_eq!(with("a/.hidden", "_7"), PathBuf::from("a/.hidden_7"));
    assert_eq!(with("noext", "_0"), PathBuf::from("noext_0"));
    assert_eq!(with("dot.", "_0"), PathBuf::from("dot_0."));
    assert_eq!(with("..", "_0"), PathBuf::from("../output_0"));
    assert_eq!(path(&debug_image_path(&file("out_0.png"))), PathBuf::from("out_0.debug.png"));
    // A suffix may be what a later one takes for the extension.
    let once = suffixed_path(&file("photo"), ".debug");
    assert_eq!(path(&suffixed_path(&once, "_1")), PathBuf::from("photo_1.debug"));
}

#[test]
fn names_that_are_not_unicode_become_output() {
    let odd = FilePath {
        parent: "d".to_string(),
        name: Some(FileName { stem: None, extension: Some(Some("png".to_string())) }),
    };
    assert_eq!(path(&suffixed_path(&odd, "_2")), PathBuf::from("d/output_2.png"));
    let odd = FilePath {
        parent: "d".to_string(),
        name: Some(FileName { stem: Some("a".to_string()), extension: Some(None) }),
    };
    assert_eq!(odd.name.as_ref().unwrap().text(), None);
    assert_eq!(path(&suffixed_path(&odd, "_2")), PathBuf::from("d/a_2"));
}

#[test]
fn file_names_part_as_in_std() {
    for name in ["a.b", "a", ".a", ".a.b", "a.", "a..b", "...", "ä.ö.ü"] {
        let p = Path::new(name);
        let parsed = FileName::parse(name);
        assert_eq!(parsed.stem.as_deref(), p.file_stem().and_then(|s| s.to_str()));
        assert_eq!(
            parsed.extension.clone().map(|e| e.unwrap()),
            p.extension().map(|s| s.to_str().unwrap().to_string())
        );
        assert_eq!(parsed.text().as_deref(), Some(name));
    }
}

#[test]
fn extensions_name_formats_as_in_image() {
    for ext in [
        "avif", "jpg", "jpeg", "jfif", "png", "apng", "gif", "webp", "tif", "tiff", "tga", "dds",
        "bmp", "ico", "hdr", "exr", "pbm", "pam", "ppm", "pgm", "pnm", "ff", "qoi", "JPG", "TiFf",
        "txt", "",
    ] {
        let name = format!("x.{ext}");
        assert_eq!(format_from_path(&file(&name)), ImageFormat::from_path(&name).ok());
    }
    assert_eq!(format_from_path(&file("png")), None);
}

#[test]
fn formats_know_what_they_hold() {
    assert!(is_lossy_format(ImageFormat::Jpeg));
    assert!(is_lossy_format(ImageFormat::Avif));
    assert!(!is_lossy_format(ImageFormat::WebP));
    assert!(format_supports_alpha(ImageFormat::Qoi));
    assert!(!format_supports_alpha(ImageFormat::Bmp));
    assert_eq!(preferred_extension(ImageFormat::Tiff), "tiff");
    assert_eq!(preferred_extension(ImageFormat::OpenExr), "exr");
    for format in ImageFormat::all() {
        assert_eq!(preferred_extension(format), format.extensions_str()[0]);
    }
}

#[test]
fn source_depth_is_kept_or_refused() {
    assert_eq!(channel_depth(ColorType::L8), Ok(ChannelDepth::U8));
    assert_eq!(channel_depth(ColorType::Rgba8), Ok(ChannelDepth::U8));
    assert_eq!(channel_depth(ColorType::La16), Ok(ChannelDepth::U16));
    assert_eq!(channel_depth(ColorType::Rgb32F), Err(ColorType::Rgb32F));
}

#[test]
fn objects_of_one_input_get_different_paths_that_are_recognised() {
    let input = file("inputs/photo.jpg");
    let plan =
        OutputPlan::new(&input, None, Some("out"), false, false, ImageFormat::Jpeg, true).unwrap();
    let mut seen = Vec::new();
    for idx in [0, 1, 9, 10, 11, 100, usize::MAX] {
        let path = plan.object_path(idx);
        assert!(!seen.contains(&path));
        let name = path.name.as_ref().unwrap().text();
        let entry = DirEntry { path: path.clone(), name, is_file: true };
        assert_eq!(output_dir_has_prefix(&vec![entry], &input), Some(true));
        seen.push(path);
    }
}
