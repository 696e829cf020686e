use kropp::angle::MaskFit;
use kropp::components::DISCARDED;
use kropp::debug_overlay::AngleSource;
use kropp::listing::ascending_places;
use kropp::paths::{FileName, FilePath};
use kropp::pipeline::{
    after_load, angle_note, choose_source, crops_to_fit, cut_object, deskews, input_kind, log_path, model_step,
    output_dir_has_prefix, plan_object, rotation_mode, run_mode, segment, select_inputs, skips, turn_step,
    turns_of_vote, DirEntry, InputKind, ModelState, ModelStep, Models, RunError, RunMode, SegmentError,
    TextNote, TurnStep,
};
use kropp::providers::{Attempts, Provider};
use kropp::raster::{filled, GrayImage, RgbaImage};
use kropp::text::{decimal, join, starts_with};
use kropp::votes::{
    flip_vote, last_max, longest_first, sample_box_indices, total_order_key, upright_turns,
};

fn file(parent: &str, name: &str) -> FilePath {
    FilePath { parent: parent.to_string(), name: Some(FileName::parse(name)) }
}

fn entry(name: &str, is_file: bool) -> DirEntry {
    DirEntry { path: file("dir", name), name: Some(name.to_string()), is_file }
}

#[test]
fn output_dir_prefix_check_matches_processed_files() {
    let dir = vec![entry("photo_0.jpg", true)];

    let skipped = output_dir_has_prefix(&dir, &file("input", "photo.jpg")).unwrap();
    let other = output_dir_has_prefix(&dir, &file("input", "other.jpg")).unwrap();

    assert!(skipped);
    assert!(!other);
}

#[test]
fn only_files_with_the_whole_prefix_count_as_outputs() {
    let dir = vec![
        entry("photo_0", false),
        entry("photo.jpg", true),
        DirEntry { path: file("dir", "photo_1.jpg"), name: None, is_file: true },
    ];
    assert_eq!(output_dir_has_prefix(&dir, &file("", "photo.jpg")), Some(false));
    assert_eq!(output_dir_has_prefix(&vec![], &file("", "photo.jpg")), Some(false));
    let nameless = FilePath { parent: "..".to_string(), name: None };
    assert_eq!(output_dir_has_prefix(&dir, &nameless), None);
}

#[test]
fn image_files_are_selected() {
    let dir = vec![
        entry("a.png", true),
        entry("b.txt", true),
        entry("c.jpg", false),
        entry("d.JPG", true),
        entry("png", true),
    ];
    assert_eq!(select_inputs(&dir, &raw_names(&dir)), vec![0, 3]);
}

fn raw_names(dir: &[DirEntry]) -> Vec<Vec<u8>> {
    dir.iter().map(|e| e.name.clone().unwrap().into_bytes()).collect()
}

#[test]
fn inputs_are_taken_in_ascending_order() {
    let dir = vec![
        entry("b.png", true),
        entry("a10.png", true),
        entry("notes.txt", true),
        entry("a1.png", true),
        entry("B.png", true),
        entry("ä.png", true),
        entry("a1.jpg", true),
    ];
    let places = select_inputs(&dir, &raw_names(&dir));
    assert_eq!(places, vec![4, 6, 3, 1, 0, 5]);
    let mut sorted: Vec<std::path::PathBuf> = [4, 6, 3, 1, 0, 5]
        .iter()
        .rev()
        .map(|&i: &usize| std::path::Path::new("dir").join(dir[i].name.as_ref().unwrap()))
        .collect();
    sorted.sort();
    let chosen: Vec<std::path::PathBuf> = places
        .iter()
        .map(|&i| std::path::Path::new("dir").join(dir[i].name.as_ref().unwrap()))
        .collect();
    assert_eq!(chosen, sorted);
    assert!(select_inputs(&vec![], &vec![]).is_empty());
}

#[test]
fn names_ascend_byte_by_byte() {
    let names: Vec<Vec<u8>> =
        ["b", "", "ab", "a", "ab", "\u{fe}"].iter().map(|s| s.as_bytes().to_vec()).collect();
    assert_eq!(ascending_places(&names), vec![1, 3, 2, 4, 0, 5]);
}

#[test]
fn present_outputs_are_skipped_unless_overwritten() {
    assert!(skips(false, true));
    assert!(!skips(false, false));
    assert!(!skips(true, true));
    assert!(!skips(true, false));
    assert_eq!(input_kind(true, false), Some(InputKind::File));
    assert_eq!(input_kind(false, true), Some(InputKind::Directory));
    assert_eq!(input_kind(false, false), None);
}

#[test]
fn segmentation_finds_the_objects() {
    let alpha = [255, 255, 0, 0, 0, 255, 255, 255];
    let (labels, objects) = segment(&alpha, (4, 2), (4, 2), 242, 0, 0).unwrap();
    assert_eq!(labels, vec![1, 1, 0, 0, 0, 1, 1, 1]);
    assert_eq!(objects.len(), 1);
    assert_eq!(objects[0].area, 5);
    let src: RgbaImage = filled(4, 2, [9, 8, 7, 6]);
    let (cutout, mask) = cut_object(&src, &labels, &objects[0]);
    assert_eq!(mask.pixels, vec![255, 255, 0, 0, 0, 255, 255, 255]);
    assert_eq!(cutout.pixels[1], [9, 8, 7, 255]);
    assert_eq!(cutout.pixels[2], [0, 0, 0, 0]);
}

#[test]
fn segmentation_says_why_it_finds_nothing() {
    assert_eq!(
        segment(&[1, 2], (2, 2), (2, 1), 0, 0, 0),
        Err(SegmentError::Dimensions { original: (2, 2), model: (2, 1) })
    );
    assert_eq!(
        segment(&[1, 2, 3], (2, 1), (2, 1), 0, 0, 0),
        Err(SegmentError::MaskSize { len: 3, width: 2, height: 1 })
    );
    assert_eq!(segment(&[1, 2], (2, 1), (2, 1), 3, 0, 0), Err(SegmentError::NoObjects));
    assert_eq!(segment(&[9, 9], (2, 1), (2, 1), 3, 3, 0), Err(SegmentError::NoObjects));
    assert_eq!(segment(&[9, 9], (2, 1), (2, 1), 3, 0, 3), Err(SegmentError::NoObjects));
    assert!(segment(&[9, 9], (2, 1), (2, 1), 3, 2, 2).is_ok());
}

#[test]
fn a_discarded_speck_shows_in_no_cutout() {
    // A speck inside the box of the object that follows it.
    let alpha = [
        0, 0, 0, 0, 255, //
        255, 0, 0, 0, 255, //
        0, 0, 0, 0, 255, //
        255, 255, 255, 255, 255,
    ];
    let (labels, objects) = segment(&alpha, (5, 4), (5, 4), 128, 2, 0).unwrap();
    assert_eq!(objects.len(), 1);
    assert_eq!(objects[0].area, 8);
    assert_eq!(labels[5], DISCARDED);
    let src: RgbaImage = filled(5, 4, [9, 8, 7, 255]);
    let (cutout, mask) = cut_object(&src, &labels, &objects[0]);
    assert_eq!(mask.pixels.iter().filter(|&&v| v == 255).count(), 8);
    assert_eq!(mask.pixels[5], 0);
    assert_eq!(cutout.pixels[5], [0, 0, 0, 0]);
    assert_eq!(cutout.pixels[4], [9, 8, 7, 255]);
}

fn holed() -> GrayImage {
    let mut mask: GrayImage = filled(20, 20, 255);
    for y in 5..14 {
        for x in 5..14 {
            mask.pixels[y * 20 + x] = 0;
        }
    }
    mask
}

#[test]
fn rectangular_objects_are_fitted_tight() {
    let solid: GrayImage = filled(20, 20, 255);
    let plan = plan_object(&solid, 400, false, false, false, false);
    assert_eq!(plan.crop_fit, MaskFit::Min);
    assert!(!plan.auto_text && !plan.use_text && !plan.padded);
    assert_eq!(plan_object(&solid, 400, false, false, false, true).crop_fit, MaskFit::Max);
    assert!(plan_object(&solid, 400, false, false, true, false).use_text);
    assert!(!plan_object(&solid, 400, false, false, true, false).auto_text);
}

#[test]
fn irregular_and_holed_objects_are_padded() {
    let plan = plan_object(&holed(), 319, true, false, false, false);
    assert_eq!(plan.crop_fit, MaskFit::Max);
    assert!(plan.auto_text && plan.use_text && plan.padded);
    assert_eq!(plan.hole_count, 0);
    let plan = plan_object(&holed(), 319, false, false, false, false);
    assert_eq!(plan.hole_count, 1);
    assert!(plan.padded && !plan.use_text);
    // A hole of 81 pixels is noise in an object of 82 thousand.
    assert_eq!(plan_object(&holed(), 81_999, false, false, false, false).hole_count, 1);
    assert_eq!(plan_object(&holed(), 82_000, false, false, false, false).hole_count, 0);
}

#[test]
fn forced_objects_take_the_rectangular_pipeline() {
    for score_below in [false, true] {
        let plan = plan_object(&holed(), 319, score_below, true, false, false);
        assert_eq!(plan, plan_object(&holed(), 319, false, false, false, false));
        assert!(!plan.use_text && !plan.auto_text && plan.padded);
        let mut models = Models::new(false, false);
        let step = model_step(models.detector, plan.use_text);
        assert_eq!(step, ModelStep::Skip);
        models.note_detector_step(step, true);
        let step = turn_step(plan.use_text, false, false, true, &models);
        assert_eq!(step, TurnStep::LoadDoc);
        models.note_turn_step(step, true);
        assert_eq!(models.detector, ModelState::Waiting);
        assert_eq!(models.textline, ModelState::Waiting);
        assert_eq!(turn_step(plan.use_text, false, false, true, &models), TurnStep::Classify);
    }
}

#[test]
fn loading_is_noted() {
    let mut models = Models::new(false, false);
    models.note_detector_step(ModelStep::Load, true);
    models.note_turn_step(TurnStep::LoadTextline, false);
    models.note_turn_step(TurnStep::LoadDoc, true);
    assert_eq!(
        models,
        Models {
            detector: ModelState::Ready,
            textline: ModelState::Unavailable,
            doc: ModelState::Ready,
        }
    );
    models.note_detector_step(ModelStep::Run, false);
    models.note_turn_step(TurnStep::Classify, false);
    assert_eq!(models.detector, ModelState::Ready);
    assert_eq!(models.doc, ModelState::Ready);
}

#[test]
fn text_angles_win_over_mask_angles() {
    assert_eq!(choose_source(true, true), AngleSource::Text);
    assert_eq!(choose_source(true, false), AngleSource::Text);
    assert_eq!(choose_source(false, true), AngleSource::Mask);
    assert_eq!(choose_source(false, false), AngleSource::Unknown);
    assert!(deskews(AngleSource::Mask, false));
    assert!(!deskews(AngleSource::Mask, true));
    assert!(!deskews(AngleSource::Unknown, false));
    assert!(!crops_to_fit(AngleSource::Text));
    assert!(crops_to_fit(AngleSource::Mask));
    assert!(crops_to_fit(AngleSource::Unknown));
}

#[test]
fn models_load_once() {
    let models = Models::new(false, false);
    assert_eq!(models.detector, ModelState::Waiting);
    assert_eq!(Models::new(true, true).detector, ModelState::Ready);
    assert_eq!(Models::new(true, false).detector, ModelState::Unavailable);
    assert_eq!(model_step(models.detector, true), ModelStep::Load);
    assert_eq!(model_step(models.detector, false), ModelStep::Skip);
    assert_eq!(model_step(after_load(true), true), ModelStep::Run);
    assert_eq!(model_step(after_load(false), true), ModelStep::Skip);
}

#[test]
fn quarter_turns_come_from_the_right_classifier() {
    let mut models = Models::new(false, false);
    assert_eq!(turn_step(true, true, false, true, &models), TurnStep::NoTurn);
    assert_eq!(turn_step(true, false, false, true, &models), TurnStep::LoadTextline);
    assert_eq!(turn_step(true, false, false, false, &models), TurnStep::NoTurn);
    assert_eq!(turn_step(false, false, false, false, &models), TurnStep::LoadDoc);
    assert_eq!(turn_step(false, false, true, true, &models), TurnStep::NoTurn);
    models.textline = after_load(true);
    models.doc = after_load(false);
    assert_eq!(turn_step(true, false, false, true, &models), TurnStep::Vote);
    assert_eq!(turn_step(false, false, false, true, &models), TurnStep::NoTurn);
    models.doc = after_load(true);
    assert_eq!(turn_step(false, false, false, false, &models), TurnStep::Classify);
    assert_eq!(turns_of_vote(Some(true)), 2);
    assert_eq!(turns_of_vote(Some(false)), 0);
    assert_eq!(turns_of_vote(None), 0);
}

#[test]
fn angle_notes_name_their_source() {
    let text = TextNote { inliers: 3, total: 12, agreement: "97" };
    assert_eq!(
        angle_note(Some("+1.50"), AngleSource::Text, &text, 0),
        "+1.50° (text, 3/12 boxes, agree 97%)"
    );
    assert_eq!(
        angle_note(Some("-0.25"), AngleSource::Mask, &text, 3),
        "-0.25° (mask geometry) + 270° turn (orientation cls)"
    );
    assert_eq!(angle_note(None, AngleSource::Unknown, &text, 2), "n/a + 180° turn (orientation cls)");
}

#[test]
fn options_decide_how_the_program_runs() {
    assert_eq!(run_mode(true, false, true), Ok(RunMode::Directory));
    assert_eq!(run_mode(false, true, false), Ok(RunMode::Single));
    assert_eq!(run_mode(true, true, true), Err(RunError::OutputForDirectory));
    assert_eq!(run_mode(true, false, false), Err(RunError::OutputDirRequired));
    assert_eq!(run_mode(false, false, true), Err(RunError::OutputDirForFile));
    assert_eq!(log_path(None, false), None);
    assert_eq!(log_path(None, true).as_deref(), Some("kropp-debug.log"));
    assert_eq!(log_path(Some("x.log".to_string()), true).as_deref(), Some("x.log"));
    assert_eq!(rotation_mode(true, true, true), "forced by --text");
    assert_eq!(rotation_mode(false, true, true), "forced rectangular");
    assert_eq!(rotation_mode(false, false, true), "auto text enabled");
    assert_eq!(rotation_mode(false, false, false), "mask only");
}

#[test]
fn providers_are_tried_in_turn() {
    let mut attempts = Attempts::new();
    assert_eq!(attempts.next(), Some(Provider::Cuda));
    attempts.failed(Provider::Cuda, "text detector", "no driver");
    assert_eq!(attempts.next(), Some(Provider::DirectMl));
    attempts.failed(Provider::DirectMl, "text detector", "not Windows");
    assert_eq!(attempts.next(), Some(Provider::Cpu));
    attempts.failed(Provider::Cpu, "text detector", "no network");
    assert_eq!(attempts.next(), None);
    assert_eq!(
        attempts.report(),
        "CUDA text detector: no driver; DirectML text detector: not Windows; CPU text detector: no network"
    );
    assert_eq!(Attempts::new().report(), "");
}

#[test]
fn keys_order_floating_point_values() {
    let key = |v: f64| total_order_key(v.to_bits());
    let values = [f64::NEG_INFINITY, -3.5, -1.0, -0.0, 0.0, 1e-300, 1.0, 2.5, f64::INFINITY, f64::NAN];
    for a in values {
        for b in values {
            assert_eq!(key(a) < key(b), a.total_cmp(&b).is_lt());
        }
    }
    assert_eq!(key(0.0), 0);
    assert_eq!(key(-0.0), -1);
}

#[test]
fn the_last_of_the_greatest_wins() {
    assert_eq!(last_max(&vec![]), None);
    assert_eq!(last_max(&vec![3, 7, 7, 1]), Some(2));
    assert_eq!(upright_turns(&vec![9, 0, 0, 0]), 0);
    assert_eq!(upright_turns(&vec![0, 9, 0, 0]), 3);
    assert_eq!(upright_turns(&vec![0, 0, 9, 0]), 2);
    assert_eq!(upright_turns(&vec![0, 0, 0, 9]), 1);
    assert_eq!(upright_turns(&vec![5, 5, 5, 5]), 1);
}

#[test]
fn samples_span_the_lengths() {
    assert_eq!(longest_first(&vec![2, 9, 2, 5]), vec![1, 3, 0, 2]);
    assert_eq!(sample_box_indices(&vec![1, 5, 3]), vec![1, 2, 0]);
    assert_eq!(sample_box_indices(&vec![]), Vec::<usize>::new());
    assert_eq!(sample_box_indices(&vec![1, 2, 3, 4, 5]), vec![4, 3, 2, 1, 0]);
    assert_eq!(sample_box_indices(&vec![1, 2, 3, 4, 5, 6]), vec![5, 4, 2, 1, 0]);
    assert_eq!(sample_box_indices(&vec![70, 10, 60, 20, 50, 30, 40]), vec![0, 2, 6, 3, 1]);
}

#[test]
fn ties_leave_an_object_as_it_is() {
    assert_eq!(flip_vote(&vec![]), None);
    assert_eq!(flip_vote(&vec![None, None]), None);
    assert_eq!(flip_vote(&vec![Some(true), Some(false)]), Some(false));
    assert_eq!(flip_vote(&vec![Some(true), None]), Some(true));
    assert_eq!(flip_vote(&vec![Some(true), Some(false), Some(true)]), Some(true));
}

#[test]
fn texts_are_put_together() {
    assert_eq!(decimal(0), "0");
    assert_eq!(decimal(10), "10");
    assert_eq!(decimal(u64::MAX), "18446744073709551615");
    assert_eq!(join(&vec![], "; "), "");
    assert_eq!(join(&vec!["a".to_string(), String::new(), "b".to_string()], "; "), "a; ; b");
    assert!(starts_with("photo_0.jpg", "photo_"));
    assert!(starts_with("ä", ""));
    assert!(!starts_with("pho", "photo"));
}
