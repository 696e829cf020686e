//! The decisions of the processing pipeline: which objects an image holds, how each of them is
//! straightened, and what is reported.
use crate::angle::{background, holes_below, mask_hole_count, object_mask, MaskFit};
use crate::components::{
    belongs, box_in, connected_components, crop_object, describes, keep_large, kept_regions,
    labels_components, large_enough, lemma_kept_from, lists_regions, Object,
};
use crate::debug_overlay::AngleSource;
use crate::extract::{at_least, threshold};
use crate::grid::{col, lemma_coords, lemma_index, row};
use crate::listing::{ascending_places, ascends, comes_first, lemma_comes_first_differs};
use crate::output::{format_from_path, format_of, held};
use crate::paths::{text_of, FileName, FilePath};
use crate::raster::{GrayImage, RgbaImage};
use crate::text::{begins_with, decimal, decimal_of, starts_with};
use vstd::prelude::*;
use vstd::string::StringExecFns;

verus! {

/// Why an image yields no objects.
#[derive(Clone, Copy, Debug, PartialEq, Eq)]
pub enum SegmentError {
    /// The original image and the model's image have different dimensions.
    Dimensions { original: (u32, u32), model: (u32, u32) },
    /// The mask has another number of pixels than the image.
    MaskSize { len: usize, width: u32, height: u32 },
    /// No object is above the thresholds.
    NoObjects,
}

/// Whether `labels` and `objects` are those of the 8-connected regions of `fg` of at least
/// `min_area` pixels, the objects largest first and only as far as they reach `min_side`.
pub open spec fn segments(
    labels: Seq<usize>,
    objects: Seq<Object>,
    fg: Seq<bool>,
    w: int,
    min_area: int,
    min_side: int,
) -> bool {
    let n = fg.len() as int;
    &&& labels_components(labels, fg, w, n, min_area)
    &&& exists|all: Seq<Object>| #[trigger]
        lists_regions(all, w, kept_regions(fg, w, n, min_area)) && objects == large_enough(
            all,
            min_side,
        )
}

/// The box of an object of a `w` by `h` grid lies in the grid.
pub proof fn lemma_box_inside(obj: Object, w: int, h: int, region: Set<int>)
    requires
        describes(obj, w, region),
        forall|q: int| #[trigger] region.contains(q) ==> 0 <= q < w * h,
        0 <= w,
        0 <= h,
    ensures
        obj.min_x <= obj.max_x < w,
        obj.min_y <= obj.max_y < h,
{
    let q = choose|q: int| #[trigger] region.contains(q) && col(w, q) == obj.max_x;
    lemma_coords(w, h, q);
    let q = choose|q: int| #[trigger] region.contains(q) && row(w, q) == obj.max_y;
    lemma_coords(w, h, q);
}

proof fn lemma_inside_fits(obj: Object, w: u32, h: u32, n: int)
    requires
        obj.min_x <= obj.max_x < w,
        obj.min_y <= obj.max_y < h,
        n == w * h <= usize::MAX,
    ensures
        box_in(obj, w as int, n),
{
    lemma_index(w as int, h as int, obj.max_x as int, obj.max_y as int);
    let (ow, oh) = (obj.max_x - obj.min_x + 1, obj.max_y - obj.min_y + 1);
    assert(ow * oh <= w * h) by (nonlinear_arith)
        requires
            0 <= ow <= w,
            0 <= oh <= h,
    ;
}

/// Split an image into objects, given the model's alpha mask: threshold it to a binary
/// foreground, label its disjoint regions, and drop the objects that are noise.
///
/// The box of each object lies in the image.
pub fn segment(
    alpha: &[u8],
    original: (u32, u32),
    model: (u32, u32),
    cutoff: u8,
    min_area: usize,
    min_side: usize,
) -> (r: Result<(Vec<usize>, Vec<Object>), SegmentError>)
    ensures
        match r {
            Ok((labels, objects)) => {
                &&& original == model
                &&& alpha@.len() == model.0 * model.1
                &&& segments(
                    labels@,
                    objects@,
                    at_least(alpha@, cutoff),
                    model.0 as int,
                    min_area as int,
                    min_side as int,
                )
                &&& objects@.len() > 0
                &&& forall|i: int|
                    0 <= i < objects@.len() ==> {
                        &&& #[trigger] box_in(objects@[i], model.0 as int, labels@.len() as int)
                        &&& objects@[i].max_x < model.0
                        &&& objects@[i].max_y < model.1
                    }
            },
            Err(SegmentError::Dimensions { original: o, model: m }) => original != model && o
                == original && m == model,
            Err(SegmentError::MaskSize { len, width, height }) => {
                &&& original == model
                &&& alpha@.len() != model.0 * model.1
                &&& len == alpha@.len()
                &&& width == model.0
                &&& height == model.1
            },
            Err(SegmentError::NoObjects) => {
                &&& original == model
                &&& alpha@.len() == model.0 * model.1
                &&& exists|labels: Seq<usize>| #[trigger]
                    segments(
                        labels,
                        Seq::empty(),
                        at_least(alpha@, cutoff),
                        model.0 as int,
                        min_area as int,
                        min_side as int,
                    )
            },
        },
{
    let (w, h) = model;
    if original.0 != w || original.1 != h {
        return Err(SegmentError::Dimensions { original, model });
    }
    assert(w * h <= u64::MAX) by (nonlinear_arith)
        requires
            0 <= w <= u32::MAX,
            0 <= h <= u32::MAX,
    ;
    let len: usize = alpha.len();
    if w as u64 * h as u64 != len as u64 {
        return Err(SegmentError::MaskSize { len, width: w, height: h });
    }
    let fg = threshold(alpha, cutoff);
    let (labels, all) = connected_components(fg.as_slice(), w as usize, h as usize, min_area);
    let ghost regions = kept_regions(fg@, w as int, w * h, min_area as int);
    proof {
        assert forall|i: int| 0 <= i < all@.len() implies {
            &&& #[trigger] all@[i].min_x <= all@[i].max_x < w
            &&& all@[i].min_y <= all@[i].max_y < h
        } by {
            lemma_box_inside(all@[i], w as int, h as int, regions[all@[i].label - 1]);
        }
    }
    let objects = keep_large(&all, min_side);
    proof {
        assert(lists_regions(all@, w as int, regions));
        assert(segments(
            labels@,
            objects@,
            at_least(alpha@, cutoff),
            w as int,
            min_area as int,
            min_side as int,
        ));
        assert forall|i: int| 0 <= i < objects@.len() implies {
            &&& #[trigger] box_in(objects@[i], w as int, labels@.len() as int)
            &&& objects@[i].max_x < w
            &&& objects@[i].max_y < h
        } by {
            lemma_kept_from(all@, min_side as int, i);
            let k = choose|k: int| 0 <= k < all@.len() && #[trigger] all@[k] == objects@[i];
            lemma_inside_fits(all@[k], w, h, w * h);
        }
    }
    if objects.len() == 0 {
        assert(objects@ =~= Seq::empty());
        return Err(SegmentError::NoObjects);
    }
    Ok((labels, objects))
}

/// Whether `cutout` and `mask` show the pixels of the object's box that carry its label: the
/// cutout has the source's pixels there, opaque, and is transparent elsewhere; the mask is set there
/// and nowhere else.
pub open spec fn is_cut(
    src: RgbaImage,
    labels: Seq<usize>,
    obj: Object,
    cutout: RgbaImage,
    mask: GrayImage,
) -> bool {
    let w = src.width as int;
    &&& cutout.wf()
    &&& mask.wf()
    &&& cutout.width == mask.width == obj.max_x - obj.min_x + 1
    &&& cutout.height == mask.height == obj.max_y - obj.min_y + 1
    &&& forall|i: int, j: int|
        cutout.has(i, j) ==> (#[trigger] cutout.at(i, j))@ == if belongs(
            labels,
            w,
            obj,
            obj.min_x + i,
            obj.min_y + j,
        ) {
            src.at(obj.min_x + i, obj.min_y + j)@.update(3, 255)
        } else {
            seq![0u8, 0, 0, 0]
        }
    &&& forall|i: int, j: int|
        mask.has(i, j) ==> #[trigger] mask.at(i, j) == if belongs(
            labels,
            w,
            obj,
            obj.min_x + i,
            obj.min_y + j,
        ) {
            255u8
        } else {
            0
        }
}

/// The masked cutout of an object, which isolates it so that text and objects in the background
/// do not pollute the angle signal, and its mask.
pub fn cut_object(src: &RgbaImage, labels: &Vec<usize>, obj: &Object) -> (r: (RgbaImage, GrayImage))
    requires
        src.wf(),
        labels@.len() == src.width * src.height,
        obj.min_x <= obj.max_x < src.width,
        obj.min_y <= obj.max_y < src.height,
    ensures
        is_cut(*src, labels@, *obj, r.0, r.1),
{
    let total: usize = src.pixels.len();
    proof {
        lemma_inside_fits(*obj, src.width, src.height, labels@.len() as int);
    }
    let w: usize = src.width as usize;
    let cutout = crop_object(src, w, labels.as_slice(), obj);
    let mask = object_mask(
        labels.as_slice(),
        w,
        obj.label,
        obj.min_x,
        obj.min_y,
        obj.max_x,
        obj.max_y,
    );
    (cutout, mask)
}

/// How one object is processed.
#[derive(Clone, Copy, Debug, PartialEq, Eq, Structural)]
pub struct ObjectPlan {
    /// Which rectangle bounds the crop.
    pub crop_fit: MaskFit,
    /// Whether text rotation is enabled because the mask is not rectangular.
    pub auto_text: bool,
    /// Whether text rotation is in effect.
    pub use_text: bool,
    /// How many holes the mask has, where they were looked for.
    pub hole_count: usize,
    /// Whether the crop is padded.
    pub padded: bool,
}

/// The smallest hole that counts in an object of `area` pixels.
pub open spec fn least_hole(area: int) -> int {
    if area / 1000 > 64 {
        area / 1000
    } else {
        64
    }
}

/// The number of holes that count in an object of `area` pixels.
pub open spec fn holes_of(mask: GrayImage, area: int) -> nat {
    holes_below(
        background(mask),
        mask.width as int,
        mask.height as int,
        least_hole(area),
        mask.width * mask.height,
    )
}

/// Whether a mask counts as irregular: its rectangularity score is below the threshold, and not
/// every object is forced through the rectangular pipeline.
pub open spec fn irregular(score_below: bool, force_rectangular: bool) -> bool {
    score_below && !force_rectangular
}

/// Whether `plan` is how an object of `area` pixels with the mask `mask` is processed.
pub open spec fn is_plan(
    plan: ObjectPlan,
    mask: GrayImage,
    area: int,
    score_below: bool,
    force_rectangular: bool,
    text: bool,
    safezone: bool,
) -> bool {
    let non_rectangular = irregular(score_below, force_rectangular);
    &&& plan.crop_fit == if safezone || non_rectangular {
        MaskFit::Max
    } else {
        MaskFit::Min
    }
    &&& plan.auto_text == (!text && non_rectangular)
    &&& plan.use_text == (text || non_rectangular)
    &&& plan.hole_count == if non_rectangular {
        0
    } else {
        holes_of(mask, area)
    }
    &&& plan.padded == (non_rectangular || holes_of(mask, area) > 0)
}

/// Decide how an object is processed, given whether its rectangularity score is below the
/// threshold. A rectangular mask gets the tight body fit unless the safezone is asked for; an
/// irregular mask keeps the maximal fit, enables text rotation and is padded. Rectangular objects
/// with enclosed holes (a cassette's reel windows) are complex like irregular ones and are padded
/// too; the holes of an irregular mask are not looked for. With `force_rectangular` every object
/// takes the rectangular pipeline, whatever its score.
pub fn plan_object(
    mask: &GrayImage,
    area: usize,
    score_below: bool,
    force_rectangular: bool,
    text: bool,
    safezone: bool,
) -> (plan: ObjectPlan)
    requires
        mask.wf(),
    ensures
        is_plan(plan, *mask, area as int, score_below, force_rectangular, text, safezone),
{
    let non_rectangular = score_below && !force_rectangular;
    let crop_fit = if safezone || non_rectangular {
        MaskFit::Max
    } else {
        MaskFit::Min
    };
    let auto_text = !text && non_rectangular;
    let least: usize = if area / 1000 > 64 { area / 1000 } else { 64 };
    let hole_count: usize = if non_rectangular { 0 } else { mask_hole_count(mask, least) };
    ObjectPlan {
        crop_fit,
        auto_text,
        use_text: text || auto_text,
        hole_count,
        padded: non_rectangular || hole_count > 0,
    }
}

/// Which candidate angle is chosen: the text angle where there is one, then the mask's.
pub fn choose_source(has_text: bool, has_mask: bool) -> (source: AngleSource)
    ensures
        source == AngleSource::Text <==> has_text,
        source == AngleSource::Mask <==> !has_text && has_mask,
        source == AngleSource::Unknown <==> !has_text && !has_mask,
{
    if has_text {
        AngleSource::Text
    } else if has_mask {
        AngleSource::Mask
    } else {
        AngleSource::Unknown
    }
}

/// Whether the crop is rotated by the chosen angle.
pub fn deskews(source: AngleSource, no_deskew: bool) -> (r: bool)
    ensures
        r == (source != AngleSource::Unknown && !no_deskew),
{
    source != AngleSource::Unknown && !no_deskew
}

/// Whether the fitted rectangle bounds the crop. It is oriented along the mask, so it stays
/// axis-aligned after deskew only when the mask drove the angle; with a text-driven deskew its
/// bounding box balloons, and the component's own bounds are used instead.
pub fn crops_to_fit(source: AngleSource) -> (r: bool)
    ensures
        r == (source != AngleSource::Text),
{
    source != AngleSource::Text
}

/// What is known of a model that loads when it is first needed.
#[derive(Clone, Copy, Debug, PartialEq, Eq, Structural)]
pub enum ModelState {
    /// Not needed so far.
    Waiting,
    /// Loaded.
    Ready,
    /// Loading it failed; it is not tried again.
    Unavailable,
}

/// What is known of the three models that load when they are first needed.
#[derive(Clone, Copy, Debug, PartialEq, Eq, Structural)]
pub struct Models {
    pub detector: ModelState,
    pub textline: ModelState,
    pub doc: ModelState,
}

/// What is known of a model once it was tried to load it.
pub open spec fn tried(loaded: bool) -> ModelState {
    if loaded {
        ModelState::Ready
    } else {
        ModelState::Unavailable
    }
}

/// What came of loading a model.
pub fn after_load(loaded: bool) -> (state: ModelState)
    ensures
        state == tried(loaded),
{
    if loaded {
        ModelState::Ready
    } else {
        ModelState::Unavailable
    }
}

impl Models {
    /// The models at the start. Where text rotation is forced, the detector is loaded up front
    /// (`detector_loaded` says whether that went well), so that its absence is reported at once.
    pub fn new(text: bool, detector_loaded: bool) -> (models: Models)
        ensures
            models.detector == (if !text {
                ModelState::Waiting
            } else if detector_loaded {
                ModelState::Ready
            } else {
                ModelState::Unavailable
            }),
            models.textline == ModelState::Waiting,
            models.doc == ModelState::Waiting,
    {
        let detector = if text {
            after_load(detector_loaded)
        } else {
            ModelState::Waiting
        };
        Models { detector, textline: ModelState::Waiting, doc: ModelState::Waiting }
    }
}

/// What is to be done next for a model's result.
#[derive(Clone, Copy, Debug, PartialEq, Eq, Structural)]
pub enum ModelStep {
    /// Do without the model.
    Skip,
    /// Load the model, note what came of it, and ask again.
    Load,
    /// Run the model.
    Run,
}

/// The step that a model is due for, if it is needed.
pub open spec fn step_of(state: ModelState, needed: bool) -> ModelStep {
    if !needed {
        ModelStep::Skip
    } else {
        match state {
            ModelState::Waiting => ModelStep::Load,
            ModelState::Ready => ModelStep::Run,
            ModelState::Unavailable => ModelStep::Skip,
        }
    }
}

/// The step that a model is due for, if it is needed.
pub fn model_step(state: ModelState, needed: bool) -> (step: ModelStep)
    ensures
        step == step_of(state, needed),
{
    if !needed {
        return ModelStep::Skip;
    }
    match state {
        ModelState::Waiting => ModelStep::Load,
        ModelState::Ready => ModelStep::Run,
        ModelState::Unavailable => ModelStep::Skip,
    }
}

/// A model is loaded at most once: what a load leaves behind never asks for another one, and a
/// model that failed to load is done without from then on.
pub proof fn law_models_load_once(loaded: bool, needed: bool)
    ensures
        step_of(tried(loaded), needed) != ModelStep::Load,
        !loaded ==> step_of(tried(loaded), needed) == ModelStep::Skip,
{
}

/// What is to be done next to find the quarter-turns that bring an object upright.
#[derive(Clone, Copy, Debug, PartialEq, Eq, Structural)]
pub enum TurnStep {
    /// The object is not turned.
    NoTurn,
    /// Load the textline orientation classifier, note what came of it, and ask again.
    LoadTextline,
    /// Let the text lines vote.
    Vote,
    /// Load the document orientation classifier, note what came of it, and ask again.
    LoadDoc,
    /// Classify the whole object.
    Classify,
}

/// Whether the textline orientation classifier is needed for an object.
pub open spec fn votes_on(use_text: bool, no_deskew: bool, has_boxes: bool) -> bool {
    !no_deskew && use_text && has_boxes
}

/// Whether the document orientation classifier is needed for an object.
pub open spec fn classifies(use_text: bool, no_deskew: bool, no_doc_orient: bool) -> bool {
    !no_deskew && !use_text && !no_doc_orient
}

/// What is to be done next to find the quarter-turns of an object.
pub open spec fn turn_step_of(
    use_text: bool,
    no_deskew: bool,
    no_doc_orient: bool,
    has_boxes: bool,
    models: Models,
) -> TurnStep {
    match step_of(models.textline, votes_on(use_text, no_deskew, has_boxes)) {
        ModelStep::Load => TurnStep::LoadTextline,
        ModelStep::Run => TurnStep::Vote,
        ModelStep::Skip => match step_of(
            models.doc,
            classifies(use_text, no_deskew, no_doc_orient),
        ) {
            ModelStep::Load => TurnStep::LoadDoc,
            ModelStep::Run => TurnStep::Classify,
            ModelStep::Skip => TurnStep::NoTurn,
        },
    }
}

/// Decide how the quarter-turns of an object are found. Text-driven crops use the 0/180 vote over
/// the detected text lines; rectangular crops use the whole-image document orientation model.
/// Both classifiers load lazily, and without them the object is not turned.
pub fn turn_step(
    use_text: bool,
    no_deskew: bool,
    no_doc_orient: bool,
    has_boxes: bool,
    models: &Models,
) -> (step: TurnStep)
    ensures
        step == turn_step_of(use_text, no_deskew, no_doc_orient, has_boxes, *models),
        no_deskew ==> step == TurnStep::NoTurn,
{
    if no_deskew {
        return TurnStep::NoTurn;
    }
    if use_text {
        return match model_step(models.textline, has_boxes) {
            ModelStep::Load => TurnStep::LoadTextline,
            ModelStep::Run => TurnStep::Vote,
            ModelStep::Skip => TurnStep::NoTurn,
        };
    }
    match model_step(models.doc, !no_doc_orient) {
        ModelStep::Load => TurnStep::LoadDoc,
        ModelStep::Run => TurnStep::Classify,
        ModelStep::Skip => TurnStep::NoTurn,
    }
}

/// What is known of the models once a detector step is done: only loading changes it.
pub open spec fn after_detector_step(models: Models, step: ModelStep, loaded: bool) -> Models {
    if step == ModelStep::Load {
        Models { detector: tried(loaded), ..models }
    } else {
        models
    }
}

/// What is known of the models once a turn step is done: only loading changes it.
pub open spec fn after_turn_step(models: Models, step: TurnStep, loaded: bool) -> Models {
    match step {
        TurnStep::LoadTextline => Models { textline: tried(loaded), ..models },
        TurnStep::LoadDoc => Models { doc: tried(loaded), ..models },
        _ => models,
    }
}

impl Models {
    /// Note that a detector step was done, and, if it was to load the detector, what came of it.
    pub fn note_detector_step(&mut self, step: ModelStep, loaded: bool)
        ensures
            *final(self) == after_detector_step(*old(self), step, loaded),
    {
        if step == ModelStep::Load {
            self.detector = after_load(loaded);
        }
    }

    /// Note that a turn step was done, and, if it was to load a classifier, what came of it.
    pub fn note_turn_step(&mut self, step: TurnStep, loaded: bool)
        ensures
            *final(self) == after_turn_step(*old(self), step, loaded),
    {
        match step {
            TurnStep::LoadTextline => {
                self.textline = after_load(loaded);
            },
            TurnStep::LoadDoc => {
                self.doc = after_load(loaded);
            },
            _ => {},
        }
    }
}

/// An object that text does not drive neither loads nor runs a text model, and what is known of
/// the text models stays as it is.
pub proof fn law_no_text_leaves_text_models(
    models: Models,
    use_text: bool,
    no_deskew: bool,
    no_doc_orient: bool,
    has_boxes: bool,
    loaded: bool,
)
    requires
        !use_text,
    ensures
        step_of(models.detector, use_text) == ModelStep::Skip,
        after_detector_step(models, step_of(models.detector, use_text), loaded) == models,
        ({
            let step = turn_step_of(use_text, no_deskew, no_doc_orient, has_boxes, models);
            let after = after_turn_step(models, step, loaded);
            &&& step != TurnStep::LoadTextline
            &&& step != TurnStep::Vote
            &&& after.detector == models.detector
            &&& after.textline == models.textline
        }),
{
}

/// Forcing the rectangular pipeline is the same as a threshold that no score is below: the object
/// is processed in the same way, whatever its score, and text does not drive it.
pub proof fn law_force_rectangular_is_no_threshold(
    forced: ObjectPlan,
    unforced: ObjectPlan,
    mask: GrayImage,
    area: int,
    score_below: bool,
    safezone: bool,
)
    requires
        is_plan(forced, mask, area, score_below, true, false, safezone),
        is_plan(unforced, mask, area, false, false, false, safezone),
    ensures
        forced == unforced,
        !forced.use_text,
        !forced.auto_text,
{
}

/// The quarter-turns that a vote on the text lines asks for: a half turn if they are upside-down,
/// none if they are not or if there was nothing to decide from.
pub fn turns_of_vote(flip: Option<bool>) -> (turns: u8)
    ensures
        turns == (if flip == Some(true) {
            2
        } else {
            0int
        }),
{
    match flip {
        Some(true) => 2,
        _ => 0,
    }
}

/// What the text angle was estimated from: the number of agreeing lines, the number of lines, and
/// the agreement in percent, written out.
pub struct TextNote<'a> {
    pub inliers: usize,
    pub total: usize,
    pub agreement: &'a str,
}

/// The summary of an angle without a quarter-turn.
pub open spec fn base_note(
    angle: Option<Seq<char>>,
    source: AngleSource,
    inliers: int,
    total: int,
    agreement: Seq<char>,
) -> Seq<char> {
    match (angle, source) {
        (Some(a), AngleSource::Text) => a + "° (text, "@ + decimal_of(inliers) + "/"@ + decimal_of(
            total,
        ) + " boxes, agree "@ + agreement + "%)"@,
        (Some(a), AngleSource::Mask) => a + "° (mask geometry)"@,
        _ => "n/a"@,
    }
}

/// Format the per-object angle summary, noting any orientation correction. `angle` is the chosen
/// angle in degrees, written out.
pub fn angle_note(
    angle: Option<&str>,
    source: AngleSource,
    estimate: &TextNote,
    quarter_turns: u8,
) -> (note: String)
    ensures
        ({
            let base = base_note(
                held(angle),
                source,
                estimate.inliers as int,
                estimate.total as int,
                estimate.agreement@,
            );
            note@ == if quarter_turns == 0 {
                base
            } else {
                base + " + "@ + decimal_of(quarter_turns * 90) + "° turn (orientation cls)"@
            }
        }),
{
    let mut note = String::new();
    match (angle, source) {
        (Some(a), AngleSource::Text) => {
            note.append(a);
            note.append("° (text, ");
            note.append(decimal(estimate.inliers as u64).as_str());
            note.append("/");
            note.append(decimal(estimate.total as u64).as_str());
            note.append(" boxes, agree ");
            note.append(estimate.agreement);
            note.append("%)");
        },
        (Some(a), AngleSource::Mask) => {
            note.append(a);
            note.append("° (mask geometry)");
        },
        _ => {
            note.append("n/a");
        },
    }
    let ghost base = base_note(
        held(angle),
        source,
        estimate.inliers as int,
        estimate.total as int,
        estimate.agreement@,
    );
    assert(note@ =~= base);
    if quarter_turns != 0 {
        note.append(" + ");
        note.append(decimal(quarter_turns as u64 * 90).as_str());
        note.append("° turn (orientation cls)");
        assert(note@ =~= base + " + "@ + decimal_of(quarter_turns * 90)
            + "° turn (orientation cls)"@);
    }
    note
}

/// An entry of a directory: its name, `None` where that is not Unicode, and whether it is a file.
pub struct DirEntry {
    pub path: FilePath,
    pub name: Option<String>,
    pub is_file: bool,
}

/// Whether an entry is an image file to be processed.
pub open spec fn is_input(entry: DirEntry) -> bool {
    entry.is_file && format_of(entry.path@) is Some
}

/// What an input path that exists is.
#[derive(Clone, Copy, Debug, PartialEq, Eq, Structural)]
pub enum InputKind {
    /// A file, which is processed itself, whatever its extension.
    File,
    /// A directory, of which the image files directly in it are processed.
    Directory,
}

/// What an input path is, if it is a file or a directory.
pub fn input_kind(is_file: bool, is_dir: bool) -> (r: Option<InputKind>)
    ensures
        r == (if is_file {
            Some(InputKind::File)
        } else if is_dir {
            Some(InputKind::Directory)
        } else {
            None
        }),
{
    if is_file {
        Some(InputKind::File)
    } else if is_dir {
        Some(InputKind::Directory)
    } else {
        None
    }
}

/// The entries of a directory that are image files, by their places, their names ascending byte by
/// byte. `names` holds the name of each entry.
pub fn select_inputs(entries: &Vec<DirEntry>, names: &Vec<Vec<u8>>) -> (places: Vec<usize>)
    requires
        names@.len() == entries@.len(),
    ensures
        forall|v: usize| #[trigger]
            places@.contains(v) <==> v < entries@.len() && is_input(entries@[v as int]),
        ascends(places@, names@),
        places@.no_duplicates(),
{
    let order = ascending_places(names);
    let mut places: Vec<usize> = Vec::new();
    let mut i: usize = 0;
    while i < order.len()
        invariant
            i <= order@.len(),
            names@.len() == entries@.len(),
            forall|v: usize| #[trigger] order@.contains(v) <==> v < names@.len(),
            ascends(order@, names@),
            ascends(places@, names@),
            forall|k: int|
                0 <= k < places@.len() ==> (#[trigger] places@[k]) < entries@.len() && is_input(
                    entries@[places@[k] as int],
                ) && exists|j: int| 0 <= j < i && #[trigger] order@[j] == places@[k],
            forall|j: int|
                0 <= j < i && is_input(entries@[#[trigger] order@[j] as int]) ==> places@.contains(
                    order@[j],
                ),
        decreases order@.len() - i,
    {
        let place: usize = order[i];
        assert(order@.contains(place));
        let ghost held = places@;
        if entries[place].is_file && format_from_path(&entries[place].path).is_some() {
            places.push(place);
            proof {
                assert(places@[held.len() as int] == order@[i as int]);
                assert forall|a: int, b: int| 0 <= a < b < places@.len() implies comes_first(
                    names@,
                    places@[a],
                    places@[b],
                ) by {
                    if b < held.len() {
                        assert(comes_first(names@, held[a], held[b]));
                    } else {
                        assert(places@[a] == held[a]);
                        let j = choose|j: int| 0 <= j < i && #[trigger] order@[j] == held[a];
                        assert(comes_first(names@, order@[j], order@[i as int]));
                    }
                }
                assert forall|k: int| 0 <= k < places@.len() implies (#[trigger] places@[k])
                    < entries@.len() && is_input(entries@[places@[k] as int]) && exists|j: int|
                    0 <= j < i + 1 && #[trigger] order@[j] == places@[k] by {
                    if k < held.len() {
                        assert(places@[k] == held[k]);
                        let j = choose|j: int| 0 <= j < i && #[trigger] order@[j] == held[k];
                        assert(order@[j] == places@[k]);
                    } else {
                        assert(order@[i as int] == places@[k]);
                    }
                }
                assert forall|j: int|
                    0 <= j < i + 1 && is_input(
                        entries@[#[trigger] order@[j] as int],
                    ) implies places@.contains(order@[j]) by {
                    if j < i {
                        let k = choose|k: int| 0 <= k < held.len() && held[k] == order@[j];
                        assert(places@[k] == order@[j]);
                    }
                }
            }
        }
        i = i + 1;
    }
    proof {
        assert forall|v: usize| #[trigger] places@.contains(v) <==> v < entries@.len() && is_input(
            entries@[v as int],
        ) by {
            if places@.contains(v) {
                let k = choose|k: int| 0 <= k < places@.len() && places@[k] == v;
                assert(places@[k] < entries@.len());
            }
            if v < entries@.len() && is_input(entries@[v as int]) {
                assert(order@.contains(v));
                let j = choose|j: int| 0 <= j < order@.len() && order@[j] == v;
                assert(places@.contains(order@[j]));
            }
        }
        assert forall|a: int, b: int|
            0 <= a < places@.len() && 0 <= b < places@.len() && a != b implies places@[a]
            != places@[b] by {
            if a < b {
                lemma_comes_first_differs(names@, places@[a], places@[b]);
            } else {
                lemma_comes_first_differs(names@, places@[b], places@[a]);
            }
        }
    }
    places
}

/// Whether an input of a directory is skipped: its outputs are present and are not to be
/// overwritten.
pub fn skips(overwrite: bool, present: bool) -> (r: bool)
    ensures
        r == (!overwrite && present),
{
    !overwrite && present
}

/// The stem of a path, if it has one that is Unicode.
pub open spec fn stem_of(path: FilePath) -> Option<Seq<char>> {
    match path@.1 {
        Some((stem, _)) => stem,
        None => None,
    }
}

/// Whether an entry is a file whose name begins with `prefix`.
pub open spec fn is_output(entry: DirEntry, prefix: Seq<char>) -> bool {
    entry.is_file && match text_of(entry.name) {
        Some(name) => begins_with(name, prefix),
        None => false,
    }
}

/// Whether an output directory already holds an output for `input` (a file whose name starts with
/// `<stem>_`), used to skip already-processed inputs. `None` where the stem of the input is not
/// Unicode.
pub fn output_dir_has_prefix(entries: &Vec<DirEntry>, input: &FilePath) -> (r: Option<bool>)
    ensures
        r is None <==> stem_of(*input) is None,
        r matches Some(found) ==> found == exists|i: int|
            0 <= i < entries@.len() && #[trigger] is_output(
                entries@[i],
                stem_of(*input).unwrap() + "_"@,
            ),
{
    let mut prefix = match &input.name {
        Some(FileName { stem: Some(stem), .. }) => stem.clone(),
        _ => {
            return None;
        },
    };
    prefix.append("_");
    let mut i: usize = 0;
    while i < entries.len()
        invariant
            i <= entries@.len(),
            stem_of(*input) is Some,
            prefix@ == stem_of(*input).unwrap() + "_"@,
            forall|k: int| 0 <= k < i ==> !#[trigger] is_output(entries@[k], prefix@),
        decreases entries@.len() - i,
    {
        if entries[i].is_file {
            match &entries[i].name {
                Some(name) => {
                    if starts_with(name.as_str(), prefix.as_str()) {
                        assert(is_output(entries@[i as int], prefix@));
                        return Some(true);
                    }
                },
                None => {},
            }
        }
        i = i + 1;
    }
    Some(false)
}

/// How the program runs: over a directory of inputs, or on a single one.
#[derive(Clone, Copy, Debug, PartialEq, Eq, Structural)]
pub enum RunMode {
    Directory,
    Single,
}

/// Why the program does not run with its options.
#[derive(Clone, Copy, Debug, PartialEq, Eq, Structural)]
pub enum RunError {
    /// A single output path is given for a directory.
    OutputForDirectory,
    /// No output directory is given for a directory.
    OutputDirRequired,
    /// An output directory is given for a single file.
    OutputDirForFile,
}

/// Decide how the program runs, given what the input is and which outputs are named.
pub fn run_mode(is_dir: bool, has_output: bool, has_output_dir: bool) -> (r: Result<
    RunMode,
    RunError,
>)
    ensures
        r == Ok::<RunMode, RunError>(RunMode::Directory) <==> is_dir && !has_output
            && has_output_dir,
        r == Ok::<RunMode, RunError>(RunMode::Single) <==> !is_dir && !has_output_dir,
        r == Err::<RunMode, RunError>(RunError::OutputForDirectory) <==> is_dir && has_output,
        r == Err::<RunMode, RunError>(RunError::OutputDirRequired) <==> is_dir && !has_output
            && !has_output_dir,
        r == Err::<RunMode, RunError>(RunError::OutputDirForFile) <==> !is_dir && has_output_dir,
{
    if is_dir {
        if has_output {
            return Err(RunError::OutputForDirectory);
        }
        if !has_output_dir {
            return Err(RunError::OutputDirRequired);
        }
        return Ok(RunMode::Directory);
    }
    if has_output_dir {
        return Err(RunError::OutputDirForFile);
    }
    Ok(RunMode::Single)
}

/// Where diagnostics are mirrored to: the log file that is given, and with `debug` a default one.
pub fn log_path(log_file: Option<String>, debug: bool) -> (path: Option<String>)
    ensures
        text_of(path) == (match text_of(log_file) {
            Some(given) => Some(given),
            None => if debug {
                Some("kropp-debug.log"@)
            } else {
                None
            },
        }),
{
    match log_file {
        Some(given) => Some(given),
        None => if debug {
            Some("kropp-debug.log".to_owned())
        } else {
            None
        },
    }
}

/// How the angle of an object was decided upon, for the diagnostics.
pub fn rotation_mode(text: bool, force_rectangular: bool, auto_text: bool) -> (mode: &'static str)
    ensures
        mode@ == (if text {
            "forced by --text"@
        } else if force_rectangular {
            "forced rectangular"@
        } else if auto_text {
            "auto text enabled"@
        } else {
            "mask only"@
        }),
{
    if text {
        "forced by --text"
    } else if force_rectangular {
        "forced rectangular"
    } else if auto_text {
        "auto text enabled"
    } else {
        "mask only"
    }
}

} // verus!
