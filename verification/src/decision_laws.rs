//! What the decisions of the pipeline come to, in terms of what they are given.
use crate::angle::{background, holes_below, MaskFit};
use crate::components::{large_enough, longer_side, Object};
use crate::debug_overlay::AngleSource;
use crate::formats::{depth_of, format_named, lower, writable, ChannelDepth};
use crate::listing::{ascends, before_from, comes_first, lemma_total, name_before};
use crate::output::{aligned, format_of, held, parts_of, refusal, requested, resolved, start_of, PlanError};
use crate::paths::{
    extension_text, lemma_last_dot, lemma_parsed_rendered, parsed, rendered,
    stem_or_output, suffixed, suffixed_parts, text_of, with_extension, FileName, FilePath,
    NameParts, PathParts,
};
use crate::pipeline::{
    after_detector_step, after_turn_step, base_note, is_input, is_output, is_plan, least_hole,
    stem_of, step_of, turn_step_of, DirEntry, ModelState, ModelStep, Models, ObjectPlan, TurnStep,
};
use crate::providers::{failure_text, preference, Provider};
use crate::raster::GrayImage;
use crate::text::{begins_with, decimal_of, joined, lemma_decimal_value};
use crate::votes::{
    by_length, is_last_max, judged, lemma_lists_all, longer, order_of, sampled,
};
use image::{ColorType, ImageFormat};
use vstd::prelude::*;

verus! {

/// The side that is compared with the least side is the greater of the width and the height of the
/// box.
pub proof fn law_longer_side_is_the_greater(obj: Object)
    ensures
        longer_side(obj) >= obj.max_x - obj.min_x + 1,
        longer_side(obj) >= obj.max_y - obj.min_y + 1,
        longer_side(obj) == obj.max_x - obj.min_x + 1 || longer_side(obj) == obj.max_y - obj.min_y
            + 1,
{
}

/// An object is dropped exactly where both its width and its height are below the least side; the
/// others keep their order.
pub proof fn law_small_in_both_is_dropped(objects: Seq<Object>, next: Object, min_side: int)
    ensures
        large_enough(Seq::empty(), min_side).len() == 0,
        next.max_x - next.min_x + 1 < min_side && next.max_y - next.min_y + 1 < min_side
            ==> large_enough(objects.push(next), min_side) == large_enough(objects, min_side),
        next.max_x - next.min_x + 1 >= min_side || next.max_y - next.min_y + 1 >= min_side
            ==> large_enough(objects.push(next), min_side) == large_enough(objects, min_side).push(
            next,
        ),
{
    reveal(Seq::filter);
    assert(objects.push(next).drop_last() =~= objects);
    assert(objects.push(next).last() == next);
}

/// Whether an object is large enough does not depend on which of its sides is the width.
pub proof fn law_transposing_keeps_size(a: Object, b: Object)
    requires
        a.min_x == b.min_y,
        a.max_x == b.max_y,
        a.min_y == b.min_x,
        a.max_y == b.max_x,
    ensures
        longer_side(a) == longer_side(b),
{
}

/// The counts are how often each judgement occurs, so that the order of the lines does not matter.
pub proof fn law_votes_ignore_order(a: Seq<Option<bool>>, b: Seq<Option<bool>>, flipped: bool)
    requires
        a.to_multiset() == b.to_multiset(),
    ensures
        judged(a, flipped, a.len() as int) == a.to_multiset().count(Some(flipped)),
        judged(a, flipped, a.len() as int) == judged(b, flipped, b.len() as int),
{
    lemma_judged_count(a, flipped);
    lemma_judged_count(b, flipped);
}

proof fn lemma_judged_prefix(lines: Seq<Option<bool>>, flipped: bool, more: Option<bool>, n: int)
    requires
        0 <= n <= lines.len(),
    ensures
        judged(lines.push(more), flipped, n) == judged(lines, flipped, n),
    decreases n,
{
    if n > 0 {
        lemma_judged_prefix(lines, flipped, more, n - 1);
    }
}

proof fn lemma_judged_count(lines: Seq<Option<bool>>, flipped: bool)
    ensures
        judged(lines, flipped, lines.len() as int) == lines.to_multiset().count(Some(flipped)),
    decreases lines.len(),
{
    broadcast use vstd::seq_lib::group_to_multiset_ensures;

    if lines.len() > 0 {
        let rest = lines.drop_last();
        lemma_judged_count(rest, flipped);
        assert(lines =~= rest.push(lines.last()));
        lemma_judged_prefix(rest, flipped, lines.last(), rest.len() as int);
    } else {
        assert(lines =~= Seq::empty());
        assert(lines.to_multiset().count(Some(flipped)) == 0);
    }
}

/// With deskewing off nothing is turned, whatever else is asked for and whichever models there are.
pub proof fn law_no_deskew_never_turns(
    use_text: bool,
    no_doc_orient: bool,
    has_boxes: bool,
    models: Models,
)
    ensures
        turn_step_of(use_text, true, no_doc_orient, has_boxes, models) == TurnStep::NoTurn,
{
}

/// A text-driven object is turned by the vote on its lines alone: it needs lines, loads the
/// textline classifier when that was not tried yet, and does without one that is unavailable.
pub proof fn law_text_turns_by_vote(
    no_doc_orient: bool,
    has_boxes: bool,
    models: Models,
)
    ensures
        ({
            let step = turn_step_of(true, false, no_doc_orient, has_boxes, models);
            &&& step == TurnStep::LoadTextline <==> has_boxes && models.textline
                == ModelState::Waiting
            &&& step == TurnStep::Vote <==> has_boxes && models.textline == ModelState::Ready
            &&& step == TurnStep::NoTurn <==> !has_boxes || models.textline
                == ModelState::Unavailable
        }),
{
}

/// An object that text does not drive is turned by the document orientation model alone, unless
/// that is switched off or unavailable; it loads it when that was not tried yet.
pub proof fn law_rectangular_turns_by_document(
    no_doc_orient: bool,
    has_boxes: bool,
    models: Models,
)
    ensures
        ({
            let step = turn_step_of(false, false, no_doc_orient, has_boxes, models);
            &&& step == TurnStep::LoadDoc <==> !no_doc_orient && models.doc == ModelState::Waiting
            &&& step == TurnStep::Classify <==> !no_doc_orient && models.doc == ModelState::Ready
            &&& step == TurnStep::NoTurn <==> no_doc_orient || models.doc
                == ModelState::Unavailable
        }),
{
}

/// A model is loaded where it is needed and was not tried, run where it is needed and ready, and
/// done without otherwise.
pub proof fn law_model_steps(state: ModelState, needed: bool)
    ensures
        step_of(state, needed) == ModelStep::Load <==> needed && state == ModelState::Waiting,
        step_of(state, needed) == ModelStep::Run <==> needed && state == ModelState::Ready,
        step_of(state, needed) == ModelStep::Skip <==> !needed || state == ModelState::Unavailable,
{
}

/// Loading a model makes it ready or unavailable and leaves the others as they are; no other step
/// changes what is known.
pub proof fn law_loading_changes_one_model(models: Models, loaded: bool)
    ensures
        ({
            let after = after_detector_step(models, ModelStep::Load, loaded);
            &&& after.detector == ModelState::Ready <==> loaded
            &&& after.detector == ModelState::Unavailable <==> !loaded
            &&& after.textline == models.textline
            &&& after.doc == models.doc
        }),
        ({
            let after = after_turn_step(models, TurnStep::LoadTextline, loaded);
            &&& after.textline == ModelState::Ready <==> loaded
            &&& after.textline == ModelState::Unavailable <==> !loaded
            &&& after.detector == models.detector
            &&& after.doc == models.doc
        }),
        ({
            let after = after_turn_step(models, TurnStep::LoadDoc, loaded);
            &&& after.doc == ModelState::Ready <==> loaded
            &&& after.doc == ModelState::Unavailable <==> !loaded
            &&& after.detector == models.detector
            &&& after.textline == models.textline
        }),
        after_detector_step(models, ModelStep::Run, loaded) == models,
        after_detector_step(models, ModelStep::Skip, loaded) == models,
        after_turn_step(models, TurnStep::Vote, loaded) == models,
        after_turn_step(models, TurnStep::Classify, loaded) == models,
        after_turn_step(models, TurnStep::NoTurn, loaded) == models,
{
}

/// How an object is processed follows from its score and the options: an object whose score is
/// below the threshold is irregular unless it is forced to be rectangular.
pub proof fn law_plan_follows_score_and_options(
    plan: ObjectPlan,
    mask: GrayImage,
    area: int,
    score_below: bool,
    force_rectangular: bool,
    text: bool,
    safezone: bool,
)
    requires
        is_plan(plan, mask, area, score_below, force_rectangular, text, safezone),
    ensures
        !score_below || force_rectangular ==> plan.hole_count == holes_below(
            background(mask),
            mask.width as int,
            mask.height as int,
            least_hole(area),
            mask.width * mask.height,
        ),
        plan.crop_fit == MaskFit::Max <==> safezone || (score_below && !force_rectangular),
        plan.crop_fit == MaskFit::Min <==> !safezone && (!score_below || force_rectangular),
        plan.use_text <==> text || (score_below && !force_rectangular),
        plan.auto_text <==> !text && score_below && !force_rectangular,
        plan.padded <==> (score_below && !force_rectangular) || plan.hole_count > 0,
        score_below && !force_rectangular ==> plan.hole_count == 0,
{
}

/// A hole counts from a thousandth of the object's area on, and never below 64 pixels.
pub proof fn law_least_hole(area: int)
    requires
        0 <= area,
    ensures
        least_hole(area) >= 64,
        1000 * (least_hole(area) + 1) > area,
        least_hole(area) == 64 || 1000 * least_hole(area) <= area,
{
}

/// How many channels a color type has.
pub open spec fn channels(color: ColorType) -> int {
    match color {
        ColorType::L8 | ColorType::L16 => 1,
        ColorType::La8 | ColorType::La16 => 2,
        ColorType::Rgb8 | ColorType::Rgb16 | ColorType::Rgb32F => 3,
        ColorType::Rgba8 | ColorType::Rgba16 | ColorType::Rgba32F => 4,
        _ => 0,
    }
}

/// How many bytes a pixel of a color type takes.
pub open spec fn bytes_per_pixel(color: ColorType) -> int {
    match color {
        ColorType::L8 => 1,
        ColorType::L16 | ColorType::La8 => 2,
        ColorType::Rgb8 => 3,
        ColorType::Rgba8 | ColorType::La16 => 4,
        ColorType::Rgb16 => 6,
        ColorType::Rgba16 => 8,
        ColorType::Rgb32F => 12,
        ColorType::Rgba32F => 16,
        _ => 0,
    }
}

/// No precision is lost: a source is written with one byte per channel exactly where it has one,
/// with two exactly where it has two, and is refused where it has more.
pub proof fn law_depth_keeps_precision(color: ColorType)
    requires
        channels(color) > 0,
    ensures
        depth_of(color) == Some(ChannelDepth::U8) <==> bytes_per_pixel(color) == channels(color),
        depth_of(color) == Some(ChannelDepth::U16) <==> bytes_per_pixel(color) == 2 * channels(
            color,
        ),
        depth_of(color) is None <==> bytes_per_pixel(color) > 2 * channels(color),
{
}

/// Output with an alpha channel is planned in a format that has one, whatever else is asked for.
pub proof fn law_alpha_needs_an_alpha_format(format: ImageFormat, allow_lossy: bool)
    ensures
        resolved(format, true, allow_lossy) is Png || resolved(format, true, allow_lossy) is Ico
            || resolved(format, true, allow_lossy) is Tiff || resolved(
            format,
            true,
            allow_lossy,
        ) is Tga || resolved(format, true, allow_lossy) is Pnm || resolved(
            format,
            true,
            allow_lossy,
        ) is Farbfeld || resolved(format, true, allow_lossy) is Avif || resolved(
            format,
            true,
            allow_lossy,
        ) is WebP || resolved(format, true, allow_lossy) is OpenExr || resolved(
            format,
            true,
            allow_lossy,
        ) is Qoi,
        !(resolved(format, true, allow_lossy) is Jpeg),
        !(resolved(format, true, allow_lossy) is Bmp),
        !(resolved(format, true, allow_lossy) is Gif),
        !(resolved(format, true, allow_lossy) is Hdr),
{
}

/// A format is kept unless output has to be redirected, which is to PNG: JPEG and AVIF unless
/// lossy output is allowed, and with alpha what has no alpha channel.
pub proof fn law_formats_are_kept_or_png(format: ImageFormat, alpha: bool, allow_lossy: bool)
    ensures
        resolved(format, alpha, allow_lossy) == format || resolved(format, alpha, allow_lossy)
            is Png,
        !allow_lossy && (format is Jpeg || format is Avif) ==> resolved(format, alpha, allow_lossy)
            is Png,
        alpha && (format is Jpeg || format is Bmp || format is Gif || format is Hdr || format
            is Dds) ==> resolved(format, alpha, allow_lossy) is Png,
        !alpha && (allow_lossy || !(format is Jpeg || format is Avif)) ==> resolved(
            format,
            alpha,
            allow_lossy,
        ) == format,
        format is Png || format is Ico || format is Tiff || format is Tga || format is Pnm
            || format is Farbfeld || format is WebP || format is OpenExr || format is Qoi
            ==> resolved(format, alpha, allow_lossy) == format,
        format is Avif && allow_lossy ==> resolved(format, alpha, allow_lossy) == format,
{
}

/// The extension of output follows its format: it is that of PNG where output is redirected, and
/// is otherwise left as it is if there is one. Directory and stem stay.
pub proof fn law_extension_follows_format(
    parent: Seq<char>,
    stem: Option<Seq<char>>,
    ext: Option<Option<Seq<char>>>,
    format: ImageFormat,
    alpha: bool,
    allow_lossy: bool,
)
    ensures
        ({
            let base: PathParts = (parent, Some((stem, ext)));
            let out = aligned(base, format, alpha, allow_lossy);
            &&& out.0 == parent
            &&& out.1 matches Some((s, e)) && s == stem && e is Some
            &&& resolved(format, alpha, allow_lossy) != format ==> out.1 == Some(
                (stem, Some(Some("png"@))),
            )
            &&& resolved(format, alpha, allow_lossy) == format && ext is Some ==> out == base
        }),
        aligned((parent, None), format, alpha, allow_lossy) == (parent, None::<NameParts>),
{
}

/// Output without an extension gets one that names its format.
pub proof fn law_added_extension_names_format(
    parent: Seq<char>,
    stem: Option<Seq<char>>,
    format: ImageFormat,
    alpha: bool,
    allow_lossy: bool,
)
    requires
        writable(format),
    ensures
        format_of(aligned((parent, Some((stem, None))), format, alpha, allow_lossy)) == Some(
            resolved(format, alpha, allow_lossy),
        ),
{
    let out = aligned((parent, Some((stem, None))), format, alpha, allow_lossy);
    let ext = out.1.unwrap().1.unwrap().unwrap();
    reveal_strlit("png");
    reveal_strlit("apng");
    reveal_strlit("jpg");
    reveal_strlit("jpeg");
    reveal_strlit("jfif");
    reveal_strlit("gif");
    reveal_strlit("webp");
    reveal_strlit("pbm");
    reveal_strlit("pam");
    reveal_strlit("ppm");
    reveal_strlit("pgm");
    reveal_strlit("pnm");
    reveal_strlit("tif");
    reveal_strlit("tiff");
    reveal_strlit("tga");
    reveal_strlit("dds");
    reveal_strlit("bmp");
    reveal_strlit("ico");
    reveal_strlit("hdr");
    reveal_strlit("exr");
    reveal_strlit("ff");
    reveal_strlit("avif");
    reveal_strlit("qoi");
    let low = ext.map_values(|c: char| lower(c));
    assert forall|i: int| 0 <= i < ext.len() implies low[i] == ext[i] by {
        assert('a' <= ext[i] <= 'z');
    }
    assert(low =~= ext);
    assert(resolved(format, alpha, allow_lossy) is Png ==> ext[0] == 'p' && ext[1] == 'n' && ext[2]
        == 'g');
    assert(resolved(format, alpha, allow_lossy) is Jpeg ==> ext[0] == 'j' && ext[1] == 'p');
    assert(format is Gif ==> ext[0] == 'g' || ext[0] == 'p');
    assert(resolved(format, alpha, allow_lossy) is WebP ==> ext[0] == 'w');
    assert(resolved(format, alpha, allow_lossy) is Pnm ==> ext[0] == 'p' && ext[1] == 'b');
    assert(resolved(format, alpha, allow_lossy) is Tiff ==> ext[0] == 't' && ext[1] == 'i');
    assert(resolved(format, alpha, allow_lossy) is Tga ==> ext[0] == 't' && ext[1] == 'g');
    assert(format is Bmp ==> ext[0] == 'b' || ext[0] == 'p');
    assert(resolved(format, alpha, allow_lossy) is Ico ==> ext[0] == 'i');
    assert(format is Hdr ==> ext[0] == 'h' || ext[0] == 'p');
    assert(resolved(format, alpha, allow_lossy) is OpenExr ==> ext[0] == 'e');
    assert(resolved(format, alpha, allow_lossy) is Farbfeld ==> ext[0] == 'f');
    assert(resolved(format, alpha, allow_lossy) is Avif ==> ext[0] == 'a' && ext[1] == 'v');
    assert(resolved(format, alpha, allow_lossy) is Qoi ==> ext[0] == 'q');
}

/// A path stands for the format that its extension names, and for none where it has no extension
/// that is Unicode.
pub proof fn law_format_by_extension(
    parent: Seq<char>,
    stem: Option<Seq<char>>,
    ext: Seq<char>,
)
    ensures
        format_of((parent, Some((stem, Some(Some(ext)))))) == format_named(
            Seq::new(ext.len(), |i: int| lower(ext[i])),
        ),
        format_of((parent, Some((stem, Some(None))))) is None,
        format_of((parent, Some((stem, None)))) is None,
        format_of((parent, None)) is None,
{
    assert(ext.map_values(|c: char| lower(c)) =~= Seq::new(ext.len(), |i: int| lower(ext[i])));
}

/// The case of an extension does not matter to the format that it names.
pub proof fn law_extension_case_is_ignored(a: PathParts, b: PathParts, x: Seq<char>, y: Seq<char>)
    requires
        extension_text(a) == Some(x),
        extension_text(b) == Some(y),
        x.len() == y.len(),
        forall|i: int|
            0 <= i < x.len() ==> x[i] == y[i] || ('A' <= x[i] <= 'Z' && y[i] as int == x[i] as int
                + 32),
    ensures
        format_of(a) == format_of(b),
{
    let p = x.map_values(|c: char| lower(c));
    let q = y.map_values(|c: char| lower(c));
    assert forall|i: int| 0 <= i < x.len() implies p[i] == q[i] by {
        if x[i] != y[i] {
            assert(lower(x[i]) == y[i]);
        }
    }
    assert(p =~= q);
}

/// Where output is planned: a file of an input directory keeps its own name under the output
/// directory and its own format; a single file is written to the output path that is given, in the
/// format its extension names if it names one, and else next to itself.
pub proof fn law_plan_goes_where_asked(
    input: PathParts,
    output: Option<PathParts>,
    output_dir: Option<Seq<char>>,
    input_format: ImageFormat,
)
    ensures
        output_dir matches Some(dir) ==> start_of(input, output, output_dir, true) == (
            dir,
            input.1,
        ),
        output matches Some(path) ==> start_of(input, output, output_dir, false) == path,
        output is None ==> start_of(input, output, output_dir, false) == input,
        requested(output, input_format, true) == input_format,
        requested(None, input_format, false) == input_format,
        output matches Some(path) ==> match format_of(path) {
            Some(format) => requested(output, input_format, false) == format,
            None => requested(output, input_format, false) == input_format,
        },
{
}

/// When output is refused: a directory needs an output directory, takes no output path, and its
/// files need names; a single file takes no output directory; and DDS and PCX cannot be written.
pub proof fn law_refusals(
    input: PathParts,
    output: Option<PathParts>,
    output_dir: Option<Seq<char>>,
    format: ImageFormat,
    input_is_dir: bool,
)
    ensures
        ({
            let r = refusal(input, output, output_dir, format, input_is_dir);
            &&& r == Some(PlanError::OutputDirRequired) <==> input_is_dir && output_dir is None
            &&& r == Some(PlanError::OutputForDirectory) <==> input_is_dir && output_dir is Some
                && output is Some
            &&& r == Some(PlanError::NoFileName) <==> input_is_dir && output_dir is Some
                && output is None && input.1 is None
            &&& r == Some(PlanError::OutputDirForFile) <==> !input_is_dir && output_dir is Some
            &&& r matches Some(PlanError::NotWritable(f)) ==> f == format && !(format is Png
                || format is Jpeg || format is Gif || format is WebP || format is Pnm
                || format is Tiff || format is Tga || format is Bmp || format is Ico
                || format is Hdr || format is OpenExr || format is Farbfeld || format is Avif
                || format is Qoi)
            &&& r is None ==> !(format is Dds)
            &&& (!input_is_dir && output_dir is None || input_is_dir && output_dir is Some
                && output is None && input.1 is Some) && format is Dds ==> r == Some(
                PlanError::NotWritable(format),
            )
        }),
{
}

/// A file name without a dot behind its first character has no extension; every other one has.
pub proof fn law_extension_needs_a_dot(s: Seq<char>)
    ensures
        parsed(s).1 is None <==> forall|i: int| 1 <= i < s.len() ==> s[i] != '.',
{
    lemma_last_dot(s, s.len() as int);
}

/// The text of a file name is its stem, and where it has an extension a dot and that; there is
/// none where a part is not Unicode.
pub proof fn law_name_text(
    stem: Option<Seq<char>>,
    ext: Option<Option<Seq<char>>>,
)
    ensures
        rendered((stem, ext)) is None <==> stem is None || ext == Some(None::<Seq<char>>),
        stem is Some && ext is None ==> rendered((stem, ext)) == stem,
        match (stem, ext) {
            (Some(s), Some(Some(e))) => {
                let t = rendered((stem, ext)).unwrap();
                &&& t.len() == s.len() + 1 + e.len()
                &&& t.subrange(0, s.len() as int) == s
                &&& t[s.len() as int] == '.'
                &&& t.subrange(s.len() as int + 1, t.len() as int) == e
            },
            _ => true,
        },
{
    match (stem, ext) {
        (Some(s), Some(Some(e))) => {
            let t = rendered((stem, ext)).unwrap();
            assert(t.subrange(0, s.len() as int) =~= s);
            assert(t.subrange(s.len() as int + 1, t.len() as int) =~= e);
        },
        _ => {},
    }
}

/// A suffixed file name is the stem, or `output` where there is none that is Unicode, then the
/// suffix, then, behind a dot, the extension if there is one that is Unicode. The directory stays.
pub proof fn law_suffixed_name(path: PathParts, suffix: Seq<char>)
    ensures
        suffixed_parts(path, suffix).0 == path.0,
        ({
            let stem = match path.1 {
                Some((Some(s), _)) => s,
                _ => seq!['o', 'u', 't', 'p', 'u', 't'],
            };
            let text = rendered(suffixed_parts(path, suffix).1.unwrap()).unwrap();
            &&& begins_with(text, stem + suffix)
            &&& match path.1 {
                Some((_, Some(Some(ext)))) => text == stem + suffix + seq!['.'] + ext,
                _ => text == stem + suffix,
            }
        }),
{
    reveal_strlit("output");
    assert("output"@ =~= seq!['o', 'u', 't', 'p', 'u', 't']);
    let text = suffixed(stem_or_output(path), suffix, extension_text(path));
    lemma_parsed_rendered(text);
    let lead = stem_or_output(path) + suffix;
    assert(text.subrange(0, lead.len() as int) =~= lead);
}

/// Giving a path another extension leaves its directory and its stem.
pub proof fn law_other_extension_keeps_the_rest(path: PathParts, ext: Seq<char>)
    ensures
        with_extension(path, ext).0 == path.0,
        path.1 is None ==> with_extension(path, ext) == path,
        path.1 matches Some((stem, _)) ==> with_extension(path, ext).1 == Some(
            (stem, Some(Some(ext))),
        ),
{
}

/// A text begins with a prefix exactly where it is that prefix with something behind it.
pub proof fn law_prefix_is_what_it_begins_with(s: Seq<char>, prefix: Seq<char>)
    ensures
        begins_with(s, prefix) <==> exists|rest: Seq<char>| s == #[trigger] (prefix + rest),
{
    if begins_with(s, prefix) {
        let rest = s.subrange(prefix.len() as int, s.len() as int);
        assert(s =~= prefix + rest);
    }
    if exists|rest: Seq<char>| s == #[trigger] (prefix + rest) {
        let rest = choose|rest: Seq<char>| s == #[trigger] (prefix + rest);
        assert(s.subrange(0, prefix.len() as int) =~= prefix);
    }
}

/// An output of an input is a file whose name is the stem, an underscore and something behind it.
pub proof fn law_outputs_have_the_prefix(entry: DirEntry, stem: Seq<char>, name: Seq<char>)
    requires
        text_of(entry.name) == Some(name),
    ensures
        is_output(entry, stem + seq!['_']) <==> entry.is_file && exists|rest: Seq<char>|
            name == #[trigger] (stem + seq!['_'] + rest),
{
    law_prefix_is_what_it_begins_with(name, stem + seq!['_']);
}

/// An input of a directory is a file whose extension names a format.
pub proof fn law_inputs_are_image_files(entry: DirEntry)
    ensures
        is_input(entry) ==> entry.is_file && extension_text(entry.path@) is Some,
        !entry.is_file ==> !is_input(entry),
        entry.is_file && format_of(entry.path@) is Some ==> is_input(entry),
{
}

/// Joined texts are the first one, the separator, and the others joined.
pub proof fn law_joined_from_the_front(first: String, rest: Seq<String>, sep: Seq<char>)
    ensures
        joined(Seq::empty(), sep).len() == 0,
        joined(seq![first], sep) == first@,
        rest.len() > 0 ==> joined(seq![first] + rest, sep) == first@ + sep + joined(rest, sep),
    decreases rest.len(),
{
    if rest.len() > 0 {
        let whole = seq![first] + rest;
        assert(whole.drop_last() =~= seq![first] + rest.drop_last());
        if rest.len() == 1 {
            assert(whole.drop_last() =~= seq![first]);
            assert(whole.last() == rest[0]);
            assert(joined(seq![first], sep) == first@);
            assert(joined(rest, sep) == rest[0]@);
            assert(joined(whole, sep) == first@ + sep + rest[0]@);
            assert(joined(whole, sep) =~= first@ + sep + joined(rest, sep));
        } else {
            law_joined_from_the_front(first, rest.drop_last(), sep);
            assert(whole.last() == rest.last());
            assert(joined(whole, sep) == joined(whole.drop_last(), sep) + sep + rest.last()@);
            assert(joined(rest, sep) == joined(rest.drop_last(), sep) + sep + rest.last()@);
            assert(joined(whole, sep) =~= first@ + sep + joined(rest, sep));
        }
    }
}

/// A number is written in digits, with a leading zero only where it is zero.
pub proof fn law_decimal_form(n: int, i: int)
    requires
        0 <= n,
        0 <= i < decimal_of(n).len(),
    ensures
        '0' <= decimal_of(n)[i] <= '9',
        n > 0 ==> decimal_of(n)[0] != '0',
    decreases n,
{
    if n >= 10 {
        lemma_decimal_value(n / 10);
        if i < decimal_of(n / 10).len() {
            law_decimal_form(n / 10, i);
        }
        law_decimal_form(n / 10, 0);
    }
}

/// Writing one more digit behind a number multiplies it by ten and adds that digit; digits are the
/// characters from `0` on.
pub proof fn law_decimal_digits(n: int, d: int)
    requires
        0 <= n,
        0 <= d < 10,
    ensures
        decimal_of(d).len() == 1,
        decimal_of(d)[0] as int == 48 + d,
        n > 0 ==> decimal_of(10 * n + d) == decimal_of(n) + decimal_of(d),
{
    if n > 0 {
        assert((10 * n + d) / 10 == n);
        assert((10 * n + d) % 10 == d);
        assert(decimal_of(10 * n + d) =~= decimal_of(n) + decimal_of(d));
    }
}

/// Ascending places have ascending names; equal names keep their order.
pub proof fn law_ascending_names(order: Seq<usize>, names: Seq<Vec<u8>>, i: int, j: int)
    requires
        ascends(order, names),
        0 <= i < j < order.len(),
    ensures
        names[order[i] as int]@ != names[order[j] as int]@ ==> name_before(
            names[order[i] as int]@,
            names[order[j] as int]@,
        ),
        names[order[i] as int]@ == names[order[j] as int]@ ==> order[i] < order[j],
{
    assert(comes_first(names, order[i], order[j]));
    if names[order[i] as int]@ == names[order[j] as int]@ {
        lemma_total(names[order[i] as int]@, names[order[j] as int]@, 0);
    }
}

/// What is given is taken as it is, and what is not given stays so.
pub proof fn law_given_is_taken(path: &FilePath, text: &str, owned: String)
    ensures
        parts_of(Some(path)) == Some(path@),
        parts_of(None) is None,
        held(Some(text)) == Some(text@),
        held(None) is None,
        text_of(Some(owned)) == Some(owned@),
        text_of(None) is None,
        stem_of(*path) == match path.name {
            Some(FileName { stem: Some(stem), .. }) => Some(stem@),
            _ => None::<Seq<char>>,
        },
        extension_text(path@) == match path.name {
            Some(FileName { extension: Some(Some(ext)), .. }) => Some(ext@),
            _ => None::<Seq<char>>,
        },
        path@.0 == path.parent@,
{
}

/// Whether `a` comes before `b` is decided at the first byte in which they differ; a name comes
/// before those that it begins.
pub proof fn law_first_difference_decides(a: Seq<u8>, b: Seq<u8>, k: int)
    requires
        0 <= k <= a.len(),
        k <= b.len(),
        forall|i: int| 0 <= i < k ==> a[i] == b[i],
        k == a.len() || k == b.len() || a[k] != b[k],
    ensures
        name_before(a, b) <==> k < b.len() && (k == a.len() || a[k] < b[k]),
{
    lemma_skip_common(a, b, k);
}

proof fn lemma_skip_common(a: Seq<u8>, b: Seq<u8>, k: int)
    requires
        0 <= k <= a.len(),
        k <= b.len(),
        forall|i: int| 0 <= i < k ==> a[i] == b[i],
    ensures
        name_before(a, b) == before_from(a, b, k),
    decreases k,
{
    if k > 0 {
        lemma_skip_common(a, b, k - 1);
    }
}

/// The order of keys is that of the values: of two positive values (their top bit clear) the one
/// with the greater bits is greater, of two negative ones the one with the lesser bits, and every
/// negative value is less than every positive one.
pub proof fn law_keys_order_by_sign_and_magnitude(a: u64, b: u64)
    ensures
        a < 0x8000_0000_0000_0000 && b < 0x8000_0000_0000_0000 ==> (order_of(a) < order_of(b) <==> a
            < b),
        a >= 0x8000_0000_0000_0000 && b >= 0x8000_0000_0000_0000 ==> (order_of(a) < order_of(b)
            <==> a > b),
        a >= 0x8000_0000_0000_0000 && b < 0x8000_0000_0000_0000 ==> order_of(a) < order_of(b),
{
}

/// The last of the greatest keys is as great as any and greater than all behind it.
pub proof fn law_last_max_is_greatest(keys: Seq<i64>, m: int, i: int)
    requires
        is_last_max(keys, m),
        0 <= i < keys.len(),
    ensures
        0 <= m < keys.len(),
        keys[i] <= keys[m],
        i > m ==> keys[i] < keys[m],
{
}

/// The items that come before item `x` when longer ones come first and equally long ones keep
/// their order.
pub open spec fn ahead_of(keys: Seq<i64>, n: int, x: int) -> Set<int> {
    Set::new(
        |v: int| 0 <= v < n && (keys[v] > keys[x] || (keys[v] == keys[x] && v < x)),
    )
}

proof fn lemma_rank(order: Seq<usize>, keys: Seq<i64>, n: int, p: int)
    requires
        by_length(order, keys, n),
        n <= keys.len() <= usize::MAX,
        0 <= p < n,
    ensures
        ahead_of(keys, n, order[p] as int).finite(),
        ahead_of(keys, n, order[p] as int).len() == p,
{
    let lead = order.subrange(0, p).map_values(|u: usize| u as int);
    let set = ahead_of(keys, n, order[p] as int);
    assert forall|i: int, j: int| 0 <= i < p && 0 <= j < p && i != j implies lead[i] != lead[j] by {
        if i < j {
            assert(longer(keys, order[i], order[j]));
        } else {
            assert(longer(keys, order[j], order[i]));
        }
    }
    lead.unique_seq_to_set();
    assert(lead.to_set() =~= set) by {
        assert forall|v: int| lead.to_set().contains(v) == set.contains(v) by {
            if lead.to_set().contains(v) {
                let i = choose|i: int| 0 <= i < lead.len() && lead[i] == v;
                assert(longer(keys, order[i], order[p]));
            }
            if set.contains(v) {
                lemma_lists_all(order, keys, n, v as usize);
                let i = choose|i: int| 0 <= i < n && #[trigger] order[i] == v as usize;
                if i > p {
                    assert(longer(keys, order[p], order[i]));
                }
                assert(lead[i] == v);
            }
        }
    }
}

/// What is sampled, by how many items are longer: of up to five items all of them, longest first;
/// of more the two longest, the median and the two shortest.
pub proof fn law_samples_by_rank(order: Seq<usize>, keys: Seq<i64>, n: int, k: int)
    requires
        by_length(order, keys, n),
        n <= keys.len() <= usize::MAX,
        0 <= k < sampled(order).len(),
    ensures
        n <= 5 ==> sampled(order).len() == n && ahead_of(keys, n, sampled(order)[k] as int).len()
            == k,
        n > 5 ==> sampled(order).len() == 5 && ahead_of(keys, n, sampled(order)[k] as int).len()
            == (if k == 0 {
            0
        } else if k == 1 {
            1
        } else if k == 2 {
            n / 2
        } else if k == 3 {
            n - 2
        } else {
            n - 1
        }),
{
    if n <= 5 {
        lemma_rank(order, keys, n, k);
    } else {
        lemma_rank(order, keys, n, 0);
        lemma_rank(order, keys, n, 1);
        lemma_rank(order, keys, n, n / 2);
        lemma_rank(order, keys, n, n - 2);
        lemma_rank(order, keys, n, n - 1);
    }
}

/// The providers are tried as CUDA, DirectML, CPU, and what is reported names the provider, what
/// was to be loaded and the error.
pub proof fn law_providers(what: Seq<char>, error: Seq<char>)
    ensures
        preference().len() == 3,
        preference()[0] is Cuda,
        preference()[1] is DirectMl,
        preference()[2] is Cpu,
        failure_text(Provider::Cuda, what, error) == "CUDA "@ + what + ": "@ + error,
        failure_text(Provider::DirectMl, what, error) == "DirectML "@ + what + ": "@ + error,
        failure_text(Provider::Cpu, what, error) == "CPU "@ + what + ": "@ + error,
{
    reveal_strlit("CUDA");
    reveal_strlit("CUDA ");
    reveal_strlit("DirectML");
    reveal_strlit("DirectML ");
    reveal_strlit("CPU");
    reveal_strlit("CPU ");
    reveal_strlit(" ");
    assert("CUDA"@ + " "@ =~= "CUDA "@);
    assert("DirectML"@ + " "@ =~= "DirectML "@);
    assert("CPU"@ + " "@ =~= "CPU "@);
}

/// An angle's summary begins with the angle and names its source; one from text tells the lines
/// that agree, all the lines and the agreement in this order. Without an angle there is nothing to
/// tell.
pub proof fn law_notes_tell_angle_and_source(
    angle: Seq<char>,
    inliers: int,
    total: int,
    agreement: Seq<char>,
)
    ensures
        ({
            let note = base_note(Some(angle), AngleSource::Text, inliers, total, agreement);
            let lead = angle + "° (text, "@ + decimal_of(inliers);
            let middle = lead + "/"@ + decimal_of(total);
            &&& begins_with(note, lead)
            &&& begins_with(note, middle)
            &&& note == middle + " boxes, agree "@ + agreement + "%)"@
        }),
        base_note(Some(angle), AngleSource::Mask, inliers, total, agreement) == angle
            + "° (mask geometry)"@,
        forall|source: AngleSource| #[trigger]
            base_note(None, source, inliers, total, agreement) == "n/a"@,
{
    let note = base_note(Some(angle), AngleSource::Text, inliers, total, agreement);
    let lead = angle + "° (text, "@ + decimal_of(inliers);
    let middle = lead + "/"@ + decimal_of(total);
    assert(note.subrange(0, lead.len() as int) =~= lead);
    assert(note.subrange(0, middle.len() as int) =~= middle);
}

} // verus!
