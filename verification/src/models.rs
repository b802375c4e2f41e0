//! Per-family model adapters (RITM, FocalClick, MobileSAM): family names,
//! part lookup and backend loading, the input/output conventions of the
//! ONNX exports (layout and schema detection, input and output name
//! resolution, shape checks) and the prompt encodings each family feeds
//! its network.

use vstd::prelude::*;
use crate::config::{first_part, part_path, parts_distinct};
use crate::runtime::{backend_error_text, Backend, BackendError, ExecutionProvider, RuntimeConfig};
use crate::text::{
    contains_str, debug_name_list, debug_names, decimal, has_substring, lowercase, push_decimal,
    push_usize_list, str_eq, strs, to_lower, usize_list_text, views,
};
use crate::types::{BBox, Capabilities, GrayImage, Point2, Polarity, Prompt, SegError};

verus! {

/// Display label of a model family, when the family is known.
pub open spec fn family_label_text(family: Seq<char>) -> Option<Seq<char>> {
    if family == "ritm"@ {
        Some("RITM"@)
    } else if family == "focalclick"@ {
        Some("FocalClick"@)
    } else if family == "mobile_sam"@ {
        Some("MobileSAM"@)
    } else if family == "efficient_sam"@ {
        Some("EfficientSAM"@)
    } else if family == "sam2_tiny"@ {
        Some("SAM2-Tiny"@)
    } else {
        None
    }
}

/// The human-readable label of a registry `family`.
///
/// Fails with `InvalidInput("unknown model family `<family>`")` for a
/// family no adapter knows.
pub fn family_label(family: &str) -> (r: Result<&'static str, SegError>)
    ensures
        match family_label_text(family@) {
            Some(l) => r is Ok && r->Ok_0@ == l,
            None => match r {
                Err(SegError::InvalidInput(m)) => m@ == "unknown model family `"@ + family@ + "`"@,
                _ => false,
            },
        },
{
    if str_eq(family, "ritm") {
        Ok("RITM")
    } else if str_eq(family, "focalclick") {
        Ok("FocalClick")
    } else if str_eq(family, "mobile_sam") {
        Ok("MobileSAM")
    } else if str_eq(family, "efficient_sam") {
        Ok("EfficientSAM")
    } else if str_eq(family, "sam2_tiny") {
        Ok("SAM2-Tiny")
    } else {
        let mut m = String::from_str("unknown model family `");
        m.append(family);
        m.append("`");
        Err(SegError::InvalidInput(m))
    }
}

/// Axis order of an image encoder's input.
#[derive(Debug, Clone, Copy, PartialEq, Eq, Structural)]
pub enum EncoderLayout {
    Nchw,
    Chw,
    Nhwc,
    Hwc,
}

/// Layout of an encoder input of declared shape `shape`: 4-D is NHWC when
/// the last axis is 3 and NCHW otherwise, 3-D is HWC when the last axis is
/// 3 and CHW otherwise; anything else is taken as NCHW.
pub open spec fn layout_of(shape: Seq<i64>) -> EncoderLayout {
    if shape.len() == 4 {
        if shape[3] == 3 {
            EncoderLayout::Nhwc
        } else {
            EncoderLayout::Nchw
        }
    } else if shape.len() == 3 {
        if shape[2] == 3 {
            EncoderLayout::Hwc
        } else {
            EncoderLayout::Chw
        }
    } else {
        EncoderLayout::Nchw
    }
}

/// Classify the declared input shape of an image encoder (dynamic axes are
/// negative).
pub fn classify_encoder_layout(shape: &[i64]) -> (l: EncoderLayout)
    ensures
        l == layout_of(shape@),
{
    let n = shape.len();
    if n == 4 {
        if shape[3] == 3 {
            EncoderLayout::Nhwc
        } else {
            EncoderLayout::Nchw
        }
    } else if n == 3 {
        if shape[2] == 3 {
            EncoderLayout::Hwc
        } else {
            EncoderLayout::Chw
        }
    } else {
        EncoderLayout::Nchw
    }
}

/// `name`, lowercased, contains one of `needles`.
pub open spec fn matches_any(name: Seq<char>, needles: Seq<Seq<char>>) -> bool {
    exists|j: int| 0 <= j < needles.len() && #[trigger] has_substring(lowercase(name), needles[j])
}

/// `i` is the first of `names` that matches one of `needles`.
pub open spec fn is_first_match(names: Seq<Seq<char>>, needles: Seq<Seq<char>>, i: int) -> bool {
    &&& 0 <= i < names.len()
    &&& matches_any(names[i], needles)
    &&& forall|j: int| 0 <= j < i ==> !matches_any(#[trigger] names[j], needles)
}

/// None of `names` matches any of `needles`.
pub open spec fn no_match(names: Seq<Seq<char>>, needles: Seq<Seq<char>>) -> bool {
    forall|i: int| 0 <= i < names.len() ==> !matches_any(#[trigger] names[i], needles)
}

/// Index of the first of `names` matching one of `needles`.
pub open spec fn first_match(names: Seq<Seq<char>>, needles: Seq<Seq<char>>) -> Option<int> {
    if no_match(names, needles) {
        None
    } else {
        Some(choose|i: int| is_first_match(names, needles, i))
    }
}

proof fn lemma_first_match(names: Seq<Seq<char>>, needles: Seq<Seq<char>>, i: int)
    requires
        is_first_match(names, needles, i),
    ensures
        first_match(names, needles) == Some(i),
{
    let k = choose|k: int| is_first_match(names, needles, k);
    assert(is_first_match(names, needles, k));
    if k < i {
        assert(!matches_any(names[k], needles));
    } else if i < k {
        assert(!matches_any(names[i], needles));
    }
}

proof fn lemma_min_match(names: Seq<Seq<char>>, needles: Seq<Seq<char>>, k: int)
    requires
        0 <= k < names.len(),
        matches_any(names[k], needles),
    ensures
        exists|i: int| is_first_match(names, needles, i),
    decreases k,
{
    if exists|j: int| 0 <= j < k && matches_any(#[trigger] names[j], needles) {
        let j = choose|j: int| 0 <= j < k && matches_any(#[trigger] names[j], needles);
        lemma_min_match(names, needles, j);
    } else {
        assert(is_first_match(names, needles, k));
    }
}

/// What `first_match` gives is the first match.
pub proof fn lemma_first_match_is_first(names: Seq<Seq<char>>, needles: Seq<Seq<char>>)
    ensures
        match first_match(names, needles) {
            Some(i) => is_first_match(names, needles, i),
            None => no_match(names, needles),
        },
{
    if !no_match(names, needles) {
        let k = choose|k: int| 0 <= k < names.len() && !!matches_any(#[trigger] names[k], needles);
        lemma_min_match(names, needles, k);
    }
}

/// Whether `name`, lowercased, contains one of `needles`.
fn name_matches(name: &str, needles: &[&str]) -> (b: bool)
    ensures
        b == matches_any(name@, strs(needles@)),
{
    let lc = to_lower(name);
    let mut j: usize = 0;
    while j < needles.len()
        invariant
            j <= needles@.len(),
            lc@ == lowercase(name@),
            forall|k: int| 0 <= k < j ==> !has_substring(lowercase(name@), #[trigger] strs(needles@)[k]),
        decreases needles@.len() - j,
    {
        if contains_str(lc.as_str(), needles[j]) {
            assert(has_substring(lowercase(name@), strs(needles@)[j as int]));
            return true;
        }
        j = j + 1;
    }
    false
}

/// Index of the first of `names` that, lowercased, contains one of
/// `needles`.
pub fn first_match_index(names: &[String], needles: &[&str]) -> (r: Option<usize>)
    ensures
        match r {
            Some(i) => i < names@.len() && first_match(views(names@), strs(needles@)) == Some(
                i as int,
            ),
            None => first_match(views(names@), strs(needles@)) is None,
        },
{
    let ghost vn = views(names@);
    let ghost vs = strs(needles@);
    let mut i: usize = 0;
    while i < names.len()
        invariant
            i <= names@.len(),
            vn == views(names@),
            vs == strs(needles@),
            forall|j: int| 0 <= j < i ==> !matches_any(#[trigger] vn[j], vs),
        decreases names@.len() - i,
    {
        if name_matches(names[i].as_str(), needles) {
            proof {
                lemma_first_match(vn, vs, i as int);
            }
            return Some(i);
        }
        i = i + 1;
    }
    None
}

/// The first declared input whose lowercased name contains one of
/// `needles`, if any.
pub fn find_input(declared: &[String], needles: &[&str]) -> (r: Option<String>)
    ensures
        match first_match(views(declared@), strs(needles@)) {
            Some(i) => r is Some && r->Some_0@ == declared@[i]@,
            None => r is None,
        },
{
    match first_match_index(declared, needles) {
        Some(i) => Some(declared[i].clone()),
        None => None,
    }
}

/// The name chosen for one network input: the first declared name matching
/// `needles`, else the declared name at position `fallback`.
pub open spec fn chosen_name(names: Seq<Seq<char>>, needles: Seq<Seq<char>>, fallback: int) -> Seq<
    char,
> {
    match first_match(names, needles) {
        Some(i) => names[i],
        None => names[fallback],
    }
}

/// Pick an input name by `needles`, falling back to position `fallback`.
fn choose_input(declared: &[String], needles: &[&str], fallback: usize) -> (r: String)
    requires
        fallback < declared@.len(),
    ensures
        r@ == chosen_name(views(declared@), strs(needles@), fallback as int),
{
    proof {
        lemma_first_match_is_first(views(declared@), strs(needles@));
    }
    match find_input(declared, needles) {
        Some(n) => n,
        None => declared[fallback].clone(),
    }
}

/// Which ONNX convention a RITM export follows.
#[derive(Debug, Clone, Copy, PartialEq, Eq, Structural)]
pub enum RitmSchema {
    /// Separate `image [1,3,H,W]`, `click_map [1,2,H,W]`,
    /// `prev_mask [1,1,H,W]` inputs.
    Separate,
    /// A 4-channel `image` (image and previous mask), a `points` list and
    /// a `size` input.
    Fused4ch,
}

/// A declared input that carries clicks: its lowercased name contains
/// `"click"` or is `"points"`.
pub open spec fn is_click_input(name: Seq<char>) -> bool {
    has_substring(lowercase(name), "click"@) || lowercase(name) == "points"@
}

/// Schema of a RITM export from its declared input names and the shape of
/// its first input: a 4-channel first input is fused; a 3-channel one with
/// a click-carrying sibling is separate; anything else is taken as fused.
pub open spec fn schema_of(names: Seq<Seq<char>>, first_shape: Seq<i64>) -> RitmSchema {
    let channels = if first_shape.len() > 1 {
        first_shape[1] as int
    } else {
        -1
    };
    if channels == 4 {
        RitmSchema::Fused4ch
    } else if channels == 3 && exists|i: int| 0 <= i < names.len() && is_click_input(#[trigger] names[i]) {
        RitmSchema::Separate
    } else {
        RitmSchema::Fused4ch
    }
}

/// Detect the schema of a RITM export from its declared inputs (names in
/// order, and the shape of the first). Fails when it declares no input.
pub fn detect_schema(input_names: &[String], first_shape: &[i64]) -> (r: Result<RitmSchema, SegError>)
    ensures
        input_names@.len() == 0 ==> match r {
            Err(SegError::Backend(m)) => m@ == "RITM ONNX declares no inputs"@,
            _ => false,
        },
        input_names@.len() > 0 ==> r == Ok::<RitmSchema, SegError>(
            schema_of(views(input_names@), first_shape@),
        ),
{
    if input_names.len() == 0 {
        return Err(SegError::Backend(String::from_str("RITM ONNX declares no inputs")));
    }
    let channels: i64 = if first_shape.len() > 1 {
        first_shape[1]
    } else {
        -1
    };
    if channels == 4 {
        return Ok(RitmSchema::Fused4ch);
    }
    if channels != 3 {
        return Ok(RitmSchema::Fused4ch);
    }
    let ghost vn = views(input_names@);
    let mut i: usize = 0;
    while i < input_names.len()
        invariant
            i <= input_names@.len(),
            vn == views(input_names@),
            channels == 3,
            channels == (if first_shape@.len() > 1 {
                first_shape@[1] as int
            } else {
                -1
            }),
            forall|j: int| 0 <= j < i ==> !is_click_input(#[trigger] vn[j]),
        decreases input_names@.len() - i,
    {
        let lc = to_lower(input_names[i].as_str());
        if contains_str(lc.as_str(), "click") || str_eq(lc.as_str(), "points") {
            assert(is_click_input(vn[i as int]));
            return Ok(RitmSchema::Separate);
        }
        i = i + 1;
    }
    Ok(RitmSchema::Fused4ch)
}

/// Text of the error for an export declaring fewer than three inputs.
pub open spec fn too_few_inputs_text(prefix: Seq<char>, names: Seq<Seq<char>>) -> Seq<char> {
    prefix + " expected ≥3 inputs, declared "@ + decimal(names.len()) + " ("@ + debug_names(names)
        + ")"@
}

/// The error for an export declaring fewer than three inputs.
fn too_few_inputs(prefix: &str, declared: &[String]) -> (e: SegError)
    ensures
        match e {
            SegError::Backend(m) => m@ == too_few_inputs_text(prefix@, views(declared@)),
            _ => false,
        },
{
    let mut m = String::from_str(prefix);
    m.append(" expected ≥3 inputs, declared ");
    push_decimal(&mut m, declared.len() as u64);
    m.append(" (");
    let d = debug_name_list(declared);
    m.append(d.as_str());
    m.append(")");
    assert(views(declared@).len() == declared@.len());
    SegError::Backend(m)
}

/// Names of the three inputs of a separate-schema RITM export.
#[derive(Debug, Clone, PartialEq, Eq)]
pub struct ResolvedInputs {
    pub image: String,
    pub click_map: String,
    pub prev_mask: String,
}

/// Needles naming the image input.
pub open spec fn image_needles() -> Seq<Seq<char>> {
    seq!["image"@, "input"@]
}

/// Needles naming the click-map input.
pub open spec fn click_needles() -> Seq<Seq<char>> {
    seq!["click"@, "point"@]
}

/// Needles naming the previous-mask input.
pub open spec fn prev_mask_needles() -> Seq<Seq<char>> {
    seq!["prev"@, "mask"@, "pred_in"@]
}

/// Resolve the input names of a separate-schema RITM export: image by
/// `image|input`, click map by `click|point`, previous mask by
/// `prev|mask|pred_in` (case-insensitive substrings), each falling back to
/// declared position 0, 1, 2. Fails when fewer than three inputs are
/// declared.
pub fn resolve_input_names(declared: &[String]) -> (r: Result<ResolvedInputs, SegError>)
    ensures
        declared@.len() < 3 ==> match r {
            Err(SegError::Backend(m)) => m@ == too_few_inputs_text("RITM ONNX"@, views(declared@)),
            _ => false,
        },
        declared@.len() >= 3 ==> match r {
            Ok(n) => n.image@ == chosen_name(views(declared@), image_needles(), 0) && n.click_map@
                == chosen_name(views(declared@), click_needles(), 1) && n.prev_mask@
                == chosen_name(views(declared@), prev_mask_needles(), 2),
            Err(_) => false,
        },
{
    if declared.len() < 3 {
        return Err(too_few_inputs("RITM ONNX", declared));
    }
    let image_n: [&str; 2] = ["image", "input"];
    let click_n: [&str; 2] = ["click", "point"];
    let prev_n: [&str; 3] = ["prev", "mask", "pred_in"];
    assert(strs(image_n@) =~= image_needles());
    assert(strs(click_n@) =~= click_needles());
    assert(strs(prev_n@) =~= prev_mask_needles());
    let image = choose_input(declared, &image_n, 0);
    let click_map = choose_input(declared, &click_n, 1);
    let prev_mask = choose_input(declared, &prev_n, 2);
    Ok(ResolvedInputs { image, click_map, prev_mask })
}

/// Names of the three inputs of a fused-schema RITM export.
#[derive(Debug, Clone, PartialEq, Eq)]
pub struct FusedInputs {
    pub image: String,
    pub points: String,
    pub size: String,
}

/// Needles naming the points input of a fused export.
pub open spec fn points_needles() -> Seq<Seq<char>> {
    seq!["point"@, "click"@]
}

/// Needles naming the size input of a fused export.
pub open spec fn size_needles() -> Seq<Seq<char>> {
    seq!["size"@, "shape"@]
}

/// Resolve the input names of a fused-schema RITM export: image by
/// `image|input`, points by `point|click`, size by `size|shape`, each
/// falling back to declared position 0, 1, 2. Fails when fewer than three
/// inputs are declared.
pub fn resolve_fused_input_names(declared: &[String]) -> (r: Result<FusedInputs, SegError>)
    ensures
        declared@.len() < 3 ==> match r {
            Err(SegError::Backend(m)) => m@ == too_few_inputs_text(
                "Fused4ch RITM"@,
                views(declared@),
            ),
            _ => false,
        },
        declared@.len() >= 3 ==> match r {
            Ok(n) => n.image@ == chosen_name(views(declared@), image_needles(), 0) && n.points@
                == chosen_name(views(declared@), points_needles(), 1) && n.size@ == chosen_name(
                views(declared@),
                size_needles(),
                2,
            ),
            Err(_) => false,
        },
{
    if declared.len() < 3 {
        return Err(too_few_inputs("Fused4ch RITM", declared));
    }
    let image_n: [&str; 2] = ["image", "input"];
    let points_n: [&str; 2] = ["point", "click"];
    let size_n: [&str; 2] = ["size", "shape"];
    assert(strs(image_n@) =~= image_needles());
    assert(strs(points_n@) =~= points_needles());
    assert(strs(size_n@) =~= size_needles());
    let image = choose_input(declared, &image_n, 0);
    let points = choose_input(declared, &points_n, 1);
    let size = choose_input(declared, &size_n, 2);
    Ok(FusedInputs { image, points, size })
}

/// The click points of `prompts` of polarity `pol`, in order: each click,
/// and each sample of each scribble; boxes contribute none.
pub open spec fn click_points<C>(prompts: Seq<Prompt<C>>, pol: Polarity) -> Seq<Point2<C>>
    decreases prompts.len(),
{
    if prompts.len() == 0 {
        Seq::empty()
    } else {
        click_points(prompts.drop_last(), pol) + match prompts.last() {
            Prompt::Click { point, polarity } => if polarity == pol {
                seq![point]
            } else {
                Seq::empty()
            },
            Prompt::Scribble { points, polarity } => if polarity == pol {
                points@
            } else {
                Seq::empty()
            },
            Prompt::Box(_) => Seq::empty(),
        }
    }
}

/// The points a prompt contributes to the click list of polarity `pol`
/// (`None` when it contributes to the other list or is a box), read off
/// the prompt itself.
pub open spec fn prompt_samples<C>(p: Prompt<C>, pol: Polarity) -> Option<Seq<Point2<C>>> {
    match p {
        Prompt::Click { point, polarity } => if polarity == pol {
            Some(seq![point])
        } else {
            None
        },
        Prompt::Scribble { points, polarity } => if polarity == pol {
            Some(points@)
        } else {
            None
        },
        Prompt::Box(_) => None,
    }
}

/// Every point of the click list of polarity `pol` comes from a click or
/// scribble of that polarity: it is the click's point or one of the
/// scribble's samples.
pub proof fn lemma_click_points_origin<C>(prompts: Seq<Prompt<C>>, pol: Polarity, j: int)
    requires
        0 <= j < click_points(prompts, pol).len(),
    ensures
        exists|i: int|
            0 <= i < prompts.len() && match #[trigger] prompts[i] {
                Prompt::Click { point, polarity } => polarity == pol && point
                    == click_points(prompts, pol)[j],
                Prompt::Scribble { points, polarity } => polarity == pol && points@.contains(
                    click_points(prompts, pol)[j],
                ),
                Prompt::Box(_) => false,
            },
    decreases prompts.len(),
{
    let init = prompts.drop_last();
    let cp = click_points(prompts, pol);
    let prev = click_points(init, pol);
    if j < prev.len() {
        lemma_click_points_origin(init, pol, j);
        let i = choose|i: int|
            0 <= i < init.len() && match #[trigger] init[i] {
                Prompt::Click { point, polarity } => polarity == pol && point == prev[j],
                Prompt::Scribble { points, polarity } => polarity == pol && points@.contains(prev[j]),
                Prompt::Box(_) => false,
            };
        assert(prompts[i] == init[i]);
        assert(cp[j] == prev[j]);
    } else {
        let i = prompts.len() - 1;
        assert(prompts[i] == prompts.last());
        match prompts.last() {
            Prompt::Scribble { points, polarity } => {
                assert(cp[j] == points@[j - prev.len()]);
            },
            _ => {},
        }
    }
}

/// Each click or scribble of polarity `pol` appears whole, in order, in
/// the click list of that polarity, right after the points of the prompts
/// before it.
pub proof fn lemma_click_points_keep<C>(prompts: Seq<Prompt<C>>, pol: Polarity, i: int)
    requires
        0 <= i < prompts.len(),
        prompt_samples(prompts[i], pol) is Some,
    ensures
        ({
            let own = prompt_samples(prompts[i], pol)->Some_0;
            let off = click_points(prompts.take(i), pol).len();
            &&& off + own.len() <= click_points(prompts, pol).len()
            &&& forall|k: int|
                0 <= k < own.len() ==> click_points(prompts, pol)[off + k] == #[trigger] own[k]
        }),
    decreases prompts.len(),
{
    let init = prompts.drop_last();
    if i < prompts.len() - 1 {
        assert(init[i] == prompts[i]);
        assert(init.take(i) =~= prompts.take(i));
        lemma_click_points_keep(init, pol, i);
    } else {
        assert(prompts.take(i) =~= init);
    }
}

/// Number of points a prompt carries for polarity `pol`.
pub open spec fn samples_len<C>(p: Prompt<C>, pol: Polarity) -> nat {
    match prompt_samples(p, pol) {
        Some(s) => s.len(),
        None => 0,
    }
}

/// Total number of points the prompts of polarity `pol` carry.
pub open spec fn samples_count<C>(prompts: Seq<Prompt<C>>, pol: Polarity) -> nat
    decreases prompts.len(),
{
    if prompts.len() == 0 {
        0
    } else {
        samples_len(prompts[0], pol) + samples_count(prompts.drop_first(), pol)
    }
}

/// The click list of polarity `pol` holds exactly the points of the
/// prompts of that polarity: no point is dropped or added.
pub proof fn lemma_click_points_count<C>(prompts: Seq<Prompt<C>>, pol: Polarity)
    ensures
        click_points(prompts, pol).len() == samples_count(prompts, pol),
    decreases prompts.len(),
{
    if prompts.len() > 0 {
        lemma_samples_count_last(prompts, pol);
        lemma_click_points_count(prompts.drop_last(), pol);
    }
}

proof fn lemma_samples_count_last<C>(prompts: Seq<Prompt<C>>, pol: Polarity)
    requires
        prompts.len() > 0,
    ensures
        samples_count(prompts, pol) == samples_count(prompts.drop_last(), pol) + samples_len(
            prompts.last(),
            pol,
        ),
    decreases prompts.len(),
{
    if prompts.len() > 1 {
        let t = prompts.drop_first();
        lemma_samples_count_last(t, pol);
        assert(t.drop_last() =~= prompts.drop_last().drop_first());
        assert(prompts.drop_last()[0] == prompts[0]);
        assert(t.last() == prompts.last());
        assert(samples_count(prompts.drop_last(), pol) == samples_len(prompts[0], pol) + samples_count(
            t.drop_last(),
            pol,
        ));
    } else {
        assert(prompts.drop_last().len() == 0);
        assert(prompts.drop_first().len() == 0);
        assert(samples_count(prompts.drop_first(), pol) == 0);
        assert(samples_count(prompts.drop_last(), pol) == 0);
        assert(prompts[0] == prompts.last());
    }
}

/// Split the click points of `prompts` by polarity, keeping their order.
pub fn split_clicks<C: Copy>(prompts: &[Prompt<C>]) -> (r: (Vec<Point2<C>>, Vec<Point2<C>>))
    ensures
        r.0@ == click_points(prompts@, Polarity::Positive),
        r.1@ == click_points(prompts@, Polarity::Negative),
{
    let mut pos: Vec<Point2<C>> = Vec::new();
    let mut neg: Vec<Point2<C>> = Vec::new();
    let mut i: usize = 0;
    while i < prompts.len()
        invariant
            i <= prompts@.len(),
            pos@ == click_points(prompts@.take(i as int), Polarity::Positive),
            neg@ == click_points(prompts@.take(i as int), Polarity::Negative),
        decreases prompts@.len() - i,
    {
        let ghost p0 = pos@;
        let ghost n0 = neg@;
        match &prompts[i] {
            Prompt::Click { point, polarity } => {
                match polarity {
                    Polarity::Positive => pos.push(*point),
                    Polarity::Negative => neg.push(*point),
                }
            },
            Prompt::Scribble { points, polarity } => {
                let mut k: usize = 0;
                while k < points.len()
                    invariant
                        k <= points@.len(),
                        *polarity == Polarity::Positive ==> pos@ == p0 + points@.take(k as int)
                            && neg@ == n0,
                        *polarity == Polarity::Negative ==> neg@ == n0 + points@.take(k as int)
                            && pos@ == p0,
                    decreases points@.len() - k,
                {
                    match polarity {
                        Polarity::Positive => pos.push(points[k]),
                        Polarity::Negative => neg.push(points[k]),
                    }
                    proof {
                        assert(points@.take(k + 1) =~= points@.take(k as int).push(points@[k as int]));
                    }
                    k = k + 1;
                }
                assert(points@.take(points@.len() as int) =~= points@);
            },
            Prompt::Box(_) => {},
        }
        proof {
            let t = prompts@.take(i + 1);
            assert(t.drop_last() =~= prompts@.take(i as int));
            assert(t.last() == prompts@[i as int]);
            assert(pos@ =~= click_points(t, Polarity::Positive));
            assert(neg@ =~= click_points(t, Polarity::Negative));
        }
        i = i + 1;
    }
    assert(prompts@.take(prompts@.len() as int) =~= prompts@);
    (pos, neg)
}

/// One row of the points input of a fused RITM export: a click with its
/// position in click order within its polarity, or an unused slot.
#[derive(Debug, Clone, Copy, PartialEq)]
pub enum PointRow<C> {
    Click { point: Point2<C>, index: usize },
    Unused,
}

/// Rows per polarity half: the larger click count, at least 1.
pub open spec fn points_half(np: int, nn: int) -> int {
    if np >= nn && np >= 1 {
        np
    } else if nn >= 1 {
        nn
    } else {
        1
    }
}

/// Row `k` of the points input: the first half holds the positive clicks,
/// the second the negative ones, each numbered in click order from 0
/// within its half; the rest of each half is unused.
pub open spec fn point_row_at<C>(pos: Seq<Point2<C>>, neg: Seq<Point2<C>>, k: int) -> PointRow<C> {
    let half = points_half(pos.len() as int, neg.len() as int);
    if k < half {
        if k < pos.len() {
            PointRow::Click { point: pos[k], index: k as usize }
        } else {
            PointRow::Unused
        }
    } else {
        if k - half < neg.len() {
            PointRow::Click { point: neg[k - half], index: (k - half) as usize }
        } else {
            PointRow::Unused
        }
    }
}

/// Lay out the points input of a fused RITM export: `2 * half` rows,
/// positive clicks first then negative clicks, each half padded with
/// unused rows (see [`point_row_at`]).
pub fn build_point_rows<C: Copy>(prompts: &[Prompt<C>]) -> (rows: Vec<PointRow<C>>)
    requires
        click_points(prompts@, Polarity::Positive).len() + click_points(
            prompts@,
            Polarity::Negative,
        ).len() < usize::MAX / 2,
    ensures
        rows@.len() == 2 * points_half(
            click_points(prompts@, Polarity::Positive).len() as int,
            click_points(prompts@, Polarity::Negative).len() as int,
        ),
        forall|k: int|
            0 <= k < rows@.len() ==> #[trigger] rows@[k] == point_row_at(
                click_points(prompts@, Polarity::Positive),
                click_points(prompts@, Polarity::Negative),
                k,
            ),
{
    let (pos, neg) = split_clicks(prompts);
    let np = pos.len();
    let nn = neg.len();
    let half: usize = if np >= nn && np >= 1 {
        np
    } else if nn >= 1 {
        nn
    } else {
        1
    };
    let total = 2 * half;
    let mut rows: Vec<PointRow<C>> = Vec::new();
    let mut k: usize = 0;
    while k < total
        invariant
            k <= total,
            total == 2 * half,
            half as int == points_half(pos@.len() as int, neg@.len() as int),
            np == pos@.len(),
            nn == neg@.len(),
            np + nn < usize::MAX / 2,
            rows@.len() == k,
            forall|j: int| 0 <= j < k ==> #[trigger] rows@[j] == point_row_at(pos@, neg@, j),
        decreases total - k,
    {
        let row = if k < half {
            if k < np {
                PointRow::Click { point: pos[k], index: k }
            } else {
                PointRow::Unused
            }
        } else if k - half < nn {
            PointRow::Click { point: neg[k - half], index: k - half }
        } else {
            PointRow::Unused
        };
        rows.push(row);
        k = k + 1;
    }
    rows
}

/// Point label of the MobileSAM decoder.
#[derive(Debug, Clone, Copy, PartialEq, Eq, Structural)]
pub enum SamPointLabel {
    /// Background click (code 0).
    Negative,
    /// Foreground click (code 1).
    Positive,
    /// Top-left corner of a box (code 2).
    BoxTopLeft,
    /// Bottom-right corner of a box (code 3).
    BoxBottomRight,
}

/// Numeric code of a decoder point label.
pub open spec fn sam_label_code(l: SamPointLabel) -> u8 {
    match l {
        SamPointLabel::Negative => 0,
        SamPointLabel::Positive => 1,
        SamPointLabel::BoxTopLeft => 2,
        SamPointLabel::BoxBottomRight => 3,
    }
}

/// Numeric code of a decoder point label: 0 negative, 1 positive, 2 and 3
/// the two corners of a box.
pub fn label_code(l: SamPointLabel) -> (c: u8)
    ensures
        c == sam_label_code(l),
{
    match l {
        SamPointLabel::Negative => 0,
        SamPointLabel::Positive => 1,
        SamPointLabel::BoxTopLeft => 2,
        SamPointLabel::BoxBottomRight => 3,
    }
}

/// The decoder points of `prompts`, in order: a click is one point
/// labelled by its polarity, a box is its two corners; scribbles are not
/// taken.
pub open spec fn sam_points<C>(prompts: Seq<Prompt<C>>) -> Seq<(Point2<C>, SamPointLabel)>
    decreases prompts.len(),
{
    if prompts.len() == 0 {
        Seq::empty()
    } else {
        sam_points(prompts.drop_last()) + match prompts.last() {
            Prompt::Click { point, polarity } => seq![
                (
                    point,
                    if polarity == Polarity::Positive {
                        SamPointLabel::Positive
                    } else {
                        SamPointLabel::Negative
                    },
                ),
            ],
            Prompt::Box(b) => seq![
                (Point2 { x: b.x0, y: b.y0 }, SamPointLabel::BoxTopLeft),
                (Point2 { x: b.x1, y: b.y1 }, SamPointLabel::BoxBottomRight),
            ],
            Prompt::Scribble { .. } => Seq::empty(),
        }
    }
}

/// Encode prompts as MobileSAM decoder points (see [`sam_points`]); the
/// caller maps each point into encoder coordinates.
pub fn encode_prompts<C: Copy>(prompts: &[Prompt<C>]) -> (pts: Vec<(Point2<C>, SamPointLabel)>)
    ensures
        pts@ == sam_points(prompts@),
{
    let mut pts: Vec<(Point2<C>, SamPointLabel)> = Vec::new();
    let mut i: usize = 0;
    while i < prompts.len()
        invariant
            i <= prompts@.len(),
            pts@ == sam_points(prompts@.take(i as int)),
        decreases prompts@.len() - i,
    {
        let ghost p0 = pts@;
        match &prompts[i] {
            Prompt::Click { point, polarity } => {
                let l = match polarity {
                    Polarity::Positive => SamPointLabel::Positive,
                    Polarity::Negative => SamPointLabel::Negative,
                };
                pts.push((*point, l));
            },
            Prompt::Box(b) => {
                pts.push((Point2::new(b.x0, b.y0), SamPointLabel::BoxTopLeft));
                pts.push((Point2::new(b.x1, b.y1), SamPointLabel::BoxBottomRight));
            },
            Prompt::Scribble { .. } => {},
        }
        proof {
            let t = prompts@.take(i + 1);
            assert(t.drop_last() =~= prompts@.take(i as int));
            assert(t.last() == prompts@[i as int]);
            assert(pts@ =~= sam_points(t));
        }
        i = i + 1;
    }
    assert(prompts@.take(prompts@.len() as int) =~= prompts@);
    pts
}

/// `prefix` followed by the `Debug` text of `shape`.
fn shape_text(prefix: &str, shape: &[usize]) -> (m: String)
    ensures
        m@ == prefix@ + usize_list_text(shape@),
{
    let mut m = String::from_str(prefix);
    push_usize_list(&mut m, shape);
    m
}

/// Check the `masks` output of the MobileSAM decoder, `[1, K, H, W]` with
/// at least one mask, and give its `(H, W)`; the first mask is used.
pub fn masks_dims(shape: &[usize]) -> (r: Result<(usize, usize), SegError>)
    ensures
        shape@.len() != 4 ==> match r {
            Err(SegError::Backend(m)) => m@ == "expected 4-D masks, got "@ + usize_list_text(shape@),
            _ => false,
        },
        shape@.len() == 4 && (shape@[0] != 1 || shape@[1] == 0) ==> match r {
            Err(SegError::Backend(m)) => m@ == "unexpected masks shape "@ + usize_list_text(shape@),
            _ => false,
        },
        shape@.len() == 4 && shape@[0] == 1 && shape@[1] != 0 ==> r == Ok::<
            (usize, usize),
            SegError,
        >((shape@[2], shape@[3])),
{
    if shape.len() != 4 {
        return Err(SegError::Backend(shape_text("expected 4-D masks, got ", shape)));
    }
    if shape[0] != 1 || shape[1] == 0 {
        return Err(SegError::Backend(shape_text("unexpected masks shape ", shape)));
    }
    Ok((shape[2], shape[3]))
}

/// Read an image embedding shape as `[N, C, H, W]`: a 4-D shape as is, a
/// 3-D one with a batch of 1 in front; anything else fails.
pub fn embedding_dims(shape: &[usize]) -> (r: Result<[usize; 4], SegError>)
    ensures
        shape@.len() == 4 ==> r is Ok && r->Ok_0@ == shape@,
        shape@.len() == 3 ==> r is Ok && r->Ok_0@ == seq![1usize].add(shape@),
        shape@.len() != 3 && shape@.len() != 4 ==> match r {
            Err(SegError::Backend(m)) => m@ == "expected 3-D or 4-D embedding, got shape "@
                + usize_list_text(shape@),
            _ => false,
        },
{
    if shape.len() == 4 {
        let d = [shape[0], shape[1], shape[2], shape[3]];
        assert(d@ =~= shape@);
        Ok(d)
    } else if shape.len() == 3 {
        let d = [1, shape[0], shape[1], shape[2]];
        assert(d@ =~= seq![1usize].add(shape@));
        Ok(d)
    } else {
        Err(SegError::Backend(shape_text("expected 3-D or 4-D embedding, got shape ", shape)))
    }
}

/// Resolution of a RITM `instances` output.
#[derive(Debug, Clone, Copy, PartialEq, Eq, Structural)]
pub enum InstancesAt {
    /// Already at the source image size; used as is.
    Source,
    /// At the network canvas; the padding is cropped off and the rest
    /// resized to the source image size.
    Canvas,
}

/// Text of the error for an `instances` output at an unexpected size.
pub open spec fn instances_size_text(h: usize, w: usize, th: usize, tw: usize, oh: usize, ow: usize) -> Seq<
    char,
> {
    "instances returned at "@ + decimal(h as nat) + "x"@ + decimal(w as nat) + "; expected canvas "@
        + decimal(th as nat) + "x"@ + decimal(tw as nat) + " or original "@ + decimal(oh as nat)
        + "x"@ + decimal(ow as nat)
}

/// Check a RITM `instances` output of shape `shape` holding `data_len`
/// values, for a source image `orig_h`×`orig_w` letterboxed onto a
/// `target_h`×`target_w` canvas. It must be `[1, 1, H, W]`, hold at least
/// `H * W` values, and be at the source size (checked first) or at the
/// canvas size.
pub fn instances_plan(
    shape: &[usize],
    data_len: usize,
    orig_h: usize,
    orig_w: usize,
    target_h: usize,
    target_w: usize,
) -> (r: Result<InstancesAt, SegError>)
    requires
        shape@.len() == 4 && shape@[0] == 1 && shape@[1] == 1 ==> shape@[2] * shape@[3]
            <= usize::MAX,
    ensures
        shape@.len() != 4 ==> match r {
            Err(SegError::Backend(m)) => m@ == "expected 4-D instances, got "@ + usize_list_text(
                shape@,
            ),
            _ => false,
        },
        shape@.len() == 4 && (shape@[0] != 1 || shape@[1] != 1) ==> match r {
            Err(SegError::Backend(m)) => m@ == "unexpected instances shape "@ + usize_list_text(
                shape@,
            ) + " (want [1, 1, H, W])"@,
            _ => false,
        },
        shape@.len() == 4 && shape@[0] == 1 && shape@[1] == 1 && data_len < shape@[2] * shape@[3]
            ==> match r {
            Err(SegError::Backend(m)) => m@ == "instances buffer length "@ + decimal(data_len as nat)
                + " < expected "@ + decimal((shape@[2] * shape@[3]) as nat) + " for shape "@
                + usize_list_text(shape@),
            _ => false,
        },
        shape@.len() == 4 && shape@[0] == 1 && shape@[1] == 1 && data_len >= shape@[2] * shape@[3]
            ==> {
            let h = shape@[2];
            let w = shape@[3];
            if h == orig_h && w == orig_w {
                r == Ok::<InstancesAt, SegError>(InstancesAt::Source)
            } else if h == target_h && w == target_w {
                r == Ok::<InstancesAt, SegError>(InstancesAt::Canvas)
            } else {
                match r {
                    Err(SegError::Backend(m)) => m@ == instances_size_text(
                        h,
                        w,
                        target_h,
                        target_w,
                        orig_h,
                        orig_w,
                    ),
                    _ => false,
                }
            }
        },
{
    if shape.len() != 4 {
        return Err(SegError::Backend(shape_text("expected 4-D instances, got ", shape)));
    }
    if shape[0] != 1 || shape[1] != 1 {
        let mut m = shape_text("unexpected instances shape ", shape);
        m.append(" (want [1, 1, H, W])");
        return Err(SegError::Backend(m));
    }
    let h = shape[2];
    let w = shape[3];
    let expected = h * w;
    if data_len < expected {
        let mut m = String::from_str("instances buffer length ");
        push_decimal(&mut m, data_len as u64);
        m.append(" < expected ");
        push_decimal(&mut m, expected as u64);
        m.append(" for shape ");
        push_usize_list(&mut m, shape);
        return Err(SegError::Backend(m));
    }
    if h == orig_h && w == orig_w {
        Ok(InstancesAt::Source)
    } else if h == target_h && w == target_w {
        Ok(InstancesAt::Canvas)
    } else {
        let mut m = String::from_str("instances returned at ");
        push_decimal(&mut m, h as u64);
        m.append("x");
        push_decimal(&mut m, w as u64);
        m.append("; expected canvas ");
        push_decimal(&mut m, target_h as u64);
        m.append("x");
        push_decimal(&mut m, target_w as u64);
        m.append(" or original ");
        push_decimal(&mut m, orig_h as u64);
        m.append("x");
        push_decimal(&mut m, orig_w as u64);
        Err(SegError::Backend(m))
    }
}

/// Index of the output to read among outputs named `names` (in session
/// order): the first whose lowercased name contains one of `preferred`,
/// else the first output; `None` when there is no output.
pub fn pick_output(names: &[String], preferred: &[&str]) -> (r: Option<usize>)
    ensures
        match first_match(views(names@), strs(preferred@)) {
            Some(i) => r == Some(i as usize),
            None => if names@.len() > 0 {
                r == Some(0usize)
            } else {
                r is None
            },
        },
{
    match first_match_index(names, preferred) {
        Some(i) => Some(i),
        None => if names.len() > 0 {
            Some(0)
        } else {
            None
        },
    }
}

/// Output names a RITM logits output is recognised by.
pub open spec fn logits_needles() -> Seq<Seq<char>> {
    seq!["instances"@, "pred"@, "mask"@, "logits"@, "output"@]
}

/// Index of the logits output of a RITM run (see [`pick_output`], with
/// `instances|pred|mask|logits|output`).
pub fn pick_logits_output(names: &[String]) -> (r: Option<usize>)
    ensures
        match first_match(views(names@), logits_needles()) {
            Some(i) => r == Some(i as usize),
            None => if names@.len() > 0 {
                r == Some(0usize)
            } else {
                r is None
            },
        },
{
    let preferred: [&str; 5] = ["instances", "pred", "mask", "logits", "output"];
    assert(strs(preferred@) =~= logits_needles());
    pick_output(names, &preferred)
}

/// Index of the embedding output of the MobileSAM encoder (see
/// [`pick_output`], with `embedding`).
pub fn pick_embedding_output(names: &[String]) -> (r: Option<usize>)
    ensures
        match first_match(views(names@), seq!["embedding"@]) {
            Some(i) => r == Some(i as usize),
            None => if names@.len() > 0 {
                r == Some(0usize)
            } else {
                r is None
            },
        },
{
    let preferred: [&str; 1] = ["embedding"];
    assert(strs(preferred@) =~= seq!["embedding"@]);
    pick_output(names, &preferred)
}

/// Index of the first output named `name`, ignoring case.
pub fn find_named_output(names: &[String], name: &str) -> (r: Option<usize>)
    ensures
        match r {
            Some(i) => i < names@.len() && lowercase(names@[i as int]@) == lowercase(name@) && forall|
                j: int,
            | 0 <= j < i ==> lowercase(#[trigger] names@[j]@) != lowercase(name@),
            None => forall|j: int|
                0 <= j < names@.len() ==> lowercase(#[trigger] names@[j]@) != lowercase(name@),
        },
{
    let lc = to_lower(name);
    let mut i: usize = 0;
    while i < names.len()
        invariant
            i <= names@.len(),
            lc@ == lowercase(name@),
            forall|j: int| 0 <= j < i ==> lowercase(#[trigger] names@[j]@) != lowercase(name@),
        decreases names@.len() - i,
    {
        let other = to_lower(names[i].as_str());
        if str_eq(other.as_str(), lc.as_str()) {
            return Some(i);
        }
        i = i + 1;
    }
    None
}

/// A copy of an image.
fn copy_image(img: &GrayImage) -> (c: GrayImage)
    ensures
        c.width == img.width,
        c.height == img.height,
        c.data@ == img.data@,
{
    let mut data: Vec<u8> = Vec::new();
    let mut i: usize = 0;
    while i < img.data.len()
        invariant
            i <= img.data@.len(),
            data@ == img.data@.take(i as int),
        decreases img.data@.len() - i,
    {
        data.push(img.data[i]);
        proof {
            assert(img.data@.take(i + 1) =~= img.data@.take(i as int).push(img.data@[i as int]));
        }
        i = i + 1;
    }
    assert(img.data@.take(img.data@.len() as int) =~= img.data@);
    GrayImage { width: img.width, height: img.height, data }
}

/// The FocalClick adapter. Its network is not wired yet: it advertises
/// its capabilities and keeps the image it is given.
#[derive(Debug)]
pub struct FocalClickSegmenter {
    name: String,
    input_size: (u32, u32),
    image: Option<GrayImage>,
}

impl FocalClickSegmenter {
    /// Display name.
    pub closed spec fn spec_name(&self) -> Seq<char> {
        self.name@
    }

    /// Canvas `(height, width)` the network was exported for.
    pub closed spec fn spec_input_size(&self) -> (u32, u32) {
        self.input_size
    }

    /// The image set last, as `(width, height, pixels)`.
    pub closed spec fn spec_image(&self) -> Option<(u32, u32, Seq<u8>)> {
        match self.image {
            Some(i) => Some((i.width, i.height, i.data@)),
            None => None,
        }
    }

    /// Build the adapter for a square `input_size` canvas. Nothing is
    /// loaded yet, so the parts and the runtime configuration are not
    /// read and construction always succeeds.
    pub fn from_parts(
        name: String,
        parts: &Vec<(String, String)>,
        input_size: u32,
        config: &RuntimeConfig,
    ) -> (r: Result<FocalClickSegmenter, SegError>)
        ensures
            r is Ok,
            r->Ok_0.spec_name() == name@,
            r->Ok_0.spec_input_size() == (input_size, input_size),
            r->Ok_0.spec_image() is None,
    {
        Ok(FocalClickSegmenter { name, input_size: (input_size, input_size), image: None })
    }

    /// Display name.
    pub fn name(&self) -> (n: &str)
        ensures
            n@ == self.spec_name(),
    {
        self.name.as_str()
    }

    /// Clicks of both polarities, scribbles and a prior mask; no boxes.
    pub fn capabilities(&self) -> (c: Capabilities)
        ensures
            c.positive_clicks,
            c.negative_clicks,
            !c.bbox,
            c.scribble,
            c.mask_input,
            c.recommended_input_size == self.spec_input_size(),
    {
        Capabilities {
            positive_clicks: true,
            negative_clicks: true,
            bbox: false,
            scribble: true,
            mask_input: true,
            recommended_input_size: self.input_size,
        }
    }

    /// Keep a copy of `image` for the next segmentation.
    pub fn set_image(&mut self, image: &GrayImage) -> (r: Result<(), SegError>)
        ensures
            r is Ok,
            final(self).spec_image() == Some((image.width, image.height, image.data@)),
            final(self).spec_name() == old(self).spec_name(),
            final(self).spec_input_size() == old(self).spec_input_size(),
    {
        self.image = Some(copy_image(image));
        Ok(())
    }
}

/// Load the part at `path`, wrapping a failure as a `Backend` error whose
/// text is `prefix` followed by the backend error's text.
fn load_part(path: &String, config: &RuntimeConfig, prefix: &str) -> (r: Result<Backend, SegError>)
    ensures
        match r {
            Ok(b) => b.spec_model_path() == path@ && b.spec_execution_provider()
                == ExecutionProvider::Cpu,
            Err(SegError::Backend(m)) => m@ == prefix@ + "model file not found: "@ + path@,
            Err(_) => false,
        },
{
    match Backend::load(path.clone(), config) {
        Ok(b) => Ok(b),
        Err(e) => {
            let mut m = String::from_str(prefix);
            let t = e.message();
            m.append(t.as_str());
            Err(SegError::Backend(m))
        },
    }
}

/// The RITM adapter: the loaded network and the canvas it was exported
/// for.
#[derive(Debug)]
pub struct RitmSegmenter {
    name: String,
    input_h: u32,
    input_w: u32,
    backend: Backend,
}

impl RitmSegmenter {
    /// Display name.
    pub closed spec fn spec_name(&self) -> Seq<char> {
        self.name@
    }

    /// Network canvas `(height, width)`.
    pub closed spec fn spec_input_shape(&self) -> (u32, u32) {
        (self.input_h, self.input_w)
    }

    /// The loaded network.
    pub closed spec fn spec_backend(&self) -> Backend {
        self.backend
    }

    /// Build the adapter for a square `input_size` canvas from the part
    /// named `"model"` (see [`RitmSegmenter::from_parts_with_shape`]).
    pub fn from_parts(
        name: String,
        parts: &Vec<(String, String)>,
        input_size: u32,
        config: &RuntimeConfig,
    ) -> (r: Result<RitmSegmenter, SegError>)
        requires
            parts_distinct(parts@),
        ensures
            first_part(parts@, "model"@) is None ==> match r {
                Err(SegError::InvalidInput(m)) => m@ == "RITM needs a 'model' part"@,
                _ => false,
            },
            first_part(parts@, "model"@) is Some ==> match r {
                Ok(s) => s.spec_name() == name@ && s.spec_input_shape() == (input_size, input_size)
                    && s.spec_backend().spec_model_path() == first_part(parts@, "model"@)->Some_0
                    && s.spec_backend().spec_execution_provider() == ExecutionProvider::Cpu,
                Err(SegError::Backend(m)) => m@ == "RITM model load: model file not found: "@
                    + first_part(parts@, "model"@)->Some_0,
                Err(_) => false,
            },
    {
        RitmSegmenter::from_parts_with_shape(name, parts, (input_size, input_size), config)
    }

    /// Build the adapter for an `(H, W)` canvas: find the part named
    /// `"model"` (`InvalidInput` when there is none) and load it
    /// (`Backend` error, prefixed `"RITM model load: "`, when that fails).
    pub fn from_parts_with_shape(
        name: String,
        parts: &Vec<(String, String)>,
        input_shape: (u32, u32),
        config: &RuntimeConfig,
    ) -> (r: Result<RitmSegmenter, SegError>)
        requires
            parts_distinct(parts@),
        ensures
            first_part(parts@, "model"@) is None ==> match r {
                Err(SegError::InvalidInput(m)) => m@ == "RITM needs a 'model' part"@,
                _ => false,
            },
            first_part(parts@, "model"@) is Some ==> match r {
                Ok(s) => s.spec_name() == name@ && s.spec_input_shape() == input_shape
                    && s.spec_backend().spec_model_path() == first_part(parts@, "model"@)->Some_0
                    && s.spec_backend().spec_execution_provider() == ExecutionProvider::Cpu,
                Err(SegError::Backend(m)) => m@ == "RITM model load: model file not found: "@
                    + first_part(parts@, "model"@)->Some_0,
                Err(_) => false,
            },
    {
        proof {
            reveal_strlit("RITM model load: ");
            reveal_strlit("model file not found: ");
            reveal_strlit("RITM model load: model file not found: ");
        }
        match part_path(parts, "model") {
            None => Err(SegError::InvalidInput(String::from_str("RITM needs a 'model' part"))),
            Some(p) => {
                let backend = load_part(p, config, "RITM model load: ")?;
                Ok(RitmSegmenter { name, input_h: input_shape.0, input_w: input_shape.1, backend })
            },
        }
    }

    /// Display name.
    pub fn name(&self) -> (n: &str)
        ensures
            n@ == self.spec_name(),
    {
        self.name.as_str()
    }

    /// Clicks of both polarities, scribbles and a prior mask; no boxes.
    /// The recommended size is given as `(width, height)`.
    pub fn capabilities(&self) -> (c: Capabilities)
        ensures
            c.positive_clicks,
            c.negative_clicks,
            !c.bbox,
            c.scribble,
            c.mask_input,
            c.recommended_input_size == (self.spec_input_shape().1, self.spec_input_shape().0),
    {
        Capabilities {
            positive_clicks: true,
            negative_clicks: true,
            bbox: false,
            scribble: true,
            mask_input: true,
            recommended_input_size: (self.input_w, self.input_h),
        }
    }
}

/// The MobileSAM adapter: the image encoder, the prompt decoder and the
/// square canvas they were exported for.
#[derive(Debug)]
pub struct MobileSamSegmenter {
    name: String,
    input_size: u32,
    encoder: Backend,
    decoder: Backend,
}

impl MobileSamSegmenter {
    /// Display name.
    pub closed spec fn spec_name(&self) -> Seq<char> {
        self.name@
    }

    /// Edge of the square canvas.
    pub closed spec fn spec_input_size(&self) -> u32 {
        self.input_size
    }

    /// The loaded encoder.
    pub closed spec fn spec_encoder(&self) -> Backend {
        self.encoder
    }

    /// The loaded decoder.
    pub closed spec fn spec_decoder(&self) -> Backend {
        self.decoder
    }

    /// Build the adapter from the parts named `"encoder"` and `"decoder"`:
    /// `InvalidInput` when one is missing (the encoder is looked up first),
    /// a `Backend` error prefixed `"encoder load: "` or `"decoder load: "`
    /// when loading fails (the encoder is loaded first).
    pub fn from_parts(
        name: String,
        parts: &Vec<(String, String)>,
        input_size: u32,
        config: &RuntimeConfig,
    ) -> (r: Result<MobileSamSegmenter, SegError>)
        requires
            parts_distinct(parts@),
        ensures
            first_part(parts@, "encoder"@) is None ==> match r {
                Err(SegError::InvalidInput(m)) => m@ == "MobileSAM needs an 'encoder' part"@,
                _ => false,
            },
            first_part(parts@, "encoder"@) is Some && first_part(parts@, "decoder"@) is None ==> match r {
                Err(SegError::InvalidInput(m)) => m@ == "MobileSAM needs a 'decoder' part"@,
                _ => false,
            },
            first_part(parts@, "encoder"@) is Some && first_part(parts@, "decoder"@) is Some ==> match r {
                Ok(s) => s.spec_name() == name@ && s.spec_input_size() == input_size
                    && s.spec_encoder().spec_model_path() == first_part(parts@, "encoder"@)->Some_0
                    && s.spec_decoder().spec_model_path() == first_part(parts@, "decoder"@)->Some_0
                    && s.spec_encoder().spec_execution_provider() == ExecutionProvider::Cpu
                    && s.spec_decoder().spec_execution_provider() == ExecutionProvider::Cpu,
                Err(SegError::Backend(m)) => m@ == "encoder load: model file not found: "@
                    + first_part(parts@, "encoder"@)->Some_0 || m@
                    == "decoder load: model file not found: "@ + first_part(parts@, "decoder"@)->Some_0,
                Err(_) => false,
            },
    {
        proof {
            reveal_strlit("encoder load: ");
            reveal_strlit("decoder load: ");
            reveal_strlit("model file not found: ");
            reveal_strlit("encoder load: model file not found: ");
            reveal_strlit("decoder load: model file not found: ");
        }
        let enc_path = match part_path(parts, "encoder") {
            Some(p) => p,
            None => {
                return Err(SegError::InvalidInput(String::from_str("MobileSAM needs an 'encoder' part")));
            },
        };
        let dec_path = match part_path(parts, "decoder") {
            Some(p) => p,
            None => {
                return Err(SegError::InvalidInput(String::from_str("MobileSAM needs a 'decoder' part")));
            },
        };
        let encoder = load_part(enc_path, config, "encoder load: ")?;
        let decoder = load_part(dec_path, config, "decoder load: ")?;
        Ok(MobileSamSegmenter { name, input_size, encoder, decoder })
    }

    /// Display name.
    pub fn name(&self) -> (n: &str)
        ensures
            n@ == self.spec_name(),
    {
        self.name.as_str()
    }

    /// Clicks of both polarities, boxes and a prior mask; no scribbles.
    pub fn capabilities(&self) -> (c: Capabilities)
        ensures
            c.positive_clicks,
            c.negative_clicks,
            c.bbox,
            !c.scribble,
            c.mask_input,
            c.recommended_input_size == (self.spec_input_size(), self.spec_input_size()),
    {
        Capabilities {
            positive_clicks: true,
            negative_clicks: true,
            bbox: true,
            scribble: false,
            mask_input: true,
            recommended_input_size: (self.input_size, self.input_size),
        }
    }
}

} // verus!
