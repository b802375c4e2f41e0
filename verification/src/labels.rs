//! The on-disk label format and its COCO export: provenance records,
//! label-directory naming, the per-label checks of the export and the
//! bookkeeping that numbers exported labels and counts skipped ones.
//!
//! One label is one segmented region on one image, stored as a directory
//! `labels/<id>/` holding `image.png`, `prompts.json`, `mask.png` and
//! `meta.toml` (optionally `logits.png` and `polygon.json`).

use vstd::prelude::*;
use crate::text::{
    decimal, lemma_name_lt_asymmetric, lemma_name_lt_total, lemma_name_lt_transitive, name_less,
    name_lt, push_decimal, views,
};
use crate::rle::{
    column_major_bits, count_true, encode_rle, is_tight_box, mask_bbox_and_area, rle_canonical,
    rle_decode, row_major_bits,
};

verus! {

/// On-disk schema version of labels written and read by this crate.
pub const SCHEMA_VERSION: &'static str = "1.0";

/// Operator's verdict on a label.
#[derive(Debug, Clone, Copy, PartialEq, Eq, Structural)]
pub enum LabelQuality {
    Good,
    NeedsReview,
    Reject,
}

/// On-disk name of a quality verdict.
pub open spec fn quality_text(q: LabelQuality) -> Seq<char> {
    match q {
        LabelQuality::Good => "good"@,
        LabelQuality::NeedsReview => "needs_review"@,
        LabelQuality::Reject => "reject"@,
    }
}

/// On-disk name of a quality verdict (see [`quality_text`]).
pub fn quality_str(q: LabelQuality) -> (s: &'static str)
    ensures
        s@ == quality_text(q),
{
    match q {
        LabelQuality::Good => "good",
        LabelQuality::NeedsReview => "needs_review",
        LabelQuality::Reject => "reject",
    }
}

/// Errors of label reading, writing and export. Errors of outside
/// libraries (I/O, TOML, JSON, image decoding) are carried as their text.
#[derive(Debug, Clone, PartialEq, Eq)]
pub enum LabelError {
    Io(String),
    TomlDe(String),
    TomlSer(String),
    Json(String),
    Image(String),
    /// A required file of a label directory is absent.
    MissingArtifact { label: String, artifact: &'static str },
    /// The mask does not fit the source image.
    MaskFormat(String),
    InvalidInput(String),
}

/// Which model produced a label.
#[derive(Debug, Clone, PartialEq, Eq)]
pub struct ModelProvenance {
    pub registry_name: String,
    pub family: String,
    pub encoder_sha256: Option<String>,
    pub decoder_sha256: Option<String>,
    pub model_sha256: Option<String>,
}

/// How the model was run.
#[derive(Debug, Clone, PartialEq, Eq)]
pub struct RuntimeProvenance {
    pub execution_provider: String,
    pub encoder_ms: Option<u64>,
    pub decoder_ms: u64,
    pub snapseg_commit: Option<String>,
}

/// The operator's note and verdict.
#[derive(Debug, Clone, PartialEq, Eq)]
pub struct OperatorNote {
    pub note: String,
    pub quality: LabelQuality,
}

/// Contents of a label's `meta.toml`.
#[derive(Debug, Clone, PartialEq, Eq)]
pub struct Provenance {
    pub schema_version: String,
    /// RFC 3339 creation time.
    pub created_at: String,
    pub source_image_sha256: String,
    pub source_image_path: Option<String>,
    pub source_image_width: u32,
    pub source_image_height: u32,
    pub model: ModelProvenance,
    pub runtime: RuntimeProvenance,
    pub operator: OperatorNote,
}

/// The note of an exported image:
/// `"<registry name> · <quality> · <commit, or - when unknown>"`.
pub open spec fn note_text(meta: Provenance) -> Seq<char> {
    meta.model.registry_name@ + " · "@ + quality_text(meta.operator.quality) + " · "@ + match meta.runtime.snapseg_commit {
        Some(c) => c@,
        None => "-"@,
    }
}

/// Build the human-readable note of an exported image.
pub fn build_note(meta: &Provenance) -> (s: String)
    ensures
        s@ == note_text(*meta),
{
    let mut s = meta.model.registry_name.clone();
    s.append(" · ");
    s.append(quality_str(meta.operator.quality));
    s.append(" · ");
    match &meta.runtime.snapseg_commit {
        Some(c) => s.append(c.as_str()),
        None => s.append("-"),
    }
    s
}

/// Text of the error raised when a mask's size differs from the source
/// image's.
pub open spec fn mask_size_text(mw: u32, mh: u32, sw: u32, sh: u32, label: Seq<char>) -> Seq<char> {
    "mask "@ + decimal(mw as nat) + "x"@ + decimal(mh as nat) + " does not match source "@
        + decimal(sw as nat) + "x"@ + decimal(sh as nat) + " in "@ + label
}

/// Check that a `mw`×`mh` mask fits the source image recorded in `meta`.
pub fn check_mask_size(mw: u32, mh: u32, meta: &Provenance, label: &str) -> (r: Result<(), LabelError>)
    ensures
        (mw == meta.source_image_width && mh == meta.source_image_height) <==> r is Ok,
        r is Err ==> match r {
            Err(LabelError::MaskFormat(m)) => m@ == mask_size_text(
                mw,
                mh,
                meta.source_image_width,
                meta.source_image_height,
                label@,
            ),
            _ => false,
        },
{
    if mw == meta.source_image_width && mh == meta.source_image_height {
        return Ok(());
    }
    let mut s = String::from_str("mask ");
    push_decimal(&mut s, mw as u64);
    s.append("x");
    push_decimal(&mut s, mh as u64);
    s.append(" does not match source ");
    push_decimal(&mut s, meta.source_image_width as u64);
    s.append("x");
    push_decimal(&mut s, meta.source_image_height as u64);
    s.append(" in ");
    s.append(label);
    Err(LabelError::MaskFormat(s))
}

/// The 8-bit luma image that a PNG byte string decodes to: its width, its
/// height and its row-major pixels; `None` when the bytes are not a PNG
/// that decodes.
pub uninterp spec fn luma8_of(png: Seq<u8>) -> Option<(u32, u32, Seq<u8>)>;

#[verifier::external_type_specification]
#[verifier::external_body]
pub struct ExImageError(image::ImageError);

/// Decode PNG bytes to an 8-bit luma image `(width, height, pixels)`.
///
/// Calls `image::load_from_memory_with_format(bytes, ImageFormat::Png)`,
/// then `DynamicImage::to_luma8` and `ImageBuffer::into_raw`. The contract
/// names the decoded image as a function of the bytes, and states two
/// facts of the `image` source: the pixel buffer of a luma image holds at
/// least width × height bytes, and the reader's default allocation limit
/// (512 MiB, reserved for width × height × bytes per pixel before
/// decoding) bounds width × height by 2^29.
#[verifier::external_body]
fn decode_png_luma8(bytes: &[u8]) -> (r: Result<(u32, u32, Vec<u8>), image::ImageError>)
    ensures
        match r {
            Ok(t) => {
                &&& luma8_of(bytes@) == Some((t.0, t.1, t.2@))
                &&& t.0 * t.1 <= t.2@.len()
                &&& t.0 * t.1 <= 0x2000_0000
            },
            Err(_) => luma8_of(bytes@) is None,
        },
{
    let img = image::load_from_memory_with_format(bytes, image::ImageFormat::Png)?.to_luma8();
    let (w, h) = img.dimensions();
    Ok((w, h, img.into_raw()))
}

/// The text of an image decoding error.
///
/// Calls `ToString::to_string` on the `image::ImageError` (its `Display`
/// text). Nothing is claimed of the text.
#[verifier::external_body]
fn image_error_text(e: &image::ImageError) -> String {
    e.to_string()
}

/// The uncompressed RLE segmentation of a label mask, with the mask's
/// size and its pixel bounding box `[x, y, width, height]` and area.
#[derive(Debug, Clone, PartialEq, Eq)]
pub struct MaskRle {
    pub width: u32,
    pub height: u32,
    pub counts: Vec<u32>,
    pub bbox: [u64; 4],
    pub area: u64,
}

/// `m` is the segmentation of the `w`×`h` row-major mask `pixels`: the
/// canonical RLE of its column-major foreground, its foreground pixel
/// count, and its tight bounding box (all zero when the mask is empty).
pub open spec fn is_mask_rle(m: MaskRle, w: u32, h: u32, pixels: Seq<u8>) -> bool {
    &&& m.width == w
    &&& m.height == h
    &&& rle_canonical(m.counts@)
    &&& rle_decode(m.counts@) == column_major_bits(pixels, h as nat, w as nat)
    &&& m.area == count_true(row_major_bits(pixels, h as nat, w as nat))
    &&& m.area == 0 ==> m.bbox@ == seq![0u64, 0, 0, 0]
    &&& m.area > 0 ==> is_tight_box(pixels, h as nat, w as nat, m.bbox)
}

/// The RLE segmentation, bounding box and area of a `width`×`height`
/// row-major mask.
pub fn mask_rle(width: u32, height: u32, pixels: &[u8]) -> (m: MaskRle)
    requires
        width * height <= pixels@.len(),
        width * height <= u32::MAX,
    ensures
        is_mask_rle(m, width, height, pixels@),
{
    let h = height as usize;
    let w = width as usize;
    assert(h * w == width * height) by (nonlinear_arith)
        requires
            h == height,
            w == width,
    ;
    let (bbox, area) = mask_bbox_and_area(pixels, h, w);
    let counts = encode_rle(pixels, h, w);
    MaskRle { width, height, counts, bbox, area }
}

/// The mask part of a label's COCO annotation, from the bytes of its
/// `mask.png`: the mask must decode (else `LabelError::Image`) and fit the
/// source image recorded in `meta` (else the error of
/// [`check_mask_size`]). When the label has a polygon the polygon is the
/// segmentation and the result is `None`; otherwise it is the mask's RLE
/// segmentation with its bounding box and area.
pub fn label_mask_annotation(
    mask_png: &[u8],
    meta: &Provenance,
    label: &str,
    has_polygon: bool,
) -> (r: Result<Option<MaskRle>, LabelError>)
    ensures
        match luma8_of(mask_png@) {
            None => r matches Err(LabelError::Image(_)),
            Some(t) => if t.0 == meta.source_image_width && t.1 == meta.source_image_height {
                match r {
                    Ok(Some(m)) => !has_polygon && is_mask_rle(m, t.0, t.1, t.2),
                    Ok(None) => has_polygon,
                    Err(_) => false,
                }
            } else {
                match r {
                    Err(LabelError::MaskFormat(s)) => s@ == mask_size_text(
                        t.0,
                        t.1,
                        meta.source_image_width,
                        meta.source_image_height,
                        label@,
                    ),
                    _ => false,
                }
            },
        },
{
    let (w, h, pixels) = match decode_png_luma8(mask_png) {
        Ok(t) => t,
        Err(e) => {
            return Err(LabelError::Image(image_error_text(&e)));
        },
    };
    match check_mask_size(w, h, meta, label) {
        Ok(()) => {},
        Err(e) => {
            return Err(e);
        },
    }
    if has_polygon {
        Ok(None)
    } else {
        Ok(Some(mask_rle(w, h, pixels.as_slice())))
    }
}

/// Final component of a path, when it has one.
pub uninterp spec fn path_file_name(p: Seq<char>) -> Option<Seq<char>>;

/// Final component of a path.
///
/// Calls `std::path::Path::file_name` (read back lossily as UTF-8); the
/// contract names its result as a function of the path text.
#[verifier::external_body]
fn file_name_of(p: &str) -> (r: Option<String>)
    ensures
        match r {
            Some(n) => path_file_name(p@) == Some(n@),
            None => path_file_name(p@) is None,
        },
{
    std::path::Path::new(p).file_name().map(|n| n.to_string_lossy().into_owned())
}

/// Id of the label stored in `label_dir`: the directory's final path
/// component, or `""` when the path has none.
pub fn label_id_from_dir(label_dir: &str) -> (id: String)
    ensures
        id@ == match path_file_name(label_dir@) {
            Some(n) => n,
            None => Seq::<char>::empty(),
        },
{
    match file_name_of(label_dir) {
        Some(n) => n,
        None => String::new(),
    }
}

/// Suffix of the directory of a label that is still being written.
pub open spec fn partial_suffix() -> Seq<char> {
    ".partial"@
}

/// A directory entry named `name` is a candidate label: it is not hidden
/// (leading `.`) and not an in-progress write (trailing `.partial`).
pub open spec fn is_label_dir_name_spec(name: Seq<char>) -> bool {
    &&& !(name.len() > 0 && name[0] == '.')
    &&& !(name.len() >= partial_suffix().len() && name.subrange(
        name.len() - partial_suffix().len(),
        name.len() as int,
    ) == partial_suffix())
}

/// Whether a directory entry named `name` may hold a label.
pub fn is_label_dir_name(name: &str) -> (b: bool)
    ensures
        b == is_label_dir_name_spec(name@),
{
    proof {
        reveal_strlit(".partial");
    }
    let n = name.unicode_len();
    if n > 0 && name.get_char(0) == '.' {
        return false;
    }
    let suffix = ".partial";
    let m = suffix.unicode_len();
    if n < m {
        return true;
    }
    let mut k: usize = 0;
    while k < m
        invariant
            m == suffix@.len(),
            !(n > 0 && name@[0] == '.'),
            n >= m,
            n == name@.len(),
            suffix@ == partial_suffix(),
            k <= m,
            forall|j: int| 0 <= j < k ==> name@[n - m + j] == suffix@[j],
        decreases m - k,
    {
        if name.get_char(n - m + k) != suffix.get_char(k) {
            assert(name@.subrange(n - m, n as int)[k as int] != partial_suffix()[k as int]);
            assert(name@.subrange(n - m, n as int) != partial_suffix());
            return true;
        }
        k = k + 1;
    }
    assert(name@.subrange(n - m, n as int) =~= partial_suffix());
    false
}

/// Names in non-decreasing [`name_lt`] order.
pub open spec fn names_sorted(s: Seq<Seq<char>>) -> bool {
    forall|i: int, j: int| 0 <= i < j < s.len() ==> !name_lt(#[trigger] s[j], #[trigger] s[i])
}

/// The label directory names in the order the export visits them: sorted
/// by name, so that the export is the same on every run.
pub fn sort_label_names(names: &Vec<String>) -> (out: Vec<String>)
    ensures
        views(out@).to_multiset() == views(names@).to_multiset(),
        names_sorted(views(out@)),
{
    let mut out: Vec<String> = Vec::new();
    let mut i: usize = 0;
    assert(views(names@).take(0) =~= Seq::<Seq<char>>::empty());
    assert(views(out@) =~= Seq::<Seq<char>>::empty());
    while i < names.len()
        invariant
            i <= names@.len(),
            views(out@).to_multiset() == views(names@).take(i as int).to_multiset(),
            names_sorted(views(out@)),
        decreases names@.len() - i,
    {
        let x = names[i].clone();
        let ghost vo = views(out@);
        let mut p: usize = 0;
        while p < out.len()
            invariant
                p <= out@.len(),
                vo == views(out@),
                names_sorted(vo),
                forall|k: int| 0 <= k < p ==> !name_lt(x@, #[trigger] vo[k]),
            ensures
                p <= out@.len(),
                forall|k: int| 0 <= k < p ==> !name_lt(x@, #[trigger] vo[k]),
                p < out@.len() ==> name_lt(x@, vo[p as int]),
            decreases out@.len() - p,
        {
            if name_less(x.as_str(), out[p].as_str()) {
                assert(vo[p as int] == out@[p as int]@);
                break;
            }
            p = p + 1;
        }
        proof {
            assert forall|k: int| p <= k < vo.len() implies name_lt(x@, #[trigger] vo[k]) by {
                if k > p {
                    assert(!name_lt(vo[k], vo[p as int]));
                    if vo[k] != vo[p as int] {
                        lemma_name_lt_total(vo[k], vo[p as int]);
                        lemma_name_lt_transitive(x@, vo[p as int], vo[k]);
                    }
                }
            }
        }
        out.insert(p, x);
        proof {
            let nv = views(out@);
            assert(nv =~= vo.insert(p as int, x@));
            assert forall|a: int, b: int| 0 <= a < b < nv.len() implies !name_lt(
                #[trigger] nv[b],
                #[trigger] nv[a],
            ) by {
                if a < p && b < p {
                    assert(nv[a] == vo[a] && nv[b] == vo[b]);
                } else if a < p && b == p {
                    assert(nv[a] == vo[a]);
                } else if a < p && b > p {
                    assert(nv[a] == vo[a] && nv[b] == vo[b - 1]);
                } else if a == p {
                    assert(nv[b] == vo[b - 1]);
                    lemma_name_lt_asymmetric(x@, vo[b - 1]);
                } else {
                    assert(nv[a] == vo[a - 1] && nv[b] == vo[b - 1]);
                }
            }
            broadcast use vstd::seq_lib::group_to_multiset_ensures;

            assert(views(names@).take(i + 1) =~= views(names@).take(i as int).push(x@));
        }
        i = i + 1;
    }
    assert(views(names@).take(names@.len() as int) =~= views(names@));
    out
}

/// Path, relative to the labels root, of a label's source image:
/// `"<id>/image.png"`.
pub fn image_file_name(label_id: &str) -> (s: String)
    ensures
        s@ == label_id@ + "/image.png"@,
{
    let mut s = String::from_str(label_id);
    s.append("/image.png");
    s
}

/// The check that a label file is present: `MissingArtifact` naming the
/// label and the file when it is not.
pub fn require_artifact(label: &str, artifact: &'static str, present: bool) -> (r: Result<
    (),
    LabelError,
>)
    ensures
        present <==> r is Ok,
        !present ==> match r {
            Err(LabelError::MissingArtifact { label: l, artifact: a }) => l@ == label@ && a
                == artifact,
            _ => false,
        },
{
    if present {
        Ok(())
    } else {
        Err(LabelError::MissingArtifact { label: String::from_str(label), artifact })
    }
}

/// Options of the COCO export.
#[derive(Debug, Clone, Copy, PartialEq, Eq, Structural)]
pub struct ConvertOptions {
    /// Leave out labels the operator rejected.
    pub skip_rejected: bool,
    /// Abort on the first broken label instead of skipping it.
    pub strict: bool,
}

impl Default for ConvertOptions {
    /// Rejected labels are left out; broken labels are skipped.
    fn default() -> (o: ConvertOptions)
        ensures
            o.skip_rejected,
            !o.strict,
    {
        ConvertOptions { skip_rejected: true, strict: false }
    }
}

/// Dataset-level metadata of a COCO export.
#[derive(Debug, Clone, PartialEq, Eq)]
pub struct CocoInfo {
    pub description: String,
    pub version: String,
    /// Schema version of the labels the dataset was made from.
    pub schema_version: String,
    /// Calendar year of the export.
    pub year: u32,
}

/// One exported image, i.e. one label directory.
#[derive(Debug, Clone, PartialEq, Eq)]
pub struct CocoImage {
    /// 1-based, increasing.
    pub id: u64,
    pub width: u32,
    pub height: u32,
    /// Relative to the labels root: `"<id>/image.png"`.
    pub file_name: String,
    pub date_captured: String,
    pub note: String,
    pub snapseg_provenance: Provenance,
}

/// One COCO category.
#[derive(Debug, Clone, PartialEq, Eq)]
pub struct CocoCategory {
    pub id: u32,
    pub name: String,
    pub supercategory: String,
}

/// The single category of every export: id 1, `"foreground"`, under
/// `"snapseg"`.
pub fn foreground_category() -> (c: CocoCategory)
    ensures
        c.id == 1,
        c.name@ == "foreground"@,
        c.supercategory@ == "snapseg"@,
{
    CocoCategory {
        id: 1,
        name: String::from_str("foreground"),
        supercategory: String::from_str("snapseg"),
    }
}

/// A decimal digit.
pub open spec fn is_digit(c: char) -> bool {
    '0' <= c && c <= '9'
}

/// Value of a string of decimal digits.
pub open spec fn digits_value(s: Seq<char>) -> nat
    decreases s.len(),
{
    if s.len() == 0 {
        0
    } else {
        digits_value(s.drop_last()) * 10 + (s.last() as nat - '0' as nat) as nat
    }
}

/// The year a clock reading yields: its text read as an unsigned 32-bit
/// decimal (an optional `+`, then one or more digits, in range), or 0 when
/// it is not one.
pub open spec fn year_of_text(t: Seq<char>) -> u32 {
    year_of_digits(
        if t.len() > 0 && t[0] == '+' {
            t.drop_first()
        } else {
            t
        },
    )
}

/// Value of a nonempty all-digit string that fits 32 bits, else 0.
pub open spec fn year_of_digits(body: Seq<char>) -> u32 {
    if body.len() > 0 && (forall|i: int| 0 <= i < body.len() ==> is_digit(#[trigger] body[i]))
        && digits_value(body) <= u32::MAX {
        digits_value(body) as u32
    } else {
        0
    }
}

proof fn lemma_digits_value_step(s: Seq<char>, c: char)
    ensures
        digits_value(s.push(c)) == digits_value(s) * 10 + (c as nat - '0' as nat) as nat,
{
    assert(s.push(c).drop_last() =~= s);
}

/// Read the year of a clock reading (see [`year_of_text`]).
pub fn parse_year(text: &str) -> (y: u32)
    ensures
        y == year_of_text(text@),
{
    let n = text.unicode_len();
    let mut start: usize = 0;
    if n > 0 && text.get_char(0) == '+' {
        start = 1;
    }
    let ghost body = if text@.len() > 0 && text@[0] == '+' {
        text@.drop_first()
    } else {
        text@
    };
    assert(body =~= text@.subrange(start as int, n as int));
    if start == n {
        return 0;
    }
    let mut value: u64 = 0;
    let mut i: usize = start;
    while i < n
        invariant
            start <= i <= n,
            n == text@.len(),
            body =~= text@.subrange(start as int, n as int),
            body == (if text@.len() > 0 && text@[0] == '+' {
                text@.drop_first()
            } else {
                text@
            }),
            body.len() > 0,
            value == digits_value(body.take(i - start)),
            value <= u32::MAX,
            forall|j: int| 0 <= j < i - start ==> is_digit(#[trigger] body[j]),
        decreases n - i,
    {
        let c = text.get_char(i);
        proof {
            assert(body.take(i - start + 1) =~= body.take(i - start).push(c));
            lemma_digits_value_step(body.take(i - start), c);
        }
        if c < '0' || c > '9' {
            assert(!is_digit(body[i - start]));
            assert(!(forall|j: int| 0 <= j < body.len() ==> is_digit(#[trigger] body[j])));
            assert(year_of_digits(body) == 0);
            return 0;
        }
        let d = (c as u32 - '0' as u32) as u64;
        value = value * 10 + d;
        if value > 0xffff_ffff {
            proof {
                lemma_digits_prefix_le(body, (i - start + 1) as int);
                if forall|j: int| 0 <= j < body.len() ==> is_digit(#[trigger] body[j]) {
                    assert(digits_value(body) > u32::MAX);
                }
            }
            assert(year_of_digits(body) == 0);
            return 0;
        }
        i = i + 1;
    }
    assert(body.take(n - start) =~= body);
    value as u32
}

proof fn lemma_digits_prefix_le(s: Seq<char>, k: int)
    requires
        0 <= k <= s.len(),
        forall|j: int| 0 <= j < k ==> is_digit(#[trigger] s[j]),
        forall|j: int| 0 <= j < s.len() ==> is_digit(#[trigger] s[j]) ==> true,
    ensures
        (forall|j: int| 0 <= j < s.len() ==> is_digit(#[trigger] s[j])) ==> digits_value(s.take(k))
            <= digits_value(s),
    decreases s.len() - k,
{
    if k < s.len() && (forall|j: int| 0 <= j < s.len() ==> is_digit(#[trigger] s[j])) {
        lemma_digits_prefix_le(s, k + 1);
        assert(s.take(k + 1) =~= s.take(k).push(s[k]));
        lemma_digits_value_step(s.take(k), s[k]);
    } else if k == s.len() {
        assert(s.take(k) =~= s);
    }
}

/// Dataset metadata of an export made in `year`.
pub fn coco_info(year: u32) -> (info: CocoInfo)
    ensures
        info.description@ == "snapseg labels exported to COCO"@,
        info.version@ == "1.0"@,
        info.schema_version@ == SCHEMA_VERSION@,
        info.year == year,
{
    CocoInfo {
        description: String::from_str("snapseg labels exported to COCO"),
        version: String::from_str("1.0"),
        schema_version: String::from_str(SCHEMA_VERSION),
        year,
    }
}

/// The exported image of a label: numbered `id`, sized as its source
/// image, pointing at `"<label>/image.png"`, dated and annotated from its
/// metadata, which it carries along.
pub fn coco_image(id: u64, label: &str, meta: Provenance) -> (img: CocoImage)
    ensures
        img.id == id,
        img.width == meta.source_image_width,
        img.height == meta.source_image_height,
        img.file_name@ == label@ + "/image.png"@,
        img.date_captured@ == meta.created_at@,
        img.note@ == note_text(meta),
        img.snapseg_provenance == meta,
{
    let note = build_note(&meta);
    let file_name = image_file_name(label);
    let date_captured = meta.created_at.clone();
    CocoImage {
        id,
        width: meta.source_image_width,
        height: meta.source_image_height,
        file_name,
        date_captured,
        note,
        snapseg_provenance: meta,
    }
}

/// Whether the export keeps a label of quality `q`: every label, except
/// rejected ones when `skip_rejected` is set.
pub open spec fn keeps_label_spec(opts: ConvertOptions, q: LabelQuality) -> bool {
    !(opts.skip_rejected && q == LabelQuality::Reject)
}

/// Whether the export keeps a label of quality `quality`. A label left out
/// this way is not a broken label and is not counted as skipped.
pub fn keeps_label(opts: &ConvertOptions, quality: LabelQuality) -> (b: bool)
    ensures
        b == keeps_label_spec(*opts, quality),
{
    !(opts.skip_rejected && quality == LabelQuality::Reject)
}

/// Numbering state of an export: the id the next exported label gets
/// (images and annotations share it) and how many broken labels were
/// skipped so far.
#[derive(Debug, Clone, Copy, PartialEq, Eq, Structural)]
pub struct ExportProgress {
    pub next_id: u64,
    pub skipped: usize,
}

impl ExportProgress {
    /// Before the first label: ids start at 1, nothing skipped.
    pub fn start() -> (p: ExportProgress)
        ensures
            p.next_id == 1,
            p.skipped == 0,
    {
        ExportProgress { next_id: 1, skipped: 0 }
    }
}

/// One step of an export over `(next id, skipped)`: an exported label
/// takes the next id; a broken one is counted as skipped, or aborts the
/// export (`None`) in strict mode.
pub open spec fn export_step(strict: bool, p: (int, int), exported: bool) -> Option<(int, int)> {
    if exported {
        Some((p.0 + 1, p.1))
    } else if strict {
        None
    } else {
        Some((p.0, p.1 + 1))
    }
}

/// An export over labels whose outcomes are `outcomes` (`true`: exported,
/// `false`: broken), from state `p`; `None` when it aborts.
pub open spec fn export_run(strict: bool, p: (int, int), outcomes: Seq<bool>) -> Option<(int, int)>
    decreases outcomes.len(),
{
    if outcomes.len() == 0 {
        Some(p)
    } else {
        match export_step(strict, p, outcomes[0]) {
            Some(q) => export_run(strict, q, outcomes.drop_first()),
            None => None,
        }
    }
}

/// How many entries of `s` equal `v`.
pub open spec fn count_of(s: Seq<bool>, v: bool) -> nat
    decreases s.len(),
{
    if s.len() == 0 {
        0
    } else {
        count_of(s.drop_first(), v) + if s[0] == v {
            1nat
        } else {
            0nat
        }
    }
}

/// Fold the outcome of one kept label into the export: `Ok` when the label
/// was exported (with id `p.next_id`), `Err` when it was broken. Returns
/// the next state, or the label's error when strict mode aborts.
pub fn record_outcome(p: ExportProgress, opts: &ConvertOptions, outcome: Result<(), LabelError>) -> (r:
    Result<ExportProgress, LabelError>)
    requires
        outcome is Ok ==> p.next_id < u64::MAX,
        outcome is Err ==> p.skipped < usize::MAX,
    ensures
        match export_step(opts.strict, (p.next_id as int, p.skipped as int), outcome is Ok) {
            Some(q) => r is Ok && r->Ok_0.next_id == q.0 && r->Ok_0.skipped == q.1,
            None => r is Err && r->Err_0 == outcome->Err_0,
        },
{
    match outcome {
        Ok(()) => Ok(ExportProgress { next_id: p.next_id + 1, skipped: p.skipped }),
        Err(e) => {
            if opts.strict {
                Err(e)
            } else {
                Ok(ExportProgress { next_id: p.next_id, skipped: p.skipped + 1 })
            }
        },
    }
}

/// In the default (lenient) mode an export never aborts: every exported
/// label takes the next id, so after a run the ids handed out are exactly
/// `p.0 .. p.0 + (number exported)`, and every broken label is counted as
/// skipped.
pub proof fn lemma_lenient_export(p: (int, int), outcomes: Seq<bool>)
    ensures
        export_run(false, p, outcomes) == Some(
            (p.0 + count_of(outcomes, true), p.1 + count_of(outcomes, false)),
        ),
    decreases outcomes.len(),
{
    if outcomes.len() > 0 {
        lemma_lenient_export(export_step(false, p, outcomes[0])->Some_0, outcomes.drop_first());
    }
}

/// In strict mode an export succeeds exactly when no label is broken, and
/// then it has numbered every label and skipped none.
pub proof fn lemma_strict_export(p: (int, int), outcomes: Seq<bool>)
    ensures
        export_run(true, p, outcomes) is Some <==> count_of(outcomes, false) == 0,
        count_of(outcomes, false) == 0 ==> export_run(true, p, outcomes) == Some(
            (p.0 + outcomes.len(), p.1),
        ),
    decreases outcomes.len(),
{
    if outcomes.len() > 0 {
        if outcomes[0] {
            lemma_strict_export((p.0 + 1, p.1), outcomes.drop_first());
        }
    }
}

/// The part of a label's metadata the caller supplies when saving: which
/// model made it, how it ran, and the operator's verdict.
#[derive(Debug, Clone, PartialEq, Eq)]
pub struct ProvenanceInputs {
    pub model: ModelProvenance,
    pub runtime: RuntimeProvenance,
    pub operator: OperatorNote,
}

/// `Some` of a build commit only when it is non-empty.
pub open spec fn commit_of(commit: Option<Seq<char>>) -> Option<Seq<char>> {
    match commit {
        Some(c) => if c.len() > 0 {
            Some(c)
        } else {
            None
        },
        None => None,
    }
}

/// The metadata inputs of a label saved from the current session: the
/// loaded model's registry name and family (empty when unknown), its
/// encoder / decoder hashes and the hash of its single model file, the CPU provider, the last encoder time, the
/// last decoder time (0 when none), the build commit when non-empty, and
/// the operator's note and verdict.
pub fn build_provenance_inputs(
    registry_name: Option<String>,
    family: Option<String>,
    encoder_sha256: Option<String>,
    decoder_sha256: Option<String>,
    model_sha256: Option<String>,
    last_encoder_ms: Option<u64>,
    last_inference_ms: Option<u64>,
    commit: Option<&str>,
    note: String,
    quality: LabelQuality,
) -> (p: ProvenanceInputs)
    ensures
        p.model.registry_name@ == match registry_name {
            Some(n) => n@,
            None => Seq::<char>::empty(),
        },
        p.model.family@ == match family {
            Some(f) => f@,
            None => Seq::<char>::empty(),
        },
        p.model.encoder_sha256 == encoder_sha256,
        p.model.decoder_sha256 == decoder_sha256,
        p.model.model_sha256 == model_sha256,
        p.runtime.execution_provider@ == "CPU"@,
        p.runtime.encoder_ms == last_encoder_ms,
        p.runtime.decoder_ms == match last_inference_ms {
            Some(ms) => ms,
            None => 0,
        },
        match p.runtime.snapseg_commit {
            Some(c) => commit_of(match commit {
                Some(c) => Some(c@),
                None => None,
            }) == Some(c@),
            None => commit_of(match commit {
                Some(c) => Some(c@),
                None => None,
            }) is None,
        },
        p.operator.note == note,
        p.operator.quality == quality,
{
    let registry_name = match registry_name {
        Some(n) => n,
        None => String::new(),
    };
    let family = match family {
        Some(f) => f,
        None => String::new(),
    };
    let snapseg_commit = match commit {
        Some(c) => if c.unicode_len() > 0 {
            Some(String::from_str(c))
        } else {
            None
        },
        None => None,
    };
    ProvenanceInputs {
        model: ModelProvenance {
            registry_name,
            family,
            encoder_sha256,
            decoder_sha256,
            model_sha256,
        },
        runtime: RuntimeProvenance {
            execution_provider: String::from_str("CPU"),
            encoder_ms: last_encoder_ms,
            decoder_ms: match last_inference_ms {
                Some(ms) => ms,
                None => 0,
            },
            snapseg_commit,
        },
        operator: OperatorNote { note, quality },
    }
}

/// The check before saving a label: an image, a mask and a loaded
/// segmenter are needed, checked in that order; each missing one is an
/// `InvalidInput` naming it.
pub fn save_precheck(has_image: bool, has_mask: bool, has_segmenter: bool) -> (r: Result<
    (),
    LabelError,
>)
    ensures
        (has_image && has_mask && has_segmenter) <==> r is Ok,
        !has_image ==> match r {
            Err(LabelError::InvalidInput(m)) => m@ == "no image loaded"@,
            _ => false,
        },
        has_image && !has_mask ==> match r {
            Err(LabelError::InvalidInput(m)) => m@ == "no mask available"@,
            _ => false,
        },
        has_image && has_mask && !has_segmenter ==> match r {
            Err(LabelError::InvalidInput(m)) => m@ == "no segmenter loaded"@,
            _ => false,
        },
{
    if !has_image {
        return Err(LabelError::InvalidInput(String::from_str("no image loaded")));
    }
    if !has_mask {
        return Err(LabelError::InvalidInput(String::from_str("no mask available")));
    }
    if !has_segmenter {
        return Err(LabelError::InvalidInput(String::from_str("no segmenter loaded")));
    }
    Ok(())
}

} // verus!
