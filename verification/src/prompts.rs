//! Conversion of a live prompt session into its durable `prompts.json`
//! shape.

use vstd::prelude::*;
use crate::types::{BBox, Point2, Polarity, Prompt, PromptSession};
use crate::labels::LabelError;

verus! {

/// One prompt as persisted in `prompts.json`.
#[derive(Debug, Clone, PartialEq)]
pub enum PromptRecord<C> {
    Click { x: C, y: C, polarity: String, t_ms: u64 },
    Box { x0: C, y0: C, x1: C, y1: C, t_ms: u64 },
    Scribble { points: Vec<[C; 2]>, polarity: String, t_ms: u64 },
}

/// The `prompts.json` document.
#[derive(Debug, Clone, PartialEq)]
pub struct PromptSessionJson<C> {
    pub session: Vec<PromptRecord<C>>,
}

/// On-disk name of a polarity.
pub open spec fn polarity_text(p: Polarity) -> Seq<char> {
    match p {
        Polarity::Positive => "positive"@,
        Polarity::Negative => "negative"@,
    }
}

/// On-disk name of a polarity: `"positive"` or `"negative"`.
pub fn polarity_str(p: Polarity) -> (s: &'static str)
    ensures
        s@ == polarity_text(p),
{
    match p {
        Polarity::Positive => "positive",
        Polarity::Negative => "negative",
    }
}

/// `r` is the record of prompt `p` made at `t` ms.
pub open spec fn is_record_of<C>(r: PromptRecord<C>, p: Prompt<C>, t: u64) -> bool {
    match (p, r) {
        (Prompt::Click { point, polarity }, PromptRecord::Click { x, y, polarity: s, t_ms }) => x
            == point.x && y == point.y && s@ == polarity_text(polarity) && t_ms == t,
        (Prompt::Box(b), PromptRecord::Box { x0, y0, x1, y1, t_ms }) => x0 == b.x0 && y0 == b.y0 && x1
            == b.x1 && y1 == b.y1 && t_ms == t,
        (
            Prompt::Scribble { points, polarity },
            PromptRecord::Scribble { points: ps, polarity: s, t_ms },
        ) => ps@.len() == points@.len() && (forall|i: int|
            0 <= i < ps@.len() ==> (#[trigger] ps@[i])@ == seq![points@[i].x, points@[i].y])
            && s@ == polarity_text(polarity) && t_ms == t,
        _ => false,
    }
}

fn record_of<C: Copy>(prompt: &Prompt<C>, t_ms: u64) -> (r: PromptRecord<C>)
    ensures
        is_record_of(r, *prompt, t_ms),
{
    match prompt {
        Prompt::Click { point, polarity } => PromptRecord::Click {
            x: point.x,
            y: point.y,
            polarity: String::from_str(polarity_str(*polarity)),
            t_ms,
        },
        Prompt::Box(b) => PromptRecord::Box { x0: b.x0, y0: b.y0, x1: b.x1, y1: b.y1, t_ms },
        Prompt::Scribble { points, polarity } => {
            let mut ps: Vec<[C; 2]> = Vec::new();
            let mut i: usize = 0;
            while i < points.len()
                invariant
                    i <= points@.len(),
                    ps@.len() == i,
                    forall|j: int| 0 <= j < i ==> (#[trigger] ps@[j])@ == seq![points@[j].x, points@[j].y],
                decreases points@.len() - i,
            {
                let p = points[i];
                let pair: [C; 2] = [p.x, p.y];
                assert(pair@ =~= seq![p.x, p.y]);
                ps.push(pair);
                i = i + 1;
            }
            PromptRecord::Scribble { points: ps, polarity: String::from_str(polarity_str(*polarity)), t_ms }
        },
    }
}

/// The message of the length-mismatch error.
pub open spec fn offsets_mismatch_text() -> Seq<char> {
    "t_ms_offsets length must match session.prompts"@
}

/// Convert a session into its `prompts.json` shape, one record per prompt
/// with the matching entry of `t_ms_offsets` (milliseconds since the first
/// prompt).
///
/// Fails with `InvalidInput` when `t_ms_offsets` and the prompts differ in
/// length.
pub fn prompts_to_json<C: Copy>(session: &PromptSession<C>, t_ms_offsets: &[u64]) -> (r: Result<
    PromptSessionJson<C>,
    LabelError,
>)
    ensures
        t_ms_offsets@.len() != session.prompts@.len() ==> match r {
            Err(LabelError::InvalidInput(m)) => m@ == offsets_mismatch_text(),
            _ => false,
        },
        t_ms_offsets@.len() == session.prompts@.len() ==> match r {
            Ok(j) => j.session@.len() == session.prompts@.len() && forall|i: int|
                0 <= i < j.session@.len() ==> is_record_of(
                    #[trigger] j.session@[i],
                    session.prompts@[i],
                    t_ms_offsets@[i],
                ),
            Err(_) => false,
        },
{
    if t_ms_offsets.len() != session.prompts.len() {
        return Err(LabelError::InvalidInput(String::from_str("t_ms_offsets length must match session.prompts")));
    }
    let mut out: Vec<PromptRecord<C>> = Vec::new();
    let mut i: usize = 0;
    while i < session.prompts.len()
        invariant
            i <= session.prompts@.len(),
            t_ms_offsets@.len() == session.prompts@.len(),
            out@.len() == i,
            forall|j: int|
                0 <= j < i ==> is_record_of(#[trigger] out@[j], session.prompts@[j], t_ms_offsets@[j]),
        decreases session.prompts@.len() - i,
    {
        let rec = record_of(&session.prompts[i], t_ms_offsets[i]);
        out.push(rec);
        i = i + 1;
    }
    Ok(PromptSessionJson { session: out })
}

} // verus!
