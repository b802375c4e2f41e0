//! The operator's prompt history as the interactive session keeps it: the
//! prompts in order, each with the milliseconds since the first prompt,
//! ready to be written to `prompts.json`.

use vstd::prelude::*;
use crate::prompts::{is_record_of, prompts_to_json, PromptSessionJson};
use crate::types::{opposite, Point2, Polarity, Prompt, PromptSession};

verus! {

/// Polarity of a click: the selected tool's, or the opposite one for the
/// secondary mouse button.
pub fn click_polarity(current: Polarity, secondary: bool) -> (p: Polarity)
    ensures
        secondary ==> p == opposite_spec(current),
        !secondary ==> p == current,
{
    if secondary {
        opposite(current)
    } else {
        current
    }
}

/// The opposite polarity.
pub open spec fn opposite_spec(p: Polarity) -> Polarity {
    match p {
        Polarity::Positive => Polarity::Negative,
        Polarity::Negative => Polarity::Positive,
    }
}

/// Prompts with their timing: one offset per prompt (milliseconds since
/// the first prompt), and the clock reading of the first prompt.
#[derive(Debug)]
pub struct PromptLog<C> {
    session: PromptSession<C>,
    t_ms: Vec<u64>,
    first_prompt_ms: Option<u64>,
}

impl<C: Copy> PromptLog<C> {
    /// The prompts, oldest first.
    pub closed spec fn prompts(&self) -> Seq<Prompt<C>> {
        self.session.prompts@
    }

    /// Milliseconds since the first prompt, one per prompt.
    pub closed spec fn offsets(&self) -> Seq<u64> {
        self.t_ms@
    }

    /// Clock reading (ms) of the first prompt, if any.
    pub closed spec fn first_ms(&self) -> Option<u64> {
        self.first_prompt_ms
    }

    /// Every prompt has exactly one offset, and the start time is set
    /// exactly when there are prompts.
    pub closed spec fn wf(&self) -> bool {
        &&& self.session.prompts@.len() == self.t_ms@.len()
        &&& (self.first_prompt_ms is None <==> self.t_ms@.len() == 0)
    }

    /// An empty history.
    pub fn new() -> (log: PromptLog<C>)
        ensures
            log.wf(),
            log.prompts().len() == 0,
            log.first_ms() is None,
    {
        PromptLog { session: PromptSession::new(), t_ms: Vec::new(), first_prompt_ms: None }
    }

    /// Record a click made at clock reading `now_ms`. The first click
    /// starts the clock and gets offset 0; later clicks get the time since
    /// the first.
    pub fn push_click(&mut self, point: Point2<C>, polarity: Polarity, now_ms: u64)
        requires
            old(self).wf(),
            old(self).first_ms() is Some ==> old(self).first_ms()->Some_0 <= now_ms,
        ensures
            final(self).wf(),
            final(self).prompts() == old(self).prompts().push(
                Prompt::Click { point, polarity },
            ),
            match old(self).first_ms() {
                Some(f) => final(self).first_ms() == Some(f) && final(self).offsets()
                    == old(self).offsets().push((now_ms - f) as u64),
                None => final(self).first_ms() == Some(now_ms) && final(self).offsets()
                    == old(self).offsets().push(0),
            },
    {
        let t = match self.first_prompt_ms {
            Some(start) => now_ms - start,
            None => {
                self.first_prompt_ms = Some(now_ms);
                0
            },
        };
        self.t_ms.push(t);
        self.session.push(Prompt::Click { point, polarity });
    }

    /// Forget every prompt and the start time.
    pub fn clear(&mut self)
        ensures
            final(self).wf(),
            final(self).prompts().len() == 0,
            final(self).first_ms() is None,
    {
        self.session.clear();
        self.t_ms.clear();
        self.first_prompt_ms = None;
    }

    /// The prompts, for a segmenter.
    pub fn session(&self) -> (s: &PromptSession<C>)
        ensures
            s.prompts@ == self.prompts(),
    {
        &self.session
    }

    /// The `prompts.json` document of the history: one record per prompt,
    /// in order, with its offset. Never fails, since every prompt has its
    /// offset.
    pub fn to_json(&self) -> (j: PromptSessionJson<C>)
        requires
            self.wf(),
        ensures
            j.session@.len() == self.prompts().len(),
            forall|i: int|
                0 <= i < j.session@.len() ==> is_record_of(
                    #[trigger] j.session@[i],
                    self.prompts()[i],
                    self.offsets()[i],
                ),
    {
        prompts_to_json(&self.session, self.t_ms.as_slice()).unwrap()
    }
}

} // verus!
