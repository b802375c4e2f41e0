//! Navigation through the results shown to the operator: the candidate
//! masks of the last segmentation (stepped with ←/→, stopping at the
//! ends) and the vertices of the refined polygon (stepped with
//! Shift+←/→, wrapping around).

use vstd::prelude::*;

verus! {

/// The candidate shown for a stored selection `selected` among `k > 0`
/// candidates: out-of-range selections show the last one.
pub open spec fn shown_mask_spec(selected: int, k: int) -> int {
    if selected < k - 1 {
        selected
    } else {
        k - 1
    }
}

/// Index of the candidate shown for selection `selected` among `k`
/// candidates.
pub fn shown_mask(selected: usize, k: usize) -> (i: usize)
    requires
        k > 0,
    ensures
        i == shown_mask_spec(selected as int, k as int),
        i < k,
{
    if selected < k - 1 {
        selected
    } else {
        k - 1
    }
}

/// Where a mask step lands: one candidate to the left or right of the
/// shown one, stopping at the first and last.
pub open spec fn mask_target(selected: int, k: int, left: bool) -> int {
    let cur = shown_mask_spec(selected, k);
    if left {
        if cur > 0 {
            cur - 1
        } else {
            0
        }
    } else if cur + 1 < k - 1 {
        cur + 1
    } else {
        k - 1
    }
}

/// The candidate a step switches to, if it moves at all.
pub open spec fn mask_step_spec(selected: int, k: int, left: bool) -> Option<int> {
    if k < 2 || mask_target(selected, k, left) == shown_mask_spec(selected, k) {
        None
    } else {
        Some(mask_target(selected, k, left))
    }
}

/// The candidate to switch to when the operator steps left or right:
/// `None` when there are fewer than two candidates or the step would not
/// move (already at that end).
pub fn mask_step(selected: usize, k: usize, left: bool) -> (r: Option<usize>)
    ensures
        match mask_step_spec(selected as int, k as int, left) {
            Some(m) => r == Some(m as usize) && m < k,
            None => r is None,
        },
{
    if k < 2 {
        return None;
    }
    let cur = shown_mask(selected, k);
    let next = if left {
        if cur > 0 {
            cur - 1
        } else {
            0
        }
    } else if cur + 1 < k - 1 {
        cur + 1
    } else {
        k - 1
    };
    if next != cur {
        Some(next)
    } else {
        None
    }
}

/// Where a vertex step lands among `n` vertices: the previous or next
/// index, wrapping around.
pub open spec fn vertex_target(cur: int, n: int, left: bool) -> int {
    if left {
        (cur + n - 1) % n
    } else {
        (cur + 1) % n
    }
}

/// The vertex selected after stepping left or right from `cur` among `n`
/// vertices, wrapping around at both ends.
pub fn vertex_step(cur: usize, n: usize, left: bool) -> (r: usize)
    requires
        n > 0,
        cur + n <= usize::MAX,
    ensures
        r == vertex_target(cur as int, n as int, left),
        r < n,
{
    if left {
        (cur + n - 1) % n
    } else {
        (cur + 1) % n
    }
}

/// The vertex the stepper starts from: the stored selection when it is a
/// vertex of the polygon, else the first.
pub fn stepper_start(selected: Option<usize>, n: usize) -> (i: usize)
    ensures
        match selected {
            Some(s) => if s < n {
                i == s
            } else {
                i == 0
            },
            None => i == 0,
        },
{
    match selected {
        Some(s) => if s < n {
            s
        } else {
            0
        },
        None => 0,
    }
}

/// What an arrow key press does.
#[derive(Debug, Clone, Copy, PartialEq, Eq, Structural)]
pub enum ArrowAction {
    Nothing,
    /// Select this vertex of the refined polygon.
    SelectVertex(usize),
    /// Show this candidate mask.
    SelectMask(usize),
}

/// The effect of the arrow keys in one frame. Nothing happens while a
/// widget has the keyboard focus or neither arrow is pressed. With Shift
/// the vertex selection steps (left wins when both arrows are down),
/// starting from the first vertex when none is selected; without Shift the
/// mask selection steps. `vertices` is the vertex count of the refined
/// polygon, when there is one.
pub fn arrow_action(
    focused: bool,
    left: bool,
    right: bool,
    shift: bool,
    vertices: Option<usize>,
    selected_vertex: Option<usize>,
    masks: usize,
    selected_mask: usize,
) -> (a: ArrowAction)
    requires
        match vertices {
            Some(n) => match selected_vertex {
                Some(c) => c + n <= usize::MAX,
                None => true,
            },
            None => true,
        },
    ensures
        focused || (!left && !right) ==> a == ArrowAction::Nothing,
        !focused && (left || right) && shift ==> match vertices {
            Some(n) => if n == 0 {
                a == ArrowAction::Nothing
            } else {
                a == ArrowAction::SelectVertex(
                    vertex_target(
                        match selected_vertex {
                            Some(c) => c as int,
                            None => 0,
                        },
                        n as int,
                        left,
                    ) as usize,
                )
            },
            None => a == ArrowAction::Nothing,
        },
        !focused && (left || right) && !shift ==> match mask_step_spec(selected_mask as int, masks as int, left) {
            Some(m) => a == ArrowAction::SelectMask(m as usize),
            None => a == ArrowAction::Nothing,
        },
{
    if focused || (!left && !right) {
        return ArrowAction::Nothing;
    }
    if shift {
        return match vertices {
            Some(n) => if n == 0 {
                ArrowAction::Nothing
            } else {
                let cur = match selected_vertex {
                    Some(c) => c,
                    None => 0,
                };
                ArrowAction::SelectVertex(vertex_step(cur, n, left))
            },
            None => ArrowAction::Nothing,
        };
    }
    match mask_step(selected_mask, masks, left) {
        Some(m) => ArrowAction::SelectMask(m),
        None => ArrowAction::Nothing,
    }
}

/// `steps` vertex steps to the right from `cur`.
pub open spec fn vertex_steps_right(cur: int, n: int, steps: nat) -> int
    decreases steps,
{
    if steps == 0 {
        cur
    } else {
        vertex_target(vertex_steps_right(cur, n, (steps - 1) as nat), n, false)
    }
}

/// Stepping left undoes stepping right, and stepping right undoes stepping
/// left, for every vertex of an `n`-vertex polygon.
pub proof fn lemma_vertex_steps_undo(cur: int, n: int)
    requires
        n > 0,
        0 <= cur < n,
    ensures
        vertex_target(vertex_target(cur, n, false), n, true) == cur,
        vertex_target(vertex_target(cur, n, true), n, false) == cur,
{
    vstd::arithmetic::div_mod::lemma_small_mod(cur as nat, n as nat);
    vstd::arithmetic::div_mod::lemma_small_mod((n - 1) as nat, n as nat);
    vstd::arithmetic::div_mod::lemma_mod_self_0(n);
    if cur + 1 < n {
        vstd::arithmetic::div_mod::lemma_small_mod((cur + 1) as nat, n as nat);
        vstd::arithmetic::div_mod::lemma_mod_add_multiples_vanish(cur, n);
        assert(cur + 1 + n - 1 == n + cur);
    }
    if cur > 0 {
        vstd::arithmetic::div_mod::lemma_small_mod((cur - 1) as nat, n as nat);
        vstd::arithmetic::div_mod::lemma_mod_add_multiples_vanish(cur - 1, n);
        assert(cur + n - 1 == n + (cur - 1));
    }
}

/// `k` steps to the right from vertex `cur` land on `(cur + k) mod n`; in
/// particular `n` steps go once around the polygon back to `cur`.
pub proof fn lemma_vertex_steps_wrap(cur: int, n: int, k: nat)
    requires
        n > 0,
        0 <= cur < n,
    ensures
        vertex_steps_right(cur, n, k) == (cur + k) % n,
        vertex_steps_right(cur, n, n as nat) == cur,
{
    lemma_vertex_steps_mod(cur, n, k);
    lemma_vertex_steps_mod(cur, n, n as nat);
    vstd::arithmetic::div_mod::lemma_mod_add_multiples_vanish(cur, n);
    vstd::arithmetic::div_mod::lemma_small_mod(cur as nat, n as nat);
}

proof fn lemma_vertex_steps_mod(cur: int, n: int, k: nat)
    requires
        n > 0,
        0 <= cur < n,
    ensures
        vertex_steps_right(cur, n, k) == (cur + k) % n,
    decreases k,
{
    if k > 0 {
        lemma_vertex_steps_mod(cur, n, (k - 1) as nat);
        vstd::arithmetic::div_mod::lemma_add_mod_noop_right(1, cur + k - 1, n);
        assert(1 + (cur + k - 1) == cur + k);
    } else {
        vstd::arithmetic::div_mod::lemma_small_mod(cur as nat, n as nat);
    }
}

/// With two or more candidates and a selection among them, stepping right
/// selects the next candidate unless the last is selected, and stepping
/// left selects the previous one unless the first is selected; at either
/// end the step does nothing.
pub proof fn lemma_mask_step_moves_one(selected: int, k: int)
    requires
        k >= 2,
        0 <= selected < k,
    ensures
        selected + 1 < k ==> mask_step_spec(selected, k, false) == Some(selected + 1),
        selected + 1 == k ==> mask_step_spec(selected, k, false) is None,
        selected > 0 ==> mask_step_spec(selected, k, true) == Some(selected - 1),
        selected == 0 ==> mask_step_spec(selected, k, true) is None,
{
}

/// With fewer than two candidates a step never changes the selection.
pub proof fn lemma_mask_step_needs_two(selected: int, k: int, left: bool)
    requires
        k < 2,
    ensures
        mask_step_spec(selected, k, left) is None,
{
}

/// A stored selection past the last candidate acts as the last one.
pub proof fn lemma_mask_step_out_of_range(selected: int, k: int, left: bool)
    requires
        k >= 2,
        selected >= k,
    ensures
        mask_step_spec(selected, k, left) == mask_step_spec(k - 1, k, left),
{
}

/// A mask step never leaves the candidate list and never moves by more
/// than one; stepping right then left from an inner candidate comes back.
pub proof fn lemma_mask_steps(selected: int, k: int)
    requires
        k >= 2,
        0 <= selected < k,
    ensures
        0 <= mask_target(selected, k, true) < k,
        0 <= mask_target(selected, k, false) < k,
        mask_target(selected, k, true) >= selected - 1,
        mask_target(selected, k, false) <= selected + 1,
        selected + 1 < k ==> mask_target(mask_target(selected, k, false), k, true) == selected,
        selected > 0 ==> mask_target(mask_target(selected, k, true), k, false) == selected,
{
}

} // verus!
