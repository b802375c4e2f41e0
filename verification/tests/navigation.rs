use snapseg::cycler::{arrow_action, mask_step, shown_mask, stepper_start, vertex_step, ArrowAction};

#[test]
fn mask_cycling_stops_at_the_ends() {
    assert_eq!(mask_step(0, 3, false), Some(1));
    assert_eq!(mask_step(1, 3, false), Some(2));
    assert_eq!(mask_step(2, 3, false), None);
    assert_eq!(mask_step(0, 3, true), None);
    assert_eq!(mask_step(2, 3, true), Some(1));
    // Out-of-range selections count as the last candidate.
    assert_eq!(shown_mask(9, 3), 2);
    assert_eq!(mask_step(9, 3, true), Some(1));
    assert_eq!(mask_step(0, 1, false), None);
    assert_eq!(mask_step(0, 0, true), None);
}

#[test]
fn vertex_cycling_wraps() {
    assert_eq!(vertex_step(0, 4, true), 3);
    assert_eq!(vertex_step(3, 4, false), 0);
    assert_eq!(vertex_step(1, 4, false), 2);
    // Going once around comes back.
    let mut v = 2;
    for _ in 0..4 {
        v = vertex_step(v, 4, false);
    }
    assert_eq!(v, 2);
    assert_eq!(vertex_step(vertex_step(2, 4, false), 4, true), 2);
    assert_eq!(stepper_start(Some(7), 4), 0);
    assert_eq!(stepper_start(Some(3), 4), 3);
    assert_eq!(stepper_start(None, 4), 0);
}

#[test]
fn arrow_keys() {
    // Focused widget or no arrow: nothing.
    assert_eq!(arrow_action(true, true, false, false, None, None, 3, 0), ArrowAction::Nothing);
    assert_eq!(arrow_action(false, false, false, true, Some(4), None, 3, 0), ArrowAction::Nothing);
    // Shift steps the vertex, starting at the first one.
    assert_eq!(arrow_action(false, true, false, true, Some(4), None, 3, 0), ArrowAction::SelectVertex(3));
    assert_eq!(arrow_action(false, false, true, true, Some(4), Some(3), 3, 0), ArrowAction::SelectVertex(0));
    assert_eq!(arrow_action(false, true, true, true, Some(4), Some(1), 3, 0), ArrowAction::SelectVertex(0));
    assert_eq!(arrow_action(false, true, false, true, Some(0), None, 3, 0), ArrowAction::Nothing);
    assert_eq!(arrow_action(false, true, false, true, None, None, 3, 0), ArrowAction::Nothing);
    // Plain arrows step the mask.
    assert_eq!(arrow_action(false, false, true, false, None, None, 3, 0), ArrowAction::SelectMask(1));
    assert_eq!(arrow_action(false, true, false, false, None, None, 3, 0), ArrowAction::Nothing);
    assert_eq!(arrow_action(false, false, true, false, None, None, 1, 0), ArrowAction::Nothing);
}
