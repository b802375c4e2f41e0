use snapseg::labels::{build_provenance_inputs, save_precheck, LabelError, LabelQuality};
use snapseg::prompts::PromptRecord;
use snapseg::runtime::disk_window;
use snapseg::session::{click_polarity, PromptLog};
use snapseg::types::{Point2, Polarity};

#[test]
fn prompt_log_times_clicks_from_the_first() {
    let mut log: PromptLog<f32> = PromptLog::new();
    log.push_click(Point2::new(1.0, 2.0), Polarity::Positive, 5_000);
    log.push_click(Point2::new(3.0, 4.0), Polarity::Negative, 5_250);
    log.push_click(Point2::new(5.0, 6.0), Polarity::Positive, 6_000);
    assert_eq!(log.session().prompts.len(), 3);
    let json = log.to_json();
    let times: Vec<u64> = json
        .session
        .iter()
        .map(|r| match r {
            PromptRecord::Click { t_ms, .. } => *t_ms,
            other => panic!("expected clicks, got {other:?}"),
        })
        .collect();
    assert_eq!(times, vec![0, 250, 1000]);
    match &json.session[1] {
        PromptRecord::Click { x, y, polarity, .. } => {
            assert_eq!((*x, *y), (3.0, 4.0));
            assert_eq!(polarity, "negative");
        }
        other => panic!("expected click, got {other:?}"),
    }
    log.clear();
    assert!(log.to_json().session.is_empty());
    // After clearing, the next click starts the clock again.
    log.push_click(Point2::new(0.0, 0.0), Polarity::Positive, 9_000);
    match &log.to_json().session[0] {
        PromptRecord::Click { t_ms, .. } => assert_eq!(*t_ms, 0),
        other => panic!("expected click, got {other:?}"),
    }
}

#[test]
fn secondary_click_flips_polarity() {
    assert_eq!(click_polarity(Polarity::Positive, false), Polarity::Positive);
    assert_eq!(click_polarity(Polarity::Positive, true), Polarity::Negative);
    assert_eq!(click_polarity(Polarity::Negative, true), Polarity::Positive);
}

#[test]
fn provenance_inputs_from_session_state() {
    let p = build_provenance_inputs(
        Some("mobile-sam".to_string()),
        None,
        Some("e".repeat(64)),
        None,
        None,
        Some(1200),
        None,
        Some(""),
        "looks fine".to_string(),
        LabelQuality::NeedsReview,
    );
    assert_eq!(p.model.registry_name, "mobile-sam");
    assert_eq!(p.model.family, "");
    assert_eq!(p.model.encoder_sha256.as_deref(), Some("e".repeat(64).as_str()));
    assert!(p.model.decoder_sha256.is_none() && p.model.model_sha256.is_none());
    assert_eq!(p.runtime.execution_provider, "CPU");
    assert_eq!(p.runtime.encoder_ms, Some(1200));
    assert_eq!(p.runtime.decoder_ms, 0);
    assert!(p.runtime.snapseg_commit.is_none());
    assert_eq!(p.operator.note, "looks fine");
    assert_eq!(p.operator.quality, LabelQuality::NeedsReview);
    let q = build_provenance_inputs(
        Some("ritm-hrnet18".to_string()),
        Some("ritm".to_string()),
        None,
        None,
        Some("m".repeat(64)),
        None,
        Some(7),
        Some("abc1234"),
        String::new(),
        LabelQuality::Good,
    );
    assert_eq!(q.model.model_sha256.as_deref(), Some("m".repeat(64).as_str()));
    assert!(q.model.encoder_sha256.is_none() && q.model.decoder_sha256.is_none());
    assert_eq!(q.model.family, "ritm");
    assert!(q.runtime.encoder_ms.is_none());
    assert_eq!(q.runtime.snapseg_commit.as_deref(), Some("abc1234"));
    assert_eq!(q.runtime.decoder_ms, 7);
}

#[test]
fn saving_needs_image_mask_and_model() {
    assert_eq!(save_precheck(true, true, true), Ok(()));
    assert_eq!(save_precheck(false, false, false), Err(LabelError::InvalidInput("no image loaded".to_string())));
    assert_eq!(save_precheck(true, false, true), Err(LabelError::InvalidInput("no mask available".to_string())));
    assert_eq!(save_precheck(true, true, false), Err(LabelError::InvalidInput("no segmenter loaded".to_string())));
}

#[test]
fn click_disks_are_clipped_to_the_canvas() {
    assert_eq!(disk_window(10, 10, 3, 32, 32), Some((7, 13, 7, 13)));
    assert_eq!(disk_window(0, 0, 3, 32, 32), Some((0, 3, 0, 3)));
    assert_eq!(disk_window(31, 31, 3, 32, 32), Some((28, 31, 28, 31)));
    assert_eq!(disk_window(-10, 5, 3, 32, 32), None);
    assert_eq!(disk_window(5, 5, 3, 0, 0), None);
    assert_eq!(disk_window(i32::MAX, i32::MAX, i32::MAX, 4, 4), Some((0, 3, 0, 3)));
    assert_eq!(disk_window(i32::MIN, 2, 5, 4, 4), None);
    assert_eq!(disk_window(2, 2, -1, 4, 4), None);
}
