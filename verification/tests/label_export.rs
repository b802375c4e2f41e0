use snapseg::labels::{
    build_note, check_mask_size, coco_image, coco_info, foreground_category, image_file_name,
    is_label_dir_name, keeps_label, label_id_from_dir, parse_year, quality_str, record_outcome,
    require_artifact, sort_label_names, ConvertOptions, ExportProgress, LabelError, LabelQuality, ModelProvenance,
    OperatorNote, Provenance, RuntimeProvenance, SCHEMA_VERSION,
};
use snapseg::prompts::{polarity_str, prompts_to_json, PromptRecord};
use snapseg::rle::{encode_rle, mask_bbox_and_area};
use snapseg::types::{BBox, Point2, Polarity, Prompt, PromptSession};

fn provenance(quality: LabelQuality, commit: Option<&str>) -> Provenance {
    Provenance {
        schema_version: SCHEMA_VERSION.to_string(),
        created_at: "2026-01-02T03:04:05Z".to_string(),
        source_image_sha256: "ab".repeat(32),
        source_image_path: None,
        source_image_width: 4,
        source_image_height: 3,
        model: ModelProvenance {
            registry_name: "test-model".to_string(),
            family: "test".to_string(),
            encoder_sha256: None,
            decoder_sha256: None,
            model_sha256: Some("deadbeef".to_string()),
        },
        runtime: RuntimeProvenance {
            execution_provider: "CPU".to_string(),
            encoder_ms: None,
            decoder_ms: 7,
            snapseg_commit: commit.map(|c| c.to_string()),
        },
        operator: OperatorNote { note: String::new(), quality },
    }
}

#[test]
fn encode_rle_leading_zero_when_first_pixel_foreground() {
    let mask = vec![
        255, 0, // row 0
        0, 0, // row 1
    ];
    let counts = encode_rle(&mask, 2, 2);
    assert_eq!(counts, vec![0, 1, 3], "got {counts:?}");
}

#[test]
fn encode_rle_walks_columns_first() {
    // 2x3 mask, foreground at (row 0, col 1) and (row 1, col 1):
    // column-major bits 0 0 | 1 1 | 0 0.
    let mask = vec![0, 200, 0, 0, 128, 0];
    assert_eq!(encode_rle(&mask, 2, 3), vec![2, 2, 2]);
    // 127 is background, 128 foreground.
    assert_eq!(encode_rle(&[127, 128], 1, 2), vec![1, 1]);
    assert_eq!(encode_rle(&[0, 0, 0, 0], 2, 2), vec![4]);
    // The runs always add up to the pixel count.
    let mask: Vec<u8> = (0..35u32).map(|i| if (i * 7) % 5 < 2 { 255 } else { 0 }).collect();
    let counts = encode_rle(&mask, 5, 7);
    assert_eq!(counts.iter().map(|&c| c as u64).sum::<u64>(), 35);
    assert!(counts[1..].iter().all(|&c| c > 0));
}

#[test]
fn mask_bbox_and_area_of_square() {
    // 4x4 mask with the 2x2 block at rows 1..=2, cols 1..=2.
    let mut mask = vec![0u8; 16];
    for (r, c) in [(1, 1), (1, 2), (2, 1), (2, 2)] {
        mask[r * 4 + c] = 255;
    }
    assert_eq!(mask_bbox_and_area(&mask, 4, 4), ([1, 1, 2, 2], 4));
    assert_eq!(mask_bbox_and_area(&[0u8; 6], 2, 3), ([0, 0, 0, 0], 0));
    // A single pixel at (row 2, col 0) of a 3x2 mask.
    assert_eq!(mask_bbox_and_area(&[0, 0, 0, 0, 255, 0], 3, 2), ([0, 2, 1, 1], 1));
}

fn roundtrip_session() -> PromptSession<f32> {
    let mut s = PromptSession::new();
    s.push(Prompt::Click { point: Point2::new(1.0, 2.0), polarity: Polarity::Positive });
    s.push(Prompt::Box(BBox { x0: 0.0, y0: 1.0, x1: 4.0, y1: 5.0 }));
    s.push(Prompt::Scribble {
        points: vec![Point2::new(0.5, 0.5), Point2::new(1.5, 1.5)],
        polarity: Polarity::Negative,
    });
    s
}

#[test]
fn prompts_to_json_roundtrip() {
    let s = roundtrip_session();
    let offsets = vec![0, 100, 250];
    let json = prompts_to_json(&s, &offsets).expect("prompts_to_json");
    assert_eq!(json.session.len(), 3);

    match &json.session[0] {
        PromptRecord::Click { x, y, polarity, t_ms } => {
            assert!((*x - 1.0).abs() < 1e-6);
            assert!((*y - 2.0).abs() < 1e-6);
            assert_eq!(polarity, "positive");
            assert_eq!(*t_ms, 0);
        }
        other => panic!("expected Click variant, got {other:?}"),
    }
    match &json.session[1] {
        PromptRecord::Box { x0, y0, x1, y1, t_ms } => {
            assert!((*x0 - 0.0).abs() < 1e-6);
            assert!((*y0 - 1.0).abs() < 1e-6);
            assert!((*x1 - 4.0).abs() < 1e-6);
            assert!((*y1 - 5.0).abs() < 1e-6);
            assert_eq!(*t_ms, 100);
        }
        other => panic!("expected Box variant, got {other:?}"),
    }
    match &json.session[2] {
        PromptRecord::Scribble { points, polarity, t_ms } => {
            assert_eq!(points.len(), 2);
            assert!((points[0][0] - 0.5).abs() < 1e-6);
            assert!((points[1][1] - 1.5).abs() < 1e-6);
            assert_eq!(polarity, "negative");
            assert_eq!(*t_ms, 250);
        }
        other => panic!("expected Scribble variant, got {other:?}"),
    }
}

#[test]
fn prompts_to_json_length_mismatch() {
    let mut s = PromptSession::new();
    s.push(Prompt::Click { point: Point2::new(0.0f32, 0.0), polarity: Polarity::Positive });
    let err = prompts_to_json(&s, &[]).expect_err("length mismatch should error");
    match err {
        LabelError::InvalidInput(msg) => {
            assert!(msg.contains("t_ms_offsets"), "msg = {msg}");
        }
        other => panic!("expected InvalidInput, got {other:?}"),
    }
}

#[test]
fn prompts_to_json_empty_session() {
    let s: PromptSession<i32> = PromptSession::new();
    let json = prompts_to_json(&s, &[]).expect("empty session");
    assert!(json.session.is_empty());
    assert_eq!(polarity_str(Polarity::Negative), "negative");
}

#[test]
fn note_names_model_quality_and_commit() {
    let meta = provenance(LabelQuality::Good, Some("abc1234"));
    assert_eq!(build_note(&meta), "test-model · good · abc1234");
    let meta = provenance(LabelQuality::NeedsReview, None);
    assert_eq!(build_note(&meta), "test-model · needs_review · -");
    assert_eq!(quality_str(LabelQuality::Reject), "reject");
}

#[test]
fn label_dir_names() {
    assert!(is_label_dir_name("abc12345"));
    assert!(is_label_dir_name("abc12345-r2"));
    assert!(!is_label_dir_name(".DS_Store"));
    assert!(!is_label_dir_name("orphan.partial"));
    assert!(!is_label_dir_name(".partial"));
    assert!(is_label_dir_name("partial"));
    assert!(is_label_dir_name(""));
    assert!(is_label_dir_name("x.partia"));
}

#[test]
fn label_id_is_last_path_component() {
    assert_eq!(label_id_from_dir("/tmp/labels/abc12345"), "abc12345");
    assert_eq!(label_id_from_dir("abc12345/"), "abc12345");
    assert_eq!(label_id_from_dir("/"), "");
    assert_eq!(label_id_from_dir("labels/.."), "");
    assert_eq!(image_file_name("abc12345"), "abc12345/image.png");
}

#[test]
fn year_parsing() {
    assert_eq!(parse_year("2026"), 2026);
    assert_eq!(parse_year("+2026"), 2026);
    assert_eq!(parse_year("0"), 0);
    assert_eq!(parse_year(""), 0);
    assert_eq!(parse_year("+"), 0);
    assert_eq!(parse_year("-5"), 0);
    assert_eq!(parse_year("20x6"), 0);
    assert_eq!(parse_year("4294967295"), 4294967295);
    assert_eq!(parse_year("4294967296"), 0);
    assert_eq!(parse_year("99999999999999999999"), 0);
    let info = coco_info(2026);
    assert_eq!(info.year, 2026);
    assert_eq!(info.version, "1.0");
    assert_eq!(info.schema_version, "1.0");
    assert_eq!(info.description, "snapseg labels exported to COCO");
}

#[test]
fn mask_size_check() {
    let meta = provenance(LabelQuality::Good, None);
    assert_eq!(check_mask_size(4, 3, &meta, "lbl"), Ok(()));
    assert_eq!(
        check_mask_size(16, 3, &meta, "lbl"),
        Err(LabelError::MaskFormat("mask 16x3 does not match source 4x3 in lbl".to_string()))
    );
    assert_eq!(
        check_mask_size(4, 1234567, &meta, "x"),
        Err(LabelError::MaskFormat("mask 4x1234567 does not match source 4x3 in x".to_string()))
    );
}

#[test]
fn missing_artifact_names_label_and_file() {
    assert_eq!(require_artifact("abc", "mask.png", true), Ok(()));
    assert_eq!(
        require_artifact("abc", "mask.png", false),
        Err(LabelError::MissingArtifact { label: "abc".to_string(), artifact: "mask.png" })
    );
}

#[test]
fn coco_entries_for_one_label() {
    let meta = provenance(LabelQuality::Good, Some("abc1234"));
    let img = coco_image(7, "abc12345", meta.clone());
    assert_eq!(img.id, 7);
    assert_eq!(img.width, 4);
    assert_eq!(img.height, 3);
    assert_eq!(img.file_name, "abc12345/image.png");
    assert_eq!(img.date_captured, "2026-01-02T03:04:05Z");
    assert_eq!(img.note, "test-model · good · abc1234");
    assert_eq!(img.snapseg_provenance, meta);
    let cat = foreground_category();
    assert_eq!((cat.id, cat.name.as_str(), cat.supercategory.as_str()), (1, "foreground", "snapseg"));
}

#[test]
fn rejected_labels_are_left_out_only_when_asked() {
    let opts = ConvertOptions::default();
    assert!(opts.skip_rejected);
    assert!(!opts.strict);
    assert!(!keeps_label(&opts, LabelQuality::Reject));
    assert!(keeps_label(&opts, LabelQuality::Good));
    assert!(keeps_label(&opts, LabelQuality::NeedsReview));
    let all = ConvertOptions { skip_rejected: false, strict: false };
    assert!(keeps_label(&all, LabelQuality::Reject));
}

#[test]
fn lenient_export_numbers_and_counts() {
    let opts = ConvertOptions::default();
    let mut p = ExportProgress::start();
    let outcomes = [true, false, true, true, false];
    for ok in outcomes {
        let outcome = if ok { Ok(()) } else { Err(LabelError::TomlDe("bad".to_string())) };
        p = record_outcome(p, &opts, outcome).expect("lenient mode never aborts");
    }
    // Three exported labels took ids 1, 2, 3; two broken ones were skipped.
    assert_eq!(p, ExportProgress { next_id: 4, skipped: 2 });
}

#[test]
fn strict_export_aborts_on_first_error() {
    let opts = ConvertOptions { skip_rejected: true, strict: true };
    let p = ExportProgress::start();
    let p = record_outcome(p, &opts, Ok(())).expect("ok label");
    assert_eq!(p, ExportProgress { next_id: 2, skipped: 0 });
    let err = record_outcome(p, &opts, Err(LabelError::Json("broken".to_string())))
        .expect_err("strict mode aborts");
    assert_eq!(err, LabelError::Json("broken".to_string()));
}

#[test]
fn label_names_sorted_for_a_stable_export() {
    let names: Vec<String> =
        ["abc12345-r2", "0corrupt", "abc12345", "Zed", "ab", "été", "abd"].iter().map(|s| s.to_string()).collect();
    let sorted = sort_label_names(&names);
    let mut expected = names.clone();
    expected.sort();
    assert_eq!(sorted, expected);
    assert_eq!(sorted, vec!["0corrupt", "Zed", "ab", "abc12345", "abc12345-r2", "abd", "été"]);
    assert!(sort_label_names(&Vec::new()).is_empty());
}
