use snapseg::models::{
    build_point_rows, classify_encoder_layout, detect_schema, embedding_dims, encode_prompts,
    family_label, find_input, find_named_output, instances_plan, label_code, masks_dims,
    pick_embedding_output, pick_logits_output, resolve_fused_input_names, resolve_input_names,
    split_clicks, EncoderLayout, FocalClickSegmenter, InstancesAt, MobileSamSegmenter, PointRow,
    RitmSchema, RitmSegmenter, SamPointLabel,
};
use snapseg::runtime::RuntimeConfig;
use snapseg::types::{BBox, GrayImage, Point2, Polarity, Prompt, SegError};

fn names(v: &[&str]) -> Vec<String> {
    v.iter().map(|s| s.to_string()).collect()
}

#[test]
fn layout_canonical_nchw() {
    assert_eq!(classify_encoder_layout(&[1, 3, 1024, 1024]), EncoderLayout::Nchw);
    assert_eq!(classify_encoder_layout(&[-1, 3, -1, -1]), EncoderLayout::Nchw);
}

#[test]
fn layout_chw_no_batch() {
    assert_eq!(classify_encoder_layout(&[3, 1024, 1024]), EncoderLayout::Chw);
}

#[test]
fn layout_nhwc_channels_last_batched() {
    assert_eq!(classify_encoder_layout(&[1, 1024, 1024, 3]), EncoderLayout::Nhwc);
}

#[test]
fn layout_hwc_no_batch() {
    assert_eq!(classify_encoder_layout(&[-1, -1, 3]), EncoderLayout::Hwc);
    assert_eq!(classify_encoder_layout(&[1024, 1024, 3]), EncoderLayout::Hwc);
}

#[test]
fn layout_empty_defaults_to_nchw() {
    assert_eq!(classify_encoder_layout(&[]), EncoderLayout::Nchw);
    assert_eq!(classify_encoder_layout(&[1, 3]), EncoderLayout::Nchw);
}

#[test]
fn from_parts_constructs_stub_with_advertised_capabilities() {
    let parts: Vec<(String, String)> = Vec::new();
    let cfg = RuntimeConfig::default();
    let seg = FocalClickSegmenter::from_parts("focalclick-test".into(), &parts, 1024, &cfg)
        .expect("stub from_parts is infallible");
    let caps = seg.capabilities();
    assert!(caps.positive_clicks);
    assert!(caps.negative_clicks);
    assert!(!caps.bbox);
    assert!(caps.scribble);
    assert!(caps.mask_input);
    assert_eq!(caps.recommended_input_size, (1024, 1024));
}

#[test]
fn focalclick_keeps_the_image() {
    let parts: Vec<(String, String)> = Vec::new();
    let cfg = RuntimeConfig::default();
    let mut seg = FocalClickSegmenter::from_parts("fc".into(), &parts, 512, &cfg).unwrap();
    assert_eq!(seg.name(), "fc");
    let img = GrayImage::from_rows(1, 2, vec![3, 4]);
    assert!(seg.set_image(&img).is_ok());
    assert!(seg.capabilities().supports_clicks());
}

#[test]
fn from_parts_rejects_missing_model_part() {
    let parts: Vec<(String, String)> = Vec::new();
    let cfg = RuntimeConfig::default();
    let err = RitmSegmenter::from_parts("ritm-test".into(), &parts, 1024, &cfg)
        .err()
        .expect("missing 'model' part must fail");
    match err {
        SegError::InvalidInput(msg) => assert!(msg.contains("model"), "msg: {msg}"),
        other => panic!("expected InvalidInput, got {other:?}"),
    }
}

#[test]
fn from_parts_fails_on_missing_file() {
    let parts = vec![(
        "model".to_string(),
        "/definitely/not/a/real/path/ritm.onnx".to_string(),
    )];
    let cfg = RuntimeConfig::default();
    let err = RitmSegmenter::from_parts("ritm-test".into(), &parts, 1024, &cfg)
        .err()
        .expect("non-existent ONNX path must fail");
    match err {
        SegError::Backend(msg) => assert!(
            msg.contains("RITM model load") || msg.contains("not found"),
            "msg: {msg}"
        ),
        other => panic!("expected Backend, got {other:?}"),
    }
}

#[test]
fn ritm_loads_an_existing_file() {
    // The backend only checks that the model file exists; the working
    // directory always does.
    let parts = vec![("model".to_string(), ".".to_string())];
    let cfg = RuntimeConfig::default();
    let seg = RitmSegmenter::from_parts_with_shape("r".into(), &parts, (682, 1024), &cfg)
        .expect("file exists");
    assert_eq!(seg.name(), "r");
    // Capabilities report the canvas as (width, height).
    assert_eq!(seg.capabilities().recommended_input_size, (1024, 682));
    assert!(!seg.capabilities().bbox);
}

#[test]
fn mobile_sam_needs_both_parts() {
    let cfg = RuntimeConfig::default();
    let err = MobileSamSegmenter::from_parts("m".into(), &Vec::new(), 1024, &cfg).err().unwrap();
    assert!(matches!(err, SegError::InvalidInput(ref m) if m == "MobileSAM needs an 'encoder' part"));
    let parts = vec![("encoder".to_string(), "/nope/e.onnx".to_string())];
    let err = MobileSamSegmenter::from_parts("m".into(), &parts, 1024, &cfg).err().unwrap();
    assert!(matches!(err, SegError::InvalidInput(ref m) if m == "MobileSAM needs a 'decoder' part"));
    let parts = vec![
        ("decoder".to_string(), "/nope/d.onnx".to_string()),
        ("encoder".to_string(), "/nope/e.onnx".to_string()),
    ];
    let err = MobileSamSegmenter::from_parts("m".into(), &parts, 1024, &cfg).err().unwrap();
    match err {
        SegError::Backend(m) => assert_eq!(m, "encoder load: model file not found: /nope/e.onnx"),
        other => panic!("expected Backend, got {other:?}"),
    }
}

#[test]
fn family_labels() {
    assert_eq!(family_label("ritm").unwrap(), "RITM");
    assert_eq!(family_label("focalclick").unwrap(), "FocalClick");
    assert_eq!(family_label("mobile_sam").unwrap(), "MobileSAM");
    assert_eq!(family_label("efficient_sam").unwrap(), "EfficientSAM");
    assert_eq!(family_label("sam2_tiny").unwrap(), "SAM2-Tiny");
    match family_label("RITM") {
        Err(SegError::InvalidInput(m)) => assert_eq!(m, "unknown model family `RITM`"),
        other => panic!("expected InvalidInput, got {other:?}"),
    }
}

#[test]
fn schema_detection() {
    let sep = names(&["image", "click_map", "prev_mask"]);
    assert_eq!(detect_schema(&sep, &[1, 3, 1024, 1024]).unwrap(), RitmSchema::Separate);
    assert_eq!(detect_schema(&sep, &[1, 4, 1024, 1024]).unwrap(), RitmSchema::Fused4ch);
    let pts = names(&["image", "Points", "size"]);
    assert_eq!(detect_schema(&pts, &[1, 3, 8, 8]).unwrap(), RitmSchema::Separate);
    let no_clicks = names(&["image", "pointset", "size"]);
    assert_eq!(detect_schema(&no_clicks, &[1, 3, 8, 8]).unwrap(), RitmSchema::Fused4ch);
    assert_eq!(detect_schema(&sep, &[]).unwrap(), RitmSchema::Fused4ch);
    match detect_schema(&[], &[1, 3, 8, 8]) {
        Err(SegError::Backend(m)) => assert_eq!(m, "RITM ONNX declares no inputs"),
        other => panic!("expected Backend, got {other:?}"),
    }
}

#[test]
fn input_name_resolution() {
    let declared = names(&["Images", "clicks", "PrevMask"]);
    let r = resolve_input_names(&declared).unwrap();
    assert_eq!((r.image.as_str(), r.click_map.as_str(), r.prev_mask.as_str()), ("Images", "clicks", "PrevMask"));
    // Positional fallback when nothing matches.
    let declared = names(&["a", "b", "c"]);
    let r = resolve_input_names(&declared).unwrap();
    assert_eq!((r.image.as_str(), r.click_map.as_str(), r.prev_mask.as_str()), ("a", "b", "c"));
    let declared = names(&["x", "image"]);
    match resolve_input_names(&declared) {
        Err(SegError::Backend(m)) => {
            assert_eq!(m, "RITM ONNX expected ≥3 inputs, declared 2 ([\"x\", \"image\"])")
        }
        other => panic!("expected Backend, got {other:?}"),
    }
    let declared = names(&["image", "points", "orig_size"]);
    let f = resolve_fused_input_names(&declared).unwrap();
    assert_eq!((f.image.as_str(), f.points.as_str(), f.size.as_str()), ("image", "points", "orig_size"));
    assert!(matches!(resolve_fused_input_names(&[]), Err(SegError::Backend(_))));
    assert_eq!(find_input(&names(&["foo", "INPUT_1"]), &["image", "input"]), Some("INPUT_1".to_string()));
    assert_eq!(find_input(&names(&["foo"]), &["image"]), None);
}

#[test]
fn output_picking() {
    assert_eq!(pick_logits_output(&names(&["aux", "Instances"])), Some(1));
    assert_eq!(pick_logits_output(&names(&["aux", "other"])), Some(0));
    assert_eq!(pick_logits_output(&[]), None);
    assert_eq!(pick_embedding_output(&names(&["x", "image_embeddings"])), Some(1));
    assert_eq!(find_named_output(&names(&["iou_predictions", "MASKS", "low_res_masks"]), "masks"), Some(1));
    assert_eq!(find_named_output(&names(&["iou"]), "masks"), None);
}

#[test]
fn shape_checks() {
    assert_eq!(masks_dims(&[1, 4, 480, 640]).unwrap(), (480, 640));
    match masks_dims(&[1, 0, 4, 4]) {
        Err(SegError::Backend(m)) => assert_eq!(m, "unexpected masks shape [1, 0, 4, 4]"),
        other => panic!("got {other:?}"),
    }
    match masks_dims(&[4, 4]) {
        Err(SegError::Backend(m)) => assert_eq!(m, "expected 4-D masks, got [4, 4]"),
        other => panic!("got {other:?}"),
    }
    assert_eq!(embedding_dims(&[256, 64, 64]).unwrap(), [1, 256, 64, 64]);
    assert_eq!(embedding_dims(&[1, 256, 64, 64]).unwrap(), [1, 256, 64, 64]);
    match embedding_dims(&[]) {
        Err(SegError::Backend(m)) => assert_eq!(m, "expected 3-D or 4-D embedding, got shape []"),
        other => panic!("got {other:?}"),
    }
    assert_eq!(instances_plan(&[1, 1, 30, 40], 1200, 30, 40, 64, 64).unwrap(), InstancesAt::Source);
    assert_eq!(instances_plan(&[1, 1, 64, 64], 4096, 30, 40, 64, 64).unwrap(), InstancesAt::Canvas);
    match instances_plan(&[1, 1, 64, 64], 4000, 30, 40, 64, 64) {
        Err(SegError::Backend(m)) => {
            assert_eq!(m, "instances buffer length 4000 < expected 4096 for shape [1, 1, 64, 64]")
        }
        other => panic!("got {other:?}"),
    }
    match instances_plan(&[1, 1, 10, 10], 100, 30, 40, 64, 64) {
        Err(SegError::Backend(m)) => assert_eq!(
            m,
            "instances returned at 10x10; expected canvas 64x64 or original 30x40"
        ),
        other => panic!("got {other:?}"),
    }
    match instances_plan(&[2, 1, 10, 10], 200, 30, 40, 64, 64) {
        Err(SegError::Backend(m)) => {
            assert_eq!(m, "unexpected instances shape [2, 1, 10, 10] (want [1, 1, H, W])")
        }
        other => panic!("got {other:?}"),
    }
}

#[test]
fn fused_points_layout() {
    let prompts = vec![
        Prompt::Click { point: Point2::new(1, 2), polarity: Polarity::Negative },
        Prompt::Box(BBox { x0: 0, y0: 0, x1: 9, y1: 9 }),
        Prompt::Scribble {
            points: vec![Point2::new(3, 4), Point2::new(5, 6)],
            polarity: Polarity::Positive,
        },
        Prompt::Click { point: Point2::new(7, 8), polarity: Polarity::Positive },
    ];
    let (pos, neg) = split_clicks(&prompts);
    assert_eq!(pos, vec![Point2::new(3, 4), Point2::new(5, 6), Point2::new(7, 8)]);
    assert_eq!(neg, vec![Point2::new(1, 2)]);
    let rows = build_point_rows(&prompts);
    assert_eq!(
        rows,
        vec![
            PointRow::Click { point: Point2::new(3, 4), index: 0 },
            PointRow::Click { point: Point2::new(5, 6), index: 1 },
            PointRow::Click { point: Point2::new(7, 8), index: 2 },
            PointRow::Click { point: Point2::new(1, 2), index: 0 },
            PointRow::Unused,
            PointRow::Unused,
        ]
    );
    let none: Vec<Prompt<i32>> = Vec::new();
    assert_eq!(build_point_rows(&none), vec![PointRow::Unused, PointRow::Unused]);
}

#[test]
fn sam_prompt_encoding() {
    let prompts = vec![
        Prompt::Click { point: Point2::new(1, 2), polarity: Polarity::Positive },
        Prompt::Scribble { points: vec![Point2::new(3, 4)], polarity: Polarity::Positive },
        Prompt::Box(BBox { x0: 5, y0: 6, x1: 7, y1: 8 }),
        Prompt::Click { point: Point2::new(9, 9), polarity: Polarity::Negative },
    ];
    let pts = encode_prompts(&prompts);
    assert_eq!(
        pts,
        vec![
            (Point2::new(1, 2), SamPointLabel::Positive),
            (Point2::new(5, 6), SamPointLabel::BoxTopLeft),
            (Point2::new(7, 8), SamPointLabel::BoxBottomRight),
            (Point2::new(9, 9), SamPointLabel::Negative),
        ]
    );
    let codes: Vec<u8> = pts.iter().map(|p| label_code(p.1)).collect();
    assert_eq!(codes, vec![1, 2, 3, 0]);
}

#[test]
fn point_rows_number_each_half_from_zero() {
    let prompts: Vec<Prompt<i32>> = vec![
        Prompt::Click { point: Point2::new(1, 1), polarity: Polarity::Negative },
        Prompt::Click { point: Point2::new(2, 2), polarity: Polarity::Positive },
        Prompt::Click { point: Point2::new(3, 3), polarity: Polarity::Negative },
    ];
    assert_eq!(
        build_point_rows(&prompts),
        vec![
            PointRow::Click { point: Point2::new(2, 2), index: 0 },
            PointRow::Unused,
            PointRow::Click { point: Point2::new(1, 1), index: 0 },
            PointRow::Click { point: Point2::new(3, 3), index: 1 },
        ]
    );
}
