use std::io::Cursor;

use snapseg::labels::{
    label_mask_annotation, mask_rle, LabelError, LabelQuality, MaskRle, ModelProvenance, OperatorNote, Provenance,
    RuntimeProvenance, SCHEMA_VERSION,
};

fn meta(width: u32, height: u32) -> Provenance {
    Provenance {
        schema_version: SCHEMA_VERSION.to_string(),
        created_at: "2026-01-02T03:04:05Z".to_string(),
        source_image_sha256: "cd".repeat(32),
        source_image_path: None,
        source_image_width: width,
        source_image_height: height,
        model: ModelProvenance {
            registry_name: "m".to_string(),
            family: "mobile_sam".to_string(),
            encoder_sha256: None,
            decoder_sha256: None,
            model_sha256: None,
        },
        runtime: RuntimeProvenance {
            execution_provider: "CPU".to_string(),
            encoder_ms: None,
            decoder_ms: 0,
            snapseg_commit: None,
        },
        operator: OperatorNote { note: String::new(), quality: LabelQuality::Good },
    }
}

fn png_of(img: image::DynamicImage) -> Vec<u8> {
    let mut bytes = Vec::new();
    img.write_to(&mut Cursor::new(&mut bytes), image::ImageFormat::Png).unwrap();
    bytes
}

/// 4x3 luma mask with an L-shaped blob of three pixels.
fn l_mask() -> Vec<u8> {
    vec![
        0, 0, 0, 0, //
        0, 255, 255, 0, //
        0, 200, 0, 0,
    ]
}

fn l_png() -> Vec<u8> {
    png_of(image::DynamicImage::ImageLuma8(image::GrayImage::from_raw(4, 3, l_mask()).unwrap()))
}

#[test]
fn mask_png_gives_rle_bbox_and_area() {
    let r = label_mask_annotation(&l_png(), &meta(4, 3), "lbl", false);
    assert_eq!(
        r,
        Ok(Some(MaskRle { width: 4, height: 3, counts: vec![4, 2, 1, 1, 4], bbox: [1, 1, 2, 2], area: 3 }))
    );
}

#[test]
fn mask_png_with_polygon_is_only_checked() {
    assert_eq!(label_mask_annotation(&l_png(), &meta(4, 3), "lbl", true), Ok(None));
}

#[test]
fn mask_png_of_wrong_size_is_rejected() {
    assert_eq!(
        label_mask_annotation(&l_png(), &meta(3, 4), "lbl", false),
        Err(LabelError::MaskFormat("mask 4x3 does not match source 3x4 in lbl".to_string()))
    );
}

#[test]
fn undecodable_mask_is_an_image_error() {
    let r = label_mask_annotation(b"not a png at all", &meta(4, 3), "lbl", false);
    assert!(matches!(r, Err(LabelError::Image(_))), "got {r:?}");
}

#[test]
fn colour_mask_png_is_read_as_luma() {
    let rgb = image::RgbImage::from_fn(2, 2, |x, y| {
        if x == 1 && y == 0 { image::Rgb([255, 255, 255]) } else { image::Rgb([0, 0, 0]) }
    });
    let r = label_mask_annotation(&png_of(image::DynamicImage::ImageRgb8(rgb)), &meta(2, 2), "c", false);
    assert_eq!(
        r,
        Ok(Some(MaskRle { width: 2, height: 2, counts: vec![2, 1, 1], bbox: [1, 0, 1, 1], area: 1 }))
    );
}

#[test]
fn mask_rle_of_raw_pixels() {
    let m = mask_rle(4, 3, &l_mask());
    assert_eq!(m.counts, vec![4, 2, 1, 1, 4]);
    assert_eq!(m.bbox, [1, 1, 2, 2]);
    assert_eq!(m.area, 3);
    let empty = mask_rle(2, 2, &[0, 0, 0, 0]);
    assert_eq!(empty, MaskRle { width: 2, height: 2, counts: vec![4], bbox: [0, 0, 0, 0], area: 0 });
}
