use manga_overlay::boxes::{
    combine_overlapping_rects, filter_boxes_by_confidence, to_envelopes, DetectedBox, MergedBox,
    PixelRect,
};

// Fixed-point units: 1_000_000 units per 1.0 of normalized image fraction.
fn frac(thousandths: u32) -> u32 {
    thousandths * 1_000
}

fn boxes_at(cx: u32, cy: u32, w: u32, h: u32, confidence: u32) -> DetectedBox {
    DetectedBox { confidence, cx, cy, w, h }
}

#[test]
fn two_boxes_filtered_then_merged_yield_one_box() {
    // Confidences 0.9 and 0.1 with a 0.5 threshold: one box survives the
    // filter, so one merged box comes out.
    let detected = vec![
        boxes_at(frac(200), frac(200), frac(200), frac(200), frac(900)),
        boxes_at(frac(300), frac(300), frac(200), frac(200), frac(100)),
    ];
    let kept = filter_boxes_by_confidence(detected, frac(500));
    assert_eq!(kept.len(), 1);
    assert_eq!(kept[0].confidence, frac(900));
    let merged = combine_overlapping_rects(to_envelopes(&kept));
    assert_eq!(merged.len(), 1);
}

#[test]
fn overlapping_boxes_merge_into_the_union_envelope() {
    // [0.1,0.1]-[0.3,0.3] and [0.2,0.2]-[0.4,0.4], confidence 0.6 each,
    // merge into [0.1,0.1]-[0.4,0.4] with confidence 0.6.
    let detected = vec![
        boxes_at(frac(200), frac(200), frac(200), frac(200), frac(600)),
        boxes_at(frac(300), frac(300), frac(200), frac(200), frac(600)),
    ];
    let merged = combine_overlapping_rects(to_envelopes(&detected));
    assert_eq!(merged.len(), 1);
    // Edges are kept in half-units: two half-units per fixed-point unit.
    assert_eq!(merged[0].left, 2 * frac(100) as u64);
    assert_eq!(merged[0].top, 2 * frac(100) as u64);
    assert_eq!(merged[0].right, 2 * frac(400) as u64);
    assert_eq!(merged[0].bottom, 2 * frac(400) as u64);
    assert_eq!(merged[0].confidence, frac(600));
}

#[test]
fn identical_boxes_merge_with_averaged_confidence() {
    let a = boxes_at(frac(500), frac(500), frac(100), frac(100), frac(800));
    let b = boxes_at(frac(500), frac(500), frac(100), frac(100), frac(400));
    let merged = combine_overlapping_rects(to_envelopes(&vec![a, b]));
    assert_eq!(merged.len(), 1);
    assert_eq!(merged[0].confidence, frac(600));
    assert_eq!(merged[0].left, a.to_envelope().left);
    assert_eq!(merged[0].right, a.to_envelope().right);
}

#[test]
fn merging_is_idempotent_and_output_is_disjoint() {
    let detected = vec![
        boxes_at(frac(100), frac(100), frac(150), frac(150), frac(700)),
        boxes_at(frac(180), frac(120), frac(150), frac(150), frac(500)),
        boxes_at(frac(800), frac(800), frac(100), frac(100), frac(900)),
        boxes_at(frac(820), frac(790), frac(100), frac(100), frac(300)),
    ];
    let merged = combine_overlapping_rects(to_envelopes(&detected));
    let again = combine_overlapping_rects(merged.clone());
    assert_eq!(again, merged);
    for i in 0..merged.len() {
        for j in 0..merged.len() {
            if i != j {
                assert!(!merged[i].overlaps(&merged[j]));
            }
        }
    }
}

#[test]
fn empty_input_yields_empty_output() {
    let merged = combine_overlapping_rects(Vec::new());
    assert_eq!(merged.len(), 0);
}

#[test]
fn touching_boxes_do_not_merge() {
    // [0.1,0.1]-[0.2,0.2] and [0.2,0.1]-[0.3,0.2] share an edge only.
    let a = boxes_at(frac(150), frac(150), frac(100), frac(100), frac(500));
    let b = boxes_at(frac(250), frac(150), frac(100), frac(100), frac(500));
    let merged = combine_overlapping_rects(to_envelopes(&vec![a, b]));
    assert_eq!(merged.len(), 2);
}

#[test]
fn zero_area_boxes_never_merge() {
    let a = boxes_at(frac(150), frac(150), 0, frac(100), frac(500));
    let b = boxes_at(frac(150), frac(150), frac(100), frac(100), frac(500));
    let merged = combine_overlapping_rects(to_envelopes(&vec![a, b]));
    assert_eq!(merged.len(), 2);
}

#[test]
fn incoming_box_can_merge_several_aggregates() {
    // Two disjoint boxes, then a third spanning both: one pass merges the
    // third into both, and the retry pass collapses the results.
    let a = boxes_at(frac(100), frac(100), frac(100), frac(100), frac(600));
    let b = boxes_at(frac(400), frac(100), frac(100), frac(100), frac(600));
    let c = boxes_at(frac(250), frac(100), frac(500), frac(100), frac(600));
    let merged = combine_overlapping_rects(to_envelopes(&vec![a, b, c]));
    assert_eq!(merged.len(), 1);
    // The spanning box covers 0.0 to 0.5 horizontally.
    assert_eq!(merged[0].left, 0);
    assert_eq!(merged[0].right, 2 * frac(500) as u64);
}

#[test]
fn get_rect_scales_and_clamps_to_the_image() {
    let b = MergedBox {
        confidence: frac(900),
        left: 2 * frac(100) as u64,
        top: 2 * frac(100) as u64,
        right: 2 * frac(400) as u64,
        bottom: 2 * frac(1200) as u64,
    };
    let rect = b.get_rect(1000, 500);
    assert_eq!(
        rect,
        PixelRect { left: 100, top: 50, width: 300, height: 500 }
    );
}
