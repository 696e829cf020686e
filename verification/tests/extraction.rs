use kropp::extract::{
    extract_alpha, extract_background, extract_instances, invert_background, iou_counts, iou_merge,
    mask_to_fg, masks_to_fg, threshold, ExtractError,
};
use kropp::raster::{filled, GrayImage, Raster, RgbaImage};

/// Which pairs of masks overlap by more than `limit`, as intersection over union.
fn links(masks: &[Vec<bool>], limit: f64) -> Vec<Vec<bool>> {
    masks
        .iter()
        .map(|a| {
            masks
                .iter()
                .map(|b| {
                    let (intersection, union) = iou_counts(a, b);
                    union > 0 && intersection as f64 / union as f64 > limit
                })
                .collect()
        })
        .collect()
}

#[test]
fn iou_merge_unions_overlapping_keeps_disjoint() {
    // Two overlapping masks (share a pixel) and one disjoint mask.
    let a = vec![true, true, false, false];
    let b = vec![false, true, true, false];
    let c = vec![false, false, false, true];

    let masks = vec![a, b, c];
    let merged = iou_merge(&masks, &links(&masks, 0.0));
    assert_eq!(merged.len(), 2);
    // The union of a and b covers indices 0,1,2; the disjoint mask stays.
    assert!(merged.iter().any(|m| *m == vec![true, true, true, false]));
    assert!(merged.iter().any(|m| *m == vec![false, false, false, true]));
}

#[test]
fn iou_merge_keeps_low_overlap_separate_above_threshold() {
    let a = vec![true, true, true, false];
    let b = vec![false, false, true, true]; // IoU with a = 1/4 = 0.25
    let masks = vec![a, b];
    let merged = iou_merge(&masks, &links(&masks, 0.5));
    assert_eq!(merged.len(), 2);
}

#[test]
fn overlap_is_counted_over_the_shared_length() {
    assert_eq!(iou_counts(&[true, true, true, false], &[false, false, true, true]), (1, 4));
    assert_eq!(iou_counts(&[true, true], &[true, false, true]), (1, 2));
    assert_eq!(iou_counts(&[false, false], &[false, false]), (0, 0));
    assert_eq!(iou_counts(&[], &[true]), (0, 0));
}

#[test]
fn merging_follows_chains_of_overlaps() {
    let masks = vec![
        vec![true, false, false, false],
        vec![false, false, false, true],
        vec![false, true, false, false],
        vec![false, false, true, false],
    ];
    let mut linked = vec![vec![false; 4]; 4];
    linked[0][2] = true;
    linked[2][3] = true;
    // Only the row of the earlier mask counts.
    linked[3][1] = true;
    let merged = iou_merge(&masks, &linked);
    assert_eq!(merged, vec![vec![true, true, true, false], vec![false, false, false, true]]);
}

#[test]
fn merging_none_or_one_copies() {
    assert!(iou_merge(&vec![], &vec![]).is_empty());
    let one = vec![vec![false, true]];
    assert_eq!(iou_merge(&one, &vec![vec![true]]), one);
}

#[test]
fn threshold_keeps_values_at_the_cutoff() {
    assert_eq!(threshold(&[0, 127, 128, 255], 128), vec![false, false, true, true]);
    assert_eq!(threshold(&[0, 1], 0), vec![true, true]);
    assert!(threshold(&[], 3).is_empty());
}

#[test]
fn mask_of_the_image_size_is_thresholded_directly() {
    let mask: GrayImage = Raster { width: 2, height: 1, pixels: vec![127, 128] };
    assert_eq!(mask_to_fg(&mask, 2, 1), vec![false, true]);
}

#[test]
fn mask_of_another_size_is_resized_to_its_nearest_pixels() {
    let mask: GrayImage = Raster { width: 2, height: 2, pixels: vec![255, 0, 0, 200] };
    assert_eq!(
        mask_to_fg(&mask, 4, 4),
        vec![
            true, true, false, false, true, true, false, false, false, false, true, true, false,
            false, true, true
        ]
    );
    assert_eq!(masks_to_fg(&vec![mask], 2, 2), vec![vec![true, false, false, true]]);
    let empty: GrayImage = filled(0, 0, 0);
    assert_eq!(mask_to_fg(&empty, 2, 1), vec![false, false]);
}

#[test]
fn what_no_mask_shows_is_foreground() {
    let masks = vec![vec![true, false, false], vec![false, false, true]];
    assert_eq!(invert_background(&masks, 3), vec![false, true, false]);
    assert_eq!(invert_background(&masks, 4), vec![false, true, false, true]);
    assert_eq!(invert_background(&vec![], 2), vec![true, true]);
}

#[test]
fn alpha_mask_is_split_into_objects() {
    let src: RgbaImage = filled(3, 1, [1, 2, 3, 4]);
    let e = extract_alpha(src, &[242, 10, 250], 242, 0).ok().unwrap();
    assert_eq!((e.width, e.height), (3, 1));
    assert_eq!(e.labels, vec![1, 0, 2]);
    assert_eq!(e.objects.len(), 2);
    assert_eq!(e.src.pixels[2], [1, 2, 3, 4]);
}

#[test]
fn alpha_mask_of_another_size_is_refused() {
    let src: RgbaImage = filled(3, 1, [0; 4]);
    assert_eq!(
        extract_alpha(src, &[1, 2], 1, 0).err(),
        Some(ExtractError::MaskSize { len: 2, width: 3, height: 1 })
    );
}

#[test]
fn background_masks_are_inverted() {
    let src: RgbaImage = filled(4, 1, [0; 4]);
    let left: GrayImage = Raster { width: 4, height: 1, pixels: vec![255, 0, 0, 0] };
    let right: GrayImage = Raster { width: 4, height: 1, pixels: vec![0, 0, 255, 0] };
    let e = extract_background(src, &vec![left, right], 0);
    assert_eq!(e.labels, vec![0, 1, 0, 2]);
}

#[test]
fn overlapping_detections_become_one_object() {
    let src: RgbaImage = filled(4, 1, [0; 4]);
    let masks = vec![
        vec![true, true, false, false],
        vec![false, true, true, false],
        vec![false, false, false, true],
    ];
    let e = extract_instances(src, &masks, &links(&masks, 0.2), 0);
    assert_eq!(e.labels, vec![1, 1, 1, 2]);
    assert_eq!(e.objects.iter().map(|o| o.area).collect::<Vec<_>>(), vec![3, 1]);
}

#[test]
fn merging_at_any_overlap_leaves_disjoint_masks() {
    let masks = vec![
        vec![true, true, false, false, false, false],
        vec![false, false, false, true, true, false],
        vec![false, true, true, false, false, false],
        vec![false, false, false, false, false, true],
    ];
    let merged = iou_merge(&masks, &links(&masks, 0.0));
    assert_eq!(merged.len(), 3);
    for p in 0..6 {
        assert!(merged.iter().filter(|m| m[p]).count() <= 1);
    }
    assert_eq!(iou_merge(&merged, &links(&merged, 0.0)), merged);
    // An overlap never exceeds one, so even equal masks stay separate there.
    let twice = vec![masks[0].clone(), masks[0].clone()];
    assert_eq!(iou_merge(&twice, &links(&twice, 1.0)), twice);
}
