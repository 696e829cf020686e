use kropp::components::{
    connected_components, crop_object, crop_object_rgba16, keep_large, meets_min_side,
    object_pixels, objects_from_instances, Object, DISCARDED,
};
use kropp::finish::trim_transparent;
use kropp::raster::{filled, Raster, Rgba16Image, RgbaImage};

fn grid(rows: &[&str]) -> (Vec<bool>, usize, usize) {
    let h = rows.len();
    let w = rows[0].len();
    let fg = rows.iter().flat_map(|r| r.chars().map(|c| c == '#')).collect();
    (fg, w, h)
}

/// The least whole number of pixels that reaches `percent` of the smaller dimension.
fn min_side(w: usize, h: usize, percent: f64) -> usize {
    (percent / 100.0 * w.min(h) as f64).ceil().max(0.0) as usize
}

#[test]
fn min_side_filter_drops_specks_relative_to_smaller_image_dim() {
    let obj = |min_x, min_y, max_x, max_y| Object {
        label: 1,
        area: 1,
        min_x,
        min_y,
        max_x,
        max_y,
    };
    // Image 200x100 -> threshold is 10% of min(200,100) = 10 px.
    let (w, h) = (200, 100);

    // 9x9 box: longer side 9 < 10 -> dropped.
    assert!(!meets_min_side(&obj(0, 0, 8, 8), min_side(w, h, 10.0)));
    // 3x40 sliver: longer side 40 >= 10 -> kept (one side suffices).
    assert!(meets_min_side(&obj(0, 0, 2, 39), min_side(w, h, 10.0)));
    // Exactly at the threshold (10 px) is kept.
    assert!(meets_min_side(&obj(0, 0, 9, 0), min_side(w, h, 10.0)));
    // Disabled: the tiny box survives.
    assert!(meets_min_side(&obj(0, 0, 1, 1), min_side(w, h, 0.0)));
}

#[test]
fn objects_from_instances_keeps_touching_instances_separate() {
    // Two 2x2 instances sharing the middle column (they touch) in a 4x2 grid.
    let w = 4;
    let h = 2;
    let mut left = vec![false; w * h];
    let mut right = vec![false; w * h];
    for y in 0..2 {
        left[y * w] = true;
        left[y * w + 1] = true;
        right[y * w + 1] = true; // overlaps left's column 1
        right[y * w + 2] = true;
        right[y * w + 3] = true;
    }

    let (labels, objects) = objects_from_instances(&[left, right], w, h, 1);

    // Two distinct objects despite touching; connected components would merge.
    assert_eq!(objects.len(), 2);
    // Earliest instance wins the shared column, so it keeps all 4 pixels and
    // is the larger object after sorting.
    assert_eq!(objects[0].area, 4);
    assert_eq!(objects[1].area, 4);
    // Every labelled pixel belongs to one of the two objects.
    assert!(labels.iter().all(|&l| l <= 2));
}

#[test]
fn dropped_instance_frees_its_pixels() {
    let small = vec![true, false, false, false];
    let large = vec![true, true, true, false];
    let (labels, objects) = objects_from_instances(&[small, large], 4, 1, 2);
    assert_eq!(labels, vec![1, 1, 1, 0]);
    assert_eq!(objects.len(), 1);
    assert_eq!(
        objects[0],
        Object { label: 1, area: 3, min_x: 0, min_y: 0, max_x: 2, max_y: 0 }
    );
}

#[test]
fn empty_instance_is_no_object() {
    let (labels, objects) = objects_from_instances(&[vec![false; 4], vec![false, true, false, false]], 2, 2, 0);
    assert_eq!(labels, vec![0, 1, 0, 0]);
    assert_eq!(objects.len(), 1);
}

#[test]
fn components_join_diagonals_and_sort_largest_first() {
    let (fg, w, h) = grid(&["#...#", ".#..#", "....#", "....#"]);
    let (labels, objects) = connected_components(&fg, w, h, 0);
    assert_eq!(
        labels,
        vec![1, 0, 0, 0, 2, 0, 1, 0, 0, 2, 0, 0, 0, 0, 2, 0, 0, 0, 0, 2]
    );
    assert_eq!(objects.len(), 2);
    assert_eq!(
        objects[0],
        Object { label: 2, area: 4, min_x: 4, min_y: 0, max_x: 4, max_y: 3 }
    );
    assert_eq!(
        objects[1],
        Object { label: 1, area: 2, min_x: 0, min_y: 0, max_x: 1, max_y: 1 }
    );
}

#[test]
fn equally_large_components_keep_their_order() {
    let (fg, w, h) = grid(&["#.#.#"]);
    let (_, objects) = connected_components(&fg, w, h, 1);
    let labels: Vec<usize> = objects.iter().map(|o| o.label).collect();
    assert_eq!(labels, vec![1, 2, 3]);
}

#[test]
fn small_components_are_dropped_and_carry_no_label_of_an_object() {
    let (fg, w, h) = grid(&["#..##", "...##", "#...."]);
    let (labels, objects) = connected_components(&fg, w, h, 2);
    assert_eq!(objects.len(), 1);
    assert_eq!(
        objects[0],
        Object { label: 1, area: 4, min_x: 3, min_y: 0, max_x: 4, max_y: 1 }
    );
    assert_eq!(
        labels,
        vec![DISCARDED, 0, 0, 1, 1, 0, 0, 0, 1, 1, DISCARDED, 0, 0, 0, 0]
    );
}

#[test]
fn labels_tell_the_members_of_an_object() {
    let (labels, objects) = connected_components(&[true, false, true, true], 4, 1, 2);
    assert_eq!(objects.len(), 1);
    assert_eq!(objects[0].area, 2);
    assert_eq!((objects[0].min_x, objects[0].max_x), (2, 3));
    assert_eq!(labels[2], objects[0].label);
    assert_eq!(labels[3], objects[0].label);
    assert_ne!(labels[0], objects[0].label);
    assert_ne!(labels[0], 0);
    assert_eq!(labels[1], 0);
    assert_eq!(object_pixels(&labels, 4, &objects[0]), vec![(2, 0), (3, 0)]);
}

#[test]
fn empty_grid_has_no_components() {
    let (labels, objects) = connected_components(&[], 0, 0, 0);
    assert!(labels.is_empty());
    assert!(objects.is_empty());
    let (labels, objects) = connected_components(&[false; 6], 3, 2, 0);
    assert_eq!(labels, vec![0; 6]);
    assert!(objects.is_empty());
}

#[test]
fn large_components_are_kept_in_order() {
    let (fg, w, h) = grid(&["####.#", "......", "##...."]);
    let (_, objects) = connected_components(&fg, w, h, 0);
    let kept = keep_large(&objects, 2);
    assert_eq!(kept.iter().map(|o| o.area).collect::<Vec<_>>(), vec![4, 2]);
    assert_eq!(keep_large(&objects, 0).len(), 3);
    assert!(keep_large(&objects, 5).is_empty());
}

#[test]
fn crop_keeps_only_the_labelled_pixels() {
    let pixels: Vec<[u8; 4]> = (0..6).map(|i| [i, 10 + i, 20 + i, 7]).collect();
    let src: RgbaImage = Raster { width: 3, height: 2, pixels };
    let labels = vec![0, 1, 2, 0, 1, 1];
    let obj = Object { label: 1, area: 3, min_x: 1, min_y: 0, max_x: 2, max_y: 1 };
    let out = crop_object(&src, 3, &labels, &obj);
    assert_eq!((out.width, out.height), (2, 2));
    assert_eq!(
        out.pixels,
        vec![[1, 11, 21, 255], [0, 0, 0, 0], [4, 14, 24, 255], [5, 15, 25, 255]]
    );
    assert_eq!(object_pixels(&labels, 3, &obj), vec![(1, 0), (1, 1), (2, 1)]);
}

#[test]
fn crop_of_deep_pixels_is_fully_opaque() {
    let src: Rgba16Image = Raster { width: 1, height: 1, pixels: vec![[0x1111, 0x8888, 0xeeee, 5]] };
    let obj = Object { label: 1, area: 1, min_x: 0, min_y: 0, max_x: 0, max_y: 0 };
    let out = crop_object_rgba16(&src, 1, &[1], &obj);
    assert_eq!(out.pixels, vec![[0x1111, 0x8888, 0xeeee, u16::MAX]]);
}

#[test]
fn cutouts_are_tight() {
    let (fg, w, h) = grid(&["..#..", ".##..", "...#."]);
    let (labels, objects) = connected_components(&fg, w, h, 0);
    let src: RgbaImage = filled(5, 3, [1, 2, 3, 4]);
    let cutout = crop_object(&src, w, &labels, &objects[0]);
    assert_eq!((cutout.width, cutout.height), (3, 3));
    assert_eq!(trim_transparent(&cutout), Some(cutout));
}

#[test]
fn every_foreground_pixel_belongs_to_one_object() {
    let (fg, w, h) = grid(&["##.#", "...#", "#..."]);
    let (labels, objects) = connected_components(&fg, w, h, 1);
    for (p, &on) in fg.iter().enumerate() {
        let owners = objects
            .iter()
            .filter(|o| object_pixels(&labels, w, o).contains(&(p % w, p / w)))
            .count();
        assert_eq!(owners, usize::from(on));
    }
}

#[test]
fn disjoint_instances_stay_distinct() {
    let left = vec![true, true, false, false];
    let right = vec![false, false, true, false];
    let (labels, objects) = objects_from_instances(&[right, left], 4, 1, 1);
    assert_eq!(labels, vec![2, 2, 1, 0]);
    assert_eq!(objects.iter().map(|o| (o.label, o.area)).collect::<Vec<_>>(), vec![(2, 2), (1, 1)]);
}

#[test]
fn a_larger_least_area_leaves_the_smaller_objects_out() {
    let (fg, w, h) = grid(&["#.##.###", "........", "###.##.#"]);
    let measures = |objects: &[Object], least: usize| -> Vec<(usize, usize, usize)> {
        objects.iter().filter(|o| o.area >= least).map(|o| (o.area, o.min_x, o.min_y)).collect()
    };
    let (labels0, all) = connected_components(&fg, w, h, 0);
    for least in 0..5 {
        let (labels, objects) = connected_components(&fg, w, h, least);
        assert_eq!(measures(&objects, 0), measures(&all, least));
        if least <= 1 {
            assert_eq!(labels, labels0);
            assert_eq!(objects, all);
        }
    }
}
