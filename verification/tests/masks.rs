use kropp::angle::{mask_contour_points, mask_hole_count, object_mask};
use kropp::hull::convex_hull;
use kropp::raster::{filled, GrayImage, Raster};

fn put(mask: &mut GrayImage, x: u32, y: u32, v: u8) {
    let at = (y * mask.width + x) as usize;
    mask.pixels[at] = v;
}

#[test]
fn hole_count_finds_enclosed_regions_above_min_area() {
    // A filled 20x20 square with two 3x3 enclosed holes (cassette-like).
    let mut mask: GrayImage = filled(20, 20, 0);
    for y in 0..20 {
        for x in 0..20 {
            put(&mut mask, x, y, 255);
        }
    }
    for (cx, cy) in [(5u32, 10u32), (14, 10)] {
        for y in cy..cy + 3 {
            for x in cx..cx + 3 {
                put(&mut mask, x, y, 0);
            }
        }
    }

    // Both 9px holes counted when the threshold allows them.
    assert_eq!(mask_hole_count(&mask, 4), 2);
    // Raising the minimum area past the hole size drops them (noise filter).
    assert_eq!(mask_hole_count(&mask, 16), 0);
    // A solid square (border-touching background only) has no holes.
    let solid: GrayImage = filled(20, 20, 255);
    assert_eq!(mask_hole_count(&solid, 1), 0);
}

#[test]
fn background_at_the_border_is_no_hole() {
    // A ring with a gap: the inside is connected to the outside.
    let mut mask: GrayImage = filled(5, 5, 255);
    put(&mut mask, 2, 2, 0);
    assert_eq!(mask_hole_count(&mask, 1), 1);
    assert_eq!(mask_hole_count(&mask, 2), 0);
    put(&mut mask, 2, 1, 0);
    assert_eq!(mask_hole_count(&mask, 2), 1);
    put(&mut mask, 2, 0, 0);
    assert_eq!(mask_hole_count(&mask, 1), 0);
    // A diagonal gap does not open a hole.
    let mut mask: GrayImage = filled(3, 3, 255);
    put(&mut mask, 1, 1, 0);
    put(&mut mask, 0, 0, 0);
    assert_eq!(mask_hole_count(&mask, 1), 1);
    let empty: GrayImage = filled(0, 7, 0);
    assert_eq!(mask_hole_count(&empty, 0), 0);
}

#[test]
fn mask_shows_one_label_within_its_box() {
    let labels = vec![0, 1, 2, 1, 1, 0];
    let mask = object_mask(&labels, 3, 1, 0, 0, 1, 1);
    assert_eq!((mask.width, mask.height), (2, 2));
    assert_eq!(mask.pixels, vec![0, 255, 255, 255]);
}

#[test]
fn contour_is_the_rim_of_the_mask() {
    let mask: GrayImage = filled(4, 4, 255);
    let rim = mask_contour_points(&mask);
    assert_eq!(
        rim,
        vec![
            (0, 0), (1, 0), (2, 0), (3, 0), (0, 1), (3, 1), (0, 2), (3, 2), (0, 3), (1, 3), (2, 3),
            (3, 3)
        ]
    );
    // In a frame of background, corners count as touching it.
    let mut framed: GrayImage = filled(5, 5, 0);
    for y in 1..4 {
        for x in 1..4 {
            put(&mut framed, x, y, 9);
        }
    }
    assert_eq!(mask_contour_points(&framed).len(), 8);
    let mut pierced: GrayImage = filled(5, 5, 255);
    put(&mut pierced, 1, 1, 0);
    assert!(mask_contour_points(&pierced).contains(&(2, 2)));
    assert!(!mask_contour_points(&pierced).contains(&(3, 3)));
    let none: GrayImage = Raster { width: 2, height: 2, pixels: vec![0; 4] };
    assert!(mask_contour_points(&none).is_empty());
}

#[test]
fn hull_runs_counter_clockwise_without_collinear_points() {
    let mut points = Vec::new();
    for y in 0..4 {
        for x in 0..6 {
            points.push((x, y));
        }
    }
    assert_eq!(convex_hull(&points), vec![(0, 0), (5, 0), (5, 3), (0, 3)]);
    points.push((3, -2));
    points.push((3, -2));
    assert_eq!(convex_hull(&points), vec![(0, 0), (3, -2), (5, 0), (5, 3), (0, 3)]);
}

#[test]
fn hull_passes_each_corner_once() {
    let hull = convex_hull(&vec![(0, 0), (4, 0), (4, 4), (0, 4), (2, 2), (0, 2), (4, 2)]);
    assert_eq!(hull, vec![(0, 0), (4, 0), (4, 4), (0, 4)]);
}

#[test]
fn hull_of_few_or_collinear_points_is_their_ends() {
    assert!(convex_hull(&vec![]).is_empty());
    assert_eq!(convex_hull(&vec![(4, 4), (4, 4)]), vec![(4, 4)]);
    assert_eq!(convex_hull(&vec![(4, 4), (1, 7)]), vec![(1, 7), (4, 4)]);
    assert_eq!(convex_hull(&vec![(2, 2), (0, 0), (3, 3), (1, 1)]), vec![(0, 0), (3, 3)]);
    assert_eq!(convex_hull(&vec![(1, 5), (1, 0), (1, 2)]), vec![(1, 0), (1, 5)]);
    assert_eq!(
        convex_hull(&vec![(0, 0), (4294967295, 0), (0, 4294967295)]),
        vec![(0, 0), (4294967295, 0), (0, 4294967295)]
    );
}
