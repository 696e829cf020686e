use kropp::debug_overlay::debug_canvas;
use kropp::finish::{
    apply_quarter_turns, finish_alpha, finish_alpha16, pad_rgba, pad_rgba16, tight, tight16,
    trim_transparent, trim_transparent16,
};
use kropp::preprocess::{
    blend_white, center_crop, composite_over_white, detector_input, doc_orient_input, doc_view,
    keep_outlines, orient_input, planes, resize_center_crop, text_contours,
};
use kropp::raster::{crop, filled, GrayImage, Raster, RgbImage, Rgba16Image, RgbaImage};

fn put<P>(img: &mut Raster<P>, x: u32, y: u32, p: P) {
    let at = (y * img.width + x) as usize;
    img.pixels[at] = p;
}

fn get<P: Copy>(img: &Raster<P>, x: u32, y: u32) -> P {
    img.pixels[(y * img.width + x) as usize]
}

#[test]
fn trim_transparent_crops_to_visible_alpha() {
    let mut img: RgbaImage = filled(6, 5, [0; 4]);
    put(&mut img, 2, 1, [10, 20, 30, 255]);
    put(&mut img, 4, 3, [40, 50, 60, 128]);

    let trimmed = trim_transparent(&img).unwrap();
    assert_eq!((trimmed.width, trimmed.height), (3, 3));
    assert_eq!(get(&trimmed, 0, 0), [10, 20, 30, 255]);
    assert_eq!(get(&trimmed, 2, 2), [40, 50, 60, 128]);
    // Trimming once more changes nothing.
    assert_eq!(trim_transparent(&trimmed), Some(trimmed));
}

/// The border that `percent` of each side comes to.
fn pads(img: &RgbaImage, percent: f64) -> (u32, u32) {
    (
        (img.width as f64 * percent / 100.0).ceil() as u32,
        (img.height as f64 * percent / 100.0).ceil() as u32,
    )
}

#[test]
fn pad_rgba_adds_transparent_border() {
    let mut img: RgbaImage = filled(20, 10, [0; 4]);
    put(&mut img, 0, 0, [10, 20, 30, 255]);

    let (pad_x, pad_y) = pads(&img, 5.0);
    let padded = pad_rgba(&img, pad_x, pad_y);

    assert_eq!((padded.width, padded.height), (22, 12));
    assert_eq!(get(&padded, 0, 0), [0, 0, 0, 0]);
    assert_eq!(get(&padded, 1, 1), [10, 20, 30, 255]);
}

#[test]
fn nothing_visible_is_not_trimmed() {
    let img: RgbaImage = filled(2, 3, [9, 9, 9, 0]);
    assert_eq!(trim_transparent(&img), None);
    assert_eq!(tight(img.clone()), img);
    let deep: Rgba16Image = filled(1, 1, [9, 9, 9, 0]);
    assert_eq!(trim_transparent16(&deep), None);
    assert_eq!(tight16(deep.clone()), deep);
}

#[test]
fn deep_images_are_trimmed_and_padded_alike() {
    let mut img: Rgba16Image = filled(3, 2, [0; 4]);
    put(&mut img, 1, 1, [1, 2, 3, u16::MAX]);
    let trimmed = tight16(img);
    assert_eq!((trimmed.width, trimmed.height), (1, 1));
    let padded = pad_rgba16(&trimmed, 1, 2);
    assert_eq!((padded.width, padded.height), (3, 5));
    assert_eq!(get(&padded, 1, 2), [1, 2, 3, u16::MAX]);
    assert_eq!(get(&padded, 1, 1), [0; 4]);
    assert_eq!(padded.pixels.iter().filter(|p| p[3] != 0).count(), 1);
    let out = finish_alpha16(&trimmed, 1, 0, 1);
    assert_eq!((out.width, out.height), (1, 3));
}

#[test]
fn half_transparent_pixels_are_blended_by_padding() {
    let img: RgbaImage = Raster { width: 1, height: 1, pixels: vec![[200, 100, 50, 128]] };
    let mut over = image::RgbaImage::new(3, 3);
    let mut top = image::RgbaImage::new(1, 1);
    top.put_pixel(0, 0, image::Rgba([200, 100, 50, 128]));
    image::imageops::overlay(&mut over, &top, 1, 1);
    assert_eq!(get(&pad_rgba(&img, 1, 1), 1, 1), over.get_pixel(1, 1).0);
    // Without padding the image is copied, whatever its pixels are.
    assert_eq!(pad_rgba(&img, 0, 0), img);
    let faint: RgbaImage = filled(1, 1, [7, 7, 7, 0]);
    assert_eq!(get(&pad_rgba(&faint, 0, 1), 0, 1), [0; 4]);
    let deep: Rgba16Image = Raster { width: 1, height: 1, pixels: vec![[900, 800, 700, 30000]] };
    let mut over = image::ImageBuffer::<image::Rgba<u16>, Vec<u16>>::new(3, 3);
    let mut top = image::ImageBuffer::<image::Rgba<u16>, Vec<u16>>::new(1, 1);
    top.put_pixel(0, 0, image::Rgba([900, 800, 700, 30000]));
    image::imageops::overlay(&mut over, &top, 1, 1);
    assert_eq!(get(&pad_rgba16(&deep, 1, 1), 1, 1), over.get_pixel(1, 1).0);
}

#[test]
fn quarter_turns_are_clockwise() {
    let img: Raster<u8> = Raster { width: 3, height: 2, pixels: vec![1, 2, 3, 4, 5, 6] };
    let once = apply_quarter_turns(&img, 1);
    assert_eq!((once.width, once.height), (2, 3));
    assert_eq!(once.pixels, vec![4, 1, 5, 2, 6, 3]);
    assert_eq!(apply_quarter_turns(&img, 2).pixels, vec![6, 5, 4, 3, 2, 1]);
    assert_eq!(apply_quarter_turns(&img, 3).pixels, vec![3, 6, 2, 5, 1, 4]);
    assert_eq!(apply_quarter_turns(&img, 0), img);
    assert_eq!(apply_quarter_turns(&img, 7), apply_quarter_turns(&img, 3));
    for cls in 0..4u8 {
        let turned = apply_quarter_turns(&img, cls);
        assert_eq!(apply_quarter_turns(&turned, (4 - cls) % 4), img);
    }
}

#[test]
fn quarter_turns_match_the_image_crate() {
    let pixels: Vec<u8> = (0..12).collect();
    let img: Raster<u8> = Raster { width: 4, height: 3, pixels: pixels.clone() };
    let buf = image::GrayImage::from_raw(4, 3, pixels).unwrap();
    assert_eq!(apply_quarter_turns(&img, 1).pixels, image::imageops::rotate90(&buf).into_raw());
    assert_eq!(apply_quarter_turns(&img, 2).pixels, image::imageops::rotate180(&buf).into_raw());
    assert_eq!(apply_quarter_turns(&img, 3).pixels, image::imageops::rotate270(&buf).into_raw());
    assert_eq!(
        crop(&img, 1, 1, 2, 2).pixels,
        image::imageops::crop_imm(&buf, 1, 1, 2, 2).to_image().into_raw()
    );
}

#[test]
fn padding_comes_before_turning() {
    let img: RgbaImage = Raster { width: 1, height: 1, pixels: vec![[1, 2, 3, 255]] };
    let out = finish_alpha(&img, 2, 0, 1);
    assert_eq!((out.width, out.height), (1, 5));
    assert_eq!(get(&out, 0, 2), [1, 2, 3, 255]);
}

#[test]
fn blending_over_white_rounds_to_nearest() {
    for c in 0..=255u8 {
        for a in 0..=255u8 {
            let alpha = a as f32 / 255.0;
            let expected = (c as f32 * alpha + 255.0 * (1.0 - alpha)).round() as u8;
            assert_eq!(blend_white(c, a), expected, "{c} at {a}");
        }
    }
}

#[test]
fn transparency_becomes_white() {
    let img: RgbaImage =
        Raster { width: 3, height: 1, pixels: vec![[1, 2, 3, 255], [1, 2, 3, 0], [0, 100, 255, 128]] };
    let out = composite_over_white(&img);
    assert_eq!(out.pixels, vec![[1, 2, 3], [255, 255, 255], [127, 177, 255]]);
}

#[test]
fn planes_hold_one_channel_each() {
    let img: RgbImage = Raster { width: 2, height: 1, pixels: vec![[1, 2, 3], [4, 5, 6]] };
    assert_eq!(planes(&img, false), vec![1, 4, 2, 5, 3, 6]);
    assert_eq!(planes(&img, true), vec![3, 6, 2, 5, 1, 4]);
}

fn gradient(w: u32, h: u32) -> (RgbImage, image::RgbImage) {
    let mut buf = image::RgbImage::new(w, h);
    for (x, y, p) in buf.enumerate_pixels_mut() {
        *p = image::Rgb([(x * 7) as u8, (y * 11) as u8, (x * y) as u8]);
    }
    let img = Raster { width: w, height: h, pixels: buf.pixels().map(|p| p.0).collect() };
    (img, buf)
}

#[test]
fn network_inputs_are_resized_as_by_the_image_crate() {
    let (img, buf) = gradient(30, 20);
    let triangle = image::imageops::FilterType::Triangle;
    let resized = image::imageops::resize(&buf, 160, 80, triangle);
    let data = orient_input(&img);
    assert_eq!(data.len(), 3 * 160 * 80);
    for (i, p) in resized.pixels().enumerate() {
        assert_eq!([data[i], data[12800 + i], data[25600 + i]], p.0);
    }

    let resized = image::imageops::resize(&buf, 300, 256, triangle);
    let middle = image::imageops::crop_imm(&resized, 38, 16, 224, 224).to_image();
    let square = resize_center_crop(&img, 300, 256, 224);
    assert!(middle.pixels().map(|p| p.0).eq(square.pixels.iter().copied()));
    let data = doc_orient_input(&img, 300, 256);
    assert_eq!(data[224 * 224], middle.get_pixel(0, 0)[1]);
    assert_eq!(data.len(), 3 * 224 * 224);

    let cutout: RgbaImage = Raster {
        width: 30,
        height: 20,
        pixels: img.pixels.iter().map(|p| [p[0], p[1], p[2], 255]).collect(),
    };
    let resized = image::imageops::resize(&buf, 64, 32, triangle);
    let data = detector_input(&cutout, 64, 32);
    assert_eq!(data[0], resized.get_pixel(0, 0)[2]);
    assert_eq!(data[5], resized.get_pixel(5, 0)[2]);
    assert_eq!(data[2 * 64 * 32 + 70], resized.get_pixel(6, 1)[0]);
}

#[test]
fn only_large_objects_are_scaled_down() {
    let cutout: RgbaImage = filled(10, 4, [10, 20, 30, 255]);
    let view = doc_view(&cutout, 5, 2);
    assert_eq!((view.width, view.height), (10, 4));
    let cutout: RgbaImage = filled(800, 4, [10, 20, 30, 255]);
    let view = doc_view(&cutout, 768, 4);
    assert_eq!((view.width, view.height), (768, 4));
    assert!(view.pixels.iter().all(|p| *p == [10, 20, 30]));
}

#[test]
fn center_crop_leaves_the_spare_row_below() {
    let (img, _) = gradient(7, 6);
    let out = center_crop(&img, 4);
    assert_eq!(get(&out, 0, 0), get(&img, 1, 1));
    assert_eq!(get(&out, 3, 3), get(&img, 4, 4));
}

#[test]
fn contours_of_text_regions_are_traced() {
    let mut hot = vec![false; 12 * 8];
    for y in 2..6 {
        for x in 3..9 {
            hot[y * 12 + x] = true;
        }
    }
    // A single pixel has a contour too short to enclose anything.
    hot[12 * 7 + 11] = true;
    let contours = text_contours(&hot, 12, 8);
    assert_eq!(contours.len(), 1);
    assert!(contours[0].contains(&(3, 2)));
    assert!(contours[0].contains(&(8, 5)));
    assert!(!contours[0].contains(&(5, 3)));

    let mut bitmap = image::GrayImage::new(12, 8);
    for (i, p) in bitmap.pixels_mut().enumerate() {
        p[0] = if hot[i] { 255 } else { 0 };
    }
    let traced = imageproc::contours::find_contours::<i32>(&bitmap);
    assert_eq!(traced.len(), 2);
    let points: Vec<(i32, i32)> = traced[0].points.iter().map(|p| (p.x, p.y)).collect();
    assert_eq!(contours[0], points);
}

#[test]
fn short_contours_are_dropped_in_order() {
    let kept = keep_outlines(vec![
        vec![(0, 0), (1, 0), (1, 1)],
        vec![(5, 5), (6, 6)],
        vec![],
        vec![(2, 2), (3, 2), (3, 3), (2, 3)],
    ]);
    assert_eq!(
        kept,
        vec![vec![(0, 0), (1, 0), (1, 1)], vec![(2, 2), (3, 2), (3, 3), (2, 3)]]
    );
}

#[test]
fn debug_canvas_tints_the_mask_green() {
    let cutout: RgbaImage =
        Raster { width: 2, height: 2, pixels: vec![[100, 100, 100, 255], [0, 0, 0, 0], [10, 20, 30, 255], [5, 5, 5, 255]] };
    let mask: GrayImage = Raster { width: 1, height: 3, pixels: vec![255, 0, 255] };
    let out = debug_canvas(&cutout, &mask);
    assert_eq!(out.pixels, vec![[60, 140, 60], [255, 255, 255], [10, 20, 30], [5, 5, 5]]);
}

#[test]
fn tint_rounds_to_nearest() {
    for c in 0..=255u8 {
        let cutout: RgbaImage = filled(1, 1, [c, c, c, 255]);
        let mask: GrayImage = filled(1, 1, 1);
        let tint = |c: u8, t: u8| ((c as f32 * 0.6) + (t as f32 * 0.4)).round() as u8;
        assert_eq!(debug_canvas(&cutout, &mask).pixels, vec![[tint(c, 0), tint(c, 200), tint(c, 0)]]);
    }
}
