use plantastic::annotate::{
    category_color, darken_color, encode_png, icon_pixels, icon_shape, outline_rects, place_label,
    resolve_label_position, BoxRect, IconShape,
};
use plantastic::scan::ScanError;

#[test]
fn test_category_colors() {
    assert_eq!(category_color("tree"), [34, 197, 94]);
    assert_eq!(category_color("planting"), [34, 197, 94]);
    assert_eq!(category_color("structure"), [107, 114, 128]);
    assert_eq!(category_color("hardscape"), [217, 119, 6]);
    assert_eq!(category_color("utility"), [239, 68, 68]);
    assert_eq!(category_color("unknown"), [156, 163, 175]);
}

#[test]
fn test_resolve_label_no_collision() {
    let (x, y) = resolve_label_position(10, 10, 50, 20, &[], 300, 300);
    assert_eq!((x, y), (10, 10));
}

#[test]
fn test_resolve_label_with_collision() {
    let placed = vec![(10, 10, 60, 30)]; // existing label at (10,10)-(60,30)
    let (_, y) = resolve_label_position(10, 10, 50, 20, &placed, 300, 300);
    // Should shift down: 10 + 20 + 4 = 34
    assert_eq!(y, 34);
}

#[test]
fn resolve_label_clamps_into_image() {
    // Too far right and above the top: pulled back inside.
    assert_eq!(resolve_label_position(290, -15, 50, 20, &[], 300, 300), (250, 0));
    // Label wider than the image sits at x = 0.
    assert_eq!(resolve_label_position(40, 10, 400, 20, &[], 300, 300), (0, 10));
}

#[test]
fn resolve_label_gives_up_after_five_moves() {
    // A tall column of placed labels: every candidate overlaps, so the label
    // moves down five times (24 px each) and stays there.
    let placed = vec![(0, 0, 300, 1000)];
    let (x, y) = resolve_label_position(10, 10, 50, 20, &placed, 300, 1000);
    assert_eq!(x, 10);
    assert_eq!(y, 10 + 5 * 24);
}

#[test]
fn darken_halves_each_channel() {
    assert_eq!(darken_color([34, 197, 94]), [17, 98, 47]);
    assert_eq!(darken_color([255, 1, 0]), [127, 0, 0]);
}

#[test]
fn outline_of_two_pixels() {
    let rect = BoxRect { x: 5, y: 6, w: 10, h: 8 };
    let r = outline_rects(rect, 2);
    assert_eq!(r, vec![rect, BoxRect { x: 6, y: 7, w: 8, h: 6 }]);
    // A box too small for the inner ring gets only the outer one.
    let small = BoxRect { x: 0, y: 0, w: 2, h: 5 };
    assert_eq!(outline_rects(small, 2), vec![small]);
}

#[test]
fn label_centred_above_box() {
    // Box at (100, 100) 40 wide; label "abc" with 8-px characters, 14-px font
    // and 4-px padding: 3*8 + 8 = 32 wide, 22 high.
    let rect = BoxRect { x: 100, y: 100, w: 40, h: 30 };
    let p = place_label(rect, 3, 8, 14, 4, &[], 300, 300);
    assert_eq!((p.w, p.h), (32, 22));
    assert_eq!((p.x, p.y), (104, 76));
    assert_eq!(p.background, BoxRect { x: 104, y: 76, w: 32, h: 22 });
}

#[test]
fn label_background_cut_at_image_edge() {
    let rect = BoxRect { x: 0, y: 0, w: 10, h: 10 };
    let p = place_label(rect, 10, 8, 14, 4, &[], 50, 300);
    // 88 wide label on a 50 wide image: x = 0, background 50 wide.
    assert_eq!(p.x, 0);
    assert_eq!(p.background.w, 50);
}

#[test]
fn icon_shapes_by_category() {
    assert_eq!(icon_shape("tree"), IconShape::Circle);
    assert_eq!(icon_shape("planting"), IconShape::Circle);
    assert_eq!(icon_shape("structure"), IconShape::Square);
    assert_eq!(icon_shape("hardscape"), IconShape::Square);
    assert_eq!(icon_shape("utility"), IconShape::Diamond);
}

#[test]
fn icon_pixel_counts() {
    // Circle of radius 5: 81 lattice points; square 9x9; diamond 41.
    assert_eq!(icon_pixels(IconShape::Circle, 50, 50, 100, 100).len(), 81);
    assert_eq!(icon_pixels(IconShape::Square, 50, 50, 100, 100).len(), 81);
    assert_eq!(icon_pixels(IconShape::Diamond, 50, 50, 100, 100).len(), 41);
    // In a corner only the quarter inside the image is painted.
    assert_eq!(icon_pixels(IconShape::Square, 0, 0, 100, 100).len(), 25);
    let d = icon_pixels(IconShape::Diamond, 10, 10, 100, 100);
    assert_eq!(d[0], (10, 6));
    assert_eq!(*d.last().unwrap(), (10, 14));
}

#[test]
fn png_encoding_writes_png_signature() {
    let pixels = vec![220u8; 2 * 3 * 3];
    let png = encode_png(&pixels, 2, 3).expect("encodes");
    assert_eq!(&png[..8], &[0x89, b'P', b'N', b'G', 0x0D, 0x0A, 0x1A, 0x0A]);
    assert!(png.len() > pixels.len());
}

#[test]
fn png_encoding_error_is_export_error() {
    // A raster empty in either direction is refused by the encoder.
    for (w, h) in [(0u32, 0u32), (0, 5), (5, 0)] {
        match encode_png(&[], w, h) {
            Ok(_) => panic!("a {w}x{h} raster must not encode"),
            Err(ScanError::ExportError(m)) => assert!(m.starts_with("PNG encoding failed: "), "{m}"),
            Err(e) => panic!("unexpected error {e:?}"),
        }
    }
}

#[test]
fn png_round_trip_keeps_pixels() {
    let pixels: Vec<u8> = (0..4 * 3 * 3).map(|i| (i * 7) as u8).collect();
    let png = encode_png(&pixels, 4, 3).expect("encodes");
    let (back, w, h) = plantastic::annotate::decode_png(&png).expect("decodes");
    assert_eq!((w, h), (4, 3));
    assert_eq!(back, pixels);
}

#[test]
fn decoding_garbage_is_export_error() {
    match plantastic::annotate::decode_png(b"not an image") {
        Err(ScanError::ExportError(m)) => assert!(m.starts_with("failed to decode base PNG: "), "{m}"),
        other => panic!("unexpected {other:?}"),
    }
}

#[test]
fn reencoding_keeps_size_and_pixels() {
    let pixels: Vec<u8> = (0..5 * 2 * 3).map(|i| (i * 11 + 3) as u8).collect();
    let png = encode_png(&pixels, 5, 2).expect("encodes");
    let again = plantastic::annotate::reencode_png(&png).expect("re-encodes");
    assert_eq!(&again[1..4], b"PNG");
    let (back, w, h) = plantastic::annotate::decode_png(&again).expect("decodes");
    assert_eq!((w, h), (5, 2));
    assert_eq!(back, pixels);
    match plantastic::annotate::reencode_png(b"not a png") {
        Err(ScanError::ExportError(m)) => assert!(m.starts_with("failed to decode base PNG"), "{m}"),
        other => panic!("unexpected {other:?}"),
    }
}

#[test]
fn label_with_negative_width_keeps_room_to_the_right() {
    let rect = BoxRect { x: 10, y: 50, w: 20, h: 10 };
    let p = place_label(rect, 3, -8, 14, 4, &[], 300, 300);
    assert_eq!((p.w, p.h), (-16, 22));
    assert_eq!((p.x, p.y), (28, 26));
    assert_eq!(p.background, BoxRect { x: 28, y: 26, w: 272, h: 22 });
    assert_eq!(resolve_label_position(5, 5, -10, 20, &[], 300, 300), (5, 5));
}

#[test]
fn label_search_near_the_i32_limits() {
    // Large images and defaults far from the origin are accepted as long as
    // the arithmetic fits in i32.
    let big = i32::MAX as u32;
    assert_eq!(resolve_label_position(-2_000_000_000, 2_000_000_000, 100, 20, &[], big, big), (0, 2_000_000_000));
    let placed = [(0, 2_000_000_000, 200, 2_000_000_030)];
    assert_eq!(resolve_label_position(0, 2_000_000_000, 100, 20, &placed, big, big), (0, 2_000_000_048));
}

#[test]
fn encoded_and_reencoded_png_start_with_signature() {
    let signature = [0x89u8, b'P', b'N', b'G', 0x0D, 0x0A, 0x1A, 0x0A];
    let pixels = vec![7u8; 3 * 1 * 3];
    let png = encode_png(&pixels, 3, 1).expect("encodes");
    assert_eq!(&png[..8], &signature);
    let again = plantastic::annotate::reencode_png(&png).expect("re-encodes");
    assert_eq!(&again[..8], &signature);
}

#[test]
fn unreadable_font_is_export_error() {
    match plantastic::annotate::check_font(b"not a font") {
        Err(ScanError::ExportError(m)) => assert!(m.starts_with("failed to load font: "), "{m}"),
        other => panic!("unexpected {other:?}"),
    }
}

#[test]
fn search_bounds_only_what_it_computes() {
    // No label placed: the label is never moved, so a default far down the
    // i32 range is accepted and then kept inside the image.
    assert_eq!(resolve_label_position(0, i32::MAX - 20, 10, 20, &[], 100, 100), (0, 80));
    // A box at the far right edge of the i32 range too narrow for any inset
    // draws no outline and needs no room for one.
    let rect = BoxRect { x: i32::MAX, y: i32::MAX, w: 0, h: 0 };
    assert!(outline_rects(rect, 3).is_empty());
}

#[test]
fn image_sizes_beyond_i32_convert_as_the_cast_does() {
    // `u32::MAX as i32` is -1, so no room is left and the label is pinned
    // to the corner.
    assert_eq!(resolve_label_position(5, 5, 10, 20, &[], u32::MAX, u32::MAX), (0, 0));
}
