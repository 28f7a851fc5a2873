use raytrace::{encode_rgba, pack_argb, pixel_position, render_order, to_argb_u32, ALPHA_BIT_MASK};

#[test]
fn mod_it_converts_color_vecs_to_u32() {
    let color = ALPHA_BIT_MASK;
    assert_eq!(to_argb_u32(0, 0, 0), color);
    let color = ALPHA_BIT_MASK | 255 << 16 | 255 << 8 | 255;
    assert_eq!(to_argb_u32(255, 255, 255), color);
    let color = ALPHA_BIT_MASK | 255;
    assert_eq!(to_argb_u32(0, 0, 255), color);
    let color = ALPHA_BIT_MASK | 255 << 16 | 255;
    assert_eq!(to_argb_u32(255, 0, 255), color);
}

#[test]
fn main_it_converts_color_vecs_to_u32() {
    let color = 0;
    assert_eq!(pack_argb(0, 0, 0, 0), color);
    let color = 255 << 24;
    assert_eq!(pack_argb(255, 0, 0, 0), color);
    let color = 255 << 24 | 255 << 16 | 255 << 8 | 255;
    assert_eq!(pack_argb(255, 255, 255, 255), color);
    let color = 255 << 24 | 255;
    assert_eq!(pack_argb(255, 0, 0, 255), color);
    // channels (1, -1, 2) clamped to the unit range are full red, no green, full blue
    let color = 255 << 24 | 255 << 16 | 255;
    assert_eq!(pack_argb(255, 255, 0, 255), color);
}

#[test]
fn argb_channels_keep_their_bytes() {
    let argb = pack_argb(0x12, 0x34, 0x56, 0x78);
    assert_eq!(argb, 0x1234_5678);
    assert_eq!(argb >> 24, 0x12);
    assert_eq!((argb >> 16) & 0xff, 0x34);
    assert_eq!((argb >> 8) & 0xff, 0x56);
    assert_eq!(argb & 0xff, 0x78);
}

#[test]
fn oversized_channels_spill_into_higher_bits() {
    assert_eq!(to_argb_u32(0, 256, 0), ALPHA_BIT_MASK | 1 << 16);
    assert_eq!(to_argb_u32(1, 2, 3), 0xFF01_0203);
}

#[test]
fn sequential_render_order_is_row_order() {
    let order = render_order(4, 3, false);
    assert_eq!(order, (0..12).collect::<Vec<usize>>());
}

#[test]
fn shuffled_render_order_visits_every_pixel_once() {
    let mut order = render_order(17, 13, true);
    assert_eq!(order.len(), 17 * 13);
    assert_ne!(order, (0..17 * 13).collect::<Vec<usize>>());
    order.sort();
    assert_eq!(order, (0..17 * 13).collect::<Vec<usize>>());
}

#[test]
fn empty_image_has_empty_render_order() {
    assert!(render_order(0, 5, true).is_empty());
    assert!(render_order(5, 0, false).is_empty());
}

#[test]
fn pixel_positions_go_row_by_row() {
    assert_eq!(pixel_position(0, 4, 3), (0, 0));
    assert_eq!(pixel_position(3, 4, 3), (3, 0));
    assert_eq!(pixel_position(4, 4, 3), (0, 1));
    assert_eq!(pixel_position(11, 4, 3), (3, 2));
}

#[test]
fn encoding_writes_opaque_pixels_in_index_order() {
    let colors = vec![(1, 2, 3), (4, 5, 6), (7, 8, 9)];
    let expected = vec![1, 2, 3, 255, 4, 5, 6, 255, 7, 8, 9, 255];
    assert_eq!(encode_rgba(&vec![0, 1, 2], &colors), expected);
    assert_eq!(encode_rgba(&vec![2, 0, 1], &colors), expected);
    let order = render_order(3, 1, true);
    assert_eq!(encode_rgba(&order, &colors), expected);
}
