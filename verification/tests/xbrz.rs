use native32emu::xbrz::{blend_pixel, color_distance, scale, scale_xbrz, should_blend_corner};

#[test]
fn xbrz_xbrz_2x_uniform() {
    let src = vec![0xFFFF0000_u32; 4]; // 2x2 all red
    let out = scale_xbrz(&src, 2, 2, 2);
    assert_eq!(out.len(), 16);
    // All output pixels are red (no edges to blend).
    for &p in &out {
        assert_eq!(p, 0xFFFF0000);
    }
    let mut dst = vec![0u32; 16];
    scale(&src, 2, 2, 2, &mut dst);
    for &p in &dst {
        assert_eq!(p, 0xFFFF0000);
    }
}

#[test]
fn xbrz_xbrz_2x_diagonal() {
    // 3x3 with a diagonal edge: top-left red, bottom-right blue.
    let r = 0xFFFF0000_u32;
    let b = 0xFF0000FF_u32;
    let src = vec![r, r, b, r, b, b, b, b, b];
    let out = scale_xbrz(&src, 3, 3, 2);
    assert_eq!(out.len(), 36);
    assert!(out.iter().all(|&p| (p >> 24) == 0xFF));
    let mut dst = vec![0u32; 36];
    scale(&src, 3, 3, 2, &mut dst);
    assert!(dst.iter().all(|&p| (p >> 24) == 0xFF));
    assert_eq!(out, dst);
}

#[test]
fn xbrz_color_distance_same() {
    assert_eq!(color_distance(0xFFABCDEF, 0xFFABCDEF), 0);
}

#[test]
fn xbrz_color_distance_different() {
    let d = color_distance(0xFFFF0000, 0xFF0000FF);
    assert_eq!(d, 255 + 255); // R diff + B diff
}

#[test]
fn blend_halfway_and_extremes() {
    assert_eq!(blend_pixel(0xFF000000, 0xFFFFFFFF, 255), 0xFFFFFFFF);
    assert_eq!(blend_pixel(0x12345678, 0xFFFFFFFF, 0), 0x12345678);
    // (0 * 127 + 255 * 128) / 255 = 128 per channel.
    assert_eq!(blend_pixel(0x00000000, 0xFFFFFFFF, 128), 0x80808080);
}

#[test]
fn corner_blends_only_across_a_diagonal_edge() {
    let r = 0xFFFF0000_u32;
    let b = 0xFF0000FF_u32;
    // Near diagonal similar, both edge neighbours different, far diagonal similar.
    assert!(should_blend_corner(r, r, b, r, b, b));
    // Far diagonal different: no blend.
    assert!(!should_blend_corner(r, r, b, b, b, b));
    // An edge neighbour similar: no classic diagonal.
    assert!(!should_blend_corner(r, r, r, r, r, b));
}

#[test]
fn scale_3x_fills_blocks_and_leaves_the_tail() {
    let src = vec![0xFF112233_u32];
    let out = scale_xbrz(&src, 1, 1, 3);
    assert_eq!(out, vec![0xFF112233; 9]);
    let mut dst = vec![7u32; 11];
    scale(&src, 1, 1, 3, &mut dst);
    assert_eq!(&dst[..9], &[0xFF112233; 9][..]);
    assert_eq!(&dst[9..], &[7, 7][..]);
}

#[test]
fn xbrz_factor_one_and_five() {
    let src = vec![0xFFFF0000_u32; 4];
    let one = scale_xbrz(&src, 2, 2, 1);
    assert_eq!(one, src);
    let five = scale_xbrz(&src, 2, 2, 5);
    assert_eq!(five.len(), 100);
    assert!(five.iter().all(|&p| p == 0xFFFF0000));
    let mut dst = vec![7u32; 101];
    scale(&src, 2, 2, 5, &mut dst);
    assert_eq!(&dst[..100], &five[..]);
    assert_eq!(dst[100], 7);
}
