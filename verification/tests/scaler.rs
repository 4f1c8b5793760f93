use native32emu::scaler::{
    bicubic_scale, bilinear_scale, clamp_i32_u8, BcAxisMap, BiAxisMap, FRAC_UNIT,
};
use native32emu::xbrz::{scale_with_bilinear, xbrz_factor};

fn bi(src: u32, frac: u16) -> BiAxisMap {
    BiAxisMap { src, frac }
}

/// The bilinear map of a 2 to 4 resize.
fn bi_2_to_4() -> Vec<BiAxisMap> {
    vec![bi(0, 0), bi(0, 64), bi(0, 192), bi(1, 64)]
}

#[test]
fn bilinear_kernel_1x1_is_identity() {
    let src = vec![0xFFABCD12_u32];
    let mut dst = vec![0u32; 1];
    bilinear_scale(&src, 1, 1, &[bi(0, 0)], &[bi(0, 0)], &mut dst);
    assert_eq!(dst, vec![0xFFABCD12]);
}

#[test]
fn bilinear_kernel_2x_to_4x4() {
    let src = vec![0xFFFF0000, 0xFF00FF00, 0xFF0000FF, 0xFFFFFF00];
    let mut dst = vec![0u32; 16];
    bilinear_scale(&src, 2, 2, &bi_2_to_4(), &bi_2_to_4(), &mut dst);
    assert!(dst.iter().all(|&p| p & 0xFF000000 == 0xFF000000));
    assert_eq!(dst[0], 0xFFFF0000);
    // A quarter of the way from red to green, rounded down.
    assert_eq!(dst[1], 0xFFBF3F00);
}

#[test]
fn bilinear_kernel_leaves_the_rest_of_dst() {
    let src = vec![0xFF112233_u32];
    let mut dst = vec![7u32; 3];
    bilinear_scale(&src, 1, 1, &[bi(0, 0)], &[bi(0, 0)], &mut dst);
    assert_eq!(dst, vec![0xFF112233, 7, 7]);
}

fn bc(idx: [usize; 4], w: [i32; 4]) -> BcAxisMap {
    BcAxisMap { idx, w }
}

#[test]
fn bicubic_kernel_1x1_is_identity() {
    let src = vec![0xFFABCD12_u32];
    let map = [bc([0, 0, 0, 0], [0, FRAC_UNIT, 0, 0])];
    let mut dst = vec![0u32; 1];
    bicubic_scale(&src, 1, 1, &map, &map, &mut dst);
    assert_eq!(dst, vec![0xFFABCD12]);
}

#[test]
fn bicubic_kernel_clamps_overshoot_and_undershoot() {
    // Two columns: 0xFF.. and 0x00.. in every channel.
    let src = vec![0xFFFFFFFF_u32, 0x00000000];
    let over = [bc([0, 0, 1, 1], [0, 1100, 0, 0])];
    let under = [bc([0, 0, 1, 1], [0, -64, 0, 0])];
    let rows = [bc([0, 0, 0, 0], [0, FRAC_UNIT, 0, 0])];
    let mut dst = vec![0u32; 1];
    bicubic_scale(&src, 2, 1, &over, &rows, &mut dst);
    assert_eq!(dst[0], 0xFFFFFFFF);
    bicubic_scale(&src, 2, 1, &under, &rows, &mut dst);
    assert_eq!(dst[0], 0x00000000);
}

#[test]
fn bicubic_kernel_blends_halfway() {
    let src = vec![0xFF000000_u32, 0xFF0000FF];
    let half = [bc([0, 0, 1, 1], [0, 512, 512, 0])];
    let rows = [bc([0, 0, 0, 0], [0, FRAC_UNIT, 0, 0])];
    let mut dst = vec![0u32; 1];
    bicubic_scale(&src, 2, 1, &half, &rows, &mut dst);
    assert_eq!(dst[0], 0xFF00007F);
}

#[test]
fn clamp_i32_u8_clamps() {
    assert_eq!(clamp_i32_u8(-5), 0);
    assert_eq!(clamp_i32_u8(77), 77);
    assert_eq!(clamp_i32_u8(300), 255);
}

#[test]
fn xbrz_factor_is_held_to_two_to_four() {
    assert_eq!(xbrz_factor(2, 2, 4, 4), 2);
    assert_eq!(xbrz_factor(2, 2, 6, 4), 3);
    assert_eq!(xbrz_factor(2, 2, 20, 20), 4);
    assert_eq!(xbrz_factor(10, 10, 5, 5), 2);
}

#[test]
fn scale_with_bilinear_exact_factor_is_plain_xbrz() {
    let src = vec![0xFFFF0000_u32; 4];
    let mut dst = vec![0u32; 16];
    scale_with_bilinear(&src, 2, 2, 4, 4, &[], &[], &mut dst);
    assert!(dst.iter().all(|&p| p == 0xFFFF0000));
}

#[test]
fn scale_with_bilinear_resamples_the_remainder() {
    let src = vec![0xFF00FF00_u32; 4];
    // 2x2 to 5x5: xBRZ 2x gives 4x4, then bilinear to 5x5.
    let map: Vec<BiAxisMap> = vec![bi(0, 0), bi(0, 179), bi(1, 102), bi(2, 26), bi(3, 0)];
    let mut dst = vec![0u32; 25];
    scale_with_bilinear(&src, 2, 2, 5, 5, &map, &map, &mut dst);
    assert!(dst.iter().all(|&p| p == 0xFF00FF00));
}
