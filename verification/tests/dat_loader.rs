use native32emu::dat_loader::{decode_image, DatImage, NAME_OFFSET_PTR, PREVIEW_OFFSET_PTR};
use native32emu::file_loader::Colorspace;

const INFO_MAGIC: &[u8; 4] = b"INFO";

#[test]
fn rejects_non_info_files() {
    let data = vec![0u8; 256];
    assert!(decode_image(&data, Colorspace::YUV, DatImage::Preview).is_none());
}

#[test]
fn rejects_truncated_files() {
    let data = b"INFO".to_vec();
    assert!(decode_image(&data, Colorspace::YUV, DatImage::Name).is_none());
}

#[test]
fn flag_selects_image() {
    assert_eq!(DatImage::from_flag("D"), DatImage::Name);
    assert_eq!(DatImage::from_flag("J"), DatImage::Preview);
    // Unknown flags fall back to the name banner.
    assert_eq!(DatImage::from_flag("X"), DatImage::Name);
}

#[test]
fn decodes_embedded_image() {
    // A minimal .dat whose name-banner pointer (0x38) references a tiny
    // 2x2 YUV image block.
    let mut data = vec![0u8; 0x60];
    data[0..4].copy_from_slice(INFO_MAGIC);
    let block_offset = 0x60u32;
    data[NAME_OFFSET_PTR..NAME_OFFSET_PTR + 4].copy_from_slice(&block_offset.to_le_bytes());

    // 2x2 YUV image: header + one literal quad (6 bytes).
    let mut block = vec![0u8; 16];
    block[0..2].copy_from_slice(&2u16.to_le_bytes()); // width
    block[2..4].copy_from_slice(&2u16.to_le_bytes()); // height
    block[4..8].copy_from_slice(&12u32.to_le_bytes()); // img_size
    block[8..10].copy_from_slice(&0x8001u16.to_le_bytes()); // literal 1 quad
    for (i, v) in block.iter_mut().enumerate().skip(10).take(6) {
        *v = 128u8.wrapping_add(i as u8);
    }
    data.extend_from_slice(&block);

    let img = decode_image(&data, Colorspace::YUV, DatImage::Name).expect("decode");
    assert_eq!(img.width, 2);
    assert_eq!(img.height, 2);
}

#[test]
fn pointer_past_end_is_rejected() {
    let mut data = vec![0u8; 0x60];
    data[0..4].copy_from_slice(INFO_MAGIC);
    data[PREVIEW_OFFSET_PTR..PREVIEW_OFFSET_PTR + 4].copy_from_slice(&0x1000u32.to_le_bytes());
    assert!(decode_image(&data, Colorspace::ARGB, DatImage::Preview).is_none());
    // A block shorter than an image header is rejected too.
    data[PREVIEW_OFFSET_PTR..PREVIEW_OFFSET_PTR + 4].copy_from_slice(&0x5cu32.to_le_bytes());
    assert!(decode_image(&data, Colorspace::ARGB, DatImage::Preview).is_none());
}
