//! Game metadata files (`.dat`) of the menu front-end.
//!
//! Each game has a companion `<name>.dat` file with an `INFO` header that
//! embeds two image blocks: a small name banner and a larger preview.
//!
//! Layout (little-endian):
//!   0x00  `INFO` magic
//!   0x38  u32  offset of the name banner image block
//!   0x58  u32  offset of the preview image block
//!
//! An image block is an ordinary Native32 image: width, height, size, RLE data.

use vstd::prelude::*;

use crate::file_loader::Colorspace;
use crate::image_decoder::{decode_argb_spec, decode_image_argb, decode_image_yuv, decode_yuv_spec, le32, opt_image_view, read_u32_le_slice, RgbaImage};
use crate::text::str_eq;

verus! {

/// Offset of the pointer to the name banner image block.
pub const NAME_OFFSET_PTR: usize = 0x38;

/// Offset of the pointer to the preview image block.
pub const PREVIEW_OFFSET_PTR: usize = 0x58;

/// Which embedded image to decode from a `.dat` file.
#[derive(Debug, Clone, Copy, PartialEq, Eq, Structural)]
pub enum DatImage {
    /// The small name banner (flag `D`).
    Name,
    /// The large preview (flag `J`).
    Preview,
}

/// Where the pointer to an image block lies.
pub open spec fn offset_ptr_of(which: DatImage) -> int {
    match which {
        DatImage::Name => NAME_OFFSET_PTR as int,
        DatImage::Preview => PREVIEW_OFFSET_PTR as int,
    }
}

impl DatImage {
    /// The image a flag selects: `J` the preview, any other the name banner.
    pub fn from_flag(flag: &str) -> (r: Self)
        ensures
            r == (if flag@ == "J"@ {
                DatImage::Preview
            } else {
                DatImage::Name
            }),
    {
        if str_eq(flag, "J") {
            DatImage::Preview
        } else {
            DatImage::Name
        }
    }

    fn offset_ptr(self) -> (r: usize)
        ensures
            r == offset_ptr_of(self),
    {
        match self {
            DatImage::Name => NAME_OFFSET_PTR,
            DatImage::Preview => PREVIEW_OFFSET_PTR,
        }
    }
}

/// Whether the data begins with the `INFO` magic.
pub open spec fn has_info_magic(d: Seq<u8>) -> bool {
    d.len() >= 4 && d[0] == 0x49 && d[1] == 0x4e && d[2] == 0x46 && d[3] == 0x4f
}

/// The image a `.dat` file holds at the place `which` points to, decoded in
/// `colorspace`; `None` when the file is not an `INFO` file, the pointer or
/// the block's header runs past the end, or the image does not decode.
pub open spec fn dat_image_spec(d: Seq<u8>, colorspace: Colorspace, which: DatImage) -> Option<
    (u32, u32, Seq<u32>),
> {
    let ptr = offset_ptr_of(which);
    if d.len() < ptr + 4 || !has_info_magic(d) {
        None
    } else {
        let offset = le32(d, ptr);
        if offset > d.len() || d.len() - offset < 8 {
            None
        } else {
            let block = d.subrange(offset, d.len() as int);
            match colorspace {
                Colorspace::ARGB => decode_argb_spec(block),
                Colorspace::YUV => decode_yuv_spec(block),
            }
        }
    }
}

/// Decodes one of the images embedded in an `INFO` `.dat` file.
pub fn decode_image(data: &[u8], colorspace: Colorspace, which: DatImage) -> (r: Option<RgbaImage>)
    ensures
        opt_image_view(r) == dat_image_spec(data@, colorspace, which),
{
    let ptr = which.offset_ptr();
    if data.len() < ptr + 4 || data[0] != 0x49 || data[1] != 0x4e || data[2] != 0x46 || data[3]
        != 0x4f {
        return None;
    }
    let offset = read_u32_le_slice(data, ptr);
    if offset as usize > data.len() {
        return None;
    }
    let block = vstd::slice::slice_subrange(data, offset as usize, data.len());
    if block.len() < 8 {
        return None;
    }
    match colorspace {
        Colorspace::ARGB => decode_image_argb(block),
        Colorspace::YUV => decode_image_yuv(block),
    }
}

} // verus!
