//! Decoding and painting in one call.

use crate::canvas::colours_known;
use crate::canvas::composited;
use crate::canvas::Geometry;
use crate::compositor::try_fill_pixel;
use crate::decoder::decode;
use crate::decoder::overwritten;
use crate::model::decoded_indices;
use vstd::prelude::*;

verus! {

/// Decodes the compressed data of a frame into `scratch` and paints what
/// `scratch` then holds onto the canvas; tells whether it painted.
///
/// As many indices are decoded as the frame has pixels. Where the data
/// gives fewer, `scratch` keeps what it held from there on, and that is
/// painted with the rest. Nothing is decoded or painted if `scratch` is too
/// small for the frame, and nothing is painted if the frame does not fit the
/// canvas or an index names no colour.
pub fn decode_full(
    image_data: &[u8],
    scratch: &mut [u8],
    pixels: &mut [u32],
    color_table: &[u32],
    transparent_color_index: usize,
    image_width: u32,
    frame_width: u32,
    frame_height: u32,
    offset_x: u32,
    offset_y: u32,
    interlaced: bool,
) -> (painted: bool)
    ensures
        final(scratch)@ == (if frame_width * frame_height <= old(scratch)@.len() {
            overwritten(
                old(scratch)@,
                decoded_indices(image_data@),
                frame_width * frame_height,
            )
        } else {
            old(scratch)@
        }),
        painted == (frame_width * frame_height <= old(scratch)@.len() && Geometry::of(
            image_width,
            frame_width,
            frame_height,
            offset_x,
            offset_y,
        ).fits(old(pixels)@.len() as int, old(scratch)@.len() as int) && colours_known(
            final(scratch)@,
            color_table@,
            transparent_color_index as int,
            frame_width * frame_height,
        )),
        final(pixels)@ == (if painted {
            composited(
                old(pixels)@,
                final(scratch)@,
                color_table@,
                transparent_color_index as int,
                Geometry::of(image_width, frame_width, frame_height, offset_x, offset_y),
                interlaced,
            )
        } else {
            old(pixels)@
        }),
{
    assert(0 <= frame_width * frame_height <= 0xffff_ffff * 0xffff_ffff) by (nonlinear_arith)
        requires
            0 <= frame_width <= 0xffff_ffff,
            0 <= frame_height <= 0xffff_ffff,
    ;
    let pixel_count: u64 = frame_width as u64 * frame_height as u64;
    if pixel_count > scratch.len() as u64 {
        return false;
    }
    decode(image_data, scratch, pixel_count as usize);
    try_fill_pixel(
        pixels,
        scratch,
        color_table,
        transparent_color_index,
        image_width,
        frame_width,
        frame_height,
        offset_x,
        offset_y,
        interlaced,
    )
}

} // verus!
