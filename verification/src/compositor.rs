//! Painting a frame's indices onto the canvas.

use crate::canvas::colours_known;
use crate::canvas::composited;
use crate::canvas::lemma_row_indices;
use crate::canvas::lemma_row_on_canvas;
use crate::canvas::painted;
use crate::canvas::row_painted;
use crate::canvas::Geometry;
use crate::interlace::lemma_pass_row_first;
use crate::interlace::lemma_pass_row_next;
use crate::interlace::lemma_pass_without_rows;
use crate::interlace::lemma_passes_cover;
use crate::interlace::lemma_row_of_pass;
use crate::interlace::pass_base;
use crate::interlace::pass_first;
use crate::interlace::pass_row;
use crate::interlace::pass_rows;
use crate::interlace::pass_stride;
use vstd::prelude::*;

verus! {

/// Paints one row: `width` pixels from `to` on get the colours that the
/// `width` indices from `from` on name, but where the index is the
/// transparent one.
pub fn fill_row(
    pixels: &mut [u32],
    color_data: &[u8],
    color_table: &[u32],
    transparent_color_index: usize,
    from: usize,
    to: usize,
    width: usize,
)
    requires
        from + width <= color_data.len(),
        to + width <= old(pixels).len(),
        forall|x: int|
            0 <= x < width && color_data@[from + x] != transparent_color_index ==> (
            #[trigger] color_data@[from + x]) < color_table@.len(),
    ensures
        final(pixels)@ == row_painted(
            old(pixels)@,
            color_data@,
            color_table@,
            transparent_color_index as int,
            from as int,
            to as int,
            width as int,
        ),
{
    let mut x: usize = 0;
    assert(pixels@ =~= row_painted(
        pixels@,
        color_data@,
        color_table@,
        transparent_color_index as int,
        from as int,
        to as int,
        0,
    ));
    while x < width
        invariant
            x <= width,
            from + width <= color_data.len(),
            to + width <= pixels.len(),
            forall|x: int|
                0 <= x < width && color_data@[from + x] != transparent_color_index ==> (
                #[trigger] color_data@[from + x]) < color_table@.len(),
            pixels@ == row_painted(
                old(pixels)@,
                color_data@,
                color_table@,
                transparent_color_index as int,
                from as int,
                to as int,
                x as int,
            ),
        decreases width - x,
    {
        let ghost before = pixels@;
        let color_index = color_data[from + x] as usize;
        if color_index != transparent_color_index {
            assert(color_data@[from + x] < color_table@.len());
            pixels[to + x] = color_table[color_index];
        }
        x = x + 1;
        assert(pixels@ =~= row_painted(
            old(pixels)@,
            color_data@,
            color_table@,
            transparent_color_index as int,
            from as int,
            to as int,
            x as int,
        ));
    }
}

/// Paints a frame whose rows are stored top to bottom.
///
/// The rows are painted one after another. Each pixel of a row gets the
/// colour that its index names, but where the index is
/// `transparent_color_index`; such a pixel, and every pixel of the canvas
/// outside the frame, is left as it is.
pub fn fill_pixels_simple(
    pixels: &mut [u32],
    color_data: &[u8],
    color_table: &[u32],
    transparent_color_index: usize,
    image_width: u32,
    frame_width: u32,
    frame_height: u32,
    offset_x: u32,
    offset_y: u32,
)
    requires
        Geometry::of(image_width, frame_width, frame_height, offset_x, offset_y).fits(
            old(pixels)@.len() as int,
            color_data@.len() as int,
        ),
        colours_known(
            color_data@,
            color_table@,
            transparent_color_index as int,
            frame_width * frame_height,
        ),
    ensures
        final(pixels)@ == composited(
            old(pixels)@,
            color_data@,
            color_table@,
            transparent_color_index as int,
            Geometry::of(image_width, frame_width, frame_height, offset_x, offset_y),
            false,
        ),
        final(pixels)@.len() == old(pixels)@.len(),
{
    let ghost frame = Geometry::of(image_width, frame_width, frame_height, offset_x, offset_y);
    let ghost transparent = transparent_color_index as int;
    if frame_width == 0 || frame_height == 0 {
        return ;
    }
    let width = frame_width as usize;
    let mut line: usize = 0;
    while line < frame_height as usize
        invariant
            line <= frame_height,
            width == frame_width,
            frame == Geometry::of(image_width, frame_width, frame_height, offset_x, offset_y),
            !frame.is_empty(),
            transparent == transparent_color_index,
            pixels@.len() == old(pixels)@.len(),
            frame.fits(old(pixels)@.len() as int, color_data@.len() as int),
            colours_known(color_data@, color_table@, transparent, frame_width * frame_height),
            pixels@ == painted(
                old(pixels)@,
                color_data@,
                color_table@,
                transparent,
                frame,
                false,
                line as nat,
            ),
        decreases frame_height - line,
    {
        proof {
            lemma_row_indices(
                frame,
                old(pixels)@.len() as int,
                color_data@.len() as int,
                line as int,
            );
            lemma_row_on_canvas(
                frame,
                old(pixels)@.len() as int,
                color_data@.len() as int,
                line as int,
            );
            assert(pixels@.len() == pixels.len());
            assert(color_data@.len() == color_data.len());
        }
        let from = line * width;
        let to = if image_width == 0 {
            offset_x as usize
        } else {
            (line + offset_y as usize) * (image_width as usize) + offset_x as usize
        };
        fill_row(pixels, color_data, color_table, transparent_color_index, from, to, width);
        line = line + 1;
        assert(pixels@ == painted(
            old(pixels)@,
            color_data@,
            color_table@,
            transparent,
            frame,
            false,
            line as nat,
        )) by {
            assert(to == frame.pixel_at(0, frame.shown_row(false, line - 1)));
            assert(from == (line - 1) * frame.frame_width);
        }
    }
}

/// Paints a frame whose rows are stored in the four passes of interlacing.
///
/// The stored rows are taken one after another, and each is painted onto
/// the row of the frame that its pass gives it. Each pixel of a row gets the
/// colour that its index names, but where the index is
/// `transparent_color_index`; such a pixel, and every pixel of the canvas
/// outside the frame, is left as it is.
pub fn fill_pixels_interlaced(
    pixels: &mut [u32],
    color_data: &[u8],
    color_table: &[u32],
    transparent_color_index: usize,
    image_width: u32,
    frame_width: u32,
    frame_height: u32,
    offset_x: u32,
    offset_y: u32,
)
    requires
        Geometry::of(image_width, frame_width, frame_height, offset_x, offset_y).fits(
            old(pixels)@.len() as int,
            color_data@.len() as int,
        ),
        colours_known(
            color_data@,
            color_table@,
            transparent_color_index as int,
            frame_width * frame_height,
        ),
    ensures
        final(pixels)@ == composited(
            old(pixels)@,
            color_data@,
            color_table@,
            transparent_color_index as int,
            Geometry::of(image_width, frame_width, frame_height, offset_x, offset_y),
            true,
        ),
        final(pixels)@.len() == old(pixels)@.len(),
{
    let ghost frame = Geometry::of(image_width, frame_width, frame_height, offset_x, offset_y);
    let ghost transparent = transparent_color_index as int;
    if frame_width == 0 || frame_height == 0 {
        return ;
    }
    let width = frame_width as usize;
    let mut pass: u8 = 0;
    let mut stride: u64 = 8;
    let mut matched_line: u64 = 0;
    let mut line_index: usize = 0;
    while pass < 4
        invariant
            pass <= 4,
            pass < 4 ==> matched_line == pass_first(pass as int) && stride == pass_stride(
                pass as int,
            ),
            line_index == pass_base(frame_height as int, pass as int),
            width == frame_width,
            frame == Geometry::of(image_width, frame_width, frame_height, offset_x, offset_y),
            !frame.is_empty(),
            transparent == transparent_color_index,
            pixels@.len() == old(pixels)@.len(),
            frame.fits(old(pixels)@.len() as int, color_data@.len() as int),
            colours_known(color_data@, color_table@, transparent, frame_width * frame_height),
            pixels@ == painted(
                old(pixels)@,
                color_data@,
                color_table@,
                transparent,
                frame,
                true,
                line_index as nat,
            ),
        decreases 4 - pass,
    {
        let ghost base = line_index as int;
        proof {
            lemma_pass_row_first(pass as int);
            if matched_line >= frame_height {
                lemma_pass_without_rows(frame_height as int, pass as int);
            }
        }
        while matched_line < frame_height as u64
            invariant
                pass < 4,
                stride == pass_stride(pass as int),
                base == pass_base(frame_height as int, pass as int),
                base <= line_index,
                matched_line == pass_row(pass as int, line_index - base),
                matched_line >= frame_height ==> line_index == base + pass_rows(
                    frame_height as int,
                    pass as int,
                ),
                width == frame_width,
                frame == Geometry::of(image_width, frame_width, frame_height, offset_x, offset_y),
                !frame.is_empty(),
                transparent == transparent_color_index,
                pixels@.len() == old(pixels)@.len(),
                frame.fits(old(pixels)@.len() as int, color_data@.len() as int),
                colours_known(color_data@, color_table@, transparent, frame_width * frame_height),
                pixels@ == painted(
                    old(pixels)@,
                    color_data@,
                    color_table@,
                    transparent,
                    frame,
                    true,
                    line_index as nat,
                ),
            decreases frame_height + 8 - matched_line,
        {
            proof {
                lemma_row_of_pass(frame_height as int, pass as int, line_index - base);
                lemma_pass_row_next(frame_height as int, pass as int, line_index - base);
                lemma_row_indices(
                    frame,
                    old(pixels)@.len() as int,
                    color_data@.len() as int,
                    line_index as int,
                );
                lemma_row_on_canvas(
                    frame,
                    old(pixels)@.len() as int,
                    color_data@.len() as int,
                    matched_line as int,
                );
                assert(pixels@.len() == pixels.len());
                assert(color_data@.len() == color_data.len());
            }
            let from = line_index * width;
            let to = if image_width == 0 {
                offset_x as usize
            } else {
                (matched_line as usize + offset_y as usize) * (image_width as usize)
                    + offset_x as usize
            };
            fill_row(pixels, color_data, color_table, transparent_color_index, from, to, width);
            line_index = line_index + 1;
            assert(pixels@ == painted(
                old(pixels)@,
                color_data@,
                color_table@,
                transparent,
                frame,
                true,
                line_index as nat,
            )) by {
                assert(to == frame.pixel_at(0, frame.shown_row(true, line_index - 1)));
                assert(from == (line_index - 1) * frame.frame_width);
            }
            matched_line = matched_line + stride;
        }
        pass = pass + 1;
        if pass == 1 {
            matched_line = 4;
            stride = 8;
        } else if pass == 2 {
            matched_line = 2;
            stride = 4;
        } else if pass == 3 {
            matched_line = 1;
            stride = 2;
        }
    }
    proof {
        lemma_passes_cover(frame_height as int);
    }
}

/// Paints a frame onto the canvas, its rows stored top to bottom or, if
/// `interlaced`, in the four passes of interlacing.
///
/// The rows are painted one after another in the order in which they are
/// stored. Each pixel of a row gets the colour that its index names, but
/// where the index is `transparent_color_index`; such a pixel, and every
/// pixel of the canvas outside the frame, is left as it is.
pub fn fill_pixel(
    pixels: &mut [u32],
    color_data: &[u8],
    color_table: &[u32],
    transparent_color_index: usize,
    image_width: u32,
    frame_width: u32,
    frame_height: u32,
    offset_x: u32,
    offset_y: u32,
    interlaced: bool,
)
    requires
        Geometry::of(image_width, frame_width, frame_height, offset_x, offset_y).fits(
            old(pixels)@.len() as int,
            color_data@.len() as int,
        ),
        colours_known(
            color_data@,
            color_table@,
            transparent_color_index as int,
            frame_width * frame_height,
        ),
    ensures
        final(pixels)@ == composited(
            old(pixels)@,
            color_data@,
            color_table@,
            transparent_color_index as int,
            Geometry::of(image_width, frame_width, frame_height, offset_x, offset_y),
            interlaced,
        ),
        final(pixels)@.len() == old(pixels)@.len(),
{
    if interlaced {
        fill_pixels_interlaced(
            pixels,
            color_data,
            color_table,
            transparent_color_index,
            image_width,
            frame_width,
            frame_height,
            offset_x,
            offset_y,
        )
    } else {
        fill_pixels_simple(
            pixels,
            color_data,
            color_table,
            transparent_color_index,
            image_width,
            frame_width,
            frame_height,
            offset_x,
            offset_y,
        )
    }
}

/// Tells whether a canvas of `pixels_len` pixels and `indices_len` indices
/// are large enough for a frame.
pub fn frame_fits(
    pixels_len: usize,
    indices_len: usize,
    image_width: u32,
    frame_width: u32,
    frame_height: u32,
    offset_x: u32,
    offset_y: u32,
) -> (fits: bool)
    ensures
        fits == Geometry::of(image_width, frame_width, frame_height, offset_x, offset_y).fits(
            pixels_len as int,
            indices_len as int,
        ),
{
    if frame_width == 0 || frame_height == 0 {
        return true;
    }
    let last_row: u128 = offset_y as u128 + frame_height as u128 - 1;
    assert(last_row * image_width <= 0x1_ffff_ffff * 0xffff_ffff) by (nonlinear_arith)
        requires
            0 <= last_row <= 0x1_ffff_ffff,
            0 <= image_width <= 0xffff_ffff,
    ;
    assert(frame_width * frame_height <= 0xffff_ffff * 0xffff_ffff) by (nonlinear_arith)
        requires
            0 <= frame_width <= 0xffff_ffff,
            0 <= frame_height <= 0xffff_ffff,
    ;
    let end: u128 = last_row * (image_width as u128) + offset_x as u128 + frame_width as u128;
    let count: u128 = (frame_width as u128) * (frame_height as u128);
    end <= pixels_len as u128 && count <= indices_len as u128
}

/// Tells whether each of the first `count` indices is the transparent one
/// or names a colour of the table.
pub fn all_colours_known(
    color_data: &[u8],
    color_table: &[u32],
    transparent_color_index: usize,
    count: usize,
) -> (known: bool)
    requires
        count <= color_data@.len(),
    ensures
        known == colours_known(
            color_data@,
            color_table@,
            transparent_color_index as int,
            count as int,
        ),
{
    let mut i: usize = 0;
    while i < count
        invariant
            i <= count <= color_data@.len(),
            colours_known(color_data@, color_table@, transparent_color_index as int, i as int),
        decreases count - i,
    {
        let color_index = color_data[i] as usize;
        if color_index != transparent_color_index && color_index >= color_table.len() {
            assert(color_data@[i as int] >= color_table@.len());
            return false;
        }
        i = i + 1;
    }
    true
}

/// Paints a frame as `fill_pixel` does if the buffers are large enough for
/// the frame and its indices name colours of the table, and tells whether
/// it did. Where it did not, the canvas is as it was.
pub fn try_fill_pixel(
    pixels: &mut [u32],
    color_data: &[u8],
    color_table: &[u32],
    transparent_color_index: usize,
    image_width: u32,
    frame_width: u32,
    frame_height: u32,
    offset_x: u32,
    offset_y: u32,
    interlaced: bool,
) -> (painted: bool)
    ensures
        painted == (Geometry::of(image_width, frame_width, frame_height, offset_x, offset_y).fits(
            old(pixels)@.len() as int,
            color_data@.len() as int,
        ) && colours_known(
            color_data@,
            color_table@,
            transparent_color_index as int,
            frame_width * frame_height,
        )),
        painted ==> final(pixels)@ == composited(
            old(pixels)@,
            color_data@,
            color_table@,
            transparent_color_index as int,
            Geometry::of(image_width, frame_width, frame_height, offset_x, offset_y),
            interlaced,
        ),
        !painted ==> final(pixels)@ == old(pixels)@,
{
    if !frame_fits(
        pixels.len(),
        color_data.len(),
        image_width,
        frame_width,
        frame_height,
        offset_x,
        offset_y,
    ) {
        return false;
    }
    assert(frame_width * frame_height <= color_data@.len() && 0 <= frame_width * frame_height)
        by (nonlinear_arith)
        requires
            frame_width == 0 || frame_height == 0 || frame_width * frame_height
                <= color_data@.len(),
            0 <= frame_width,
            0 <= frame_height,
    ;
    let count = frame_width as usize * frame_height as usize;
    if !all_colours_known(color_data, color_table, transparent_color_index, count) {
        return false;
    }
    fill_pixel(
        pixels,
        color_data,
        color_table,
        transparent_color_index,
        image_width,
        frame_width,
        frame_height,
        offset_x,
        offset_y,
        interlaced,
    );
    true
}

} // verus!
