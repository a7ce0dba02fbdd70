//! The canvas and what painting a frame onto it means.
//!
//! The canvas is a row-major buffer of packed colours, `image_width` to a
//! row. The rows of the frame are painted one after another in the order in
//! which they are stored, row `y` of the frame from pixel
//! `(y + offset_y) * image_width + offset_x` of the canvas on. Each index
//! names a colour of the colour table; the transparent index names none and
//! leaves the pixel as it is.
//!
//! Where the frame lies within the rows of the canvas no two of its pixels
//! share a pixel of the canvas, and the colour of every pixel after painting
//! can be told from its own index alone.

use crate::interlace::display_row;
use crate::interlace::lemma_display_row;
use crate::interlace::lemma_source_row;
use crate::interlace::source_row;
use vstd::arithmetic::div_mod::lemma_fundamental_div_mod;
use vstd::arithmetic::div_mod::lemma_fundamental_div_mod_converse;
use vstd::prelude::*;

verus! {

/// The shape of a frame and its place on the canvas.
pub struct Geometry {
    /// Pixels in a row of the canvas.
    pub image_width: int,
    /// Pixels in a row of the frame.
    pub frame_width: int,
    /// Rows of the frame.
    pub frame_height: int,
    /// The column of the canvas that the frame's first column lies on.
    pub offset_x: int,
    /// The row of the canvas that the frame's first row lies on.
    pub offset_y: int,
}

impl Geometry {
    /// The geometry that the arguments of the painting functions describe.
    pub open spec fn of(
        image_width: u32,
        frame_width: u32,
        frame_height: u32,
        offset_x: u32,
        offset_y: u32,
    ) -> Geometry {
        Geometry {
            image_width: image_width as int,
            frame_width: frame_width as int,
            frame_height: frame_height as int,
            offset_x: offset_x as int,
            offset_y: offset_y as int,
        }
    }

    /// The frame has no pixel.
    pub open spec fn is_empty(self) -> bool {
        self.frame_width <= 0 || self.frame_height <= 0
    }

    /// The buffers are large enough for the frame: the last pixel of its
    /// last row is a pixel of the canvas, and there is an index for each of
    /// its pixels. An empty frame fits any buffers.
    pub open spec fn fits(self, pixels_len: int, indices_len: int) -> bool {
        self.is_empty() || {
            &&& 0 <= self.image_width
            &&& 0 <= self.offset_x
            &&& 0 <= self.offset_y
            &&& (self.offset_y + self.frame_height - 1) * self.image_width + self.offset_x
                + self.frame_width <= pixels_len
            &&& self.frame_width * self.frame_height <= indices_len
        }
    }

    /// The rows of the frame lie within the rows of the canvas: none runs
    /// over the right edge into the next row.
    pub open spec fn within_rows(self) -> bool {
        self.is_empty() || 0 <= self.offset_x <= self.offset_x + self.frame_width
            <= self.image_width
    }

    /// The canvas pixel at column `x` of the frame's row `y`.
    pub open spec fn pixel_at(self, x: int, y: int) -> int {
        (y + self.offset_y) * self.image_width + self.offset_x + x
    }

    /// The row of the frame that the `stored`-th stored row is.
    pub open spec fn shown_row(self, interlaced: bool, stored: int) -> int {
        if interlaced {
            display_row(self.frame_height, stored)
        } else {
            stored
        }
    }

    /// Where among the stored rows the row `row` of the frame is found.
    pub open spec fn stored_row(self, interlaced: bool, row: int) -> int {
        if interlaced {
            source_row(self.frame_height, row)
        } else {
            row
        }
    }

    /// The column of the frame that the canvas pixel `p` lies in, if any.
    pub open spec fn column(self, p: int) -> int {
        p % self.image_width - self.offset_x
    }

    /// The row of the frame that the canvas pixel `p` lies in, if any.
    pub open spec fn row(self, p: int) -> int {
        p / self.image_width - self.offset_y
    }

    /// Whether the canvas pixel `p` is one of the frame's.
    pub open spec fn covers(self, p: int) -> bool {
        &&& !self.is_empty()
        &&& 0 < self.image_width
        &&& 0 <= self.column(p) < self.frame_width
        &&& 0 <= self.row(p) < self.frame_height
    }

    /// The place among the indices of the index of the canvas pixel `p`.
    pub open spec fn index_of(self, interlaced: bool, p: int) -> int {
        self.stored_row(interlaced, self.row(p)) * self.frame_width + self.column(p)
    }
}

/// Every index among the first `count` that is not the transparent one
/// names a colour of the table.
pub open spec fn colours_known(
    indices: Seq<u8>,
    colours: Seq<u32>,
    transparent: int,
    count: int,
) -> bool {
    forall|i: int|
        0 <= i < count && indices[i] != transparent ==> (#[trigger] indices[i]) < colours.len()
}

/// A canvas after one row was painted: the `width` pixels from `to` on have
/// the colours that the `width` indices from `from` on name, but where the
/// index is the transparent one; every other pixel is as it was.
pub open spec fn row_painted(
    pixels: Seq<u32>,
    indices: Seq<u8>,
    colours: Seq<u32>,
    transparent: int,
    from: int,
    to: int,
    width: int,
) -> Seq<u32> {
    Seq::new(
        pixels.len(),
        |p: int|
            if to <= p < to + width && indices[from + p - to] != transparent {
                colours[indices[from + p - to] as int]
            } else {
                pixels[p]
            },
    )
}

/// The canvas once the first `done` stored rows are painted, one after
/// another.
pub open spec fn painted(
    pixels: Seq<u32>,
    indices: Seq<u8>,
    colours: Seq<u32>,
    transparent: int,
    frame: Geometry,
    interlaced: bool,
    done: nat,
) -> Seq<u32>
    decreases done,
{
    if done == 0 {
        pixels
    } else {
        row_painted(
            painted(pixels, indices, colours, transparent, frame, interlaced, (done - 1) as nat),
            indices,
            colours,
            transparent,
            (done - 1) * frame.frame_width,
            frame.pixel_at(0, frame.shown_row(interlaced, done - 1)),
            frame.frame_width,
        )
    }
}

/// The canvas with the whole frame painted on it.
pub open spec fn composited(
    pixels: Seq<u32>,
    indices: Seq<u8>,
    colours: Seq<u32>,
    transparent: int,
    frame: Geometry,
    interlaced: bool,
) -> Seq<u32> {
    if frame.is_empty() {
        pixels
    } else {
        painted(
            pixels,
            indices,
            colours,
            transparent,
            frame,
            interlaced,
            frame.frame_height as nat,
        )
    }
}

/// The colour that the canvas pixel `p` has of its own index once the
/// stored rows before `done` are painted: the colour that the index names,
/// if `p` is one of the frame's pixels in such a row and the index is not
/// the transparent one; else the colour it had.
pub open spec fn painted_pixel(
    pixels: Seq<u32>,
    indices: Seq<u8>,
    colours: Seq<u32>,
    transparent: int,
    frame: Geometry,
    interlaced: bool,
    done: int,
    p: int,
) -> u32 {
    if frame.covers(p) && frame.stored_row(interlaced, frame.row(p)) < done && indices[frame.index_of(
        interlaced,
        p,
    )] != transparent {
        colours[indices[frame.index_of(interlaced, p)] as int]
    } else {
        pixels[p]
    }
}

/// The indices of an interlaced frame put into the order of the picture's
/// rows, top to bottom.
pub open spec fn deinterlaced(stored: Seq<u8>, frame_width: int, frame_height: int) -> Seq<u8> {
    Seq::new(
        (frame_width * frame_height) as nat,
        |i: int| stored[source_row(frame_height, i / frame_width) * frame_width + i % frame_width],
    )
}

/// Painting rows keeps the canvas at its size.
pub proof fn lemma_painted_len(
    pixels: Seq<u32>,
    indices: Seq<u8>,
    colours: Seq<u32>,
    transparent: int,
    frame: Geometry,
    interlaced: bool,
    done: nat,
)
    ensures
        painted(pixels, indices, colours, transparent, frame, interlaced, done).len()
            == pixels.len(),
    decreases done,
{
    if done > 0 {
        lemma_painted_len(
            pixels,
            indices,
            colours,
            transparent,
            frame,
            interlaced,
            (done - 1) as nat,
        );
    }
}

/// Painting a frame keeps the canvas at its size.
pub proof fn lemma_composited_len(
    pixels: Seq<u32>,
    indices: Seq<u8>,
    colours: Seq<u32>,
    transparent: int,
    frame: Geometry,
    interlaced: bool,
)
    ensures
        composited(pixels, indices, colours, transparent, frame, interlaced).len() == pixels.len(),
{
    if !frame.is_empty() {
        lemma_painted_len(
            pixels,
            indices,
            colours,
            transparent,
            frame,
            interlaced,
            frame.frame_height as nat,
        );
    }
}

/// Whether the `stored`-th stored row has an index that paints the canvas
/// pixel `p`: one that lands on `p` and is not the transparent one.
pub open spec fn row_paints(
    indices: Seq<u8>,
    transparent: int,
    frame: Geometry,
    interlaced: bool,
    stored: int,
    p: int,
) -> bool {
    let to = frame.pixel_at(0, frame.shown_row(interlaced, stored));
    to <= p < to + frame.frame_width && indices[stored * frame.frame_width + p - to]
        != transparent
}

/// A pixel keeps its colour through the rows that do not paint it: it is
/// changed by a row only where an index that is not the transparent one
/// lands on it.
pub proof fn lemma_unpainted_kept(
    pixels: Seq<u32>,
    indices: Seq<u8>,
    colours: Seq<u32>,
    transparent: int,
    frame: Geometry,
    interlaced: bool,
    done: nat,
    p: int,
)
    requires
        0 <= p < pixels.len(),
        forall|stored: int|
            0 <= stored < done ==> !#[trigger] row_paints(
                indices,
                transparent,
                frame,
                interlaced,
                stored,
                p,
            ),
    ensures
        painted(pixels, indices, colours, transparent, frame, interlaced, done)[p] == pixels[p],
    decreases done,
{
    if done > 0 {
        lemma_unpainted_kept(
            pixels,
            indices,
            colours,
            transparent,
            frame,
            interlaced,
            (done - 1) as nat,
            p,
        );
        lemma_painted_len(
            pixels,
            indices,
            colours,
            transparent,
            frame,
            interlaced,
            (done - 1) as nat,
        );
        assert(!row_paints(indices, transparent, frame, interlaced, done - 1, p));
    }
}

/// A row of the frame lies on the canvas.
pub proof fn lemma_row_on_canvas(frame: Geometry, pixels_len: int, indices_len: int, y: int)
    requires
        frame.fits(pixels_len, indices_len),
        !frame.is_empty(),
        0 <= y < frame.frame_height,
    ensures
        0 <= frame.pixel_at(0, y),
        y + frame.offset_y <= (y + frame.offset_y) * frame.image_width || frame.image_width == 0,
        frame.pixel_at(0, y) + frame.frame_width <= pixels_len,
{
    let w = frame.image_width;
    let last = frame.offset_y + frame.frame_height - 1;
    assert((y + frame.offset_y) * w <= last * w) by (nonlinear_arith)
        requires
            y + frame.offset_y <= last,
            0 <= w,
    ;
    assert(0 <= (y + frame.offset_y) * w) by (nonlinear_arith)
        requires
            0 <= y + frame.offset_y,
            0 <= w,
    ;
    if w > 0 {
        assert(y + frame.offset_y <= (y + frame.offset_y) * w) by (nonlinear_arith)
            requires
                0 <= y + frame.offset_y,
                1 <= w,
        ;
    }
}

/// The indices of a stored row lie among the indices of the frame.
pub proof fn lemma_row_indices(frame: Geometry, pixels_len: int, indices_len: int, stored: int)
    requires
        frame.fits(pixels_len, indices_len),
        !frame.is_empty(),
        0 <= stored < frame.frame_height,
    ensures
        0 <= stored * frame.frame_width,
        stored * frame.frame_width + frame.frame_width <= frame.frame_width * frame.frame_height,
        stored * frame.frame_width + frame.frame_width <= indices_len,
{
    assert(0 <= stored * frame.frame_width && stored * frame.frame_width + frame.frame_width
        <= frame.frame_width * frame.frame_height) by (nonlinear_arith)
        requires
            0 <= stored < frame.frame_height,
            0 < frame.frame_width,
    ;
}

/// Within the rows of the canvas, the frame has its pixel at the column and
/// row it was asked for.
pub proof fn lemma_pixel_at(frame: Geometry, x: int, y: int)
    requires
        !frame.is_empty(),
        frame.within_rows(),
        0 <= x < frame.frame_width,
        0 <= y < frame.frame_height,
    ensures
        frame.covers(frame.pixel_at(x, y)),
        frame.column(frame.pixel_at(x, y)) == x,
        frame.row(frame.pixel_at(x, y)) == y,
{
    lemma_fundamental_div_mod_converse(
        frame.pixel_at(x, y),
        frame.image_width,
        y + frame.offset_y,
        frame.offset_x + x,
    );
}

/// A pixel of the canvas that the frame covers is the frame's pixel at its
/// column and row.
pub proof fn lemma_covered_pixel(frame: Geometry, p: int)
    requires
        frame.covers(p),
    ensures
        p == frame.pixel_at(frame.column(p), frame.row(p)),
{
    lemma_fundamental_div_mod(p, frame.image_width);
    assert(frame.image_width * (p / frame.image_width) == (p / frame.image_width)
        * frame.image_width) by (nonlinear_arith);
}

/// Where the frame lies within the rows of the canvas, every pixel has the
/// colour of its own index once rows are painted: no row paints over
/// another.
pub proof fn lemma_painted_pixels(
    pixels: Seq<u32>,
    indices: Seq<u8>,
    colours: Seq<u32>,
    transparent: int,
    frame: Geometry,
    interlaced: bool,
    done: nat,
)
    requires
        !frame.is_empty(),
        frame.within_rows(),
        done <= frame.frame_height,
    ensures
        painted(pixels, indices, colours, transparent, frame, interlaced, done) == Seq::new(
            pixels.len(),
            |p: int|
                painted_pixel(pixels, indices, colours, transparent, frame, interlaced, done as int, p),
        ),
    decreases done,
{
    let now = painted(pixels, indices, colours, transparent, frame, interlaced, done);
    let goal = Seq::new(
        pixels.len(),
        |p: int|
            painted_pixel(pixels, indices, colours, transparent, frame, interlaced, done as int, p),
    );
    lemma_painted_len(pixels, indices, colours, transparent, frame, interlaced, done);
    if done == 0 {
        assert(now =~= goal);
    } else {
        let stored = done - 1;
        let before = painted(
            pixels,
            indices,
            colours,
            transparent,
            frame,
            interlaced,
            stored as nat,
        );
        lemma_painted_pixels(pixels, indices, colours, transparent, frame, interlaced, stored as nat);
        let y = frame.shown_row(interlaced, stored);
        let to = frame.pixel_at(0, y);
        if interlaced {
            lemma_display_row(frame.frame_height, stored);
        }
        assert forall|p: int| 0 <= p < now.len() implies now[p] == goal[p] by {
            if to <= p < to + frame.frame_width {
                lemma_pixel_at(frame, p - to, y);
            } else if frame.covers(p) && frame.stored_row(interlaced, frame.row(p)) == stored {
                if interlaced {
                    lemma_source_row(frame.frame_height, frame.row(p));
                }
                lemma_covered_pixel(frame, p);
            }
        }
        assert(now =~= goal);
    }
}

/// Where the frame lies within the rows of the canvas, the colour of a
/// pixel after painting is told by its own index.
pub proof fn lemma_composited_pixel(
    pixels: Seq<u32>,
    indices: Seq<u8>,
    colours: Seq<u32>,
    transparent: int,
    frame: Geometry,
    interlaced: bool,
    p: int,
)
    requires
        frame.within_rows(),
        0 <= p < pixels.len(),
    ensures
        composited(pixels, indices, colours, transparent, frame, interlaced)[p] == (if frame.covers(
            p,
        ) && indices[frame.index_of(interlaced, p)] != transparent {
            colours[indices[frame.index_of(interlaced, p)] as int]
        } else {
            pixels[p]
        }),
{
    if !frame.is_empty() {
        lemma_painted_pixels(
            pixels,
            indices,
            colours,
            transparent,
            frame,
            interlaced,
            frame.frame_height as nat,
        );
        if frame.covers(p) && interlaced {
            lemma_source_row(frame.frame_height, frame.row(p));
        }
    }
}

/// Painting changes nothing outside the frame.
pub proof fn lemma_outside_kept(
    pixels: Seq<u32>,
    indices: Seq<u8>,
    colours: Seq<u32>,
    transparent: int,
    frame: Geometry,
    interlaced: bool,
    p: int,
)
    requires
        frame.within_rows(),
        0 <= p < pixels.len(),
        !frame.covers(p),
    ensures
        composited(pixels, indices, colours, transparent, frame, interlaced)[p] == pixels[p],
{
    lemma_composited_pixel(pixels, indices, colours, transparent, frame, interlaced, p);
}

/// A pixel whose index is the transparent one keeps its colour.
pub proof fn lemma_transparent_kept(
    pixels: Seq<u32>,
    indices: Seq<u8>,
    colours: Seq<u32>,
    transparent: int,
    frame: Geometry,
    interlaced: bool,
    p: int,
)
    requires
        frame.within_rows(),
        0 <= p < pixels.len(),
        frame.covers(p),
        indices[frame.index_of(interlaced, p)] == transparent,
    ensures
        composited(pixels, indices, colours, transparent, frame, interlaced)[p] == pixels[p],
{
    lemma_composited_pixel(pixels, indices, colours, transparent, frame, interlaced, p);
}

/// Painting an interlaced frame gives the same canvas as painting, row by
/// row from the top, the same indices put into the order of the picture.
pub proof fn lemma_interlace_equivalence(
    pixels: Seq<u32>,
    stored: Seq<u8>,
    colours: Seq<u32>,
    transparent: int,
    frame: Geometry,
)
    requires
        frame.within_rows(),
    ensures
        composited(pixels, stored, colours, transparent, frame, true) == composited(
            pixels,
            deinterlaced(stored, frame.frame_width, frame.frame_height),
            colours,
            transparent,
            frame,
            false,
        ),
{
    let shown = deinterlaced(stored, frame.frame_width, frame.frame_height);
    let left = composited(pixels, stored, colours, transparent, frame, true);
    let right = composited(pixels, shown, colours, transparent, frame, false);
    lemma_composited_len(pixels, stored, colours, transparent, frame, true);
    lemma_composited_len(pixels, shown, colours, transparent, frame, false);
    assert forall|p: int| 0 <= p < pixels.len() implies left[p] == right[p] by {
        lemma_composited_pixel(pixels, stored, colours, transparent, frame, true, p);
        lemma_composited_pixel(pixels, shown, colours, transparent, frame, false, p);
        if frame.covers(p) {
            let x = frame.column(p);
            let y = frame.row(p);
            let w = frame.frame_width;
            lemma_source_row(frame.frame_height, y);
            lemma_fundamental_div_mod_converse(y * w + x, w, y, x);
            assert(0 <= y * w + x < w * frame.frame_height) by (nonlinear_arith)
                requires
                    0 <= x < w,
                    0 <= y < frame.frame_height,
            ;
            assert(shown[y * w + x] == stored[source_row(frame.frame_height, y) * w + x]);
        }
    }
    assert(left =~= right);
}

} // verus!
