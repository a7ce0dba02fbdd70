use giflzwdecoder::compositor::all_colours_known;
use giflzwdecoder::compositor::fill_row;
use giflzwdecoder::compositor::frame_fits;
use giflzwdecoder::decode;
use giflzwdecoder::fill_pixel;
use giflzwdecoder::fill_pixels_interlaced;
use giflzwdecoder::fill_pixels_simple;
use giflzwdecoder::try_fill_pixel;

const SENTINEL: u32 = 0xDEAD_BEEF;

/// A table of 256 colours, each telling its index.
fn telling_colours() -> Vec<u32> {
    (0..256u32).map(|i| 0xFF00_0000 | i).collect()
}

/// The display row of each stored row of an interlaced frame.
fn rows_in_stored_order(height: u32) -> Vec<u32> {
    let mut rows = Vec::new();
    for (first, step) in [(0u32, 8u32), (4, 8), (2, 4), (1, 2)] {
        let mut row = first;
        while row < height {
            rows.push(row);
            row += step;
        }
    }
    rows
}

#[test]
fn simple_frame_lands_at_its_offset() {
    // A 2 by 2 frame at (1, 1) of a 4 by 3 canvas.
    let mut pixels = vec![SENTINEL; 12];
    let colours = [0x11u32, 0x22, 0x33, 0x44];
    fill_pixels_simple(&mut pixels, &[0, 1, 2, 3], &colours, 255, 4, 2, 2, 1, 1);
    let expected = vec![
        SENTINEL, SENTINEL, SENTINEL, SENTINEL,
        SENTINEL, 0x11,     0x22,     SENTINEL,
        SENTINEL, 0x33,     0x44,     SENTINEL,
    ];
    assert_eq!(pixels, expected);
}

#[test]
fn pixel_position_is_row_times_width_plus_column() {
    // Frame pixel (x, y) = (2, 1) of a frame at (3, 2) on a canvas 7 wide:
    // (1 + 2) * 7 + 3 + 2 = 26.
    let mut pixels = vec![SENTINEL; 7 * 5];
    let mut indices = vec![9u8; 3 * 2];
    indices[1 * 3 + 2] = 1;
    let colours = [0u32, 0xABCD];
    fill_pixels_simple(&mut pixels, &indices, &colours, 9, 7, 3, 2, 3, 2);
    for (p, &colour) in pixels.iter().enumerate() {
        assert_eq!(colour, if p == 26 { 0xABCD } else { SENTINEL });
    }
}

#[test]
fn transparent_index_leaves_the_pixel_as_it_was() {
    let mut pixels = vec![SENTINEL; 9];
    let colours = [0x10u32, 0x20, 0x30];
    let indices = [0u8, 1, 2, 1, 1, 0, 2, 1, 0];
    fill_pixel(&mut pixels, &indices, &colours, 1, 3, 3, 3, 0, 0, false);
    let expected =
        vec![0x10, SENTINEL, 0x30, SENTINEL, SENTINEL, 0x10, 0x30, SENTINEL, 0x10];
    assert_eq!(pixels, expected);

    let mut pixels = vec![SENTINEL; 9];
    fill_pixel(&mut pixels, &indices, &colours, 1, 3, 3, 3, 0, 0, true);
    // Stored rows 0, 1, 2 are display rows 0, 2, 1.
    let expected =
        vec![0x10, SENTINEL, 0x30, 0x30, SENTINEL, 0x10, SENTINEL, SENTINEL, 0x10];
    assert_eq!(pixels, expected);
}

#[test]
fn fully_transparent_frame_changes_nothing() {
    let mut pixels = vec![SENTINEL; 20];
    fill_pixel(&mut pixels, &[7u8; 6], &[], 7, 5, 3, 2, 1, 1, false);
    assert_eq!(pixels, vec![SENTINEL; 20]);
    fill_pixel(&mut pixels, &[7u8; 6], &[], 7, 5, 3, 2, 1, 1, true);
    assert_eq!(pixels, vec![SENTINEL; 20]);
}

#[test]
fn transparent_index_beyond_a_byte_never_matches() {
    let mut pixels = vec![SENTINEL; 4];
    fill_pixel(&mut pixels, &[0, 1, 1, 0], &[5, 6], 256, 2, 2, 2, 0, 0, false);
    assert_eq!(pixels, vec![5, 6, 6, 5]);
    let mut pixels = vec![SENTINEL; 4];
    fill_pixel(&mut pixels, &[0, 1, 1, 0], &[5, 6], usize::MAX, 2, 2, 2, 0, 0, false);
    assert_eq!(pixels, vec![5, 6, 6, 5]);
}

#[test]
fn interlaced_rows_go_to_their_pass_rows() {
    // Ten rows, one pixel wide; stored row r holds the index r.
    let indices: Vec<u8> = (0..10).collect();
    let colours = telling_colours();
    let mut pixels = vec![SENTINEL; 10];
    fill_pixels_interlaced(&mut pixels, &indices, &colours, 255, 1, 1, 10, 0, 0);
    // Display rows 0..10 show stored rows 0, 5, 3, 6, 2, 7, 4, 8, 1, 9.
    let expected: Vec<u32> =
        [0u32, 5, 3, 6, 2, 7, 4, 8, 1, 9].iter().map(|i| 0xFF00_0000 | i).collect();
    assert_eq!(pixels, expected);
}

#[test]
fn interlaced_order_for_every_small_height() {
    let colours = telling_colours();
    for height in 1..=40u32 {
        let indices: Vec<u8> = (0..height as u8).collect();
        let mut pixels = vec![SENTINEL; height as usize];
        fill_pixel(&mut pixels, &indices, &colours, 255, 1, 1, height, 0, 0, true);
        let order = rows_in_stored_order(height);
        assert_eq!(order.len(), height as usize);
        for (stored, &row) in order.iter().enumerate() {
            assert_eq!(pixels[row as usize], 0xFF00_0000 | stored as u32);
        }
    }
}

#[test]
fn interlaced_frame_equals_simple_frame_of_reordered_indices() {
    let colours = telling_colours();
    for (width, height) in [(1u32, 1u32), (3, 2), (5, 9), (4, 16), (7, 23)] {
        let count = (width * height) as usize;
        let stored: Vec<u8> = (0..count).map(|i| (i * 7 % 251) as u8).collect();
        // The same picture with its rows top to bottom.
        let mut shown = vec![0u8; count];
        for (stored_row, &row) in rows_in_stored_order(height).iter().enumerate() {
            for x in 0..width as usize {
                shown[row as usize * width as usize + x] =
                    stored[stored_row * width as usize + x];
            }
        }
        let canvas_width = width + 3;
        let canvas = vec![SENTINEL; (canvas_width * (height + 2)) as usize];
        let mut interlaced = canvas.clone();
        fill_pixel(&mut interlaced, &stored, &colours, 256, canvas_width, width, height, 2, 1, true);
        let mut simple = canvas.clone();
        fill_pixel(&mut simple, &shown, &colours, 256, canvas_width, width, height, 2, 1, false);
        assert_eq!(interlaced, simple);
        assert_ne!(interlaced, canvas);
    }
}

#[test]
fn pixels_outside_the_frame_are_never_written() {
    let colours = telling_colours();
    for interlaced in [false, true] {
        let mut pixels = vec![SENTINEL; 6 * 7];
        let indices = vec![3u8; 2 * 5];
        fill_pixel(&mut pixels, &indices, &colours, 255, 6, 2, 5, 4, 2, interlaced);
        for p in 0..pixels.len() {
            let (x, y) = (p % 6, p / 6);
            let inside = (4..6).contains(&x) && (2..7).contains(&y);
            assert_eq!(pixels[p], if inside { 0xFF00_0003 } else { SENTINEL });
        }
    }
}

#[test]
fn frame_may_end_with_the_canvas() {
    // The last pixel of the frame is the last pixel of the canvas.
    let mut pixels = vec![SENTINEL; 6];
    fill_pixel(&mut pixels, &[1, 1], &[0, 0x77], 0, 3, 2, 1, 1, 1, false);
    assert_eq!(pixels, vec![SENTINEL, SENTINEL, SENTINEL, SENTINEL, 0x77, 0x77]);
}

#[test]
fn empty_frame_paints_nothing() {
    for interlaced in [false, true] {
        let mut pixels = vec![SENTINEL; 4];
        fill_pixel(&mut pixels, &[], &[], 0, 2, 0, 5, 9, 9, interlaced);
        assert_eq!(pixels, vec![SENTINEL; 4]);
        fill_pixel(&mut pixels, &[], &[], 0, 2, 5, 0, 9, 9, interlaced);
        assert_eq!(pixels, vec![SENTINEL; 4]);
    }
}

#[test]
fn fill_row_paints_one_run_of_pixels() {
    let mut pixels = vec![SENTINEL; 8];
    fill_row(&mut pixels, &[9, 0, 1, 2, 0, 9], &[0xA, 0xB, 0xC], 2, 1, 3, 4);
    assert_eq!(
        pixels,
        vec![SENTINEL, SENTINEL, SENTINEL, 0xA, 0xB, SENTINEL, 0xA, SENTINEL]
    );
}

#[test]
fn frame_fits_tells_whether_the_frame_lies_on_the_canvas() {
    // 2 by 2 at (1, 1) on 4 by 3: the last pixel is 2 * 4 + 1 + 2 = 11 < 12.
    assert!(frame_fits(12, 4, 4, 2, 2, 1, 1));
    assert!(frame_fits(11, 4, 4, 2, 2, 1, 1));
    assert!(!frame_fits(10, 4, 4, 2, 2, 1, 1));
    // Too few indices.
    assert!(!frame_fits(12, 3, 4, 2, 2, 1, 1));
    // The last row would run over the end of the canvas.
    assert!(!frame_fits(12, 4, 4, 2, 2, 3, 1));
    assert!(frame_fits(12, 4, 4, 2, 2, 2, 1));
    // A row may run over the right edge as long as the canvas goes on.
    assert!(frame_fits(12, 4, 4, 2, 2, 3, 0));
    // An empty frame fits anywhere.
    assert!(frame_fits(0, 0, 0, 0, 7, 9, 9));
    assert!(frame_fits(0, 0, 0, 7, 0, 9, 9));
    // The largest numbers do not wrap around.
    assert!(!frame_fits(usize::MAX, usize::MAX, u32::MAX, u32::MAX, u32::MAX, 0, u32::MAX));
}

#[test]
fn all_colours_known_tells_whether_indices_name_colours() {
    assert!(all_colours_known(&[0, 1, 2], &[7, 7, 7], 9, 3));
    assert!(!all_colours_known(&[0, 1, 3], &[7, 7, 7], 9, 3));
    assert!(all_colours_known(&[0, 1, 3], &[7, 7, 7], 3, 3));
    assert!(all_colours_known(&[0, 1, 3], &[7, 7, 7], 9, 2));
    assert!(all_colours_known(&[], &[], 0, 0));
}

#[test]
fn try_fill_pixel_paints_what_fits() {
    let mut pixels = vec![SENTINEL; 12];
    let colours = [0x11u32, 0x22, 0x33, 0x44];
    assert!(try_fill_pixel(&mut pixels, &[0, 1, 2, 3], &colours, 255, 4, 2, 2, 1, 1, false));
    assert_eq!(pixels[5], 0x11);
    assert_eq!(pixels[10], 0x44);
}

#[test]
fn try_fill_pixel_refuses_what_does_not_fit() {
    let colours = [0x11u32, 0x22, 0x33, 0x44];
    let mut pixels = vec![SENTINEL; 12];
    // The frame runs over the bottom of the canvas.
    assert!(!try_fill_pixel(&mut pixels, &[0, 1, 2, 3], &colours, 255, 4, 2, 2, 1, 2, false));
    // An index names no colour.
    assert!(!try_fill_pixel(&mut pixels, &[0, 1, 2, 4], &colours, 255, 4, 2, 2, 1, 1, true));
    // Too few indices.
    assert!(!try_fill_pixel(&mut pixels, &[0, 1, 2], &colours, 255, 4, 2, 2, 1, 1, false));
    assert_eq!(pixels, vec![SENTINEL; 12]);
}

#[test]
fn decoded_frame_is_painted_onto_the_canvas() {
    // The sample stream as a 5 by 3 frame at (1, 1) of a 7 by 5 canvas.
    let sample_data: [u8; 7] = [0x02, 0x05, 0x84, 0x6E, 0x27, 0xC1, 0x5D];
    let mut scratch = [0u8; 15];
    decode(&sample_data, &mut scratch, 15);
    let colours = [0xA0u32, 0xA1, 0xA2, 0xA3];
    let mut pixels = vec![SENTINEL; 35];
    fill_pixel(&mut pixels, &scratch, &colours, 0, 7, 5, 3, 1, 1, false);
    let expected = vec![
        SENTINEL, SENTINEL, SENTINEL, SENTINEL, SENTINEL, SENTINEL, SENTINEL,
        SENTINEL, SENTINEL, 0xA2,     0xA2,     0xA2,     SENTINEL, SENTINEL,
        SENTINEL, 0xA2,     0xA2,     0xA2,     0xA2,     0xA1,     SENTINEL,
        SENTINEL, 0xA1,     0xA1,     0xA1,     0xA1,     0xA1,     SENTINEL,
        SENTINEL, SENTINEL, SENTINEL, SENTINEL, SENTINEL, SENTINEL, SENTINEL,
    ];
    assert_eq!(pixels, expected);
}

#[test]
fn rows_wider_than_the_canvas_are_painted_one_over_the_other() {
    // Rows of three pixels on a canvas two wide: row y starts at pixel 2 * y
    // and its last pixel is the first of the next row.
    let colours = [0xC0u32, 0xC1, 0xC2, 0xC3];
    let mut pixels = vec![SENTINEL; 5];
    fill_pixel(&mut pixels, &[1, 1, 1, 2, 2, 2], &colours, 9, 2, 3, 2, 0, 0, false);
    assert_eq!(pixels, vec![0xC1, 0xC1, 0xC2, 0xC2, 0xC2]);
    // A transparent index lets the row before show through.
    let mut pixels = vec![SENTINEL; 5];
    fill_pixel(&mut pixels, &[1, 1, 1, 0, 2, 2], &colours, 0, 2, 3, 2, 0, 0, false);
    assert_eq!(pixels, vec![0xC1, 0xC1, 0xC1, 0xC2, 0xC2]);
    // Interlaced, the rows are painted in the order in which they are
    // stored: rows 0, 2, 1 of three, so that row 1 is on top of row 2.
    let mut pixels = vec![SENTINEL; 7];
    fill_pixel(&mut pixels, &[1, 1, 1, 3, 3, 3, 2, 2, 2], &colours, 9, 2, 3, 3, 0, 0, true);
    assert_eq!(pixels, vec![0xC1, 0xC1, 0xC2, 0xC2, 0xC2, 0xC3, 0xC3]);
    let mut pixels = vec![SENTINEL; 7];
    fill_pixel(&mut pixels, &[1, 1, 1, 2, 2, 2, 3, 3, 3], &colours, 9, 2, 3, 3, 0, 0, false);
    assert_eq!(pixels, vec![0xC1, 0xC1, 0xC2, 0xC2, 0xC3, 0xC3, 0xC3]);
}

#[test]
fn canvas_of_width_zero_takes_every_row_at_its_start() {
    let colours = [0xC0u32, 0xC1, 0xC2];
    let mut pixels = vec![SENTINEL; 3];
    fill_pixel(&mut pixels, &[1, 1, 2, 0], &colours, 0, 0, 2, 2, 1, 5, false);
    assert_eq!(pixels, vec![SENTINEL, 0xC2, 0xC1]);
}
