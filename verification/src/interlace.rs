//! The order of the rows of an interlaced frame.
//!
//! An interlaced frame stores its rows in four passes: first every eighth
//! row from row 0, then every eighth from row 4, then every fourth from
//! row 2, and last every second from row 1.

use vstd::prelude::*;

verus! {

/// The first row of each of the four passes.
pub open spec fn pass_first(pass: int) -> int {
    if pass == 0 {
        0
    } else if pass == 1 {
        4
    } else if pass == 2 {
        2
    } else {
        1
    }
}

/// The distance between two rows of a pass.
pub open spec fn pass_stride(pass: int) -> int {
    if pass <= 1 {
        8
    } else if pass == 2 {
        4
    } else {
        2
    }
}

/// How many rows of a frame of `height` rows a pass holds.
pub open spec fn pass_rows(height: int, pass: int) -> int {
    if height <= pass_first(pass) {
        0
    } else {
        (height - pass_first(pass) + pass_stride(pass) - 1) / pass_stride(pass)
    }
}

/// How many rows are stored before the first row of a pass.
pub open spec fn pass_base(height: int, pass: int) -> int {
    if pass <= 0 {
        0
    } else if pass == 1 {
        pass_rows(height, 0)
    } else if pass == 2 {
        pass_rows(height, 0) + pass_rows(height, 1)
    } else if pass == 3 {
        pass_rows(height, 0) + pass_rows(height, 1) + pass_rows(height, 2)
    } else {
        pass_rows(height, 0) + pass_rows(height, 1) + pass_rows(height, 2) + pass_rows(height, 3)
    }
}

/// The pass that a row of the picture is stored in.
pub open spec fn pass_of(row: int) -> int {
    if row % 8 == 0 {
        0
    } else if row % 8 == 4 {
        1
    } else if row % 4 == 2 {
        2
    } else {
        3
    }
}

/// Where in the stored order the row `row` of the picture is found.
pub open spec fn source_row(height: int, row: int) -> int {
    let pass = pass_of(row);
    pass_base(height, pass) + (row - pass_first(pass)) / pass_stride(pass)
}

/// Which row of the picture the `stored`-th row in the stored order is.
pub open spec fn display_row(height: int, stored: int) -> int {
    if stored < pass_base(height, 1) {
        8 * stored
    } else if stored < pass_base(height, 2) {
        4 + 8 * (stored - pass_base(height, 1))
    } else if stored < pass_base(height, 3) {
        2 + 4 * (stored - pass_base(height, 2))
    } else {
        1 + 2 * (stored - pass_base(height, 3))
    }
}

/// The number of rows of each pass, in closed form.
pub proof fn lemma_pass_rows(height: int)
    requires
        0 <= height,
    ensures
        pass_rows(height, 0) == (height + 7) / 8,
        pass_rows(height, 1) == (height + 3) / 8,
        pass_rows(height, 2) == (height + 1) / 4,
        pass_rows(height, 3) == height / 2,
{
}

/// The four passes hold every row once: together they hold `height` rows.
pub proof fn lemma_passes_cover(height: int)
    requires
        0 <= height,
    ensures
        pass_base(height, 4) == height,
        0 <= pass_base(height, 1) <= pass_base(height, 2) <= pass_base(height, 3) <= height,
{
    lemma_pass_rows(height);
    let r = height % 8;
    let q = height / 8;
    assert(height == 8 * q + r);
    assert((height + 7) / 8 == if r == 0 { q } else { q + 1 });
    assert((height + 3) / 8 == if r <= 4 { q } else { q + 1 });
    assert((height + 1) / 4 == 2 * q + (if r <= 2 { 0int } else if r <= 6 { 1int } else { 2int }));
    assert(height / 2 == 4 * q + r / 2);
}

/// The `k`-th row of a pass.
#[verifier::opaque]
pub open spec fn pass_row(pass: int, k: int) -> int {
    pass_first(pass) + pass_stride(pass) * k
}

/// A pass starts at its first row.
pub proof fn lemma_pass_row_first(pass: int)
    ensures
        pass_row(pass, 0) == pass_first(pass),
{
    reveal(pass_row);
}

/// The `k`-th row of a pass: where it is stored, and that it is the row
/// stored there.
pub proof fn lemma_row_of_pass(height: int, pass: int, k: int)
    requires
        0 <= pass < 4,
        0 <= k,
        pass_row(pass, k) < height,
    ensures
        0 <= pass_row(pass, k),
        0 <= pass_base(height, pass),
        k < pass_rows(height, pass),
        pass_base(height, pass) + k < height,
        pass_of(pass_row(pass, k)) == pass,
        source_row(height, pass_row(pass, k)) == pass_base(height, pass) + k,
        display_row(height, pass_base(height, pass) + k) == pass_row(pass, k),
{
    reveal(pass_row);
    lemma_pass_rows(height);
    lemma_passes_cover(height);
    if pass == 0 {
        let row = 8 * k;
        assert(row % 8 == 0 && row / 8 == k);
        assert(k < (height + 7) / 8);
    } else if pass == 1 {
        let row = 4 + 8 * k;
        assert(row % 8 == 4 && (row - 4) / 8 == k);
        assert(k < (height + 3) / 8);
    } else if pass == 2 {
        let row = 2 + 4 * k;
        assert(row % 4 == 2 && (row - 2) / 4 == k);
        assert(row % 8 == 2 || row % 8 == 6);
        assert(k < (height + 1) / 4);
    } else {
        let row = 1 + 2 * k;
        assert(row % 2 == 1 && (row - 1) / 2 == k);
        assert(row % 8 == 1 || row % 8 == 3 || row % 8 == 5 || row % 8 == 7);
        assert(row % 4 == 1 || row % 4 == 3);
        assert(k < height / 2);
    }
}

/// The row after the `k`-th of a pass lies one stride further, and if it is
/// no row of the picture the pass has handed out all its rows.
pub proof fn lemma_pass_row_next(height: int, pass: int, k: int)
    requires
        0 <= pass < 4,
        0 <= k,
        pass_row(pass, k) < height,
    ensures
        pass_row(pass, k + 1) == pass_row(pass, k) + pass_stride(pass),
        pass_row(pass, k + 1) >= height ==> k + 1 == pass_rows(height, pass),
{
    reveal(pass_row);
    lemma_pass_rows(height);
    if pass == 0 {
        assert(8 * (k + 1) == 8 * k + 8);
    } else if pass == 1 {
        assert(8 * (k + 1) == 8 * k + 8);
    } else if pass == 2 {
        assert(4 * (k + 1) == 4 * k + 4);
    } else {
        assert(2 * (k + 1) == 2 * k + 2);
    }
}

/// A pass whose first row is no row of the picture holds no row.
pub proof fn lemma_pass_without_rows(height: int, pass: int)
    requires
        0 <= pass < 4,
        pass_first(pass) >= height,
    ensures
        pass_rows(height, pass) == 0,
{
}

/// Every row of the picture is stored somewhere among the `height` rows,
/// and the row stored there is that row.
pub proof fn lemma_source_row(height: int, row: int)
    requires
        0 <= row < height,
    ensures
        0 <= source_row(height, row) < height,
        display_row(height, source_row(height, row)) == row,
{
    let pass = pass_of(row);
    let k = if pass == 0 {
        row / 8
    } else if pass == 1 {
        (row - 4) / 8
    } else if pass == 2 {
        (row - 2) / 4
    } else {
        (row - 1) / 2
    };
    assert(0 <= k && pass_row(pass, k) == row) by {
        reveal(pass_row);
        if pass == 0 {
            assert(row == 8 * (row / 8));
        } else if pass == 1 {
            assert(row == 4 + 8 * ((row - 4) / 8));
        } else if pass == 2 {
            assert(row == 2 + 4 * ((row - 2) / 4));
        } else {
            assert(row % 2 == 1);
            assert(row == 1 + 2 * ((row - 1) / 2));
        }
    }
    lemma_row_of_pass(height, pass, k);
}

/// Every stored row is a row of the picture, and that row is stored there:
/// the stored order is a rearrangement of the rows.
pub proof fn lemma_display_row(height: int, stored: int)
    requires
        0 <= stored < height,
    ensures
        0 <= display_row(height, stored) < height,
        source_row(height, display_row(height, stored)) == stored,
{
    lemma_passes_cover(height);
    let pass: int = if stored < pass_base(height, 1) {
        0
    } else if stored < pass_base(height, 2) {
        1
    } else if stored < pass_base(height, 3) {
        2
    } else {
        3
    };
    let k = stored - pass_base(height, pass);
    assert(pass_row(pass, k) == display_row(height, stored) && pass_row(pass, k) < height) by {
        reveal(pass_row);
        lemma_pass_rows(height);
        if pass == 0 {
            assert(k < (height + 7) / 8);
            assert(8 * k < height);
        } else if pass == 1 {
            assert(k < (height + 3) / 8);
            assert(4 + 8 * k < height);
        } else if pass == 2 {
            assert(k < (height + 1) / 4);
            assert(2 + 4 * k < height);
        } else {
            assert(k < height / 2);
            assert(1 + 2 * k < height);
        }
    }
    lemma_row_of_pass(height, pass, k);
}

} // verus!
