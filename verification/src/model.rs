//! What decoding means: the decoder as a state machine over the codes of the
//! payload.
//!
//! The code table is two parallel arrays. Codes below the clear code stand
//! for single bytes; the clear code and the end code follow them; every later
//! code holds a `prefix`, another code, and a `suffix`, one byte, and stands
//! for the string of its prefix followed by its suffix. Decoding reads one
//! code after another, spells the string of each, and gives the next free
//! code the previous code as prefix.

use crate::bitstream::bits_value;
use crate::blocks::payload;
use vstd::arithmetic::power2::lemma2_to64;
use vstd::arithmetic::power2::pow2;
use vstd::prelude::*;

verus! {

/// The number of codes that twelve bits can tell apart: the table never
/// grows past it.
pub const MAX_CODES: usize = 4096;

/// The largest minimum code size that a stream may announce.
pub const MAX_MIN_CODE_SIZE: u8 = 8;

/// How many bytes the stack holds on which a string is spelled.
pub const STACK_SIZE: usize = 4097;

/// The code that resets the table.
pub open spec fn clear_code(min_code_size: nat) -> int {
    pow2(min_code_size) as int
}

/// The code that ends the data.
pub open spec fn end_code(min_code_size: nat) -> int {
    clear_code(min_code_size) + 1
}

/// The first code that can be given a prefix and a suffix.
pub open spec fn first_free_code(min_code_size: nat) -> int {
    clear_code(min_code_size) + 2
}

/// `tail` put behind a string, if there is a string.
pub open spec fn followed_by(string: Option<Seq<u8>>, tail: Seq<u8>) -> Option<Seq<u8>> {
    match string {
        Some(s) => Some(s + tail),
        None => None,
    }
}

/// The decoder between two codes.
pub struct DecoderState {
    /// The prefix of each code, `MAX_CODES` of them.
    pub prefix: Seq<u16>,
    /// The suffix of each code, `MAX_CODES` of them.
    pub suffix: Seq<u8>,
    /// The next code to be given a prefix and a suffix.
    pub available: int,
    /// The width in bits of the next code.
    pub width: nat,
    /// The previous code; `None` at the start and right after a clear code.
    pub previous: Option<int>,
    /// The first byte of the previous code's string.
    pub first: u8,
}

impl DecoderState {
    /// The state at the start of the data: every code below the clear code
    /// has itself as suffix, and the rest of the table is zero.
    pub open spec fn initial(min_code_size: nat) -> DecoderState {
        DecoderState {
            prefix: Seq::new(MAX_CODES as nat, |c: int| 0u16),
            suffix: Seq::new(
                MAX_CODES as nat,
                |c: int|
                    if c < clear_code(min_code_size) {
                        c as u8
                    } else {
                        0u8
                    },
            ),
            available: first_free_code(min_code_size),
            width: min_code_size + 1,
            previous: None,
            first: 0,
        }
    }

    /// The state after a clear code: the width and the next free code are as
    /// at the start and the previous code is forgotten. The arrays are not
    /// wiped; what they hold from `available` on is no longer reachable but
    /// through `available` itself.
    pub open spec fn cleared(self, min_code_size: nat) -> DecoderState {
        DecoderState {
            available: first_free_code(min_code_size),
            width: min_code_size + 1,
            previous: None,
            ..self
        }
    }

    /// Whether decoding goes on at `code`: it does not at the end code, nor
    /// at a code above `available`.
    pub open spec fn accepts(self, min_code_size: nat, code: int) -> bool {
        &&& 0 <= code <= self.available
        &&& code != clear_code(min_code_size)
        &&& code != end_code(min_code_size)
    }

    /// The string that is spelled from `code` down the prefixes to a code
    /// below the clear code, if that takes at most `budget` steps.
    pub open spec fn walk(self, min_code_size: nat, code: int, budget: nat) -> Option<Seq<u8>>
        decreases budget,
    {
        if code < clear_code(min_code_size) {
            Some(seq![self.suffix[code]])
        } else if budget == 0 {
            None
        } else {
            followed_by(
                self.walk(min_code_size, self.prefix[code] as int, (budget - 1) as nat),
                seq![self.suffix[code]],
            )
        }
    }

    /// The string that an accepted code stands for, or `None` if spelling it
    /// takes more room than the stack has.
    ///
    /// With no previous code it is the code's suffix alone. The code
    /// `available` is the previous code's string followed by `first`.
    pub open spec fn expansion(self, min_code_size: nat, code: int) -> Option<Seq<u8>> {
        match self.previous {
            None => Some(seq![self.suffix[code]]),
            Some(before) => if code >= self.available {
                followed_by(
                    self.walk(min_code_size, before, (STACK_SIZE - 1) as nat),
                    seq![self.first],
                )
            } else {
                self.walk(min_code_size, code, STACK_SIZE as nat)
            },
        }
    }

    /// The width after `available` has moved up to `next_available`: one bit
    /// more when that is a multiple of `2^width` and the table is not full.
    pub open spec fn widened(width: nat, next_available: int) -> nat {
        if next_available % (pow2(width) as int) == 0 && next_available < MAX_CODES {
            width + 1
        } else {
            width
        }
    }

    /// The state after an accepted code whose string starts with `root`.
    ///
    /// The first code since a clear is only remembered. After that, unless
    /// the table is full, `available` gets the previous code as prefix and
    /// `root` as suffix, and moves up by one.
    pub open spec fn advance(self, min_code_size: nat, code: int, root: u8) -> DecoderState {
        match self.previous {
            None => DecoderState { previous: Some(code), first: (code % 256) as u8, ..self },
            Some(before) => if self.available < MAX_CODES {
                DecoderState {
                    prefix: self.prefix.update(self.available, before as u16),
                    suffix: self.suffix.update(self.available, root),
                    available: self.available + 1,
                    width: Self::widened(self.width, self.available + 1),
                    previous: Some(code),
                    first: root,
                }
            } else {
                DecoderState { previous: Some(code), first: root, ..self }
            },
        }
    }

    /// What holds of every state that decoding reaches: the arrays have
    /// `MAX_CODES` entries, prefixes and the previous code are codes, codes
    /// are at most twelve bits wide, and `available` has not moved since the
    /// last clear for as long as there is no previous code.
    pub open spec fn inv(self, min_code_size: nat) -> bool {
        &&& min_code_size <= MAX_MIN_CODE_SIZE
        &&& self.prefix.len() == MAX_CODES
        &&& self.suffix.len() == MAX_CODES
        &&& forall|c: int| 0 <= c < MAX_CODES ==> #[trigger] self.prefix[c] < MAX_CODES
        &&& first_free_code(min_code_size) <= self.available <= MAX_CODES
        &&& 1 <= self.width <= 12
        &&& match self.previous {
            None => self.available == first_free_code(min_code_size),
            Some(before) => 0 <= before < MAX_CODES,
        }
    }
}

/// Powers of two up to `2^12`, spelled out for an exponent that is only
/// known to be small.
pub proof fn lemma_code_width_pow2(n: nat)
    requires
        n <= 12,
    ensures
        1 <= pow2(n) <= 4096,
        n <= 8 ==> pow2(n) <= 256,
        n <= 11 <==> pow2(n) < 4096,
{
    lemma2_to64();
    assert(n == 0 || n == 1 || n == 2 || n == 3 || n == 4 || n == 5 || n == 6 || n == 7 || n == 8
        || n == 9 || n == 10 || n == 11 || n == 12);
}

/// The codes never grow wider than twelve bits.
pub proof fn lemma_widened_bounds(width: nat, next_available: int)
    requires
        1 <= width <= 12,
        0 < next_available,
    ensures
        width <= DecoderState::widened(width, next_available) <= 12,
{
    lemma_code_width_pow2(width);
    if next_available % (pow2(width) as int) == 0 && next_available < MAX_CODES {
        assert(next_available >= pow2(width)) by (nonlinear_arith)
            requires
                next_available > 0,
                pow2(width) > 0,
                next_available % (pow2(width) as int) == 0,
        ;
    }
}

/// Decoding starts in a sound state.
pub proof fn lemma_initial_inv(min_code_size: nat)
    requires
        min_code_size <= MAX_MIN_CODE_SIZE,
    ensures
        DecoderState::initial(min_code_size).inv(min_code_size),
{
    lemma_code_width_pow2(min_code_size);
}

/// A clear code leaves the state sound.
pub proof fn lemma_cleared_inv(min_code_size: nat, state: DecoderState)
    requires
        state.inv(min_code_size),
    ensures
        state.cleared(min_code_size).inv(min_code_size),
{
    lemma_code_width_pow2(min_code_size);
}

/// An accepted code leaves the state sound.
pub proof fn lemma_advance_inv(min_code_size: nat, state: DecoderState, code: int, root: u8)
    requires
        state.inv(min_code_size),
        state.accepts(min_code_size, code),
        code < MAX_CODES,
    ensures
        state.advance(min_code_size, code, root).inv(min_code_size),
{
    let after = state.advance(min_code_size, code, root);
    lemma_code_width_pow2(min_code_size);
    if state.previous.is_some() && state.available < MAX_CODES {
        lemma_widened_bounds(state.width, state.available + 1);
        assert forall|c: int| 0 <= c < MAX_CODES implies #[trigger] after.prefix[c] < MAX_CODES by {
            if c != state.available {
                assert(after.prefix[c] == state.prefix[c]);
            }
        }
    }
}

/// The width never shrinks and the next free code never moves down when a
/// code is taken, and a full table is left as it is.
pub proof fn lemma_advance_grows(min_code_size: nat, state: DecoderState, code: int, root: u8)
    requires
        state.inv(min_code_size),
    ensures
        state.width <= state.advance(min_code_size, code, root).width,
        state.available <= state.advance(min_code_size, code, root).available <= MAX_CODES,
        state.available == MAX_CODES ==> {
            &&& state.advance(min_code_size, code, root).prefix == state.prefix
            &&& state.advance(min_code_size, code, root).suffix == state.suffix
            &&& state.advance(min_code_size, code, root).width == state.width
        },
{
    if state.previous.is_some() && state.available < MAX_CODES {
        lemma_widened_bounds(state.width, state.available + 1);
    }
}

/// Everything that the codes of `data` from bit `pos` on decode to, starting
/// in `state`. Decoding ends at the first code that the state does not
/// accept or cannot spell, or when fewer bits are left than a code takes.
pub open spec fn decode_codes(
    min_code_size: nat,
    data: Seq<u8>,
    pos: int,
    state: DecoderState,
) -> Seq<u8>
    decreases 8 * data.len() - pos,
{
    if state.width == 0 || pos < 0 || pos + state.width > 8 * data.len() {
        Seq::empty()
    } else {
        let code = bits_value(data, pos, state.width);
        let next = pos + state.width;
        if code == clear_code(min_code_size) {
            decode_codes(min_code_size, data, next, state.cleared(min_code_size))
        } else if !state.accepts(min_code_size, code) {
            Seq::empty()
        } else {
            match state.expansion(min_code_size, code) {
                None => Seq::empty(),
                Some(string) => string + decode_codes(
                    min_code_size,
                    data,
                    next,
                    state.advance(min_code_size, code, string[0]),
                ),
            }
        }
    }
}

/// A clear code puts the width and the next free code back to where they
/// were at the start and forgets the previous code; no code above the first
/// free one is accepted after it, whatever was accepted before.
pub proof fn lemma_clear_forgets(min_code_size: nat, state: DecoderState, code: int)
    requires
        first_free_code(min_code_size) < code,
    ensures
        state.cleared(min_code_size).width == min_code_size + 1,
        state.cleared(min_code_size).available == first_free_code(min_code_size),
        state.cleared(min_code_size).previous.is_none(),
        !state.cleared(min_code_size).accepts(min_code_size, code),
{
}

/// Where a clear code is followed by a code above the first free one,
/// decoding ends there: from the clear code on nothing is decoded.
pub proof fn lemma_forgotten_code_ends_decoding(
    min_code_size: nat,
    data: Seq<u8>,
    pos: int,
    state: DecoderState,
)
    requires
        0 <= pos,
        1 <= state.width,
        pos + state.width + min_code_size + 1 <= 8 * data.len(),
        bits_value(data, pos, state.width) == clear_code(min_code_size),
        bits_value(data, pos + state.width, min_code_size + 1) > first_free_code(min_code_size),
    ensures
        decode_codes(min_code_size, data, pos, state) == Seq::<u8>::empty(),
{
    let after = state.cleared(min_code_size);
    let next = pos + state.width;
    lemma_clear_forgets(min_code_size, state, bits_value(data, next, min_code_size + 1));
    assert(decode_codes(min_code_size, data, next, after) == Seq::<u8>::empty());
}

/// The colour-table indices that a frame's compressed data decodes to: its
/// first byte is the minimum code size, the sub-blocks after it hold the
/// codes. Data that is empty, or announces a minimum code size above
/// `MAX_MIN_CODE_SIZE`, decodes to nothing.
pub open spec fn decoded_indices(stream: Seq<u8>) -> Seq<u8> {
    if stream.len() == 0 || stream[0] > MAX_MIN_CODE_SIZE {
        Seq::empty()
    } else {
        decode_codes(
            stream[0] as nat,
            payload(stream),
            0,
            DecoderState::initial(stream[0] as nat),
        )
    }
}

} // verus!
