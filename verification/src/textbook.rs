//! The textbook reading of the code table, and how far the decoder follows
//! it.
//!
//! In the textbook a dictionary is a list of byte strings. A code below the
//! clear code is a single byte; a later code is a string learnt since the
//! last clear code; the next free code is the previous string followed by
//! its own first byte, and cannot be read where there is no previous string.
//! Every code read after the first one teaches the dictionary the previous
//! string followed by the first byte of its own.
//!
//! The decoder agrees with the textbook for as long as the textbook goes on:
//! what the textbook decodes is the beginning of what the decoder decodes.
//! The decoder alone goes on where the next free code is read with no
//! previous string, taking what its arrays hold at that code.

use crate::bitstream::bits_value;
use crate::bitstream::lemma_bits_value_bounds;
use crate::blocks::payload;
use crate::model::clear_code;
use crate::model::decode_codes;
use crate::model::decoded_indices;
use crate::model::first_free_code;
use crate::model::lemma_code_width_pow2;
use crate::model::lemma_widened_bounds;
use crate::model::DecoderState;
use crate::model::MAX_CODES;
use crate::model::MAX_MIN_CODE_SIZE;
use crate::model::STACK_SIZE;
use vstd::prelude::*;

verus! {

/// The string of a code that has one of its own: a single byte for a code
/// below the clear code, else one of the `learnt` strings.
pub open spec fn known_string(min_code_size: nat, learnt: Seq<Seq<u8>>, code: int) -> Seq<u8> {
    if code < clear_code(min_code_size) {
        seq![code as u8]
    } else {
        learnt[code - first_free_code(min_code_size)]
    }
}

/// The textbook decoder between two codes.
pub struct Dictionary {
    /// The strings learnt since the last clear code: `learnt[i]` is what code
    /// `first_free_code + i` stands for.
    pub learnt: Seq<Seq<u8>>,
    /// The width in bits of the next code.
    pub width: nat,
    /// What the previous code stood for; `None` at the start and right after
    /// a clear code.
    pub previous: Option<Seq<u8>>,
}

impl Dictionary {
    /// The dictionary at the start of the data and after every clear code.
    pub open spec fn initial(min_code_size: nat) -> Dictionary {
        Dictionary { learnt: Seq::empty(), width: min_code_size + 1, previous: None }
    }

    /// The next code to be given a string.
    pub open spec fn available(self, min_code_size: nat) -> int {
        first_free_code(min_code_size) + self.learnt.len()
    }

    /// Whether `code` has a string of its own: a single byte or learnt.
    pub open spec fn knows(self, min_code_size: nat, code: int) -> bool {
        ||| 0 <= code < clear_code(min_code_size)
        ||| first_free_code(min_code_size) <= code < self.available(min_code_size)
    }

    /// Whether `code` stands for a string: it has one of its own, or it is
    /// the next free code and there is a previous string to build it from.
    pub open spec fn accepts(self, min_code_size: nat, code: int) -> bool {
        ||| self.knows(min_code_size, code)
        ||| code == self.available(min_code_size) && self.previous.is_some()
    }

    /// The string that an accepted code stands for.
    pub open spec fn expansion(self, min_code_size: nat, code: int) -> Seq<u8> {
        if code < self.available(min_code_size) {
            known_string(min_code_size, self.learnt, code)
        } else {
            self.previous.unwrap().push(self.previous.unwrap()[0])
        }
    }

    /// The dictionary after an accepted code. Unless this was the first code
    /// since a clear, or the dictionary is full, one string is learnt: the
    /// previous string followed by the first byte of this code's string.
    pub open spec fn advance(self, min_code_size: nat, code: int) -> Dictionary {
        let string = self.expansion(min_code_size, code);
        if self.previous.is_some() && self.available(min_code_size) < MAX_CODES {
            Dictionary {
                learnt: self.learnt.push(self.previous.unwrap().push(string[0])),
                width: DecoderState::widened(self.width, self.available(min_code_size) + 1),
                previous: Some(string),
            }
        } else {
            Dictionary { learnt: self.learnt, width: self.width, previous: Some(string) }
        }
    }

    /// What holds of every dictionary that decoding reaches: codes are at
    /// most twelve bits wide, there are at most `MAX_CODES` codes, the `i`-th
    /// learnt string has between 2 and `i + 2` bytes, and the previous string
    /// is not empty and no longer than a string learnt next may be.
    pub open spec fn inv(self, min_code_size: nat) -> bool {
        &&& min_code_size <= MAX_MIN_CODE_SIZE
        &&& 1 <= self.width <= 12
        &&& self.available(min_code_size) <= MAX_CODES
        &&& forall|i: int|
            0 <= i < self.learnt.len() ==> 2 <= (#[trigger] self.learnt[i]).len() <= i + 2
        &&& match self.previous {
            None => self.learnt.len() == 0,
            Some(string) => 1 <= string.len() <= self.learnt.len() + 1,
        }
    }
}

/// Everything that the codes of `data` from bit `pos` on decode to by the
/// textbook, starting with `dictionary`.
pub open spec fn textbook_codes(
    min_code_size: nat,
    data: Seq<u8>,
    pos: int,
    dictionary: Dictionary,
) -> Seq<u8>
    decreases 8 * data.len() - pos,
{
    if dictionary.width == 0 || pos < 0 || pos + dictionary.width > 8 * data.len() {
        Seq::empty()
    } else {
        let code = bits_value(data, pos, dictionary.width);
        let next = pos + dictionary.width;
        if code == clear_code(min_code_size) {
            textbook_codes(min_code_size, data, next, Dictionary::initial(min_code_size))
        } else if !dictionary.accepts(min_code_size, code) {
            Seq::empty()
        } else {
            dictionary.expansion(min_code_size, code) + textbook_codes(
                min_code_size,
                data,
                next,
                dictionary.advance(min_code_size, code),
            )
        }
    }
}

/// The indices that a frame's compressed data decodes to by the textbook.
pub open spec fn textbook_indices(stream: Seq<u8>) -> Seq<u8> {
    if stream.len() == 0 || stream[0] > MAX_MIN_CODE_SIZE {
        Seq::empty()
    } else {
        textbook_codes(
            stream[0] as nat,
            payload(stream),
            0,
            Dictionary::initial(stream[0] as nat),
        )
    }
}

/// By the textbook a clear code forgets every learnt code: right after it
/// only single bytes are accepted.
pub proof fn lemma_textbook_clear_forgets(min_code_size: nat, code: int)
    ensures
        Dictionary::initial(min_code_size).accepts(min_code_size, code) <==> 0 <= code
            < clear_code(min_code_size),
        Dictionary::initial(min_code_size).width == min_code_size + 1,
{
}

/// A known code's string is neither empty nor longer than the code is
/// large.
pub proof fn lemma_known_string_len(min_code_size: nat, dictionary: Dictionary, code: int)
    requires
        dictionary.inv(min_code_size),
        dictionary.knows(min_code_size, code),
    ensures
        1 <= known_string(min_code_size, dictionary.learnt, code).len() <= dictionary.learnt.len()
            + 1,
        known_string(min_code_size, dictionary.learnt, code).len() <= code + 1,
{
    lemma_code_width_pow2(min_code_size);
}

/// Taking an accepted code keeps the dictionary sound, keeps every known
/// string as it was, and makes the code taken a known one whose string is
/// the new previous string.
pub proof fn lemma_advance(min_code_size: nat, dictionary: Dictionary, code: int)
    requires
        dictionary.inv(min_code_size),
        dictionary.accepts(min_code_size, code),
        code < MAX_CODES,
    ensures
        dictionary.advance(min_code_size, code).inv(min_code_size),
        dictionary.expansion(min_code_size, code).len() >= 1,
        dictionary.advance(min_code_size, code).knows(min_code_size, code),
        dictionary.advance(min_code_size, code).previous == Some(
            known_string(min_code_size, dictionary.advance(min_code_size, code).learnt, code),
        ),
        dictionary.advance(min_code_size, code).previous == Some(
            dictionary.expansion(min_code_size, code),
        ),
{
    let m = min_code_size;
    let after = dictionary.advance(m, code);
    let string = dictionary.expansion(m, code);
    lemma_code_width_pow2(m);
    if dictionary.knows(m, code) {
        lemma_known_string_len(m, dictionary, code);
    }
    if dictionary.previous.is_some() && dictionary.available(m) < MAX_CODES {
        lemma_widened_bounds(dictionary.width, dictionary.available(m) + 1);
        let fresh = dictionary.previous.unwrap().push(string[0]);
        assert(after.learnt[dictionary.learnt.len() as int] == fresh);
        assert forall|i: int| 0 <= i < after.learnt.len() implies 2 <= (
        #[trigger] after.learnt[i]).len() <= i + 2 by {
            if i < dictionary.learnt.len() {
                assert(after.learnt[i] == dictionary.learnt[i]);
            }
        }
        if code == dictionary.available(m) {
            assert(fresh =~= string);
        }
    }
}

/// The arrays spell the `i`-th learnt string: its code has an earlier code
/// with a string of its own as prefix, and its string is that code's string
/// followed by the suffix.
pub open spec fn spells_entry(
    prefix: Seq<u16>,
    suffix: Seq<u8>,
    min_code_size: nat,
    learnt: Seq<Seq<u8>>,
    i: int,
) -> bool {
    let c = first_free_code(min_code_size) + i;
    let p = prefix[c] as int;
    &&& p < c
    &&& (p < clear_code(min_code_size) || first_free_code(min_code_size) <= p)
    &&& learnt[i] == known_string(min_code_size, learnt, p).push(suffix[c])
}

/// The arrays spell the dictionary: a code below the clear code has itself
/// as suffix, and every learnt string is spelled.
pub open spec fn spells(
    prefix: Seq<u16>,
    suffix: Seq<u8>,
    min_code_size: nat,
    learnt: Seq<Seq<u8>>,
) -> bool {
    &&& forall|c: int| 0 <= c < clear_code(min_code_size) ==> #[trigger] suffix[c] == c
    &&& forall|i: int|
        0 <= i < learnt.len() ==> #[trigger] spells_entry(prefix, suffix, min_code_size, learnt, i)
}

/// The decoder's state holds the dictionary: both are sound, the arrays
/// spell the learnt strings, the scalars are the same, and the previous
/// code's string is the previous string.
pub open spec fn agrees(state: DecoderState, dictionary: Dictionary, min_code_size: nat) -> bool {
    &&& state.inv(min_code_size)
    &&& dictionary.inv(min_code_size)
    &&& state.available == dictionary.available(min_code_size)
    &&& state.width == dictionary.width
    &&& spells(state.prefix, state.suffix, min_code_size, dictionary.learnt)
    &&& match state.previous {
        None => dictionary.previous.is_none(),
        Some(before) => {
            &&& dictionary.knows(min_code_size, before)
            &&& dictionary.previous == Some(
                known_string(min_code_size, dictionary.learnt, before),
            )
            &&& state.first == known_string(min_code_size, dictionary.learnt, before)[0]
        },
    }
}

/// Writing the next free code's prefix and suffix spells one string more.
pub proof fn lemma_spells_one_more(
    prefix: Seq<u16>,
    suffix: Seq<u8>,
    min_code_size: nat,
    learnt: Seq<Seq<u8>>,
    p: u16,
    byte: u8,
)
    requires
        spells(prefix, suffix, min_code_size, learnt),
        min_code_size <= MAX_MIN_CODE_SIZE,
        prefix.len() == MAX_CODES,
        suffix.len() == MAX_CODES,
        first_free_code(min_code_size) + learnt.len() < MAX_CODES,
        p < clear_code(min_code_size) || first_free_code(min_code_size) <= p < first_free_code(
            min_code_size,
        ) + learnt.len(),
    ensures
        spells(
            prefix.update(first_free_code(min_code_size) + learnt.len(), p),
            suffix.update(first_free_code(min_code_size) + learnt.len(), byte),
            min_code_size,
            learnt.push(known_string(min_code_size, learnt, p as int).push(byte)),
        ),
{
    let m = min_code_size;
    let at = first_free_code(m) + learnt.len();
    let prefix2 = prefix.update(at, p);
    let suffix2 = suffix.update(at, byte);
    let learnt2 = learnt.push(known_string(m, learnt, p as int).push(byte));
    lemma_code_width_pow2(m);
    assert forall|c: int| 0 <= c < clear_code(m) implies #[trigger] suffix2[c] == c by {
        assert(suffix2[c] == suffix[c]);
    }
    assert forall|i: int| 0 <= i < learnt2.len() implies #[trigger] spells_entry(
        prefix2,
        suffix2,
        m,
        learnt2,
        i,
    ) by {
        let c = first_free_code(m) + i;
        if i < learnt.len() {
            assert(spells_entry(prefix, suffix, m, learnt, i));
            let q = prefix[c] as int;
            if q >= clear_code(m) {
                assert(learnt2[q - first_free_code(m)] == learnt[q - first_free_code(m)]);
            }
        } else {
            if p >= clear_code(m) {
                assert(learnt2[p - first_free_code(m)] == learnt[p - first_free_code(m)]);
            }
        }
    }
}

/// Walking down the prefixes from a known code spells its string, given
/// room for all its bytes but the first.
pub proof fn lemma_walk_spells(
    state: DecoderState,
    dictionary: Dictionary,
    min_code_size: nat,
    code: int,
    budget: nat,
)
    requires
        agrees(state, dictionary, min_code_size),
        dictionary.knows(min_code_size, code),
        known_string(min_code_size, dictionary.learnt, code).len() <= budget + 1,
    ensures
        state.walk(min_code_size, code, budget) == Some(
            known_string(min_code_size, dictionary.learnt, code),
        ),
    decreases code,
{
    let m = min_code_size;
    lemma_code_width_pow2(m);
    if code < clear_code(m) {
        assert(state.suffix[code] == code);
        assert(seq![state.suffix[code]] =~= seq![code as u8]);
    } else {
        let i = code - first_free_code(m);
        let p = state.prefix[code] as int;
        assert(spells_entry(state.prefix, state.suffix, m, dictionary.learnt, i));
        assert(dictionary.learnt[i].len() >= 2);
        lemma_walk_spells(state, dictionary, m, p, (budget - 1) as nat);
        let below = known_string(m, dictionary.learnt, p);
        assert(below + seq![state.suffix[code]] =~= below.push(state.suffix[code]));
    }
}

/// A state and a dictionary that agree take an accepted code alike: the
/// state accepts it and spells the dictionary's string, and they agree
/// afterwards.
pub proof fn lemma_step_agrees(
    state: DecoderState,
    dictionary: Dictionary,
    min_code_size: nat,
    code: int,
)
    requires
        agrees(state, dictionary, min_code_size),
        dictionary.accepts(min_code_size, code),
        code < MAX_CODES,
    ensures
        state.accepts(min_code_size, code),
        state.expansion(min_code_size, code) == Some(dictionary.expansion(min_code_size, code)),
        agrees(
            state.advance(min_code_size, code, dictionary.expansion(min_code_size, code)[0]),
            dictionary.advance(min_code_size, code),
            min_code_size,
        ),
{
    let m = min_code_size;
    let string = dictionary.expansion(m, code);
    let after = dictionary.advance(m, code);
    lemma_code_width_pow2(m);
    lemma_advance(m, dictionary, code);
    crate::model::lemma_advance_inv(m, state, code, string[0]);
    match state.previous {
        None => {
            assert(state.suffix[code] == code);
            assert(seq![state.suffix[code]] =~= string);
            assert(code % 256 == code);
        },
        Some(before) => {
            lemma_known_string_len(m, dictionary, before);
            let earlier = known_string(m, dictionary.learnt, before);
            if code >= state.available {
                lemma_walk_spells(state, dictionary, m, before, (STACK_SIZE - 1) as nat);
                assert(earlier + seq![state.first] =~= string);
            } else {
                lemma_known_string_len(m, dictionary, code);
                lemma_walk_spells(state, dictionary, m, code, STACK_SIZE as nat);
            }
            if state.available < MAX_CODES {
                lemma_spells_one_more(
                    state.prefix,
                    state.suffix,
                    m,
                    dictionary.learnt,
                    before as u16,
                    string[0],
                );
            }
        },
    }
}

/// A clear code takes a state and a dictionary that agree to a state and a
/// dictionary that agree.
pub proof fn lemma_clear_agrees(state: DecoderState, dictionary: Dictionary, min_code_size: nat)
    requires
        agrees(state, dictionary, min_code_size),
    ensures
        agrees(state.cleared(min_code_size), Dictionary::initial(min_code_size), min_code_size),
{
    lemma_code_width_pow2(min_code_size);
    crate::model::lemma_cleared_inv(min_code_size, state);
}

/// At the start the state and the dictionary agree.
pub proof fn lemma_initial_agrees(min_code_size: nat)
    requires
        min_code_size <= MAX_MIN_CODE_SIZE,
    ensures
        agrees(
            DecoderState::initial(min_code_size),
            Dictionary::initial(min_code_size),
            min_code_size,
        ),
{
    lemma_code_width_pow2(min_code_size);
    crate::model::lemma_initial_inv(min_code_size);
}

/// From a state and a dictionary that agree, what the textbook decodes is
/// the beginning of what the decoder decodes.
pub proof fn lemma_textbook_codes_begin_decoded(
    min_code_size: nat,
    data: Seq<u8>,
    pos: int,
    state: DecoderState,
    dictionary: Dictionary,
)
    requires
        agrees(state, dictionary, min_code_size),
    ensures
        textbook_codes(min_code_size, data, pos, dictionary).is_prefix_of(
            decode_codes(min_code_size, data, pos, state),
        ),
    decreases 8 * data.len() - pos,
{
    let m = min_code_size;
    if state.width == 0 || pos < 0 || pos + state.width > 8 * data.len() {
    } else {
        let code = bits_value(data, pos, state.width);
        let next = pos + state.width;
        lemma_bits_value_bounds(data, pos, state.width);
        lemma_code_width_pow2(state.width);
        if code == clear_code(m) {
            lemma_clear_agrees(state, dictionary, m);
            lemma_textbook_codes_begin_decoded(
                m,
                data,
                next,
                state.cleared(m),
                Dictionary::initial(m),
            );
        } else if dictionary.accepts(m, code) {
            let string = dictionary.expansion(m, code);
            lemma_step_agrees(state, dictionary, m, code);
            lemma_textbook_codes_begin_decoded(
                m,
                data,
                next,
                state.advance(m, code, string[0]),
                dictionary.advance(m, code),
            );
            let short = textbook_codes(m, data, next, dictionary.advance(m, code));
            let long = decode_codes(m, data, next, state.advance(m, code, string[0]));
            assert((string + short).is_prefix_of(string + long)) by {
                assert((string + long).subrange(0, (string + short).len() as int) =~= string
                    + short);
            }
        }
    }
}

/// What the textbook decodes is the beginning of what the decoder decodes.
pub proof fn lemma_textbook_begins_decoded(stream: Seq<u8>)
    ensures
        textbook_indices(stream).is_prefix_of(decoded_indices(stream)),
{
    if stream.len() == 0 || stream[0] > MAX_MIN_CODE_SIZE {
    } else {
        lemma_initial_agrees(stream[0] as nat);
        lemma_textbook_codes_begin_decoded(
            stream[0] as nat,
            payload(stream),
            0,
            DecoderState::initial(stream[0] as nat),
            Dictionary::initial(stream[0] as nat),
        );
    }
}

} // verus!
