//! The code table in memory, with the rest of what the decoder remembers
//! between two codes.

use crate::codes::MAX_CODE_WIDTH;
use crate::model::clear_code;
use crate::model::followed_by;
use crate::model::lemma_advance_inv;
use crate::model::lemma_cleared_inv;
use crate::model::lemma_code_width_pow2;
use crate::model::lemma_initial_inv;
use crate::model::DecoderState;
use crate::model::MAX_CODES;
use crate::model::MAX_MIN_CODE_SIZE;
use crate::model::STACK_SIZE;
use vstd::bits::lemma_u32_low_bits_mask_is_mod;
use vstd::bits::lemma_u32_shl_is_mul;
use vstd::bits::low_bits_mask;
use vstd::prelude::*;

verus! {

/// The bytes of `stack[0 .. top]`, the topmost first.
pub open spec fn unstacked(stack: Seq<u8>, top: int) -> Seq<u8> {
    Seq::new(top as nat, |j: int| stack[top - 1 - j])
}

/// The prefix and suffix arrays and the scalars of the decoder.
pub struct CodeTable {
    prefix: [u16; MAX_CODES],
    suffix: [u8; MAX_CODES],
    min_code_size: u8,
    clear: u32,
    available: u32,
    width: u32,
    previous: Option<u32>,
    first: u8,
}

impl View for CodeTable {
    type V = DecoderState;

    closed spec fn view(&self) -> DecoderState {
        DecoderState {
            prefix: self.prefix@,
            suffix: self.suffix@,
            available: self.available as int,
            width: self.width as nat,
            previous: match self.previous {
                Some(code) => Some(code as int),
                None => None,
            },
            first: self.first,
        }
    }
}

impl CodeTable {
    /// The minimum code size that the table was made for.
    pub closed spec fn min_code_size(&self) -> nat {
        self.min_code_size as nat
    }

    /// The state is sound and the clear code is the one of the minimum code
    /// size.
    pub closed spec fn wf(&self) -> bool {
        &&& self@.inv(self.min_code_size())
        &&& self.clear == clear_code(self.min_code_size())
    }

    /// A table that is well formed holds a sound state.
    pub proof fn lemma_wf_inv(&self)
        requires
            self.wf(),
        ensures
            self@.inv(self.min_code_size()),
    {
    }

    /// A table in the initial state for the given minimum code size.
    pub fn new(min_code_size: u8) -> (table: Self)
        requires
            min_code_size <= MAX_MIN_CODE_SIZE,
        ensures
            table.wf(),
            table.min_code_size() == min_code_size,
            table@ == DecoderState::initial(min_code_size as nat),
    {
        proof {
            lemma_code_width_pow2(min_code_size as nat);
            lemma_initial_inv(min_code_size as nat);
            lemma_u32_shl_is_mul(1u32, min_code_size as u32);
        }
        let clear: u32 = 1u32 << (min_code_size as u32);
        let prefix: [u16; MAX_CODES] = [0u16; MAX_CODES];
        let mut suffix: [u8; MAX_CODES] = [0u8; MAX_CODES];
        let mut code: u32 = 0;
        while code < clear
            invariant
                code <= clear <= 256,
                forall|c: int| 0 <= c < code ==> #[trigger] suffix@[c] == c,
                forall|c: int| code <= c < MAX_CODES ==> #[trigger] suffix@[c] == 0,
            decreases clear - code,
        {
            suffix[code as usize] = code as u8;
            code = code + 1;
        }
        let table = CodeTable {
            prefix,
            suffix,
            min_code_size,
            clear,
            available: clear + 2,
            width: min_code_size as u32 + 1,
            previous: None,
            first: 0,
        };
        proof {
            let start = DecoderState::initial(min_code_size as nat);
            assert(table@.prefix =~= start.prefix);
            assert(table@.suffix =~= start.suffix);
        }
        table
    }

    /// The width in bits of the next code.
    pub fn width(&self) -> (width: u32)
        requires
            self.wf(),
        ensures
            width == self@.width,
            1 <= width <= MAX_CODE_WIDTH,
    {
        self.width
    }

    /// The clear code.
    pub fn clear(&self) -> (code: u32)
        requires
            self.wf(),
        ensures
            code == clear_code(self.min_code_size()),
            code <= 256,
    {
        proof {
            lemma_code_width_pow2(self.min_code_size());
        }
        self.clear
    }

    /// The next code to be given a prefix and a suffix.
    pub fn available(&self) -> (code: u32)
        requires
            self.wf(),
        ensures
            code == self@.available,
            code <= MAX_CODES,
    {
        self.available
    }

    /// Takes a clear code: forgets the previous code and starts over with
    /// the next free code and the width.
    pub fn reset(&mut self)
        requires
            old(self).wf(),
        ensures
            final(self).wf(),
            final(self).min_code_size() == old(self).min_code_size(),
            final(self)@ == old(self)@.cleared(old(self).min_code_size()),
    {
        proof {
            lemma_code_width_pow2(self.min_code_size as nat);
            lemma_cleared_inv(self.min_code_size as nat, self@);
        }
        self.available = self.clear + 2;
        self.width = self.min_code_size as u32 + 1;
        self.previous = None;
    }

    /// Spells the string of an accepted code. Its first byte is returned
    /// with a count `n`; the other `n` bytes lie in `stack[0 .. n]`, the last
    /// of the string at the bottom. Returns `None` when the stack is too
    /// small for the string.
    pub fn expand(&self, code: u32, stack: &mut [u8; STACK_SIZE]) -> (out: Option<(u8, usize)>)
        requires
            self.wf(),
            self@.accepts(self.min_code_size(), code as int),
            code < MAX_CODES,
        ensures
            match out {
                Some((root, n)) => {
                    &&& n <= STACK_SIZE
                    &&& self@.expansion(self.min_code_size(), code as int) == Some(
                        seq![root] + unstacked(final(stack)@, n as int),
                    )
                },
                None => self@.expansion(self.min_code_size(), code as int).is_none(),
            },
    {
        let ghost m = self.min_code_size();
        let ghost string = self@.expansion(m, code as int);
        proof {
            lemma_code_width_pow2(m);
        }
        let mut top: usize = 0;
        let mut cur: u32 = code;
        match self.previous {
            None => {
                assert(unstacked(stack@, 0) =~= Seq::<u8>::empty());
                assert(seq![self.suffix@[code as int]] + Seq::<u8>::empty() =~= seq![
                    self.suffix@[code as int],
                ]);
                return Some((self.suffix[code as usize], 0));
            },
            Some(before) => {
                if code >= self.available {
                    stack[0] = self.first;
                    top = 1;
                    cur = before;
                    assert(unstacked(stack@, 1) =~= seq![self.first]);
                } else {
                    assert(unstacked(stack@, 0) =~= Seq::<u8>::empty());
                    assert(self@.walk(m, cur as int, STACK_SIZE as nat) matches Some(s) ==> s
                        + Seq::<u8>::empty() =~= s);
                }
            },
        }
        while cur >= self.clear
            invariant
                self.wf(),
                m == self.min_code_size(),
                cur < MAX_CODES,
                top <= STACK_SIZE,
                string == self@.expansion(m, code as int),
                string == followed_by(
                    self@.walk(m, cur as int, (STACK_SIZE - top) as nat),
                    unstacked(stack@, top as int),
                ),
            decreases STACK_SIZE - top,
        {
            if top == STACK_SIZE {
                assert(self@.walk(m, cur as int, 0).is_none());
                return None;
            }
            let ghost below = unstacked(stack@, top as int);
            let ghost rest = self@.walk(
                m,
                self.prefix@[cur as int] as int,
                (STACK_SIZE - top - 1) as nat,
            );
            stack[top] = self.suffix[cur as usize];
            top = top + 1;
            proof {
                assert(unstacked(stack@, top as int) =~= seq![self.suffix@[cur as int]] + below);
                assert(rest matches Some(s) ==> (s + seq![self.suffix@[cur as int]]) + below =~= s
                    + unstacked(stack@, top as int));
            }
            cur = self.prefix[cur as usize] as u32;
        }
        Some((self.suffix[cur as usize], top))
    }

    /// Moves on after an accepted code whose string starts with `root`:
    /// gives the next free code its prefix and suffix if there is a previous
    /// code and room in the table, widens the codes when the table has grown
    /// up to a multiple of their range, and remembers the code.
    pub fn learn(&mut self, code: u32, root: u8)
        requires
            old(self).wf(),
            old(self)@.accepts(old(self).min_code_size(), code as int),
            code < MAX_CODES,
        ensures
            final(self).wf(),
            final(self).min_code_size() == old(self).min_code_size(),
            final(self)@ == old(self)@.advance(old(self).min_code_size(), code as int, root),
    {
        let ghost m = self.min_code_size();
        let ghost before = self@;
        proof {
            lemma_code_width_pow2(m);
            lemma_advance_inv(m, before, code as int, root);
        }
        match self.previous {
            None => {
                self.first = (code % 256) as u8;
            },
            Some(previous) => {
                if self.available < MAX_CODES as u32 {
                    self.prefix[self.available as usize] = previous as u16;
                    self.suffix[self.available as usize] = root;
                    self.available = self.available + 1;
                    proof {
                        lemma_code_width_pow2(self.width as nat);
                        lemma_u32_shl_is_mul(1u32, self.width);
                        lemma_u32_low_bits_mask_is_mod(self.available, self.width as nat);
                    }
                    let mask: u32 = (1u32 << self.width) - 1;
                    assert(mask == low_bits_mask(self.width as nat) as u32);
                    if self.available & mask == 0 && self.available < MAX_CODES as u32 {
                        self.width = self.width + 1;
                    }
                }
                self.first = root;
            },
        }
        self.previous = Some(code);
    }
}

} // verus!
