//! The LZW decoder of a frame.

use crate::bitstream::lemma_bits_value_bounds;
use crate::blocks::payload;
use crate::codes::CodeReader;
use crate::model::decode_codes;
use crate::model::decoded_indices;
use crate::model::lemma_code_width_pow2;
use crate::model::MAX_MIN_CODE_SIZE;
use crate::model::STACK_SIZE;
use crate::table::unstacked;
use crate::table::CodeTable;
use vstd::prelude::*;

verus! {

/// How many of `available` indices a decoder that stops at `limit` writes.
pub open spec fn written_count(available: int, limit: int) -> int {
    if available <= limit {
        available
    } else {
        limit
    }
}

/// A buffer after its front was overwritten with the first `limit` of
/// `indices`, or with all of them if they are fewer. The buffer keeps its
/// length, and what lies behind the written part is as it was.
pub open spec fn overwritten(before: Seq<u8>, indices: Seq<u8>, limit: int) -> Seq<u8> {
    Seq::new(
        before.len(),
        |i: int|
            if i < written_count(indices.len() as int, limit) {
                indices[i]
            } else {
                before[i]
            },
    )
}

/// Decodes the compressed data of one frame into colour-table indices.
///
/// `image_data` is the minimum code size in one byte, then the sub-blocks
/// with the codes. The first `pixel_count` indices that it decodes to are
/// written to the front of `destination`, and nothing else is written. Data
/// that ends early, or holds a code that cannot be decoded, gives fewer
/// indices than asked for; `destination` is then as it was from the last
/// index on.
pub fn decode(image_data: &[u8], destination: &mut [u8], pixel_count: usize)
    requires
        pixel_count <= old(destination)@.len(),
    ensures
        final(destination)@ == overwritten(
            old(destination)@,
            decoded_indices(image_data@),
            pixel_count as int,
        ),
        final(destination)@.len() == old(destination)@.len(),
        forall|i: int|
            pixel_count <= i < old(destination)@.len() ==> final(destination)@[i] == old(
                destination,
            )@[i],
        decoded_indices(image_data@).len() >= pixel_count ==> forall|i: int|
            0 <= i < pixel_count ==> final(destination)@[i] == decoded_indices(image_data@)[i],
{
    if image_data.len() == 0 {
        assert(destination@ =~= overwritten(
            destination@,
            decoded_indices(image_data@),
            pixel_count as int,
        ));
        return ;
    }
    let min_code_size = image_data[0];
    if min_code_size > MAX_MIN_CODE_SIZE {
        assert(destination@ =~= overwritten(
            destination@,
            decoded_indices(image_data@),
            pixel_count as int,
        ));
        return ;
    }
    let ghost m = min_code_size as nat;
    let ghost data = payload(image_data@);
    let ghost all = decoded_indices(image_data@);
    let ghost mut produced: Seq<u8> = Seq::empty();

    let mut table = CodeTable::new(min_code_size);
    let mut reader = CodeReader::new(image_data);
    let mut stack: [u8; STACK_SIZE] = [0u8; STACK_SIZE];
    let mut pixel_index: usize = 0;

    assert(all =~= produced + decode_codes(m, data, 0, table@));
    while pixel_index < pixel_count
        invariant_except_break
            all == produced + decode_codes(m, data, reader.position(image_data@), table@),
            pixel_index == written_count(produced.len() as int, pixel_count as int),
            forall|j: int| 0 <= j < pixel_index ==> destination@[j] == produced[j],
        invariant
            table.wf(),
            table.min_code_size() == m,
            reader.wf(image_data@),
            data == payload(image_data@),
            pixel_count <= destination@.len(),
            destination@.len() == old(destination)@.len(),
            forall|j: int|
                pixel_index <= j < destination@.len() ==> destination@[j] == old(destination)@[j],
        ensures
            pixel_index == written_count(all.len() as int, pixel_count as int),
            destination@.len() == old(destination)@.len(),
            forall|j: int| 0 <= j < pixel_index ==> destination@[j] == all[j],
            forall|j: int|
                pixel_index <= j < destination@.len() ==> destination@[j] == old(destination)@[j],
        decreases 8 * data.len() - reader.position(image_data@),
    {
        let ghost pos = reader.position(image_data@);
        let ghost state = table@;
        proof {
            table.lemma_wf_inv();
        }
        let width = table.width();
        let code = match reader.next_code(image_data, width) {
            Some(code) => code,
            None => {
                assert(all =~= produced);
                break ;
            },
        };
        proof {
            lemma_bits_value_bounds(data, pos, width as nat);
            lemma_code_width_pow2(width as nat);
        }
        if code == table.clear() {
            table.reset();
            continue ;
        }
        if code > table.available() || code == table.clear() + 1 {
            assert(all =~= produced);
            break ;
        }
        let (root, count) = match table.expand(code, &mut stack) {
            Some(spelled) => spelled,
            None => {
                assert(all =~= produced);
                break ;
            },
        };
        let ghost string = seq![root] + unstacked(stack@, count as int);
        table.learn(code, root);
        proof {
            assert(string[0] == root);
            assert(all =~= (produced + string) + decode_codes(
                m,
                data,
                reader.position(image_data@),
                table@,
            ));
        }
        let ghost base = pixel_index as int;
        destination[pixel_index] = root;
        pixel_index = pixel_index + 1;
        let mut top = count;
        while top > 0 && pixel_index < pixel_count
            invariant
                top <= count <= STACK_SIZE,
                string == seq![root] + unstacked(stack@, count as int),
                base == produced.len(),
                pixel_index == base + 1 + count - top,
                pixel_index <= pixel_count <= destination@.len(),
                destination@.len() == old(destination)@.len(),
                forall|j: int| 0 <= j < pixel_index ==> destination@[j] == (produced + string)[j],
                forall|j: int|
                    pixel_index <= j < destination@.len() ==> destination@[j] == old(
                        destination,
                    )@[j],
            decreases top,
        {
            top = top - 1;
            destination[pixel_index] = stack[top];
            pixel_index = pixel_index + 1;
        }
        proof {
            produced = produced + string;
        }
    }
    assert(destination@ =~= overwritten(old(destination)@, all, pixel_count as int));
}

} // verus!
