use giflzwdecoder::decode;

#[test]
fn test() {
    let sample_data: [u8; 7] = [
        // Initial code size 2
        0b00000010, // Length  5
        0b00000101, // Data
        0b10000100, 0b01101110, 0b00100111, 0b11000001, 0b01011101,
    ];

    let mut destination: [u8; 15] = [0; 15];
    decode(&sample_data, &mut destination, 15)
}

/// Packs codes, each with its width in bits, least significant bit first.
fn pack_codes(codes: &[(u32, u32)]) -> Vec<u8> {
    let mut bytes: Vec<u8> = Vec::new();
    let mut pending: u64 = 0;
    let mut bits: u32 = 0;
    for &(code, width) in codes {
        pending |= (code as u64) << bits;
        bits += width;
        while bits >= 8 {
            bytes.push((pending & 0xff) as u8);
            pending >>= 8;
            bits -= 8;
        }
    }
    if bits > 0 {
        bytes.push((pending & 0xff) as u8);
    }
    bytes
}

/// Frames a payload: the minimum code size, sub-blocks of at most 255 bytes,
/// and the empty block that closes them.
fn frame_payload(min_code_size: u8, payload: &[u8]) -> Vec<u8> {
    let mut stream = vec![min_code_size];
    for block in payload.chunks(255) {
        stream.push(block.len() as u8);
        stream.extend_from_slice(block);
    }
    stream.push(0);
    stream
}

fn stream_of_codes(min_code_size: u8, codes: &[(u32, u32)]) -> Vec<u8> {
    frame_payload(min_code_size, &pack_codes(codes))
}

/// Decodes into a buffer filled with 0xEE and returns the whole buffer.
fn decode_into_sentinels(stream: &[u8], capacity: usize, pixel_count: usize) -> Vec<u8> {
    let mut destination = vec![0xEE_u8; capacity];
    decode(stream, &mut destination, pixel_count);
    destination
}

#[test]
fn sample_stream_decodes_to_its_fifteen_indices() {
    let sample_data: [u8; 7] = [0x02, 0x05, 0x84, 0x6E, 0x27, 0xC1, 0x5D];
    let mut destination: [u8; 15] = [9; 15];
    decode(&sample_data, &mut destination, 15);
    assert_eq!(destination, [0, 2, 2, 2, 0, 2, 2, 2, 2, 1, 1, 1, 1, 1, 1]);
}

#[test]
fn sample_stream_stops_at_the_pixel_count() {
    let sample_data: [u8; 7] = [0x02, 0x05, 0x84, 0x6E, 0x27, 0xC1, 0x5D];
    let out = decode_into_sentinels(&sample_data, 15, 7);
    assert_eq!(out, [0, 2, 2, 2, 0, 2, 2, 0xEE, 0xEE, 0xEE, 0xEE, 0xEE, 0xEE, 0xEE, 0xEE]);
}

#[test]
fn sample_stream_holds_no_more_than_fifteen_indices() {
    let sample_data: [u8; 7] = [0x02, 0x05, 0x84, 0x6E, 0x27, 0xC1, 0x5D];
    let out = decode_into_sentinels(&sample_data, 20, 20);
    assert_eq!(&out[..15], &[0, 2, 2, 2, 0, 2, 2, 2, 2, 1, 1, 1, 1, 1, 1]);
    assert_eq!(&out[15..], &[0xEE; 5]);
}

#[test]
fn pixel_count_zero_writes_nothing() {
    let sample_data: [u8; 7] = [0x02, 0x05, 0x84, 0x6E, 0x27, 0xC1, 0x5D];
    let out = decode_into_sentinels(&sample_data, 4, 0);
    assert_eq!(out, [0xEE; 4]);
    let mut empty: [u8; 0] = [];
    decode(&sample_data, &mut empty, 0);
}

#[test]
fn single_byte_codes_decode_to_themselves() {
    let stream = stream_of_codes(2, &[(4, 3), (3, 3), (5, 3)]);
    assert_eq!(decode_into_sentinels(&stream, 3, 3), [3, 0xEE, 0xEE]);
}

#[test]
fn learnt_code_spells_previous_string_and_next_byte() {
    // 1, 2 make code 6 stand for [1, 2]; 6 then spells it.
    let stream = stream_of_codes(2, &[(4, 3), (1, 3), (2, 3), (6, 3), (5, 4)]);
    assert_eq!(decode_into_sentinels(&stream, 6, 6), [1, 2, 1, 2, 0xEE, 0xEE]);
}

#[test]
fn next_free_code_is_previous_string_and_its_first_byte() {
    // 6 is the next free code when it is read: [1] followed by 1.
    let stream = stream_of_codes(2, &[(4, 3), (1, 3), (6, 3), (5, 3)]);
    assert_eq!(decode_into_sentinels(&stream, 5, 5), [1, 1, 1, 0xEE, 0xEE]);
    // 7 is then the next free code: [1, 1] followed by 1.
    let stream = stream_of_codes(2, &[(4, 3), (1, 3), (6, 3), (7, 3), (5, 4)]);
    assert_eq!(decode_into_sentinels(&stream, 8, 8), [1, 1, 1, 1, 1, 1, 0xEE, 0xEE]);
}

#[test]
fn end_code_stops_decoding() {
    let stream = stream_of_codes(2, &[(4, 3), (1, 3), (5, 3), (2, 3)]);
    assert_eq!(decode_into_sentinels(&stream, 4, 4), [1, 0xEE, 0xEE, 0xEE]);
}

#[test]
fn code_above_next_free_stops_decoding() {
    let stream = stream_of_codes(2, &[(4, 3), (1, 3), (7, 3), (2, 3)]);
    assert_eq!(decode_into_sentinels(&stream, 4, 4), [1, 0xEE, 0xEE, 0xEE]);
}

#[test]
fn codes_widen_when_table_reaches_power_of_two() {
    // Codes 6 and 7 are learnt by the third and fourth code; the table then
    // holds 8 codes and the fifth code is four bits wide.
    let stream = stream_of_codes(2, &[(4, 3), (1, 3), (2, 3), (3, 3), (7, 4), (5, 4)]);
    assert_eq!(decode_into_sentinels(&stream, 6, 6), [1, 2, 3, 2, 3, 0xEE]);
}

#[test]
fn clear_code_forgets_learnt_codes_and_resets_width() {
    // As above up to the fifth code, which is a clear code of four bits.
    // The code 7 that follows is three bits wide again and no longer known.
    let stream = stream_of_codes(2, &[(4, 3), (1, 3), (2, 3), (3, 3), (4, 4), (7, 3), (1, 3)]);
    assert_eq!(decode_into_sentinels(&stream, 6, 6), [1, 2, 3, 0xEE, 0xEE, 0xEE]);
    // A single-byte code after the clear is decoded, at the three-bit width.
    let stream = stream_of_codes(2, &[(4, 3), (1, 3), (2, 3), (3, 3), (4, 4), (2, 3), (5, 3)]);
    assert_eq!(decode_into_sentinels(&stream, 6, 6), [1, 2, 3, 2, 0xEE, 0xEE]);
}

#[test]
fn clear_code_keeps_the_output_position() {
    let stream = stream_of_codes(2, &[(4, 3), (1, 3), (4, 3), (4, 3), (2, 3), (5, 3)]);
    assert_eq!(decode_into_sentinels(&stream, 3, 3), [1, 2, 0xEE]);
}

#[test]
fn first_free_code_right_after_clear_yields_its_stored_suffix() {
    // 1, 2 give code 6 the suffix 2. After the clear, 6 is the next free
    // code and there is no previous code: its suffix is written as it stands.
    let stream = stream_of_codes(2, &[(4, 3), (1, 3), (2, 3), (4, 3), (6, 3), (5, 3)]);
    assert_eq!(decode_into_sentinels(&stream, 5, 5), [1, 2, 2, 0xEE, 0xEE]);
    // At the very start the table holds zeros.
    let stream = stream_of_codes(2, &[(4, 3), (6, 3), (5, 3)]);
    assert_eq!(decode_into_sentinels(&stream, 3, 3), [0, 0xEE, 0xEE]);
}

#[test]
fn code_that_cannot_be_spelled_stops_decoding() {
    // 6 is taken first and then becomes its own prefix: spelling it would
    // never end, so decoding ends where it is asked for.
    let stream = stream_of_codes(2, &[(4, 3), (6, 3), (0, 3), (6, 3), (1, 3)]);
    assert_eq!(decode_into_sentinels(&stream, 6, 6), [0, 0, 0xEE, 0xEE, 0xEE, 0xEE]);
}

#[test]
fn expansion_is_cut_at_the_pixel_count() {
    let stream = stream_of_codes(2, &[(4, 3), (1, 3), (2, 3), (6, 3), (5, 4)]);
    assert_eq!(decode_into_sentinels(&stream, 5, 3), [1, 2, 1, 0xEE, 0xEE]);
}

#[test]
fn empty_data_decodes_to_nothing() {
    assert_eq!(decode_into_sentinels(&[], 3, 3), [0xEE; 3]);
}

#[test]
fn data_without_blocks_decodes_to_nothing() {
    assert_eq!(decode_into_sentinels(&[2], 3, 3), [0xEE; 3]);
    assert_eq!(decode_into_sentinels(&[2, 0], 3, 3), [0xEE; 3]);
}

#[test]
fn minimum_code_size_above_eight_decodes_to_nothing() {
    assert_eq!(decode_into_sentinels(&[9, 2, 0x00, 0x00, 0], 3, 3), [0xEE; 3]);
    assert_eq!(decode_into_sentinels(&[255, 2, 0x00, 0x00, 0], 3, 3), [0xEE; 3]);
}

#[test]
fn minimum_code_size_eight_is_accepted() {
    // Clear is 256, nine bits wide; then the bytes 255 and 0, then end.
    let stream = stream_of_codes(8, &[(256, 9), (255, 9), (0, 9), (257, 9)]);
    assert_eq!(decode_into_sentinels(&stream, 3, 3), [255, 0, 0xEE]);
}

#[test]
fn minimum_code_size_zero_has_one_bit_codes() {
    // Clear is 1; the only byte is 0.
    let stream = stream_of_codes(0, &[(1, 1), (0, 1), (1, 1), (0, 1)]);
    let out = decode_into_sentinels(&stream, 2, 2);
    assert_eq!(out, [0, 0]);
}

#[test]
fn zero_length_block_ends_the_payload() {
    // The second block is never read: the empty block before it ends the data.
    let first = pack_codes(&[(4, 3), (1, 3)]);
    let second = pack_codes(&[(2, 3), (3, 3)]);
    let mut stream = vec![2, first.len() as u8];
    stream.extend_from_slice(&first);
    stream.push(0);
    stream.push(second.len() as u8);
    stream.extend_from_slice(&second);
    let out = decode_into_sentinels(&stream, 4, 1);
    assert_eq!(out, [1, 0xEE, 0xEE, 0xEE]);
}

#[test]
fn codes_run_across_block_boundaries() {
    let payload = pack_codes(&[(4, 3), (1, 3), (2, 3), (6, 3), (3, 4), (5, 4)]);
    assert_eq!(payload.len(), 3);
    let stream = vec![2, 1, payload[0], 1, payload[1], 1, payload[2], 0];
    assert_eq!(decode_into_sentinels(&stream, 6, 6), [1, 2, 1, 2, 3, 0xEE]);
}

#[test]
fn truncated_block_is_read_as_far_as_it_goes() {
    // The block announces five bytes and holds two.
    let stream = [2, 5, 0x8C, 0x0A];
    // Codes: clear, 1, 2, then 5 (end) in the bits that are there.
    assert_eq!(decode_into_sentinels(&stream, 4, 4), [1, 2, 0xEE, 0xEE]);
}

#[test]
fn data_that_ends_in_mid_code_stops_decoding() {
    // One byte: clear, 1, and two bits of a third code.
    let stream = [2, 1, 0x0C];
    assert_eq!(decode_into_sentinels(&stream, 4, 4), [1, 0xEE, 0xEE, 0xEE]);
}

#[test]
fn bytes_behind_the_pixel_count_are_never_written() {
    let sample_data: [u8; 7] = [0x02, 0x05, 0x84, 0x6E, 0x27, 0xC1, 0x5D];
    for pixel_count in 0..=15 {
        let out = decode_into_sentinels(&sample_data, 32, pixel_count);
        let expected = [0, 2, 2, 2, 0, 2, 2, 2, 2, 1, 1, 1, 1, 1, 1];
        assert_eq!(&out[..pixel_count], &expected[..pixel_count]);
        assert!(out[pixel_count..].iter().all(|&b| b == 0xEE));
    }
}

#[test]
fn adversarial_streams_stay_within_bounds() {
    // Every two-byte payload, for three minimum code sizes.
    for min_code_size in [0u8, 2, 8] {
        for a in 0..=255u8 {
            for b in [0u8, 1, 0x55, 0xAA, 0xFF] {
                let stream = [min_code_size, 2, a, b, 0];
                let out = decode_into_sentinels(&stream, 40, 24);
                assert_eq!(out.len(), 40);
                assert!(out[24..].iter().all(|&x| x == 0xEE));
            }
        }
    }
}
