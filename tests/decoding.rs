use deflate::bitstream::InflateError;
use deflate::huffman::huffman_new;
use deflate::inflate::new;

/// Packs bits into bytes, least significant bit first.
struct BitWriter {
    bytes: Vec<u8>,
    nbits: usize,
}

impl BitWriter {
    fn new() -> BitWriter {
        BitWriter { bytes: Vec::new(), nbits: 0 }
    }

    fn bit(&mut self, b: u32) {
        if self.nbits % 8 == 0 {
            self.bytes.push(0);
        }
        let last = self.bytes.len() - 1;
        self.bytes[last] |= ((b & 1) as u8) << (self.nbits % 8);
        self.nbits += 1;
    }

    /// A fixed-width field, least significant bit first.
    fn field(&mut self, value: u32, n: u32) {
        for i in 0..n {
            self.bit(value >> i);
        }
    }

    /// A Huffman code, most significant bit first.
    fn code(&mut self, code: u32, len: u32) {
        for i in (0..len).rev() {
            self.bit(code >> i);
        }
    }

    /// A literal/length symbol in the fixed code.
    fn fixed_symbol(&mut self, sym: u32) {
        if sym < 144 {
            self.code(0x30 + sym, 8);
        } else if sym < 256 {
            self.code(0x190 + sym - 144, 9);
        } else if sym < 280 {
            self.code(sym - 256, 7);
        } else {
            self.code(0xc0 + sym - 280, 8);
        }
    }

    /// A length/distance pair in the fixed code.
    fn fixed_match(&mut self, len: u32, dist: u32) {
        let bases = [3, 4, 5, 6, 7, 8, 9, 10, 11, 13, 15, 17, 19, 23, 27, 31, 35, 43, 51, 59, 67, 83, 99, 115, 131, 163, 195, 227, 258];
        let lbits = [0, 0, 0, 0, 0, 0, 0, 0, 1, 1, 1, 1, 2, 2, 2, 2, 3, 3, 3, 3, 4, 4, 4, 4, 5, 5, 5, 5, 0];
        let dbases = [1, 2, 3, 4, 5, 7, 9, 13, 17, 25, 33, 49, 65, 97, 129, 193, 257, 385, 513, 769, 1025, 1537, 2049, 3073, 4097, 6145, 8193, 12289, 16385, 24577];
        let dbits = [0, 0, 0, 0, 1, 1, 2, 2, 3, 3, 4, 4, 5, 5, 6, 6, 7, 7, 8, 8, 9, 9, 10, 10, 11, 11, 12, 12, 13, 13];
        let li = (0..29).rev().find(|&i| bases[i] <= len).unwrap();
        self.fixed_symbol(257 + li as u32);
        self.field(len - bases[li], lbits[li]);
        let di = (0..30).rev().find(|&i| dbases[i] <= dist).unwrap();
        self.code(di as u32, 5);
        self.field(dist - dbases[di], dbits[di]);
    }
}

/// A greedy LZ77 encoder that writes one final fixed block.
fn compress_fixed(data: &[u8]) -> Vec<u8> {
    let mut w = BitWriter::new();
    w.field(1, 1);
    w.field(1, 2);
    let mut i = 0;
    while i < data.len() {
        let mut best = (0, 0);
        let start = if i > 32768 { i - 32768 } else { 0 };
        for j in start..i {
            let mut l = 0;
            while l < 258 && i + l < data.len() && data[j + l] == data[i + l] {
                l += 1;
            }
            if l > best.0 {
                best = (l, i - j);
            }
        }
        if best.0 >= 3 {
            w.fixed_match(best.0 as u32, best.1 as u32);
            i += best.0;
        } else {
            w.fixed_symbol(data[i] as u32);
            i += 1;
        }
    }
    w.fixed_symbol(256);
    w.bytes
}

fn inflate_all(bytes: Vec<u8>) -> Result<Vec<u8>, InflateError> {
    let mut d = new(bytes);
    match d.inflate() {
        Ok(()) => Ok(d.write_buf),
        Err(e) => Err(e),
    }
}

#[test]
fn fixed_block_single_literal() {
    assert_eq!(inflate_all(vec![0x73, 0x04, 0x00]), Ok(vec![0x41]));
}

#[test]
fn fixed_block_built_by_writer_matches_known_bytes() {
    let mut w = BitWriter::new();
    w.field(1, 1);
    w.field(1, 2);
    w.fixed_symbol(65);
    w.fixed_symbol(256);
    assert_eq!(w.bytes, vec![0x73, 0x04, 0x00]);
}

#[test]
fn back_reference_overlap() {
    let mut w = BitWriter::new();
    w.field(1, 1);
    w.field(1, 2);
    w.fixed_symbol(b'a' as u32);
    w.fixed_symbol(b'b' as u32);
    w.fixed_symbol(b'c' as u32);
    w.fixed_match(5, 1);
    w.fixed_symbol(256);
    assert_eq!(inflate_all(w.bytes), Ok(b"abccccccc"[..8].to_vec()));
}

#[test]
fn back_reference_longer_than_distance_repeats_pattern() {
    let mut w = BitWriter::new();
    w.field(1, 1);
    w.field(1, 2);
    w.fixed_symbol(b'x' as u32);
    w.fixed_symbol(b'y' as u32);
    w.fixed_match(7, 2);
    w.fixed_symbol(256);
    assert_eq!(inflate_all(w.bytes), Ok(b"xyxyxyxyx".to_vec()));
}

#[test]
fn invalid_distance_before_output_start() {
    let mut w = BitWriter::new();
    w.field(1, 1);
    w.field(1, 2);
    w.fixed_symbol(b'a' as u32);
    w.fixed_match(3, 2);
    w.fixed_symbol(256);
    assert_eq!(inflate_all(w.bytes), Err(InflateError::InvalidDistance));
}

#[test]
fn invalid_distance_with_empty_output() {
    let mut w = BitWriter::new();
    w.field(1, 1);
    w.field(1, 2);
    w.fixed_match(3, 1);
    w.fixed_symbol(256);
    assert_eq!(inflate_all(w.bytes), Err(InflateError::InvalidDistance));
}

#[test]
fn undefined_length_symbol_is_malformed_block() {
    let mut w = BitWriter::new();
    w.field(1, 1);
    w.field(1, 2);
    w.fixed_symbol(286);
    assert_eq!(inflate_all(w.bytes), Err(InflateError::MalformedBlock));
}

#[test]
fn reserved_block_type_is_malformed_header() {
    let mut w = BitWriter::new();
    w.field(1, 1);
    w.field(3, 2);
    assert_eq!(inflate_all(w.bytes), Err(InflateError::MalformedHeader));
}

#[test]
fn stored_block_copies_bytes() {
    assert_eq!(
        inflate_all(vec![0x01, 0x03, 0x00, 0xfc, 0xff, b'a', b'b', b'c']),
        Ok(b"abc".to_vec())
    );
}

#[test]
fn empty_stored_block() {
    assert_eq!(inflate_all(vec![0x01, 0x00, 0x00, 0xff, 0xff]), Ok(Vec::new()));
}

#[test]
fn stored_block_length_without_complement_is_malformed_header() {
    assert_eq!(
        inflate_all(vec![0x01, 0x03, 0x00, 0xfc, 0xfe, b'a', b'b', b'c']),
        Err(InflateError::MalformedHeader)
    );
}

#[test]
fn stored_block_cut_short_is_end_of_input() {
    assert_eq!(
        inflate_all(vec![0x01, 0x03, 0x00, 0xfc, 0xff, b'a', b'b']),
        Err(InflateError::EndOfInput)
    );
    assert_eq!(inflate_all(vec![0x01, 0x03, 0x00, 0xfc]), Err(InflateError::EndOfInput));
}

#[test]
fn stored_block_after_fixed_block_starts_at_byte_boundary() {
    let mut w = BitWriter::new();
    w.field(0, 1);
    w.field(1, 2);
    w.fixed_symbol(b'x' as u32);
    w.fixed_symbol(256);
    w.field(1, 1);
    w.field(0, 2);
    let mut bytes = w.bytes;
    bytes.extend_from_slice(&[0x02, 0x00, 0xfd, 0xff, b'y', b'z']);
    assert_eq!(inflate_all(bytes), Ok(b"xyz".to_vec()));
}

#[test]
fn known_encoder_output_empty() {
    assert_eq!(inflate_all(vec![0x03, 0x00]), Ok(Vec::new()));
}

#[test]
fn known_encoder_output_single_byte() {
    assert_eq!(inflate_all(vec![0x4b, 0x04, 0x00]), Ok(b"a".to_vec()));
}

#[test]
fn known_encoder_output_hello() {
    assert_eq!(
        inflate_all(vec![0xcb, 0x48, 0xcd, 0xc9, 0xc9, 0x07, 0x00]),
        Ok(b"hello".to_vec())
    );
}

#[test]
fn empty_input_is_end_of_input() {
    assert_eq!(inflate_all(vec![]), Err(InflateError::EndOfInput));
}

#[test]
fn truncated_dynamic_header_is_end_of_input() {
    // final flag, type 2, a 5-bit literal count, then the input ends
    assert_eq!(inflate_all(vec![0x05]), Err(InflateError::EndOfInput));
}

#[test]
fn every_truncation_of_a_fixed_stream_is_end_of_input() {
    let data = b"abracadabra abracadabra".to_vec();
    let bytes = compress_fixed(&data);
    assert_eq!(inflate_all(bytes.clone()), Ok(data));
    for k in 0..bytes.len() {
        assert_eq!(inflate_all(bytes[..k].to_vec()), Err(InflateError::EndOfInput));
    }
}

#[test]
fn non_final_block_then_final_block() {
    let mut w = BitWriter::new();
    w.field(0, 1);
    w.field(1, 2);
    w.fixed_symbol(b'h' as u32);
    w.fixed_symbol(b'i' as u32);
    w.fixed_symbol(256);
    w.field(1, 1);
    w.field(1, 2);
    w.fixed_match(4, 2);
    w.fixed_symbol(256);
    assert_eq!(inflate_all(w.bytes), Ok(b"hihihi".to_vec()));
}

#[test]
fn round_trip_fixed_encoder() {
    let mut samples: Vec<Vec<u8>> = vec![
        Vec::new(),
        b"a".to_vec(),
        b"hello hello hello hello".to_vec(),
        vec![0u8; 1000],
    ];
    samples.push((0..=255u8).collect());
    samples.push((0..3000u32).map(|i| ((i * 7 + i / 13) % 251) as u8).collect());
    for s in samples {
        assert_eq!(inflate_all(compress_fixed(&s)), Ok(s));
    }
}

/// A dynamic block header whose code-length code gives symbols 16 and 18
/// one-bit codes (16 is `0`, 18 is `1`).
fn dynamic_header_16_18(w: &mut BitWriter) {
    w.field(1, 1);
    w.field(2, 2);
    w.field(0, 5);
    w.field(0, 5);
    w.field(0, 4);
    // lengths for 16, 17, 18, 0
    w.field(1, 3);
    w.field(0, 3);
    w.field(1, 3);
    w.field(0, 3);
}

#[test]
fn repeat_previous_without_previous_is_malformed_header() {
    let mut w = BitWriter::new();
    dynamic_header_16_18(&mut w);
    w.code(0, 1);
    w.field(0, 2);
    assert_eq!(inflate_all(w.bytes), Err(InflateError::MalformedHeader));
}

fn code_length_table_16_18() -> deflate::huffman::HuffmanTable {
    let mut lens = vec![0u8; 19];
    lens[16] = 1;
    lens[18] = 1;
    huffman_new(&lens).unwrap()
}

#[test]
fn zero_run_of_138() {
    let mut w = BitWriter::new();
    w.code(1, 1);
    w.field(127, 7);
    let mut d = new(w.bytes);
    let t = d.dyn_table(&code_length_table_16_18(), 138).unwrap();
    assert_eq!(t.counts[0], 138);
    assert!(t.symbols.is_empty());
}

#[test]
fn zero_run_past_table_size_is_malformed_header() {
    let mut w = BitWriter::new();
    w.code(1, 1);
    w.field(127, 7);
    let mut d = new(w.bytes);
    assert_eq!(
        d.dyn_table(&code_length_table_16_18(), 137).err(),
        Some(InflateError::MalformedHeader)
    );
}

#[test]
fn zero_run_short_of_table_size_needs_more_input() {
    let mut w = BitWriter::new();
    w.code(1, 1);
    w.field(127, 7);
    let mut d = new(w.bytes);
    assert_eq!(
        d.dyn_table(&code_length_table_16_18(), 139).err(),
        Some(InflateError::EndOfInput)
    );
}

#[test]
fn over_subscribed_code_length_code() {
    let mut w = BitWriter::new();
    w.field(1, 1);
    w.field(2, 2);
    w.field(0, 5);
    w.field(0, 5);
    w.field(0, 4);
    for _ in 0..4 {
        w.field(1, 3);
    }
    w.field(0, 8);
    assert_eq!(inflate_all(w.bytes), Err(InflateError::InvalidHuffmanLengths));
}

#[test]
fn too_many_literal_codes_is_malformed_header() {
    let mut w = BitWriter::new();
    w.field(1, 1);
    w.field(2, 2);
    w.field(30, 5);
    w.field(0, 5);
    w.field(0, 4);
    w.field(0, 8);
    assert_eq!(inflate_all(w.bytes), Err(InflateError::MalformedHeader));
}

#[test]
fn incomplete_code_without_match_is_invalid_symbol() {
    let mut lens = vec![0u8; 19];
    lens[0] = 1;
    let t = huffman_new(&lens).unwrap();
    let mut d = new(vec![0xff, 0xff]);
    assert_eq!(d.parse_symbol(&t), Err(InflateError::InvalidSymbol));
}

#[test]
fn dynamic_block_over_subscribed_literal_code() {
    // code-length code: symbols 0 and 8 get one-bit codes (0 is `0`, 8 is `1`)
    let mut w = BitWriter::new();
    w.field(1, 1);
    w.field(2, 2);
    w.field(0, 5); // 257 literal/length lengths
    w.field(0, 5); // 1 distance length
    w.field(1, 4); // 5 code-length lengths: 16, 17, 18, 0, 8
    w.field(0, 3);
    w.field(0, 3);
    w.field(0, 3);
    w.field(1, 3);
    w.field(1, 3);
    // literal/length lengths: 256 eights and one 8 for end-of-block
    for _ in 0..257 {
        w.code(1, 1);
    }
    // distance lengths: one zero
    w.code(0, 1);
    // with 257 symbols of length 8, symbol s has code s
    w.code(b'o' as u32, 8);
    w.code(b'k' as u32, 8);
    w.code(256, 8);
    assert_eq!(inflate_all(w.bytes), Err(InflateError::InvalidHuffmanLengths));
}

#[test]
fn dynamic_block_decodes() {
    // code-length code: symbols 0 and 8 get one-bit codes, 9 gets none;
    // literal lengths: 0..=253 get 8 bits, 254, 255 get 0, 256 gets 8
    let mut w = BitWriter::new();
    w.field(1, 1);
    w.field(2, 2);
    w.field(0, 5);
    w.field(0, 5);
    w.field(1, 4);
    w.field(0, 3);
    w.field(0, 3);
    w.field(0, 3);
    w.field(1, 3);
    w.field(1, 3);
    for s in 0..257 {
        if s == 254 || s == 255 {
            w.code(0, 1);
        } else {
            w.code(1, 1);
        }
    }
    w.code(0, 1);
    w.code(b'o' as u32, 8);
    w.code(b'k' as u32, 8);
    w.code(254, 8);
    assert_eq!(inflate_all(w.bytes), Ok(b"ok".to_vec()));
}

#[test]
fn canonical_table_from_rfc_example() {
    let t = huffman_new(&[3, 3, 3, 3, 3, 2, 4, 4]).unwrap();
    assert_eq!(t.counts, vec![0, 0, 1, 5, 2, 0, 0, 0, 0, 0, 0, 0, 0, 0, 0, 0]);
    assert_eq!(t.symbols, vec![5, 0, 1, 2, 3, 4, 6, 7]);
}

#[test]
fn canonical_codes_decode_to_their_symbols() {
    // codes: F=00, A=010, B=011, C=100, D=101, E=110, G=1110, H=1111
    let t = huffman_new(&[3, 3, 3, 3, 3, 2, 4, 4]).unwrap();
    let mut w = BitWriter::new();
    let codes = [(2, 3), (3, 3), (4, 3), (5, 3), (6, 3), (0, 2), (14, 4), (15, 4)];
    for (c, l) in codes {
        w.code(c, l);
    }
    let mut d = new(w.bytes);
    for sym in 0..8 {
        assert_eq!(d.parse_symbol(&t), Ok(sym));
    }
}

#[test]
fn over_subscribed_lengths_have_no_table() {
    assert!(huffman_new(&[1, 1, 1]).is_none());
    assert!(huffman_new(&[2, 2, 2, 2, 2]).is_none());
}

#[test]
fn complete_and_empty_lengths_have_tables() {
    assert!(huffman_new(&[1, 1]).is_some());
    assert!(huffman_new(&[0, 0, 0]).is_some());
    assert!(huffman_new(&[]).is_some());
}

#[test]
fn bits_are_read_least_significant_first() {
    let mut d = new(vec![0b1011_0110, 0b0000_0001]);
    assert_eq!(d.bits(3), Ok(0b110));
    assert_eq!(d.bits(6), Ok(0b1_10110));
    assert_eq!(d.bits(0), Ok(0));
    assert_eq!(d.bits(8), Err(InflateError::EndOfInput));
}

fn bits_consumed(d: &deflate::inflate::DeflateStream) -> usize {
    8 * d.byte_pos - d.bit_count as usize
}

#[test]
fn invalid_symbol_after_fifteen_bits() {
    let t = huffman_new(&[0u8; 16]).unwrap();
    let mut d = new(vec![0xff, 0xff]);
    assert_eq!(d.parse_symbol(&t), Err(InflateError::InvalidSymbol));
    assert_eq!(bits_consumed(&d), 15);
}

#[test]
fn dynamic_header_out_of_range_after_fourteen_bits() {
    let mut d = new(vec![0x1e, 0x00, 0x00]);
    assert_eq!(d.dynamic(), Err(InflateError::MalformedHeader));
    assert_eq!(bits_consumed(&d), 14);
    assert!(d.write_buf.is_empty());
}

#[test]
fn dynamic_header_cut_short_leaves_output_empty() {
    let mut d = new(vec![0x00]);
    assert_eq!(d.dynamic(), Err(InflateError::EndOfInput));
    assert!(d.write_buf.is_empty());
}

#[test]
fn over_subscribed_code_length_code_leaves_output_empty() {
    let mut d = new(vec![0xe0, 0x41, 0x12, 0x00, 0x00, 0x00]);
    assert_eq!(d.dynamic(), Err(InflateError::InvalidHuffmanLengths));
    assert!(d.write_buf.is_empty());
}

#[test]
fn invalid_distance_on_empty_output_leaves_it_empty() {
    let mut d = new(vec![0x03, 0x03, 0x00]);
    assert_eq!(d.inflate(), Err(InflateError::InvalidDistance));
    assert!(d.write_buf.is_empty());
}

#[test]
fn reserved_block_type_leaves_output_empty() {
    let mut d = new(vec![0x07, 0x00]);
    assert_eq!(d.inflate(), Err(InflateError::MalformedHeader));
    assert!(d.write_buf.is_empty());
}

#[test]
fn failure_keeps_bytes_already_written() {
    let mut w = BitWriter::new();
    w.field(1, 1);
    w.field(1, 2);
    w.fixed_symbol(b'a' as u32);
    w.fixed_symbol(b'b' as u32);
    w.fixed_match(3, 3);
    w.fixed_symbol(256);
    let mut d = new(w.bytes);
    assert_eq!(d.inflate(), Err(InflateError::InvalidDistance));
    assert_eq!(d.write_buf, b"ab".to_vec());
}

#[test]
fn undefined_symbol_leaves_output_empty() {
    let mut d = new(vec![0x63, 0x00]);
    let mut lit = vec![8u8; 144];
    lit.extend(vec![9u8; 112]);
    lit.extend(vec![7u8; 24]);
    lit.extend(vec![8u8; 8]);
    let lt = huffman_new(&lit).unwrap();
    let dt = huffman_new(&[5u8; 30]).unwrap();
    assert_eq!(d.decode(&lt, &dt), Err(InflateError::MalformedBlock));
    assert!(d.write_buf.is_empty());
}
