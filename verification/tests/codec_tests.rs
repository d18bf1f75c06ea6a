use squeeze::extract_original_filename;
use squeeze::BitReader;
use squeeze::BitWriter;
use squeeze::Huffman;
use squeeze::Symbol;
use squeeze::LZ77;
use squeeze::LZW;

fn huffman_round_trip(data: &[u8], mode: Symbol) -> Vec<u8> {
    let mut encoder = Huffman::new(mode);
    let compressed = encoder.compress(data);
    let mut decoder = Huffman::new(Symbol::OneByte(0));
    decoder.decompress(&compressed)
}

#[test]
fn round_trip_text() {
    let data = b"the quick brown fox jumps over the lazy dog".to_vec();
    let out = huffman_round_trip(&data, Symbol::OneByte(0));
    assert_eq!(out, data);
}

#[test]
fn round_trip_binary() {
    let mut data = Vec::new();
    let mut i: u32 = 0;
    while i < 2048 {
        data.push(((i * 7 + 13) % 256) as u8);
        i += 1;
    }
    let out = huffman_round_trip(&data, Symbol::OneByte(0));
    assert_eq!(out, data);
}

#[test]
fn round_trip_all_byte_values() {
    let mut data = Vec::new();
    for b in 0..=255u8 {
        data.push(b);
        data.push(b);
    }
    let out = huffman_round_trip(&data, Symbol::OneByte(0));
    assert_eq!(out, data);
}

#[test]
fn single_symbol_round_trip() {
    // One repeated byte: the tree degenerates to a root that is also a leaf.
    let data = vec![0x41u8; 1000];
    let out = huffman_round_trip(&data, Symbol::OneByte(0));
    assert_eq!(out, data);
}

#[test]
fn empty_input_round_trip() {
    let data: Vec<u8> = Vec::new();
    let mut encoder = Huffman::new(Symbol::OneByte(0));
    let compressed = encoder.compress(&data);
    assert!(!compressed.is_empty());
    let mut decoder = Huffman::new(Symbol::OneByte(0));
    let out = decoder.decompress(&compressed);
    assert!(out.is_empty());
}

#[test]
fn empty_input_exact_size() {
    // One mode bit plus 512 all-absent class bits pad to 65 bytes.
    let mut encoder = Huffman::new(Symbol::OneByte(0));
    let compressed = encoder.compress(&[]);
    assert_eq!(compressed.len(), 65);
}

#[test]
fn pair_mode_code_labels() {
    let data = b"xyxyxyab".to_vec();
    let mut encoder = Huffman::new(Symbol::TwoBytes(0));
    let _ = encoder.compress(&data);
    let codes = encoder.get_codes().expect("codes retained after compress");
    // Two distinct pairs: "xy" repeated and one "ab".
    assert_eq!(codes.len(), 2);
    assert_eq!(codes[0].0, "bytes 0x6162");
    assert_eq!(codes[1].0, "bytes 0x7879");
}

#[test]
fn code_dump_sorts_by_label() {
    // One printable and one non-printable byte: the printable label sorts
    // first even though its symbol value is larger.
    let data = vec![0x00u8, 0x41u8];
    let mut encoder = Huffman::new(Symbol::OneByte(0));
    let _ = encoder.compress(&data);
    let codes = encoder.get_codes().expect("codes retained after compress");
    assert_eq!(codes.len(), 2);
    assert_eq!(codes[0].0, "A (0x41)");
    assert_eq!(codes[1].0, "byte 0x00");
    let mut sorted = codes.clone();
    sorted.sort_by(|a, b| a.0.cmp(&b.0));
    assert_eq!(codes, sorted);
}

#[test]
fn code_dump_label_order_all_blocks() {
    // One byte from every block of the label ordering: a low printable, the
    // letter b itself, low and high hex-labelled bytes, and a printable past
    // b. The emitted order must agree with sorting the labels as strings.
    let data = vec![0x00u8, 0x20, 0x62, 0x63, 0x7F, 0xFF];
    let mut encoder = Huffman::new(Symbol::OneByte(0));
    let _ = encoder.compress(&data);
    let codes = encoder.get_codes().expect("codes retained after compress");
    let labels: Vec<&str> = codes.iter().map(|e| e.0.as_str()).collect();
    assert_eq!(
        labels,
        vec![
            "  (0x20)",
            "b (0x62)",
            "byte 0x00",
            "byte 0x7F",
            "byte 0xFF",
            "c (0x63)",
        ]
    );
    let mut sorted = codes.clone();
    sorted.sort_by(|a, b| a.0.cmp(&b.0));
    assert_eq!(codes, sorted);
}

#[test]
fn code_dump_presence() {
    // No dump before the first compression; an empty dump after compressing
    // nothing.
    let mut encoder = Huffman::new(Symbol::OneByte(0));
    assert!(encoder.get_codes().is_none());
    let _ = encoder.compress(&[]);
    assert_eq!(encoder.get_codes(), Some(vec![]));
}

#[test]
fn empty_input_pair_mode() {
    let data: Vec<u8> = Vec::new();
    let mut encoder = Huffman::new(Symbol::TwoBytes(0));
    let compressed = encoder.compress(&data);
    let mut decoder = Huffman::new(Symbol::OneByte(0));
    let out = decoder.decompress(&compressed);
    assert!(out.is_empty());
}

#[test]
fn determinism_same_input_same_output() {
    let data = b"abracadabra abracadabra".to_vec();
    let mut enc1 = Huffman::new(Symbol::OneByte(0));
    let mut enc2 = Huffman::new(Symbol::OneByte(0));
    assert_eq!(enc1.compress(&data), enc2.compress(&data));

    let mut enc3 = Huffman::new(Symbol::TwoBytes(0));
    let mut enc4 = Huffman::new(Symbol::TwoBytes(0));
    assert_eq!(enc3.compress(&data), enc4.compress(&data));
}

#[test]
fn header_accounting() {
    let data = b"mississippi".to_vec();
    let mut encoder = Huffman::new(Symbol::OneByte(0));
    let compressed = encoder.compress(&data);
    let stats = encoder.get_compression_stats(data.len(), compressed.len());
    assert_eq!(
        stats.header_size + stats.compressed_data_size,
        stats.compressed_size
    );
    assert_eq!(stats.compressed_size, compressed.len());
    assert_eq!(stats.original_size, data.len());
}

#[test]
fn scenario_three_symbols() {
    // 10 bytes, frequencies A=5, B=3, C=2.
    let data = b"AAAAABBBCC".to_vec();
    let mut encoder = Huffman::new(Symbol::OneByte(0));
    let compressed = encoder.compress(&data);

    let codes = encoder.get_codes().expect("codes retained after compress");
    assert_eq!(codes.len(), 3);
    // Ascending symbol order: A, B, C.
    assert_eq!(codes[0].0, "A (0x41)");
    assert_eq!(codes[1].0, "B (0x42)");
    assert_eq!(codes[2].0, "C (0x43)");
    // The most frequent symbol gets the shortest code.
    assert!(codes[0].1.len() <= codes[1].1.len());
    assert!(codes[0].1.len() <= codes[2].1.len());
    assert_eq!(codes[0].1.len(), 1);
    assert_eq!(codes[1].1.len(), 2);
    assert_eq!(codes[2].1.len(), 2);

    // For so small an input the header overhead dominates. The header is one
    // mode bit, 512 class bits and three 8-bit counts, rounded up to 68
    // bytes; the 15 coded bits fill the total to exactly 69 bytes.
    assert!(compressed.len() > data.len());
    assert_eq!(compressed.len(), 69);
    let stats = encoder.get_compression_stats(data.len(), compressed.len());
    assert_eq!(stats.header_size, 68);
    assert_eq!(stats.compressed_data_size, 1);

    let mut decoder = Huffman::new(Symbol::OneByte(0));
    assert_eq!(decoder.decompress(&compressed), data);
}

#[test]
fn prefix_free_codes() {
    let data = b"this stream exercises quite a few distinct byte values 0123456789".to_vec();
    let mut encoder = Huffman::new(Symbol::OneByte(0));
    let _ = encoder.compress(&data);
    let codes = encoder.get_codes().expect("codes retained after compress");
    assert!(codes.len() > 2);
    for i in 0..codes.len() {
        for j in 0..codes.len() {
            if i != j {
                assert!(
                    !codes[j].1.starts_with(codes[i].1.as_str()),
                    "codeword {} is a prefix of {}",
                    codes[i].1,
                    codes[j].1
                );
            }
        }
    }
}

#[test]
fn two_byte_mode_round_trip() {
    let mut data = Vec::new();
    let mut i: u32 = 0;
    while i < 600 {
        data.push((i % 251) as u8);
        data.push(((i * 3) % 256) as u8);
        i += 1;
    }
    assert_eq!(data.len() % 2, 0);
    let out = huffman_round_trip(&data, Symbol::TwoBytes(0));
    assert_eq!(out, data);
}

#[test]
fn two_byte_mode_drops_trailing_odd_byte() {
    let data = b"abcde".to_vec();
    let out = huffman_round_trip(&data, Symbol::TwoBytes(0));
    assert_eq!(out, b"abcd".to_vec());
}

#[test]
fn decompress_garbage_does_not_crash() {
    let mut decoder = Huffman::new(Symbol::OneByte(0));
    let _ = decoder.decompress(&[0xFFu8; 16]);
    let _ = decoder.decompress(&[0x00u8; 3]);
    let _ = decoder.decompress(&[]);
}

#[test]
fn mode_flag_is_read_from_stream() {
    let data = b"pairwise".to_vec();
    let mut encoder = Huffman::new(Symbol::TwoBytes(0));
    let compressed = encoder.compress(&data);
    // A decoder configured for byte mode still follows the stream's flag.
    let mut decoder = Huffman::new(Symbol::OneByte(0));
    assert_eq!(decoder.decompress(&compressed), data);
}

#[test]
fn bit_writer_packs_msb_first() {
    let mut writer = BitWriter::new();
    writer.write_bit(true);
    writer.write_bit(false);
    writer.write_bit(true);
    let bytes = writer.finish();
    assert_eq!(bytes, vec![0b1010_0000u8]);

    let mut writer = BitWriter::new();
    writer.write_n_bits(12, 0xABC);
    let bytes = writer.finish();
    assert_eq!(bytes, vec![0xABu8, 0xC0u8]);
}

#[test]
fn bit_reader_reads_back_what_was_written() {
    let mut writer = BitWriter::new();
    writer.write_n_bits(5, 0b10110);
    writer.write_n_bits(11, 0b101_0101_0101);
    let bytes = writer.finish();

    let mut reader = BitReader::new(&bytes);
    assert_eq!(reader.read_n_bits(5), Some(0b10110));
    assert_eq!(reader.read_n_bits(11), Some(0b101_0101_0101));
    // Only padding remains: a 9-bit read cannot be served.
    assert_eq!(reader.read_n_bits(9), None);
}

#[test]
fn bit_reader_end_of_stream() {
    let bytes = [0xA5u8];
    let mut reader = BitReader::new(&bytes);
    for expected in [true, false, true, false, false, true, false, true] {
        assert_eq!(reader.read_bit(), Some(expected));
    }
    assert_eq!(reader.read_bit(), None);
}

#[test]
fn lz77_round_trip() {
    let data = b"abracadabra abracadabra abracadabra".to_vec();
    let mut encoder = LZ77::new(Some(11), Some(4));
    let encoded = encoder.encode(&data);
    let mut decoder = LZ77::new(None, None);
    assert_eq!(decoder.decode(&encoded), data);
}

#[test]
fn lz77_round_trip_small_window() {
    let data = b"aaaaaaaaaaaaaaaabbbbbbbbcccc".to_vec();
    let mut encoder = LZ77::new(Some(4), Some(3));
    let encoded = encoder.encode(&data);
    let mut decoder = LZ77::new(None, None);
    assert_eq!(decoder.decode(&encoded), data);
}

#[test]
fn lz77_tokens_cover_input() {
    let data = b"banana bandana".to_vec();
    let mut encoder = LZ77::new(Some(10), Some(4));
    let _ = encoder.encode(&data);
    let tokens = encoder.get_tokens();
    let covered: usize = tokens.iter().map(|t| t.match_length + 1).sum();
    assert_eq!(covered, data.len());
}

#[test]
fn lz77_empty_input() {
    let mut encoder = LZ77::new(Some(11), Some(4));
    let encoded = encoder.encode(&[]);
    let mut decoder = LZ77::new(None, None);
    assert_eq!(decoder.decode(&encoded), Vec::<u8>::new());
}

#[test]
fn filename_extraction() {
    assert_eq!(extract_original_filename("file.txt.o11l4.lz77"), "file.txt");
    assert_eq!(extract_original_filename("notes.lz77"), "notes");
    assert_eq!(extract_original_filename("plain.txt"), "plain.txt");
}

#[test]
fn lzw_round_trip_auto() {
    let data = b"TOBEORNOTTOBEORTOBEORNOT".to_vec();
    let mut encoder = LZW::new();
    let (compressed, codes) = encoder.compress(&data, true, 9, None);
    assert!(!codes.is_empty());
    let decoder = LZW::new();
    let (out, decoded_codes) = decoder.decompress(&compressed);
    assert_eq!(out, data);
    assert!(decoded_codes.len() >= codes.len());
}

#[test]
fn lzw_round_trip_manual_width() {
    let data = b"she sells sea shells by the sea shore".to_vec();
    let mut encoder = LZW::new();
    let (compressed, _) = encoder.compress(&data, false, 12, Some(12));
    let decoder = LZW::new();
    let (out, _) = decoder.decompress(&compressed);
    assert_eq!(out, data);
}

#[test]
fn lzw_empty_input() {
    let mut encoder = LZW::new();
    let (compressed, codes) = encoder.compress(&[], true, 9, None);
    assert!(codes.is_empty());
    let decoder = LZW::new();
    let (out, _) = decoder.decompress(&compressed);
    assert!(out.is_empty());
}

#[test]
fn lzw_decompress_garbage_does_not_crash() {
    let decoder = LZW::new();
    let _ = decoder.decompress(&[0xFFu8; 8]);
    let _ = decoder.decompress(&[]);
}
