use std::collections::HashMap;
use tik::bit_map::BitMap;
use tik::types::{CodeType, EncodingSettings};
use tik::utils::formulae::parse_chunk_for_unique_bytes;
use tik::utils::logic::{
    build_codes_trie, create_dictionary_header, decode_chunk, decode_file, encode_file,
    lookup_symbol, read_dictionary_header, read_header_window, transform_data_to_hamming_codes,
    transform_data_to_raw, write_compressed_file, write_decoded_file, DecodeError, DecoderState,
};
use tik::utils::parse_file;

fn settings(source: &[u8], code_type: CodeType, hamming: Option<u8>) -> EncodingSettings {
    EncodingSettings {
        file_info: (source.to_vec(), String::from("dir/name.txt")),
        code_type,
        hamming_code_length: hamming,
    }
}

fn round_trip(source: &[u8], code_type: CodeType, hamming: Option<u8>) -> Vec<u8> {
    let (path, archive) = encode_file(settings(source, code_type, hamming));
    assert_eq!(path, "dir/name.txt.nk");
    let (out_path, decoded) = decode_file((archive, path)).unwrap();
    assert_eq!(out_path, "dir/name_1.txt");
    decoded
}

#[test]
fn counting_passes_over_bytes_below_32() {
    let mut dictionary = [0u64; 256];
    let mut counter = 0u64;
    parse_chunk_for_unique_bytes(&mut dictionary, b"ab\na\t \x1f", &mut counter);
    assert_eq!(counter, 4);
    assert_eq!(dictionary[b'a' as usize], 2);
    assert_eq!(dictionary[b'b' as usize], 1);
    assert_eq!(dictionary[b' ' as usize], 1);
    assert_eq!(dictionary[b'\n' as usize], 0);
    assert_eq!(dictionary[0x1f], 0);
    parse_chunk_for_unique_bytes(&mut dictionary, b"a", &mut counter);
    assert_eq!(counter, 5);
    assert_eq!(dictionary[b'a' as usize], 3);

    let (stats, total) = parse_file(b"hello\r\nworld");
    assert_eq!(total, 10);
    assert_eq!(stats[b'l' as usize], 3);
    assert_eq!(stats[b'o' as usize], 2);
    assert_eq!(stats[b'\r' as usize], 0);
    assert_eq!(stats.iter().sum::<u64>(), 10);
}

#[test]
fn archive_of_three_bytes() {
    // b is rarer and goes left: b = 0, a = 1
    let (_, archive) = encode_file(settings(b"aab", CodeType::Huffman, None));
    assert_eq!(archive, vec![97, 1, 1, 98, 1, 0, 0, 0, 0b011]);
}

#[test]
fn archive_with_hamming_blocks() {
    let (_, archive) = encode_file(settings(b"aab", CodeType::Huffman, Some(4)));
    // the payload 1100 becomes the block 1 1 0 p 0 p p with p = 0 0 1
    assert_eq!(
        archive,
        vec![104, 109, 109, 99, 108, 4, 97, 1, 1, 98, 1, 0, 0, 0, 0b1000011]
    );
}

#[test]
fn header_lists_the_bytes_in_order() {
    let mut dict = HashMap::new();
    dict.insert(200u8, vec![1, 0, 1, 1, 0, 0, 0, 0, 1]);
    dict.insert(40u8, vec![0]);
    dict.insert(41u8, vec![]);
    let mut file = vec![9];
    create_dictionary_header(&mut file, &dict, None);
    assert_eq!(file, vec![9, 40, 1, 0, 41, 0, 200, 9, 0b1101, 1, 0, 0]);

    let mut file = Vec::new();
    create_dictionary_header(&mut file, &dict, Some(11));
    assert_eq!(
        file,
        vec![104, 109, 109, 99, 108, 11, 40, 1, 0, 41, 0, 200, 9, 0b1101, 1, 0, 0]
    );
}

#[test]
fn header_is_read_back() {
    let header = read_dictionary_header(&[40, 1, 0, 200, 9, 0b1101, 1, 0, 0, 77, 78]).unwrap();
    assert_eq!(
        header.dictionary,
        vec![(vec![0], 40), (vec![1, 0, 1, 1, 0, 0, 0, 0, 1], 200)]
    );
    assert_eq!(header.offset, 9);
    assert_eq!(header.hamming_code_len, None);

    let header = read_dictionary_header(&[104, 109, 109, 99, 108, 11, 65, 2, 0b10, 0, 0]).unwrap();
    assert_eq!(header.dictionary, vec![(vec![0, 1], 65)]);
    assert_eq!(header.offset, 11);
    assert_eq!(header.hamming_code_len, Some(11));

    let header = read_dictionary_header(&[0, 0]).unwrap();
    assert!(header.dictionary.is_empty());
    assert_eq!(header.offset, 2);
}

#[test]
fn header_that_does_not_end_is_not_read() {
    assert!(read_dictionary_header(&[]).is_none());
    assert!(read_dictionary_header(&[0]).is_none());
    assert!(read_dictionary_header(&[40, 1, 0]).is_none());
    assert!(read_dictionary_header(&[40, 9, 0, 0]).is_none());
    assert!(read_dictionary_header(&[104, 109, 109, 99, 108]).is_none());
    assert!(read_dictionary_header(&[104, 109, 109, 99, 108, 4]).is_none());
}

#[test]
fn header_window_is_filled_with_zeros() {
    let window = read_header_window(&[5, 6, 7]);
    assert_eq!(window.len(), 2048);
    assert_eq!(&window[..4], &[5, 6, 7, 0]);
    assert!(window[3..].iter().all(|b| *b == 0));
    let long: Vec<u8> = (0..5000).map(|i| (i % 251) as u8).collect();
    assert_eq!(read_header_window(&long), &long[..2048]);
}

#[test]
fn the_last_entry_of_a_codeword_counts() {
    let dictionary = vec![(vec![0, 1], 65), (vec![1], 66), (vec![0, 1], 67)];
    assert_eq!(lookup_symbol(&dictionary, &[0, 1]), Some(67));
    assert_eq!(lookup_symbol(&dictionary, &[1]), Some(66));
    assert_eq!(lookup_symbol(&dictionary, &[0]), None);
    assert_eq!(lookup_symbol(&dictionary, &[]), None);
}

#[test]
fn body_is_the_same_in_one_piece_and_in_chunks() {
    let mut dict = HashMap::new();
    dict.insert(b'a', vec![0]);
    dict.insert(b'b', vec![1, 0]);
    dict.insert(b'c', vec![1, 1]);
    let source = b"abcabccba\nbacab";
    for hamming in [None, Some(1), Some(3), Some(4), Some(11)] {
        let mut whole = Vec::new();
        write_compressed_file(source, &mut whole, &dict, hamming);

        let mut pieces = Vec::new();
        let mut bitmap = BitMap::new();
        let mut carry = Vec::new();
        for (i, chunk) in source.chunks(4).enumerate() {
            let last = i == 3;
            match hamming {
                Some(k) => transform_data_to_hamming_codes(
                    &mut pieces,
                    &dict,
                    &mut bitmap,
                    &mut carry,
                    chunk,
                    last,
                    k as usize,
                ),
                None => transform_data_to_raw(&mut pieces, &dict, &mut bitmap, chunk, last),
            }
        }
        assert_eq!(whole, pieces, "{hamming:?}");
    }
    let mut raw = Vec::new();
    write_compressed_file(b"abc", &mut raw, &dict, None);
    // 0 10 11, the first bit lowest
    assert_eq!(raw, vec![0b11010]);
}

#[test]
fn decoding_is_the_same_in_one_piece_and_in_chunks() {
    let dictionary = vec![(vec![0], b'a'), (vec![1, 0], b'b'), (vec![1, 1], b'c')];
    let trie = build_codes_trie(&dictionary);
    let body = [0b11010u8, 0xff, 0x00, 0b01010101, 0b00110011];
    for hamming in [None, Some(1usize), Some(4)] {
        let mut whole = Vec::new();
        write_decoded_file(&body, &mut whole, &trie, &dictionary, hamming);

        let mut pieces = Vec::new();
        let mut state = DecoderState::new();
        for chunk in body.chunks(2) {
            decode_chunk(&mut state, chunk, &mut pieces, &trie, &dictionary, hamming);
        }
        assert_eq!(whole, pieces, "{hamming:?}");
    }
    let mut decoded = Vec::new();
    write_decoded_file(&[0b11010], &mut decoded, &trie, &dictionary, None);
    assert_eq!(decoded, b"abcaaa");
}

#[test]
fn a_codeword_may_end_with_the_body() {
    let dictionary = vec![(vec![0, 0, 0, 0], b'x'), (vec![1], b'y')];
    let trie = build_codes_trie(&dictionary);
    let mut decoded = Vec::new();
    write_decoded_file(&[0b1111_0000], &mut decoded, &trie, &dictionary, None);
    assert_eq!(decoded, b"xyyyy");
    // bits that make no codeword are left
    let mut decoded = Vec::new();
    write_decoded_file(&[0b0001_1111], &mut decoded, &trie, &dictionary, None);
    assert_eq!(decoded, b"yyyyy");
}

#[test]
fn round_trips() {
    let text = b"the quick brown fox jumps over the lazy dog, and so on and on!";
    for code_type in [CodeType::Huffman, CodeType::ShannonFano] {
        for hamming in [None, Some(4), Some(11), Some(26), Some(250)] {
            let mut found = 0;
            for cut in 0..24 {
                let source = &text[..text.len() - cut];
                let (_, archive) = encode_file(settings(source, code_type, hamming));
                let (_, decoded) = decode_file((archive, String::from("x.nk"))).unwrap();
                // what comes back begins with the source; bits that fill
                // the last byte may stand for more
                assert_eq!(&decoded[..source.len()], source);
                if decoded.len() == source.len() {
                    found += 1;
                }
            }
            if hamming.is_none() {
                assert!(found > 0);
            }
        }
    }
}

#[test]
fn round_trip_of_a_body_of_whole_bytes() {
    // a = 1, b = 0: eight bytes make eight bits
    assert_eq!(round_trip(b"aabaabab", CodeType::Huffman, None), b"aabaabab");
    assert_eq!(round_trip(b"aabaabab", CodeType::Huffman, Some(4)), b"aabaabab");
    assert_eq!(round_trip(b"aabaabab", CodeType::ShannonFano, None), b"aabaabab");
    assert_eq!(round_trip(b"aabaabab", CodeType::ShannonFano, Some(4)), b"aabaabab");
}

#[test]
fn round_trip_of_a_single_symbol() {
    let (_, archive) = encode_file(settings(b"zzzzzzzz", CodeType::Huffman, None));
    assert_eq!(archive, vec![b'z', 1, 0, 0, 0, 0]);
    assert_eq!(round_trip(b"zzzzzzzz", CodeType::Huffman, None), b"zzzzzzzz");
    assert_eq!(round_trip(b"zzzzzzzzzzzzzzzz", CodeType::Huffman, None), b"zzzzzzzzzzzzzzzz");
}

#[test]
fn bytes_below_32_are_lost() {
    assert_eq!(round_trip(b"aab\naab\tab", CodeType::Huffman, None), b"aabaabab");
}

#[test]
fn a_damaged_block_is_corrected() {
    let source = b"aabaabab";
    let (path, mut archive) = encode_file(settings(source, CodeType::Huffman, Some(4)));
    let body = archive.len() - 2;
    archive[body] ^= 0b0001_0000;
    archive[body + 1] ^= 0b0000_0100;
    let (_, decoded) = decode_file((archive, path)).unwrap();
    assert_eq!(decoded, source);
}

#[test]
fn a_file_that_is_no_archive_is_refused() {
    assert_eq!(
        decode_file((vec![0, 0], String::from("name.txt"))),
        Err(DecodeError::UnsupportedFileType)
    );
    assert_eq!(
        decode_file((vec![0, 0], String::from("nk"))),
        Err(DecodeError::UnsupportedFileType)
    );
    assert_eq!(
        DecodeError::UnsupportedFileType.message(),
        "Unsuported file type."
    );
}

#[test]
fn an_archive_without_the_end_of_its_header_is_refused() {
    let mut archive = Vec::new();
    for _ in 0..1024 {
        archive.extend([65, 0]);
    }
    assert_eq!(
        decode_file((archive, String::from("name.txt.nk"))),
        Err(DecodeError::MalformedHeader)
    );
    assert_eq!(
        decode_file((vec![104, 109, 109, 99, 108, 0, 0, 0], String::from("a.nk"))),
        Err(DecodeError::MalformedHeader)
    );
}

#[test]
fn the_decoded_file_gets_the_next_name() {
    let (path, decoded) = decode_file((vec![0, 0], String::from("dir/name_3.txt.nk"))).unwrap();
    assert_eq!(path, "dir/name_4.txt");
    assert!(decoded.is_empty());
    let (path, _) = decode_file((vec![], String::from(".nk"))).unwrap();
    assert_eq!(path, "_1");
}

#[test]
fn a_source_longer_than_the_buffer() {
    let mut dict = HashMap::new();
    dict.insert(b'a', vec![0]);
    dict.insert(b'b', vec![1, 0]);
    dict.insert(b'c', vec![1, 1, 1]);
    let source: Vec<u8> = (0..2_097_152 + 77)
        .map(|i| [b'a', b'b', b'\n', b'c', b'a'][(i * 7 + i / 5) % 5])
        .collect();
    for hamming in [None, Some(5)] {
        let mut whole = Vec::new();
        write_compressed_file(&source, &mut whole, &dict, hamming);

        let mut at_once = Vec::new();
        let mut bitmap = BitMap::new();
        let mut carry = Vec::new();
        match hamming {
            Some(k) => transform_data_to_hamming_codes(
                &mut at_once,
                &dict,
                &mut bitmap,
                &mut carry,
                &source,
                true,
                k as usize,
            ),
            None => transform_data_to_raw(&mut at_once, &dict, &mut bitmap, &source, true),
        }
        assert!(whole == at_once);
    }
    let (stats, total) = parse_file(&source);
    assert_eq!(total, stats.iter().sum::<u64>());
    assert_eq!(stats[b'\n' as usize], 0);
    assert_eq!(
        stats[b'a' as usize],
        source.iter().filter(|b| **b == b'a').count() as u64
    );
}

#[test]
fn a_body_longer_than_a_chunk() {
    let text: Vec<u8> = (0..20000).map(|i| b"abracadabra, "[(i * i + 3 * i) % 13]).collect();
    for code_type in [CodeType::Huffman, CodeType::ShannonFano] {
        for hamming in [None, Some(7), Some(120)] {
            let (_, archive) = encode_file(settings(&text, code_type, hamming));
            assert!(archive.len() > 2 * 1024);
            let (_, decoded) = decode_file((archive, String::from("x.nk"))).unwrap();
            assert_eq!(&decoded[..text.len()], &text[..]);
            assert!(decoded.len() - text.len() < 200);
        }
    }
}
