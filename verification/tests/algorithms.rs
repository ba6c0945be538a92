use std::cmp::min;
use tik::algorithms::{
    create_probability_map, create_quantity_map, hamming, huffman, shannon_fano,
};

#[test]
fn tests_test_huffman_encoding() {
    let mut stats = [0_u64; 256];
    stats[0] = 5;
    stats[1] = 9;
    stats[2] = 12;
    stats[3] = 13;
    stats[4] = 16;
    stats[5] = 45;

    let codes = huffman::encode((stats, 100));

    for (byte, code) in codes {
        println!("{byte} - {code:?}");
    }
}

#[test]
fn mod_test_huffman_encoding() {
    let mut stats = [0_u64; 256];
    stats[0] = 5;
    stats[1] = 9;
    stats[2] = 12;
    stats[3] = 13;
    stats[4] = 16;
    stats[5] = 45;

    let codes = huffman::encode((stats, 100));

    for (byte, code) in codes {
        let mut line = format!("{byte} - ");
        for bit in code {
            line = format!("{}{}", line, if bit == 1 { 1 } else { 0 });
        }
        println!("{}", line);
    }
}

#[test]
fn test_hamming_encoding() {
    let data = vec![1, 0, 1, 1, 0, 0, 1];
    let mut msg = hamming::add_parity(&data);
    assert_eq!(data, hamming::remove_parity(&mut msg));

    let data = vec![1, 1, 1, 0, 0, 1, 0, 0, 1, 0];
    msg = hamming::add_parity(&data);
    msg[2] = (1 + msg[2]) % 2; // making an error in message with parity bits
    assert_eq!(data, hamming::remove_parity(&mut msg));

    let data = vec![1, 0, 1, 1, 0, 1, 1, 0, 0, 1, 0];
    msg = hamming::add_parity(&data);
    msg[3] = (1 + msg[3]) % 2;
    assert_eq!(data, hamming::remove_parity(&mut msg));

    let data = vec![1, 1, 1, 0, 0, 1, 1, 0];
    msg = hamming::add_parity(&data);
    msg[5] = (1 + msg[5]) % 2;
    assert_eq!(data, hamming::remove_parity(&mut msg));

    let data = vec![1, 1];
    msg = hamming::add_parity(&data);
    assert_eq!(data, hamming::remove_parity(&mut msg));
}

#[test]
fn playground() {
    let total = 1000;
    let step = 210;
    for i in (0..total).step_by(step) {
        println!(
            "Stepping by {step} in {total}: {} - {}",
            i,
            min(i + step, total)
        )
    }
}

fn is_prefix(a: &[u8], b: &[u8]) -> bool {
    a.len() <= b.len() && a == &b[..a.len()]
}

fn assert_prefix_free(codes: &std::collections::HashMap<u8, Vec<u8>>) {
    for (a, code_a) in codes {
        for (b, code_b) in codes {
            if a != b {
                assert!(!is_prefix(code_a, code_b), "{a} is a prefix of {b}");
            }
        }
    }
}

#[test]
fn huffman_codes_of_six_symbols() {
    let mut stats = [0_u64; 256];
    stats[0] = 5;
    stats[1] = 9;
    stats[2] = 12;
    stats[3] = 13;
    stats[4] = 16;
    stats[5] = 45;

    let codes = huffman::encode((stats, 100));

    assert_eq!(codes.len(), 6);
    assert_eq!(codes[&0], vec![1, 1, 0, 0]);
    assert_eq!(codes[&1], vec![1, 1, 0, 1]);
    assert_eq!(codes[&2], vec![1, 0, 0]);
    assert_eq!(codes[&3], vec![1, 0, 1]);
    assert_eq!(codes[&4], vec![1, 1, 1]);
    assert_eq!(codes[&5], vec![0]);
}

#[test]
fn huffman_single_symbol_gets_one_zero_bit() {
    let mut stats = [0_u64; 256];
    stats[97] = 12;

    let codes = huffman::encode((stats, 12));

    assert_eq!(codes.len(), 1);
    assert_eq!(codes[&97], vec![0]);
}

#[test]
fn huffman_ties_go_by_byte() {
    let mut stats = [0_u64; 256];
    stats[97] = 1;
    stats[98] = 1;

    let codes = huffman::encode((stats, 2));

    assert_eq!(codes[&97], vec![0]);
    assert_eq!(codes[&98], vec![1]);
}

#[test]
fn huffman_codes_are_prefix_free() {
    let mut stats = [0_u64; 256];
    for byte in 32..256 {
        stats[byte] = ((byte * 7919) % 101 + 1) as u64;
    }
    let codes = huffman::encode((stats, 0));
    assert_eq!(codes.len(), 224);
    assert_prefix_free(&codes);
}

#[test]
fn huffman_takes_the_largest_counts() {
    let mut stats = [0_u64; 256];
    for byte in 0..256 {
        stats[byte] = u64::MAX;
    }
    let codes = huffman::encode((stats, 0));
    assert_eq!(codes.len(), 256);
    for byte in 0..=255u8 {
        assert_eq!(codes[&byte].len(), 8);
    }
    assert_prefix_free(&codes);
}

#[test]
fn shannon_fano_codes_of_four_symbols() {
    let mut stats = [0_u64; 256];
    stats[97] = 4;
    stats[98] = 2;
    stats[99] = 1;
    stats[100] = 1;

    let codes = shannon_fano::encode((stats, 8));

    assert_eq!(codes.len(), 4);
    assert_eq!(codes[&97], vec![0]);
    assert_eq!(codes[&98], vec![1, 0]);
    assert_eq!(codes[&99], vec![1, 1, 0]);
    assert_eq!(codes[&100], vec![1, 1, 1]);
}

#[test]
fn shannon_fano_ranks_equal_counts_by_byte() {
    let mut stats = [0_u64; 256];
    stats[200] = 3;
    stats[50] = 3;
    stats[120] = 9;

    let codes = shannon_fano::encode((stats, 15));

    // ranked: 120 (9), 50 (3), 200 (3); 9 outweighs what follows 50
    assert_eq!(codes[&120], vec![0]);
    assert_eq!(codes[&50], vec![1, 0]);
    assert_eq!(codes[&200], vec![1, 1]);
}

#[test]
fn shannon_fano_single_symbol_gets_no_codeword() {
    let mut stats = [0_u64; 256];
    stats[97] = 12;

    let codes = shannon_fano::encode((stats, 12));

    assert!(codes.is_empty());
}

#[test]
fn shannon_fano_codes_are_prefix_free() {
    let mut stats = [0_u64; 256];
    for byte in 32..256 {
        stats[byte] = ((byte * 104729) % 97 + 1) as u64;
    }
    let codes = shannon_fano::encode((stats, 0));
    assert_eq!(codes.len(), 224);
    assert_prefix_free(&codes);
}

#[test]
fn partition_splits_where_the_upper_part_outweighs() {
    let alphabet = vec![(1u8, 5u64), (2, 4), (3, 3), (4, 2), (5, 1)];
    // 5 does not outweigh 3 + 2 + 1, 5 + 4 outweighs 2 + 1
    assert_eq!(shannon_fano::partition(&alphabet, 0, 4), 1);
    assert_eq!(shannon_fano::partition(&alphabet, 2, 4), 2);
    assert_eq!(shannon_fano::partition(&alphabet, 3, 4), 3);
}

#[test]
fn create_probability_map_ranks_by_count() {
    let mut stats = [0_u64; 256];
    stats[10] = 2;
    stats[20] = 7;
    stats[30] = 2;
    stats[40] = 9;
    assert_eq!(
        create_probability_map(&stats),
        vec![(40, 9), (20, 7), (10, 2), (30, 2)]
    );
}

#[test]
fn create_quantity_map_lists_every_byte() {
    let mut stats = [0_u64; 256];
    stats[7] = 3;
    let map = create_quantity_map(&stats);
    assert_eq!(map.len(), 256);
    assert_eq!(map[7].byte, 7);
    assert_eq!(map[7].quantity, 3);
    assert_eq!(map[8].byte, 8);
    assert_eq!(map[8].quantity, 0);
}

#[test]
fn hamming_lengths() {
    assert_eq!(hamming::message_length(1), 3);
    assert_eq!(hamming::message_length(2), 5);
    assert_eq!(hamming::message_length(4), 7);
    assert_eq!(hamming::message_length(7), 11);
    assert_eq!(hamming::message_length(11), 15);
    assert_eq!(hamming::message_length(12), 17);
    assert_eq!(hamming::message_length(250), 259);
    assert_eq!(hamming::data_length(3), 1);
    assert_eq!(hamming::data_length(7), 4);
    assert_eq!(hamming::data_length(8), 4);
    assert_eq!(hamming::data_length(15), 11);
    assert_eq!(hamming::data_length(259), 250);
    assert_eq!(hamming::data_length(0), 0);
}

#[test]
fn hamming_block_of_seven_bits() {
    let data = vec![1, 0, 1, 1, 0, 0, 1];
    assert_eq!(
        hamming::data_to_message(&data),
        vec![1, 0, 1, 255, 1, 0, 0, 255, 1, 255, 255]
    );
    let message = hamming::add_parity(&data);
    assert_eq!(message, vec![1, 0, 1, 0, 1, 0, 0, 1, 1, 1, 0]);
    assert_eq!(hamming::check_for_erros(&message), vec![0, 0, 0, 0]);
    assert_eq!(hamming::message_to_data(&message), data);
}

#[test]
fn hamming_syndrome_names_the_distance_from_the_end() {
    let data = vec![1, 0, 1, 1, 0, 0, 1];
    let mut message = hamming::add_parity(&data);
    // index 4 of 11 bits is at distance 7
    message[4] = 0;
    let syndrome = hamming::check_for_erros(&message);
    assert_eq!(syndrome, vec![1, 1, 1, 0]);
    hamming::correct_error(&mut message, &syndrome);
    assert_eq!(message, vec![1, 0, 1, 0, 1, 0, 0, 1, 1, 1, 0]);
}

#[test]
fn hamming_leaves_a_block_that_names_no_bit() {
    let mut message = vec![1, 1, 0];
    // the syndrome spells 4, and the block has three bits
    hamming::correct_error(&mut message, &vec![0, 0, 1]);
    assert_eq!(message, vec![1, 1, 0]);
    hamming::correct_error(&mut message, &vec![0, 0, 0]);
    assert_eq!(message, vec![1, 1, 0]);
}

#[test]
fn hamming_corrects_any_single_error() {
    for k in 1..=250usize {
        let data: Vec<u8> = (0..k).map(|i| ((i * 7 + k) % 3 == 0) as u8).collect();
        let encoded = hamming::add_parity(&data);
        assert_eq!(encoded.len(), hamming::message_length(k));
        let mut clean = encoded.clone();
        assert_eq!(hamming::remove_parity(&mut clean), data);
        assert_eq!(clean, encoded);
        for e in 0..encoded.len() {
            let mut damaged = encoded.clone();
            damaged[e] = (1 + damaged[e]) % 2;
            assert_eq!(hamming::remove_parity(&mut damaged), data, "k = {k}, e = {e}");
            assert_eq!(damaged, encoded);
        }
    }
}

#[test]
fn hamming_packages() {
    let package = vec![1, 0, 1, 1, 0, 1];
    // payloads 1011 and 01, the second filled up to 0100
    let mut encoded = hamming::add_parity_package(&package, 4);
    let mut expected = hamming::add_parity(&[1, 0, 1, 1]);
    expected.extend(hamming::add_parity(&[0, 1, 0, 0]));
    assert_eq!(encoded, expected);
    assert_eq!(encoded.len(), 14);
    encoded[9] = (1 + encoded[9]) % 2;
    assert_eq!(
        hamming::remove_parity_package(&mut encoded, 7),
        vec![1, 0, 1, 1, 0, 1, 0, 0]
    );
    assert_eq!(encoded, expected);
    assert_eq!(hamming::add_parity_package(&[], 4), Vec::<u8>::new());
}
