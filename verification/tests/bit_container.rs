use tik::bit_container::BitContainer;
use tik::bit_map::BitMap;

#[test]
fn mod_test_bit_container() {
    let mut cont = BitContainer::new();

    cont.add_bit(true);
    cont.add_bit(true);
    cont.add_bit(false);
    cont.add_bit(true);
    cont.add_bit(true);
    cont.add_bit(true);
    cont.add_bit(false);
    cont.add_bit(false);

    assert_eq!(cont.get_bytes(1), [59]);

    cont.add_bit(false);
    cont.add_bit(true);
    cont.add_bit(false);
    cont.add_bit(true);
    cont.add_bit(false);
    cont.add_bit(true);
    cont.add_bit(false);
    cont.add_bit(true);

    assert_eq!(cont.get_bytes(4), [59, 170]);

    cont.add_bit(true);
    cont.add_bit(true);
    cont.add_bit(false);
    cont.add_bit(true);
    cont.add_bit(false);
    cont.add_bit(true);
    cont.add_bit(true);
    cont.add_bit(true);

    assert_eq!(cont.get_bytes(4), [59, 170, 235]);

    cont.add_bit(true);
    cont.add_bit(true);

    assert_eq!(cont.get_bytes(4), [59, 170, 235]);

    cont.finish();

    assert_eq!(cont.get_bytes(4), [59, 170, 235, 3]);
}

#[test]
fn tests_test_bit_container() {
    let mut cont = BitMap::new();

    cont.add_bit(1);
    cont.add_bit(1);
    cont.add_bit(0);
    cont.add_bit(1);
    cont.add_bit(1);
    cont.add_bit(1);
    cont.add_bit(0);
    cont.add_bit(0);

    assert_eq!(cont.get_bytes(1), [59]);

    cont.add_bit(0);
    cont.add_bit(1);
    cont.add_bit(0);
    cont.add_bit(1);
    cont.add_bit(0);
    cont.add_bit(1);
    cont.add_bit(0);
    cont.add_bit(1);

    assert_eq!(cont.get_bytes(4), [59, 170]);

    cont.add_bit(1);
    cont.add_bit(1);
    cont.add_bit(0);
    cont.add_bit(1);
    cont.add_bit(0);
    cont.add_bit(1);
    cont.add_bit(1);
    cont.add_bit(1);

    assert_eq!(cont.get_bytes(4), [59, 170, 235]);

    cont.add_bit(1);
    cont.add_bit(1);

    assert_eq!(cont.get_bytes(4), [59, 170, 235]);
}

#[test]
fn bit_map_packs_the_first_bit_lowest() {
    let mut map = BitMap::new();
    map.add_bit_sequence(&vec![1, 0, 0, 0, 0, 0, 0, 0, 0, 1]);
    assert_eq!(map.get_all_bytes(), [1]);
    assert_eq!(map.bytes_reserved(), 1);
    // anything but 1 is a clear bit
    map.add_bit_sequence(&vec![2, 255, 1, 1, 1, 1]);
    assert_eq!(map.get_all_bytes(), [1, 0b1111_0010]);
    assert_eq!(
        map.get_all_bits(),
        vec![1, 0, 0, 0, 0, 0, 0, 0, 0, 1, 0, 0, 1, 1, 1, 1]
    );
    assert_eq!(map.get_bits(3), vec![1, 0, 0]);
    assert_eq!(map.get_bits(10), vec![1, 0, 0, 0, 0, 0, 0, 0, 0, 1]);
    assert_eq!(map.get_bits(99).len(), 16);
    assert_eq!(map.get_bytes(0), []);
    assert_eq!(map.get_bytes(1), [1]);
    assert_eq!(map.get_bytes(2), [1, 0b1111_0010]);
    assert_eq!(BitMap::new().get_bits(0), Vec::<u8>::new());
    assert_eq!(map.get_bits(0), Vec::<u8>::new());
    assert_eq!(map.get_bits(16), map.get_all_bits());
    assert_eq!(map.bytes_reserved(), 2);
}

#[test]
fn bit_map_takes_codes_and_bytes() {
    let mut map = BitMap::new();
    map.add_code("1101 x1");
    assert_eq!(map.bytes_reserved(), 0);
    map.add_code("1");
    assert_eq!(map.get_all_bytes(), [0b1100_1011]);
    map.add_byte(7);
    map.add_bytes(&[8, 9]);
    assert_eq!(map.get_all_bytes(), [0b1100_1011, 7, 8, 9]);
    map.clear();
    assert_eq!(map.bytes_reserved(), 0);
    assert_eq!(map.get_all_bits(), Vec::<u8>::new());
}

#[test]
fn bit_map_flushes() {
    let mut map = BitMap::new();
    let mut file = vec![42];
    map.add_bit_sequence(&vec![1, 1, 1, 1, 1, 1, 1, 1, 1, 0, 1]);
    map.flush_filled_to_file(&mut file);
    assert_eq!(file, vec![42, 255]);
    assert_eq!(map.bytes_reserved(), 0);
    // the pending bits go on
    map.add_bit_sequence(&vec![0, 0, 0, 0, 1, 1]);
    map.flush_filled_to_file(&mut file);
    assert_eq!(file, vec![42, 255, 0b1000_0101]);
    map.flush_to_file(&mut file);
    assert_eq!(file, vec![42, 255, 0b1000_0101, 1]);
    map.flush_to_file(&mut file);
    assert_eq!(file, vec![42, 255, 0b1000_0101, 1]);
    map.add_bit(0);
    map.flush_to_file(&mut file);
    assert_eq!(file, vec![42, 255, 0b1000_0101, 1, 0]);
}

#[test]
fn containers_from_bits() {
    let map = BitMap::from_bits(vec![1, 1, 0, 1, 1, 1, 0, 0, 1]);
    assert_eq!(map.get_all_bytes(), [59]);
    let map = BitMap::from_bools(vec![true, true, false, true, true, true, false, false]);
    assert_eq!(map.get_all_bytes(), [59]);
    let cont = BitContainer::from_bits(vec![1, 7, 0, 1, 1, 1, 0, 0]);
    assert_eq!(cont.get_all_bytes(), [59]);
    let cont = BitContainer::from_bools(vec![true, true, false, true, true, true, false, false]);
    assert_eq!(cont.get_all_bytes(), [59]);
    assert_eq!(
        cont.get_bits(),
        vec![true, true, false, true, true, true, false, false]
    );
}

#[test]
fn containers_as_text() {
    assert_eq!(BitMap::new().to_string(), "0");
    assert_eq!(BitContainer::new().to_string(), "0");
    let map = BitMap::from_bits(vec![1, 1, 0, 1, 1, 1, 0, 0, 0, 1, 0, 1, 0, 1, 0, 1, 1]);
    assert_eq!(map.to_string(), "1101'1100 0101'0101 ");
    let mut cont = BitContainer::new();
    cont.add_code(&vec![true, false, true]);
    assert_eq!(cont.to_string(), "0");
    cont.finish();
    assert_eq!(cont.to_string(), "1010'0000 ");
}

#[test]
fn bit_container_keeps_a_byte_of_clear_bits() {
    let mut cont = BitContainer::new();
    for bit in [true, true, false, true, true, true, false, false] {
        cont.add_bit(bit);
    }
    for _ in 0..8 {
        cont.add_bit(false);
    }
    assert_eq!(cont.get_all_bytes(), [59, 0]);

    let mut cont = BitContainer::new();
    cont.add_code(&vec![false; 8]);
    assert_eq!(cont.get_all_bytes(), [0]);
    cont.add_code(&vec![false; 8]);
    assert_eq!(cont.get_all_bytes(), [0, 0]);
    cont.add_code(&vec![false, false, false, false, false, false, false, true]);
    assert_eq!(cont.get_all_bytes(), [0, 0, 128]);
    // no bit is pending: nothing is added
    cont.finish();
    assert_eq!(cont.get_all_bytes(), [0, 0, 128]);
    assert_eq!(cont.bytes_reserved(), 3);
    // clear bits that are pending make a byte
    cont.add_code(&vec![false, false, false]);
    cont.finish();
    assert_eq!(cont.get_all_bytes(), [0, 0, 128, 0]);
    // a container that holds nothing gets one zero byte
    let mut empty = BitContainer::new();
    empty.finish();
    assert_eq!(empty.get_all_bytes(), [0]);
    empty.finish();
    assert_eq!(empty.get_all_bytes(), [0]);
}

fn add_bool(cont: &mut BitMap, bit: bool) {
    cont.add_bit(if bit { 1 } else { 0 });
}

#[test]
fn test_bit_container() {
    let mut cont = BitMap::new();

    add_bool(&mut cont, true);
    add_bool(&mut cont, true);
    add_bool(&mut cont, false);
    add_bool(&mut cont, true);
    add_bool(&mut cont, true);
    add_bool(&mut cont, true);
    add_bool(&mut cont, false);
    add_bool(&mut cont, false);

    assert_eq!(cont.get_bytes(1), [59]);

    add_bool(&mut cont, false);
    add_bool(&mut cont, true);
    add_bool(&mut cont, false);
    add_bool(&mut cont, true);
    add_bool(&mut cont, false);
    add_bool(&mut cont, true);
    add_bool(&mut cont, false);
    add_bool(&mut cont, true);

    assert_eq!(cont.get_bytes(4), [59, 170]);

    add_bool(&mut cont, true);
    add_bool(&mut cont, true);
    add_bool(&mut cont, false);
    add_bool(&mut cont, true);
    add_bool(&mut cont, false);
    add_bool(&mut cont, true);
    add_bool(&mut cont, true);
    add_bool(&mut cont, true);

    assert_eq!(cont.get_bytes(4), [59, 170, 235]);

    add_bool(&mut cont, true);
    add_bool(&mut cont, true);

    assert_eq!(cont.get_bytes(4), [59, 170, 235]);
}

#[test]
fn bit_container_flushes() {
    let mut cont = BitContainer::new();
    cont.add_code(&vec![true, true, false, true, true, true, false, false, true]);
    let mut file = vec![1];
    cont.flush_to_file(&mut file);
    assert_eq!(file, vec![1, 59, 1]);
    assert_eq!(cont.bytes_reserved(), 0);
    cont.flush_to_file(&mut file);
    assert_eq!(file, vec![1, 59, 1, 0]);
    cont.add_code(&vec![false; 11]);
    cont.flush_to_file(&mut file);
    assert_eq!(file, vec![1, 59, 1, 0, 0, 0]);
}
