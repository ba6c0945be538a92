use tik::utils::naming::{can_increment_file_index, find_char, increment_file_index, parse_index};

#[test]
fn a_name_without_a_number_gets_the_first() {
    assert_eq!(increment_file_index("name.txt"), "name_1.txt");
    assert_eq!(increment_file_index("name"), "name_1");
    assert_eq!(increment_file_index("/tmp/data/name.tar.gz"), "/tmp/data/name_1.tar.gz");
    assert_eq!(increment_file_index(""), "_1");
}

#[test]
fn a_number_is_raised_by_one() {
    assert_eq!(increment_file_index("name_1.txt"), "name_2.txt");
    assert_eq!(increment_file_index("name_9.txt"), "name_10.txt");
    assert_eq!(increment_file_index("name_0099.txt"), "name_100.txt");
    assert_eq!(increment_file_index("name_+41"), "name_42");
    assert_eq!(increment_file_index("name_-5.txt"), "name_-4.txt");
    assert_eq!(increment_file_index("name_-1.txt"), "name_0.txt");
    assert_eq!(increment_file_index("name_2147483646.x"), "name_2147483647.x");
    assert_eq!(increment_file_index("name_-2147483648.x"), "name_-2147483647.x");
}

#[test]
fn what_spells_no_number_counts_as_zero() {
    assert_eq!(increment_file_index("name_old.txt"), "name_1.txt");
    assert_eq!(increment_file_index("name_.txt"), "name_1.txt");
    assert_eq!(increment_file_index("my_file_3.txt"), "my_1.txt");
    assert_eq!(increment_file_index("name_2147483648.x"), "name_1.x");
    assert_eq!(increment_file_index("name_-.x"), "name_1.x");
}

#[test]
fn names_without_a_next_one() {
    assert!(can_increment_file_index("name.txt"));
    assert!(can_increment_file_index("name_7.txt"));
    assert!(can_increment_file_index("name_x.txt"));
    assert!(!can_increment_file_index("name.old_1"));
    assert!(!can_increment_file_index("/home/my.dir/file_1.txt"));
    assert!(!can_increment_file_index("name_2147483647.txt"));
    assert!(can_increment_file_index("name_2147483648.txt"));
}

#[test]
fn numbers_as_they_are_spelled() {
    assert_eq!(parse_index("0"), Some(0));
    assert_eq!(parse_index("12"), Some(12));
    assert_eq!(parse_index("+12"), Some(12));
    assert_eq!(parse_index("-12"), Some(-12));
    assert_eq!(parse_index("-0"), Some(0));
    assert_eq!(parse_index("2147483647"), Some(2147483647));
    assert_eq!(parse_index("-2147483648"), Some(-2147483648));
    assert_eq!(parse_index("2147483648"), None);
    assert_eq!(parse_index("-2147483649"), None);
    assert_eq!(parse_index("99999999999999999999999"), None);
    assert_eq!(parse_index(""), None);
    assert_eq!(parse_index("+"), None);
    assert_eq!(parse_index("-"), None);
    assert_eq!(parse_index("1a"), None);
    assert_eq!(parse_index(" 1"), None);
    assert_eq!(parse_index("--1"), None);
    for text in ["0", "7", "+7", "-7", "007", "2147483647", "2147483648", "x", "", "12 "] {
        assert_eq!(parse_index(text), text.parse::<i32>().ok());
    }
}

#[test]
fn the_first_place_of_a_character() {
    assert_eq!(find_char("a.b.c", '.'), 1);
    assert_eq!(find_char("abc", '.'), 3);
    assert_eq!(find_char("", '.'), 0);
    assert_eq!(find_char("äö_ü", '_'), 2);
}
