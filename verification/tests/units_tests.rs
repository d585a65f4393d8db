use ratio_spoof_core::units::{size_parts, speed_parts, split_size_input, split_speed_input, trim_chars, SizeInput};

fn scaled(v: &str, m: u64) -> SizeInput {
    SizeInput::Scaled(v.to_string(), m)
}

#[test]
fn sizes_are_split_into_number_and_unit() {
    assert_eq!(split_size_input("  50% "), SizeInput::Percent("50".to_string()));
    assert_eq!(split_size_input("5GB"), scaled("5", 1 << 30));
    assert_eq!(split_size_input("1TB"), scaled("1", 1 << 40));
    assert_eq!(split_size_input("3mb"), scaled("3", 1 << 20));
    assert_eq!(split_size_input("10 kb"), scaled("10 ", 1024));
    assert_eq!(split_size_input("7B"), scaled("7", 1));
    assert_eq!(split_size_input("123"), scaled("123", 1));
    assert_eq!(split_size_input("\u{2003}2.5Gb\t"), scaled("2.5", 1 << 30));
}

#[test]
fn size_parts_of_bare_units() {
    assert_eq!(size_parts("kb"), scaled("", 1024));
    assert_eq!(size_parts("%"), SizeInput::Percent(String::new()));
    assert_eq!(size_parts(""), scaled("", 1));
}

#[test]
fn speeds_are_split_into_number_and_bytes_per_second() {
    assert_eq!(split_speed_input("100"), ("100".to_string(), 1024));
    assert_eq!(split_speed_input("8 Mbps"), ("8 ".to_string(), 131072));
    assert_eq!(split_speed_input("5KBPS"), ("5".to_string(), 128));
    assert_eq!(split_speed_input(" 2MB/s"), ("2".to_string(), 1048576));
    assert_eq!(split_speed_input("3kb/s\n"), ("3".to_string(), 1024));
    assert_eq!(speed_parts("kbps"), (String::new(), 128));
}

#[test]
fn trimming_removes_unicode_white_space_at_both_ends() {
    let s: Vec<char> = "\u{a0} a b \u{3000}".chars().collect();
    assert_eq!(trim_chars(&s), vec!['a', ' ', 'b']);
    let blank: Vec<char> = " \t\n".chars().collect();
    assert_eq!(trim_chars(&blank), Vec::<char>::new());
}
