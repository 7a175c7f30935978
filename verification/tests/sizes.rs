use spacehog::args::parse_size;
use spacehog::text::{chars_of, digit, is_letter_of, letter, space};

#[test]
fn parses_megabytes() {
    assert_eq!(parse_size("100MB"), Some(100_000_000));
}

#[test]
fn parses_gigabytes() {
    assert_eq!(parse_size("1GB"), Some(1_000_000_000));
}

#[test]
fn parses_plain_bytes() {
    assert_eq!(parse_size("1024"), Some(1024));
}

#[test]
fn parses_fraction_of_kilobytes() {
    assert_eq!(parse_size("2.5K"), Some(2500));
}

#[test]
fn refuses_letters_without_number() {
    assert_eq!(parse_size("xyz"), None);
}

#[test]
fn parses_small_letters() {
    assert_eq!(parse_size("1tb"), Some(1_000_000_000_000));
}

#[test]
fn every_unit_has_its_power() {
    assert_eq!(parse_size("3"), Some(3));
    assert_eq!(parse_size("3K"), Some(3_000));
    assert_eq!(parse_size("3kb"), Some(3_000));
    assert_eq!(parse_size("3M"), Some(3_000_000));
    assert_eq!(parse_size("3mB"), Some(3_000_000));
    assert_eq!(parse_size("3g"), Some(3_000_000_000));
    assert_eq!(parse_size("3Gb"), Some(3_000_000_000));
    assert_eq!(parse_size("3T"), Some(3_000_000_000_000));
    assert_eq!(parse_size("3TB"), Some(3_000_000_000_000));
}

#[test]
fn white_space_may_stand_around_and_between() {
    assert_eq!(parse_size("  100 MB  "), Some(100_000_000));
    assert_eq!(parse_size("\t7\u{a0}k\n"), Some(7_000));
    assert_eq!(parse_size(" 42 "), Some(42));
}

#[test]
fn white_space_inside_number_or_unit_is_refused() {
    assert_eq!(parse_size("1 0K"), None);
    assert_eq!(parse_size("1K B"), None);
    assert_eq!(parse_size("+ 5"), None);
}

#[test]
fn other_units_are_refused() {
    assert_eq!(parse_size("1P"), None);
    assert_eq!(parse_size("1KBB"), None);
    assert_eq!(parse_size("1KiB"), None);
    assert_eq!(parse_size("1B"), None);
    assert_eq!(parse_size("1e3"), None);
    assert_eq!(parse_size("KB"), None);
}

#[test]
fn number_needs_a_digit() {
    assert_eq!(parse_size(""), None);
    assert_eq!(parse_size("   "), None);
    assert_eq!(parse_size("."), None);
    assert_eq!(parse_size("+"), None);
    assert_eq!(parse_size("-.K"), None);
    assert_eq!(parse_size("1.2.3"), None);
    assert_eq!(parse_size("1,5K"), None);
    assert_eq!(parse_size("\u{661}"), None);
}

#[test]
fn full_stop_may_stand_first_or_last() {
    assert_eq!(parse_size("5."), Some(5));
    assert_eq!(parse_size(".5K"), Some(500));
    assert_eq!(parse_size("5.M"), Some(5_000_000));
}

#[test]
fn sign_is_read() {
    assert_eq!(parse_size("+5K"), Some(5_000));
    assert_eq!(parse_size("-5K"), Some(0));
    assert_eq!(parse_size("-0"), Some(0));
}

#[test]
fn fractions_of_a_byte_are_dropped() {
    assert_eq!(parse_size("1.9999"), Some(1));
    assert_eq!(parse_size("0.0009K"), Some(0));
    assert_eq!(parse_size("0.0019K"), Some(1));
    assert_eq!(parse_size("1.2345678K"), Some(1234));
    assert_eq!(parse_size("0.000000000001T"), Some(1));
    assert_eq!(parse_size("0.0000000000009T"), Some(0));
    assert_eq!(parse_size("0.29K"), Some(290));
}

#[test]
fn large_values_stop_at_the_largest_number() {
    assert_eq!(parse_size("18446744073709551615"), Some(u64::MAX));
    assert_eq!(parse_size("18446744073709551614"), Some(u64::MAX - 1));
    assert_eq!(parse_size("18446744073709551616"), Some(u64::MAX));
    assert_eq!(parse_size("99999999999999999999999999999999999999999999T"), Some(u64::MAX));
    assert_eq!(parse_size("18446744.073709551615T"), Some(u64::MAX));
    assert_eq!(parse_size("18446744.073709551614T"), Some(u64::MAX - 1));
    assert_eq!(parse_size("18446745T"), Some(u64::MAX));
}

#[test]
fn leading_zeros_do_not_count() {
    assert_eq!(parse_size("000000000000000000000000000012"), Some(12));
    assert_eq!(parse_size("007K"), Some(7_000));
}

#[test]
fn characters_fall_into_their_classes() {
    for c in [' ', '\t', '\n', '\r', '\u{b}', '\u{c}', '\u{85}', '\u{a0}', '\u{1680}', '\u{2000}',
        '\u{200a}', '\u{2028}', '\u{2029}', '\u{202f}', '\u{205f}', '\u{3000}']
    {
        assert!(space(c));
        assert!(c.is_whitespace());
    }
    for c in ['a', '0', '.', '\u{200b}', '\u{8}', '\u{e}', '\u{1681}', '\u{feff}'] {
        assert!(!space(c));
        assert!(!c.is_whitespace());
    }
    assert!(digit('0') && digit('9') && !digit('/') && !digit(':') && !digit('\u{661}'));
    assert!(letter('a') && letter('z') && letter('A') && letter('Z'));
    assert!(!letter('@') && !letter('[') && !letter('`') && !letter('{') && !letter('\u{e9}'));
    assert!(is_letter_of('k', 'K') && is_letter_of('K', 'K'));
    assert!(!is_letter_of('M', 'K') && !is_letter_of('+', 'K') && !is_letter_of('\u{212a}', 'K'));
}

#[test]
fn chars_of_gives_every_character() {
    assert_eq!(chars_of(""), Vec::<char>::new());
    assert_eq!(chars_of("1\u{e9}K"), vec!['1', '\u{e9}', 'K']);
}
