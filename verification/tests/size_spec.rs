use sizr::size_spec::{parse_size, SizeSpecError};

#[test]
fn zero_means_no_threshold() {
    assert_eq!(parse_size("0"), Ok(0));
}

#[test]
fn kilobytes_are_binary() {
    assert_eq!(parse_size("500KB"), Ok(512_000));
}

#[test]
fn gigabytes_are_binary() {
    assert_eq!(parse_size("2GB"), Ok(2_147_483_648));
}

#[test]
fn no_unit_means_bytes() {
    assert_eq!(parse_size("10"), Ok(10));
    assert_eq!(parse_size("10B"), Ok(10));
}

#[test]
fn unknown_unit_is_an_error() {
    assert_eq!(parse_size("5XB"), Err(SizeSpecError::UnknownUnit));
    assert_eq!(parse_size("5K"), Err(SizeSpecError::UnknownUnit));
    assert_eq!(parse_size("5KBS"), Err(SizeSpecError::UnknownUnit));
    assert_eq!(parse_size("5PB"), Err(SizeSpecError::UnknownUnit));
    assert_eq!(parse_size("5KiB"), Err(SizeSpecError::UnknownUnit));
    assert_eq!(parse_size("1e3"), Err(SizeSpecError::UnknownUnit));
}

#[test]
fn every_unit_has_its_multiplier() {
    assert_eq!(parse_size("1B"), Ok(1));
    assert_eq!(parse_size("1KB"), Ok(1024));
    assert_eq!(parse_size("1MB"), Ok(1024 * 1024));
    assert_eq!(parse_size("1GB"), Ok(1024 * 1024 * 1024));
    assert_eq!(parse_size("1TB"), Ok(1_099_511_627_776));
}

#[test]
fn units_are_read_in_either_case() {
    assert_eq!(parse_size("3kb"), Ok(3072));
    assert_eq!(parse_size("3Kb"), Ok(3072));
    assert_eq!(parse_size("3kB"), Ok(3072));
    assert_eq!(parse_size("7b"), Ok(7));
    assert_eq!(parse_size("2mb"), Ok(2 * 1024 * 1024));
    assert_eq!(parse_size("2gb"), Ok(2_147_483_648));
    assert_eq!(parse_size("1tb"), Ok(1_099_511_627_776));
}

#[test]
fn fractions_are_rounded_down() {
    assert_eq!(parse_size("1.5KB"), Ok(1536));
    assert_eq!(parse_size("0.1KB"), Ok(102));
    assert_eq!(parse_size("2.5"), Ok(2));
    assert_eq!(parse_size("0.999B"), Ok(0));
    assert_eq!(parse_size(".5KB"), Ok(512));
    assert_eq!(parse_size("5."), Ok(5));
    assert_eq!(parse_size("1.25MB"), Ok(1_310_720));
    assert_eq!(parse_size("0.0009765625KB"), Ok(1));
    assert_eq!(parse_size("0.0009765624KB"), Ok(0));
}

#[test]
fn long_fractions_are_exact() {
    assert_eq!(parse_size("0.99999999999999999999999999999999KB"), Ok(1023));
    assert_eq!(parse_size("0.33333333333333333333333333333333333333333333TB"), Ok(366_503_875_925));
    assert_eq!(parse_size("1.00000000000000000000000000000000000000000000GB"), Ok(1_073_741_824));
}

#[test]
fn what_is_no_number_is_an_error() {
    assert_eq!(parse_size(""), Err(SizeSpecError::InvalidNumber));
    assert_eq!(parse_size("KB"), Err(SizeSpecError::InvalidNumber));
    assert_eq!(parse_size("abc"), Err(SizeSpecError::InvalidNumber));
    assert_eq!(parse_size("."), Err(SizeSpecError::InvalidNumber));
    assert_eq!(parse_size(".KB"), Err(SizeSpecError::InvalidNumber));
    assert_eq!(parse_size("+"), Err(SizeSpecError::InvalidNumber));
    assert_eq!(parse_size("-"), Err(SizeSpecError::InvalidNumber));
    assert_eq!(parse_size("1.2.3"), Err(SizeSpecError::InvalidNumber));
    assert_eq!(parse_size("5 KB"), Err(SizeSpecError::InvalidNumber));
    assert_eq!(parse_size(" 5"), Err(SizeSpecError::InvalidNumber));
    assert_eq!(parse_size("1_000"), Err(SizeSpecError::InvalidNumber));
    assert_eq!(parse_size("1,5KB"), Err(SizeSpecError::InvalidNumber));
    assert_eq!(parse_size("--5"), Err(SizeSpecError::InvalidNumber));
    assert_eq!(parse_size("5-"), Err(SizeSpecError::InvalidNumber));
}

#[test]
fn the_number_is_judged_before_the_unit() {
    assert_eq!(parse_size("XB"), Err(SizeSpecError::InvalidNumber));
    assert_eq!(parse_size("1.2.3XB"), Err(SizeSpecError::InvalidNumber));
}

#[test]
fn a_sign_is_accepted() {
    assert_eq!(parse_size("+3MB"), Ok(3 * 1024 * 1024));
    assert_eq!(parse_size("+0"), Ok(0));
    assert_eq!(parse_size("+.5KB"), Ok(512));
}

#[test]
fn a_negative_size_means_no_bytes() {
    assert_eq!(parse_size("-5"), Ok(0));
    assert_eq!(parse_size("-0"), Ok(0));
    assert_eq!(parse_size("-1.5GB"), Ok(0));
    assert_eq!(parse_size("-5XB"), Err(SizeSpecError::UnknownUnit));
}

#[test]
fn sizes_beyond_the_largest_are_the_largest() {
    assert_eq!(parse_size("18446744073709551615"), Ok(u64::MAX));
    assert_eq!(parse_size("18446744073709551614"), Ok(u64::MAX - 1));
    assert_eq!(parse_size("18446744073709551616"), Ok(u64::MAX));
    assert_eq!(parse_size("99999999999999999999999999999999"), Ok(u64::MAX));
    assert_eq!(parse_size("99999999TB"), Ok(u64::MAX));
    assert_eq!(parse_size("16777216TB"), Ok(u64::MAX));
    assert_eq!(parse_size("16777215TB"), Ok(16_777_215 * 1_099_511_627_776));
    assert_eq!(parse_size("16777215.5TB"), Ok(18_446_743_523_953_737_728));
    assert_eq!(parse_size("16777215.9999999999999TB"), Ok(u64::MAX));
}

#[test]
fn large_numbers_are_read_to_the_last_digit() {
    assert_eq!(parse_size("9007199254740993"), Ok(9_007_199_254_740_993));
}

#[test]
fn leading_zeros_do_not_count() {
    assert_eq!(parse_size("000"), Ok(0));
    assert_eq!(parse_size("0010KB"), Ok(10_240));
    assert_eq!(parse_size("00000000000000000000000000000001"), Ok(1));
}

#[test]
fn letters_of_other_alphabets_are_no_unit() {
    assert_eq!(parse_size("5\u{212A}B"), Err(SizeSpecError::InvalidNumber));
    assert_eq!(parse_size("\u{0665}"), Err(SizeSpecError::InvalidNumber));
}
