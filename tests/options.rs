use passgen::args::{parse_options, CliError, Options};
use passgen::number::{parse_i32, IntErrorKind};

fn strings(items: &[&str]) -> Vec<String> {
    items.iter().map(|s| String::from(*s)).collect()
}

fn std_kind(text: &str) -> Result<i32, IntErrorKind> {
    match text.parse::<i32>() {
        Ok(n) => Ok(n),
        Err(e) => Err(match e.kind() {
            std::num::IntErrorKind::Empty => IntErrorKind::Empty,
            std::num::IntErrorKind::InvalidDigit => IntErrorKind::InvalidDigit,
            std::num::IntErrorKind::PosOverflow => IntErrorKind::PosOverflow,
            std::num::IntErrorKind::NegOverflow => IntErrorKind::NegOverflow,
            _ => unreachable!(),
        }),
    }
}

#[test]
fn parse_i32_reads_decimals() {
    assert_eq!(parse_i32("16"), Ok(16));
    assert_eq!(parse_i32("+16"), Ok(16));
    assert_eq!(parse_i32("-1"), Ok(-1));
    assert_eq!(parse_i32("007"), Ok(7));
    assert_eq!(parse_i32("2147483647"), Ok(i32::MAX));
    assert_eq!(parse_i32("-2147483648"), Ok(i32::MIN));
}

#[test]
fn parse_i32_reports_each_error() {
    assert_eq!(parse_i32(""), Err(IntErrorKind::Empty));
    assert_eq!(parse_i32("-"), Err(IntErrorKind::InvalidDigit));
    assert_eq!(parse_i32("+"), Err(IntErrorKind::InvalidDigit));
    assert_eq!(parse_i32("1a"), Err(IntErrorKind::InvalidDigit));
    assert_eq!(parse_i32(" 1"), Err(IntErrorKind::InvalidDigit));
    assert_eq!(parse_i32("2147483648"), Err(IntErrorKind::PosOverflow));
    assert_eq!(parse_i32("-2147483649"), Err(IntErrorKind::NegOverflow));
    assert_eq!(parse_i32("99999999999x"), Err(IntErrorKind::PosOverflow));
}

#[test]
fn parse_i32_agrees_with_std() {
    let cases = [
        "", "0", "-0", "+0", "12", "-12", "+-1", "--1", "1-", "٣", "1_000", "4294967296",
        "-99999999999", "+2147483647", "-2147483648", "2147483650", "12a45678901234", "x",
        "00000000000000000001",
    ];
    for c in cases {
        assert_eq!(parse_i32(c), std_kind(c), "text {:?}", c);
    }
}

#[test]
fn options_without_arguments() {
    assert_eq!(parse_options(&strings(&["passt"])), Err(CliError::NoArguments));
}

#[test]
fn options_with_length_only() {
    let got = parse_options(&strings(&["passt", "-l", "8"]));
    assert_eq!(
        got,
        Ok(Options {
            length: 8,
            count: 1,
            custom_set: String::new(),
            with_special_chars: false,
        })
    );
}

#[test]
fn options_with_everything() {
    let got = parse_options(&strings(&["passt", "-s", "-n", "3", "-chars", "xy", "-l", "4"]));
    assert_eq!(
        got,
        Ok(Options {
            length: 4,
            count: 3,
            custom_set: String::from("xy"),
            with_special_chars: true,
        })
    );
}

#[test]
fn options_count_falls_back_to_one() {
    let got = parse_options(&strings(&["passt", "-l", "4", "-n", "many"])).unwrap();
    assert_eq!(got.count, 1);
}

#[test]
fn options_length_errors() {
    assert_eq!(
        parse_options(&strings(&["passt", "-s"])),
        Err(CliError::InvalidLength(IntErrorKind::Empty))
    );
    assert_eq!(
        parse_options(&strings(&["passt", "-l", "abc"])),
        Err(CliError::InvalidLength(IntErrorKind::InvalidDigit))
    );
    assert_eq!(
        parse_options(&strings(&["passt", "-l"])),
        Err(CliError::MissingValue(String::from("-l")))
    );
}

#[test]
fn options_missing_values_after_length() {
    assert_eq!(
        parse_options(&strings(&["passt", "-l", "5", "-n"])),
        Err(CliError::MissingValue(String::from("-n")))
    );
    assert_eq!(
        parse_options(&strings(&["passt", "-l", "5", "-chars"])),
        Err(CliError::MissingValue(String::from("-chars")))
    );
}

#[test]
fn options_negative_length_is_read() {
    let got = parse_options(&strings(&["passt", "-l", "-1"])).unwrap();
    assert_eq!(got.length, -1);
}
