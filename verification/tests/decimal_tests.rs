use station_stats::decimal::Decimal;
use station_stats::PipelineError;

fn tenths_of(bytes: &[u8]) -> i16 {
    Decimal::parse(bytes).expect("should parse").tenths()
}

#[test]
fn parse_two_integer_digits() {
    // reading "20.0" digit-wise gives two hundred tenths
    assert_eq!(tenths_of(b"20.0"), 200);
}

#[test]
fn parse_negative_single_digit() {
    assert_eq!(tenths_of(b"-5.5"), -55);
}

#[test]
fn parse_single_digit() {
    assert_eq!(tenths_of(b"9.9"), 99);
    assert_eq!(tenths_of(b"0.0"), 0);
}

#[test]
fn parse_range_extremes() {
    assert_eq!(tenths_of(b"99.9"), 999);
    assert_eq!(tenths_of(b"-99.9"), -999);
}

#[test]
fn parse_negative_zero_is_zero() {
    assert_eq!(tenths_of(b"-0.0"), 0);
}

#[test]
fn parse_rejects_out_of_grammar() {
    let bad: [&[u8]; 12] = [
        b"",
        b"5",
        b"5.",
        b".5",
        b"5.55",
        b"100.0",
        b"-100.0",
        b"abc",
        b"5,5",
        b"+5.5",
        b" 5.5",
        b"--5.5",
    ];
    for input in bad {
        assert_eq!(Decimal::parse(input), Err(PipelineError::MalformedRecord));
    }
}

#[test]
fn parse_rejects_trailing_bytes() {
    assert_eq!(Decimal::parse(b"5.5x"), Err(PipelineError::MalformedRecord));
    assert_eq!(Decimal::parse(b"-5.5x"), Err(PipelineError::MalformedRecord));
}

#[test]
fn new_and_tenths_round_trip() {
    assert_eq!(Decimal::new(-123).tenths(), -123);
    assert_eq!(Decimal::new(0).tenths(), 0);
}
