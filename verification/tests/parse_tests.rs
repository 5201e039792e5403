use batsmen::num::parse_decimal_rounded;
use batsmen::num::parse_u32;
use batsmen::parse::parse_line;
use batsmen::parse::ParseError;
use batsmen::text::trim;

#[test]
fn runs_round_trip() {
    assert_eq!(parse_line("AB Clarke,120,45.6").unwrap().runs, 120);
    assert_eq!(parse_line("AB Clarke,0,45.6").unwrap().runs, 0);
    assert_eq!(parse_line("AB Clarke,4294967295,45.6").unwrap().runs, u32::MAX);
    assert_eq!(parse_line("AB Clarke,4294967296,45.6"), Err(ParseError::Runs));
    assert_eq!(parse_line("AB Clarke,-1,45.6"), Err(ParseError::Runs));
    assert_eq!(parse_line("AB Clarke,1.5,45.6"), Err(ParseError::Runs));
}

#[test]
fn average_rounds_to_nearest() {
    assert_eq!(parse_line("AB Clarke,1,2.4").unwrap().average, 2);
    assert_eq!(parse_line("AB Clarke,1,2.6").unwrap().average, 3);
    assert_eq!(parse_line("AB Clarke,1,45.6").unwrap().average, 46);
    assert_eq!(parse_line("AB Clarke,1,20.0").unwrap().average, 20);
    assert_eq!(parse_line("AB Clarke,1,7").unwrap().average, 7);
}

#[test]
fn average_ties_round_away_from_zero() {
    assert_eq!(parse_line("AB Clarke,1,2.5").unwrap().average, 3);
    assert_eq!(parse_line("AB Clarke,1,-2.5").unwrap().average, -3);
    assert_eq!(parse_line("AB Clarke,1,0.5").unwrap().average, 1);
    assert_eq!(parse_line("AB Clarke,1,-0.5").unwrap().average, -1);
}

#[test]
fn fields_are_trimmed() {
    let rec = parse_line("  AB Clarke ,  120\t, 45.6  ").unwrap();
    assert_eq!(rec.initials, "AB");
    assert_eq!(rec.surname, "Clarke");
    assert_eq!(rec.runs, 120);
    assert_eq!(rec.average, 46);
}

#[test]
fn excess_name_tokens_are_ignored() {
    let rec = parse_line("AB de Clarke,10,1.0").unwrap();
    assert_eq!(rec.initials, "AB");
    assert_eq!(rec.surname, "de");
}

#[test]
fn repeated_spaces_separate_tokens() {
    let rec = parse_line("AB   Clarke,10,1.0").unwrap();
    assert_eq!(rec.initials, "AB");
    assert_eq!(rec.surname, "Clarke");
}

#[test]
fn excess_comma_fields_are_ignored() {
    let rec = parse_line("AB Clarke,10,1.5,junk,more").unwrap();
    assert_eq!(rec.runs, 10);
    assert_eq!(rec.average, 2);
}

#[test]
fn parse_u32_digits_only() {
    assert_eq!(parse_u32("0"), Some(0));
    assert_eq!(parse_u32("007"), Some(7));
    assert_eq!(parse_u32("4294967295"), Some(u32::MAX));
    assert_eq!(parse_u32("4294967296"), None);
    assert_eq!(parse_u32("99999999999999999999"), None);
    assert_eq!(parse_u32(""), None);
    assert_eq!(parse_u32("12a"), None);
    assert_eq!(parse_u32("+1"), None);
}

#[test]
fn parse_decimal_rounded_forms() {
    assert_eq!(parse_decimal_rounded("2.4"), Some(2));
    assert_eq!(parse_decimal_rounded("2.5"), Some(3));
    assert_eq!(parse_decimal_rounded("2."), Some(2));
    assert_eq!(parse_decimal_rounded(".5"), Some(1));
    assert_eq!(parse_decimal_rounded("-.5"), Some(-1));
    assert_eq!(parse_decimal_rounded("+2.5"), Some(3));
    assert_eq!(parse_decimal_rounded("17"), Some(17));
    assert_eq!(parse_decimal_rounded("-0.4"), Some(0));
    assert_eq!(parse_decimal_rounded("."), None);
    assert_eq!(parse_decimal_rounded(""), None);
    assert_eq!(parse_decimal_rounded("1.2.3"), None);
    assert_eq!(parse_decimal_rounded("1e3"), None);
}

#[test]
fn parse_decimal_rounded_range_edges() {
    assert_eq!(parse_decimal_rounded("2147483647.4"), Some(i32::MAX));
    assert_eq!(parse_decimal_rounded("2147483647.5"), None);
    assert_eq!(parse_decimal_rounded("-2147483648.4"), Some(i32::MIN));
    assert_eq!(parse_decimal_rounded("-2147483648.5"), None);
}

#[test]
fn trim_strips_surrounding_whitespace() {
    assert_eq!(trim("  x  "), "x");
    assert_eq!(trim("\t a b \r\n"), "a b");
    assert_eq!(trim("   "), "");
    assert_eq!(trim(""), "");
}
