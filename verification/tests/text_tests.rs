use sorting::text::{parse_line, parse_lines, render_lines, render_number, ParseError};

fn line_of(result: Result<Option<i32>, ParseError>) -> String {
    match result {
        Err(error) => error.line,
        Ok(_) => panic!("the line was accepted"),
    }
}

#[test]
fn parse_line_reads_a_plain_number() {
    assert_eq!(parse_line("42"), Ok(Some(42)));
    assert_eq!(parse_line("0"), Ok(Some(0)));
    assert_eq!(parse_line("-7"), Ok(Some(-7)));
    assert_eq!(parse_line("+5"), Ok(Some(5)));
}

#[test]
fn parse_line_ignores_surrounding_white_space() {
    assert_eq!(parse_line("  17\t"), Ok(Some(17)));
    assert_eq!(parse_line("\r-3 \r"), Ok(Some(-3)));
    assert_eq!(parse_line("\u{00A0}42\u{3000}"), Ok(Some(42)));
    assert_eq!(parse_line("\u{2003}8\u{205F}\u{1680}"), Ok(Some(8)));
}

#[test]
fn parse_line_skips_blank_lines() {
    assert_eq!(parse_line(""), Ok(None));
    assert_eq!(parse_line("   "), Ok(None));
    assert_eq!(parse_line("\t \r\u{2028}"), Ok(None));
}

#[test]
fn parse_line_accepts_leading_zeros() {
    assert_eq!(parse_line("0012"), Ok(Some(12)));
    assert_eq!(parse_line("-000"), Ok(Some(0)));
    assert_eq!(parse_line("00000000000000000002147483647"), Ok(Some(2147483647)));
}

#[test]
fn parse_line_covers_the_whole_range() {
    assert_eq!(parse_line("2147483647"), Ok(Some(i32::MAX)));
    assert_eq!(parse_line("-2147483648"), Ok(Some(i32::MIN)));
    assert_eq!(parse_line("+2147483647"), Ok(Some(i32::MAX)));
}

#[test]
fn parse_line_rejects_numbers_out_of_range() {
    assert_eq!(line_of(parse_line("2147483648")), "2147483648");
    assert_eq!(line_of(parse_line("-2147483649")), "-2147483649");
    assert_eq!(line_of(parse_line("99999999999999999999999")), "99999999999999999999999");
}

#[test]
fn parse_line_rejects_what_is_no_number() {
    assert_eq!(line_of(parse_line("abc")), "abc");
    assert_eq!(line_of(parse_line("  12x ")), "12x");
    assert_eq!(line_of(parse_line("-")), "-");
    assert_eq!(line_of(parse_line("+")), "+");
    assert_eq!(line_of(parse_line("--1")), "--1");
    assert_eq!(line_of(parse_line("1 2")), "1 2");
    assert_eq!(line_of(parse_line("1_000")), "1_000");
    assert_eq!(line_of(parse_line("3.5")), "3.5");
    assert_eq!(line_of(parse_line(" \u{0663} ")), "\u{0663}");
}

#[test]
fn parse_line_agrees_with_the_standard_library() {
    let samples = [
        "", " ", "0", "-0", "+0", "7", " 7", "7 ", "\t-12\n", "2147483647", "2147483648",
        "-2147483648", "-2147483649", "x", "1x", "x1", "+-1", "-+1", "0x10", "١٢٣", "\u{200B}5",
        "\u{0085}9\u{0085}", "5\u{00A0}", "1e3", "٣", "--", "++", " + ", "000000000000",
        "4294967296", "-4294967296",
    ];
    for sample in samples {
        let trimmed = sample.trim();
        let expected = if trimmed.is_empty() {
            Ok(None)
        } else {
            match trimmed.parse::<i32>() {
                Ok(number) => Ok(Some(number)),
                Err(_) => Err(ParseError { line: trimmed.to_string() }),
            }
        };
        assert_eq!(parse_line(sample), expected);
    }
}

#[test]
fn parse_lines_collects_the_numbers_in_order() {
    let lines = vec![
        "3".to_string(),
        "".to_string(),
        "  -1".to_string(),
        "   ".to_string(),
        "4 ".to_string(),
    ];
    assert_eq!(parse_lines(&lines), Ok(vec![3, -1, 4]));
}

#[test]
fn parse_lines_of_nothing_is_empty() {
    assert_eq!(parse_lines(&Vec::new()), Ok(Vec::new()));
    assert_eq!(parse_lines(&vec![" ".to_string(), "".to_string()]), Ok(Vec::new()));
}

#[test]
fn parse_lines_fails_on_the_first_bad_line() {
    let lines = vec![
        "1".to_string(),
        " two ".to_string(),
        "3".to_string(),
        "four".to_string(),
    ];
    assert_eq!(parse_lines(&lines), Err(ParseError { line: "two".to_string() }));
}

#[test]
fn render_number_writes_decimal() {
    let mut out = Vec::new();
    render_number(0, &mut out);
    assert_eq!(out, b"0".to_vec());
    render_number(-45, &mut out);
    assert_eq!(out, b"0-45".to_vec());
    render_number(1000000, &mut out);
    assert_eq!(out, b"0-451000000".to_vec());
}

#[test]
fn render_number_writes_the_ends_of_the_range() {
    let mut out = Vec::new();
    render_number(i32::MIN, &mut out);
    assert_eq!(out, b"-2147483648".to_vec());
    let mut out = Vec::new();
    render_number(i32::MAX, &mut out);
    assert_eq!(out, b"2147483647".to_vec());
}

#[test]
fn render_lines_puts_each_number_on_a_line() {
    assert_eq!(render_lines(&[]), Vec::<u8>::new());
    assert_eq!(render_lines(&[42]), b"42\n".to_vec());
    assert_eq!(render_lines(&[-9, -3, -1, 0, 2, 5]), b"-9\n-3\n-1\n0\n2\n5\n".to_vec());
}

#[test]
fn render_lines_agrees_with_the_standard_library() {
    let numbers = [0, 1, -1, 9, 10, 11, 99, 100, -100, 12345, -98765, i32::MAX, i32::MIN];
    let mut expected = String::new();
    for number in numbers {
        expected.push_str(&format!("{}\n", number));
    }
    assert_eq!(render_lines(&numbers), expected.into_bytes());
}

#[test]
fn what_is_written_reads_back() {
    let numbers = vec![i32::MIN, -2147483647, -10, -1, 0, 1, 9, 10, 2147483646, i32::MAX];
    let text = String::from_utf8(render_lines(&numbers)).unwrap();
    let lines: Vec<String> = text.lines().map(|line| line.to_string()).collect();
    assert_eq!(lines.len(), numbers.len());
    assert_eq!(parse_lines(&lines), Ok(numbers));
}
