use fix_trade_analyzer::analyzer::TradeAnalyzer;
use fix_trade_analyzer::books::BookError;
use fix_trade_analyzer::decimal::u64_to_string;
use fix_trade_analyzer::escape::{decode_into, decoded_len, escaped_eq, find_unescaped, EscapedValue};
use fix_trade_analyzer::timestamp::parse_fix_timestamp;
use fix_trade_analyzer::{ParseError, ParseErrorKind};

fn msg_for(symbol: &str, qty: u64, side: u8) -> Vec<u8> {
    let mut m = Vec::new();
    m.extend_from_slice(b"11=ORD1|55=");
    m.extend_from_slice(symbol.as_bytes());
    m.extend_from_slice(b"|54=");
    m.push(side);
    m.extend_from_slice(b"|38=");
    m.extend_from_slice(u64_to_string(qty).as_bytes());
    m.extend_from_slice(b"|52=20240115-09:30:00.123456|");
    m
}

#[test]
fn report_has_the_exact_fixed_layout() {
    let mut analyzer = TradeAnalyzer::new(16, 1 << 10);
    analyzer.process_message(&msg_for("AAPL", 100, b'1')).unwrap();
    assert_eq!(
        analyzer.report_string(),
        "=== Compliance Report ===\n\
         total_messages: 1\n\
         malformed_messages: 0\n\
         side_buy: 1\n\
         side_sell: 0\n\
         \n=== Volume by Symbol ===\n\
         AAPL count=1 volume=100\n"
    );
}

#[test]
fn report_is_idempotent_without_ingestion() {
    let mut analyzer = TradeAnalyzer::new(16, 1 << 10);
    analyzer.process_message(&msg_for("AAPL", 7, b'1')).unwrap();
    analyzer.process_message(&msg_for("MSFT", 9, b'2')).unwrap();
    let first = analyzer.report_string();
    let second = analyzer.report_string();
    assert_eq!(first, second);
}

#[test]
fn two_escaped_spellings_accumulate_in_one_row() {
    // "A\XB" decodes to "AXB": same logical symbol as the plain spelling.
    let mut analyzer = TradeAnalyzer::new(16, 1 << 10);
    analyzer.process_message(&msg_for("AXB", 10, b'1')).unwrap();
    analyzer.process_message(&msg_for("A\\XB", 5, b'1')).unwrap();
    let report = analyzer.report_string();
    assert!(report.contains("AXB count=2 volume=15\n"));
    assert_eq!(report.matches("AXB").count(), 1);
}

#[test]
fn escaped_delimiter_in_symbol_is_decoded_in_the_report() {
    let mut analyzer = TradeAnalyzer::new(16, 1 << 10);
    analyzer.process_message(&msg_for("A\\|B", 3, b'2')).unwrap();
    assert!(analyzer.report_string().contains("A|B count=1 volume=3\n"));
}

#[test]
fn unrecognized_side_counts_in_total_only() {
    let mut analyzer = TradeAnalyzer::new(16, 1 << 10);
    analyzer.process_message(&msg_for("AAPL", 1, b'9')).unwrap();
    let report = analyzer.report_string();
    assert!(report.contains("total_messages: 1\n"));
    assert!(report.contains("side_buy: 0\n"));
    assert!(report.contains("side_sell: 0\n"));
}

#[test]
fn missing_required_tag_is_reported() {
    let mut analyzer = TradeAnalyzer::new(16, 1 << 10);
    // No symbol (tag 55).
    let raw = b"11=ORD1|54=1|38=5|52=20240115-09:30:00.123456|";
    assert_eq!(
        analyzer.process_message(raw),
        Err(ParseError { kind: ParseErrorKind::MissingTag, at_byte: 0 })
    );
    assert_eq!(analyzer.total_messages(), 0);
}

#[test]
fn field_without_equals_is_invalid_at_its_offset() {
    let mut analyzer = TradeAnalyzer::new(16, 1 << 10);
    let raw = b"11=ORD1|55AAPL|54=1|38=5|52=20240115-09:30:00.123456|";
    assert_eq!(
        analyzer.process_message(raw),
        Err(ParseError { kind: ParseErrorKind::InvalidField, at_byte: 8 })
    );
}

#[test]
fn escaped_equals_does_not_split_a_field() {
    // The field "\=" holds no unescaped '=': it cannot be split into
    // tag and value, so it is rejected rather than silently misread.
    let mut analyzer = TradeAnalyzer::new(16, 1 << 10);
    let raw = b"11=ORD1|\\=|55=AAPL|54=1|38=5|52=20240115-09:30:00.123456|";
    assert_eq!(
        analyzer.process_message(raw),
        Err(ParseError { kind: ParseErrorKind::InvalidField, at_byte: 8 })
    );
}

#[test]
fn bad_quantity_is_an_invalid_number() {
    let mut analyzer = TradeAnalyzer::new(16, 1 << 10);
    let raw = b"11=ORD1|55=AAPL|54=1|38=12x|52=20240115-09:30:00.123456|";
    assert_eq!(
        analyzer.process_message(raw),
        Err(ParseError { kind: ParseErrorKind::InvalidNumber, at_byte: 21 })
    );
}

#[test]
fn bad_timestamps_are_rejected() {
    assert!(parse_fix_timestamp(b"20240115-09:30:00.12345").is_err()); // too short
    assert!(parse_fix_timestamp(b"20240115 09:30:00.123456").is_err()); // bad separator
    assert!(parse_fix_timestamp(b"2024011x-09:30:00.123456").is_err()); // non-digit
    assert!(parse_fix_timestamp(b"20240115-09:30:00.12345\\").is_err()); // escape byte
    let e = parse_fix_timestamp(b"").unwrap_err();
    assert_eq!(e.kind, ParseErrorKind::InvalidTimestamp);
    assert_eq!(e.at_byte, 0);
}

#[test]
fn timestamp_ignores_trailing_bytes_past_the_fixed_width() {
    let ts = parse_fix_timestamp(b"20240115-09:30:00.1234567").unwrap();
    assert_eq!(ts.micros, 123_456);
}

#[test]
fn table_full_is_reported_and_earlier_rows_survive() {
    // Capacity 8 slots: the ninth distinct symbol must be rejected.
    let mut analyzer = TradeAnalyzer::new(8, 1 << 10);
    let symbols = ["S1", "S2", "S3", "S4", "S5", "S6", "S7", "S8"];
    for s in symbols {
        analyzer.process_message(&msg_for(s, 2, b'1')).unwrap();
    }
    let before: Vec<String> = analyzer
        .report_string()
        .lines()
        .filter(|l| l.contains("count="))
        .map(|l| l.to_string())
        .collect();
    assert_eq!(before.len(), 8);

    let e = analyzer.process_message(&msg_for("S9", 2, b'1')).unwrap_err();
    assert_eq!(e.kind, ParseErrorKind::TableFull);

    let after: Vec<String> = analyzer
        .report_string()
        .lines()
        .filter(|l| l.contains("count="))
        .map(|l| l.to_string())
        .collect();
    assert_eq!(before, after);
    for s in symbols {
        assert!(after.iter().any(|l| l == &format!("{} count=1 volume=2", s)));
    }
}

#[test]
fn arena_full_is_reported_when_the_byte_budget_runs_out() {
    let mut analyzer = TradeAnalyzer::new(16, 4);
    analyzer.process_message(&msg_for("AB", 1, b'1')).unwrap();
    let e = analyzer.process_message(&msg_for("CDE", 1, b'1')).unwrap_err();
    assert_eq!(e.kind, ParseErrorKind::ArenaFull);
    // The earlier symbol is still intact.
    assert!(analyzer.report_string().contains("AB count=1 volume=1\n"));
}

#[test]
fn lossy_ingestion_hands_the_error_to_the_callback() {
    let mut analyzer = TradeAnalyzer::new(16, 1 << 10);
    let mut seen: Option<ParseError> = None;
    analyzer.process_message_lossy(b"11=ORD1|", |e| {
        seen = Some(e);
    });
    assert_eq!(
        seen,
        Some(ParseError { kind: ParseErrorKind::MissingTag, at_byte: 0 })
    );
    assert_eq!(analyzer.malformed_messages(), 1);
    // The stream goes on: a good message is still accepted afterwards.
    analyzer.process_message(&msg_for("AAPL", 1, b'1')).unwrap();
    assert_eq!(analyzer.total_messages(), 1);
}

#[test]
fn escape_codec_round_trips_a_literal_delimiter() {
    let raw = b"hello\\|world";
    assert_eq!(decoded_len(raw), 11);
    let mut buf = [0u8; 11];
    let n = decode_into(raw, &mut buf);
    assert_eq!(&buf[..n], &b"hello|world"[..]);
    assert!(escaped_eq(raw, b"hello|world"));
    assert!(!escaped_eq(raw, b"hello\\|world"));
}

#[test]
fn trailing_lone_escape_is_a_literal() {
    let raw = b"abc\\";
    assert_eq!(decoded_len(raw), 4);
    let mut buf = [0u8; 4];
    let n = decode_into(raw, &mut buf);
    assert_eq!(&buf[..n], &b"abc\\"[..]);
}

#[test]
fn find_unescaped_skips_escaped_delimiters() {
    let buf = b"a\\|b|c";
    assert_eq!(find_unescaped(buf, 0, b'|'), Some(4));
    assert_eq!(find_unescaped(buf, 5, b'|'), None);
}

#[test]
fn escaped_value_exposes_raw_and_decoded_forms() {
    let v = EscapedValue::new(b"x\\|y");
    assert_eq!(v.raw(), &b"x\\|y"[..]);
    assert_eq!(v.decoded_len(), 3);
    let mut buf = [0u8; 3];
    assert_eq!(v.decode_into(&mut buf), 3);
    assert_eq!(&buf, b"x|y");
    assert_eq!(v.to_string_lossy(), "x|y");
}

#[test]
fn decimal_rendering_matches_the_usual_form() {
    assert_eq!(u64_to_string(0), "0");
    assert_eq!(u64_to_string(42), "42");
    assert_eq!(u64_to_string(18_446_744_073_709_551_615), "18446744073709551615");
}

#[test]
fn parse_errors_describe_themselves() {
    let e = ParseError { kind: ParseErrorKind::InvalidField, at_byte: 8 };
    assert_eq!(e.describe(), "InvalidField at byte 8");
    let e = ParseError { kind: ParseErrorKind::TableFull, at_byte: 0 };
    assert_eq!(e.describe(), "TableFull at byte 0");
}

#[test]
fn book_errors_name_themselves() {
    assert_eq!(BookError::NotFound.error_type(), "NotFound");
    assert_eq!(BookError::NotFound.message(), "Book not found");
    let e = BookError::ValidationError("title".to_string());
    assert_eq!(e.error_type(), "ValidationError");
    assert_eq!(e.message(), "Validation failed: title");
    let e = BookError::ImmutableUpdate("id".to_string());
    assert_eq!(e.error_type(), "ImmutableUpdate");
    assert_eq!(e.message(), "Immutable field update: id");
    assert_eq!(BookError::InternalError.message(), "Internal server error");
}
