use fix_trade_analyzer::analyzer::TradeAnalyzer;
use fix_trade_analyzer::timestamp::{parse_fix_timestamp, FixTimestamp};

#[test]
fn parses_escaped_pipe_in_text_58() {
    let mut analyzer = TradeAnalyzer::new(1024, 1 << 20);
    let raw = b"8=FIX.4.2|35=D|49=SENDER|56=TARGET|11=ORD001|55=AAPL|54=1|38=100|44=150.25|58=hello\\|world|52=20240115-09:30:00.123456|10=128|";
    analyzer.process_message(raw).unwrap();
    assert_eq!(analyzer.total_messages(), 1);
}

#[test]
fn parses_order_id_containing_pipe() {
    let mut analyzer = TradeAnalyzer::new(1024, 1 << 20);
    let raw = b"8=FIX.4.2|35=D|49=SENDER|56=TARGET|11=ORD\\|001|55=AAPL|54=1|38=100|44=150.25|58=ok|52=20240115-09:30:00.123456|10=128|";
    analyzer.process_message(raw).unwrap();
    assert_eq!(analyzer.total_messages(), 1);
}

#[test]
fn malformed_message_is_logged_and_skipped_without_crash() {
    let mut analyzer = TradeAnalyzer::new(1024, 1 << 20);
    let mut errors = 0usize;

    // Missing '=' in one field (11ORD001) => InvalidField
    let raw = b"8=FIX.4.2|35=D|49=SENDER|56=TARGET|11ORD001|55=AAPL|54=1|38=100|52=20240115-09:30:00.123456|10=128|";
    analyzer.process_message_lossy(raw, |_| {
        errors += 1;
    });

    assert_eq!(analyzer.total_messages(), 0);
    assert_eq!(analyzer.malformed_messages(), 1);
    assert_eq!(errors, 1);
}

#[test]
fn timestamp_preserves_microsecond_precision() {
    // Unit-level check: micros are preserved exactly (no rounding/truncation).
    let ts = parse_fix_timestamp(b"20240115-09:30:00.123456").unwrap();
    assert_eq!(
        ts,
        FixTimestamp {
            seconds: 20240115 * 1_000_000 + 9 * 10_000 + 30 * 100 + 0,
            micros: 123_456
        }
    );
}
