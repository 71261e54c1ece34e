use stockframe::frame::{column_names, StockFrame};
use stockframe::row::{Indicators, Quote, Row, Stamp};
use stockframe::timestamps::{parse_stamp, ParseError, FALLBACK_EPOCH};

fn row(symbol: &str, timestamp: Stamp) -> Row {
    Row {
        symbol: String::from(symbol),
        timestamp,
        quote: Quote { close: Some(1.5f64.to_bits()), volume: Some(3), ..Quote::blank() },
        indicators: Indicators::blank(),
    }
}

fn table(rows: Vec<Row>) -> StockFrame {
    StockFrame { columns: column_names(), tickers: vec![String::from("AAPL")], frame: rows }
}

#[test]
fn provider_text_reads_as_its_instant() {
    let stamp = Stamp::Text(String::from("2024-01-02T14:30:00Z"));
    assert_eq!(parse_stamp(&stamp), Some(1_704_205_800_000));
}

#[test]
fn text_with_fraction_reads_to_the_millisecond() {
    let stamp = Stamp::Text(String::from("1970-01-01T00:00:01.250Z"));
    assert_eq!(parse_stamp(&stamp), Some(1_250));
}

#[test]
fn text_before_the_epoch_reads_as_a_negative_instant() {
    let stamp = Stamp::Text(String::from("1969-12-31T23:59:00Z"));
    assert_eq!(parse_stamp(&stamp), Some(-60_000));
}

#[test]
fn text_without_the_format_has_no_instant() {
    assert_eq!(parse_stamp(&Stamp::Text(String::from("yesterday at noon"))), None);
    assert_eq!(parse_stamp(&Stamp::Text(String::new())), None);
    assert_eq!(parse_stamp(&Stamp::Text(String::from("x2024-01-02T14:30:00Z"))), None);
    assert_eq!(parse_stamp(&Stamp::Text(String::from("2024-01-02T14:30:00Z and more"))), None);
    assert_eq!(parse_stamp(&Stamp::Text(String::from("2024-13-02T14:30:00Z"))), None);
    assert_eq!(parse_stamp(&Stamp::Text(String::from("é2024-01-02T14:30:00Z"))), None);
}

#[test]
fn missing_stamp_reads_as_the_fallback_epoch() {
    assert_eq!(FALLBACK_EPOCH, 0);
    assert_eq!(parse_stamp(&Stamp::Missing), Some(0));
}

#[test]
fn instant_stays_as_it_is() {
    assert_eq!(parse_stamp(&Stamp::Instant(-17)), Some(-17));
}

#[test]
fn column_is_parsed_row_by_row() {
    let mut frame = table(vec![
        row("AAPL", Stamp::Text(String::from("2024-01-02T14:30:00Z"))),
        row("AAPL", Stamp::Missing),
        row("TSLA", Stamp::Instant(42)),
        row("TSLA", Stamp::Text(String::from("2024-01-02T14:31:00Z"))),
    ]);
    assert!(!frame.is_parsed());
    assert_eq!(frame.parse_dt_column(), Ok(()));
    assert!(frame.is_parsed());
    assert_eq!(
        frame,
        table(vec![
            row("AAPL", Stamp::Instant(1_704_205_800_000)),
            row("AAPL", Stamp::Instant(0)),
            row("TSLA", Stamp::Instant(42)),
            row("TSLA", Stamp::Instant(1_704_205_860_000)),
        ])
    );
}

#[test]
fn parsing_twice_changes_nothing() {
    let mut frame = table(vec![row("AAPL", Stamp::Text(String::from("2024-01-02T14:30:00Z")))]);
    assert_eq!(frame.parse_dt_column(), Ok(()));
    let once = table(vec![row("AAPL", Stamp::Instant(1_704_205_800_000))]);
    assert_eq!(frame, once);
    assert_eq!(frame.parse_dt_column(), Ok(()));
    assert_eq!(frame, once);
}

#[test]
fn first_unparsable_row_stops_the_run_and_leaves_the_table() {
    let rows = || {
        vec![
            row("AAPL", Stamp::Text(String::from("2024-01-02T14:30:00Z"))),
            row("AAPL", Stamp::Text(String::from("02/01/2024 14:31"))),
            row("AAPL", Stamp::Text(String::from("also wrong"))),
        ]
    };
    let mut frame = table(rows());
    assert_eq!(frame.parse_dt_column(), Err(ParseError { row: 1 }));
    assert_eq!(frame, table(rows()));
}

#[test]
fn empty_table_parses() {
    let mut frame = table(vec![]);
    assert_eq!(frame.parse_dt_column(), Ok(()));
    assert!(frame.is_parsed());
    assert_eq!(frame, table(vec![]));
}
