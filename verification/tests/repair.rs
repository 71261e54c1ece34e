use stockframe::frame::{column_names, StockFrame};
use stockframe::row::{Indicators, Quote, Row, Stamp};

const M: i64 = 60_000;

fn bits(value: f64) -> Option<u64> {
    Some(value.to_bits())
}

fn row(symbol: &str, instant: i64, quote: Quote) -> Row {
    Row {
        symbol: String::from(symbol),
        timestamp: Stamp::Instant(instant),
        quote,
        indicators: Indicators::blank(),
    }
}

fn close_only(close: Option<u64>) -> Quote {
    Quote { close, ..Quote::blank() }
}

fn all_of(close: Option<u64>) -> Quote {
    Quote { open: close, high: close, low: close, close, ..Quote::blank() }
}

fn table(rows: Vec<Row>) -> StockFrame {
    StockFrame { columns: column_names(), tickers: vec![String::from("A")], frame: rows }
}

fn closes(frame: &StockFrame) -> Vec<Option<f64>> {
    frame.frame.iter().map(|row| row.quote.close.map(f64::from_bits)).collect()
}

#[test]
fn close_is_carried_forward_then_backward() {
    let mut frame = table(vec![
        row("A", 0, close_only(None)),
        row("A", M, close_only(None)),
        row("A", 2 * M, close_only(bits(10.0))),
        row("A", 3 * M, close_only(None)),
        row("A", 4 * M, close_only(bits(12.0))),
        row("A", 5 * M, close_only(None)),
        row("A", 6 * M, close_only(None)),
    ]);
    frame.fill_nulls();
    assert_eq!(
        closes(&frame),
        vec![Some(10.0), Some(10.0), Some(10.0), Some(10.0), Some(12.0), Some(12.0), Some(12.0)]
    );
}

#[test]
fn open_high_low_take_the_repaired_close_where_null() {
    let mut frame = table(vec![
        row("A", 0, Quote { open: bits(1.0), high: None, low: bits(0.5), close: bits(2.0), ..Quote::blank() }),
        row("A", M, Quote { open: None, high: bits(9.0), low: None, close: None, ..Quote::blank() }),
    ]);
    frame.fill_nulls();
    assert_eq!(
        frame.frame,
        vec![
            row("A", 0, Quote { open: bits(1.0), high: bits(2.0), low: bits(0.5), close: bits(2.0), ..Quote::blank() }),
            row("A", M, Quote { open: bits(2.0), high: bits(9.0), low: bits(2.0), close: bits(2.0), ..Quote::blank() }),
        ]
    );
}

#[test]
fn volume_vwap_and_trade_count_are_left_alone() {
    let mut frame = table(vec![
        row("A", 0, Quote { close: bits(2.0), volume: Some(5), vwap: bits(2.5), trade_count: Some(3), ..Quote::blank() }),
        row("A", M, Quote::blank()),
    ]);
    frame.fill_nulls();
    assert_eq!(
        frame.frame[1].quote,
        Quote { open: bits(2.0), high: bits(2.0), low: bits(2.0), close: bits(2.0), volume: None, vwap: None, trade_count: None }
    );
    assert_eq!(frame.frame[0].quote.volume, Some(5));
    assert_eq!(frame.frame[0].quote.vwap, bits(2.5));
    assert_eq!(frame.frame[0].quote.trade_count, Some(3));
}

#[test]
fn fills_never_cross_symbols() {
    let mut frame = table(vec![
        row("A", 0, close_only(bits(1.0))),
        row("B", 0, close_only(None)),
        row("A", M, close_only(None)),
        row("B", M, close_only(bits(7.0))),
        row("C", M, close_only(None)),
        row("A", 2 * M, close_only(None)),
        row("B", 2 * M, close_only(None)),
    ]);
    frame.fill_nulls();
    assert_eq!(
        closes(&frame),
        vec![Some(1.0), Some(7.0), Some(1.0), Some(7.0), None, Some(1.0), Some(7.0)]
    );
}

#[test]
fn symbol_without_any_close_stays_null() {
    let rows = || {
        vec![
            row("GHOST", 0, Quote { open: bits(3.0), ..Quote::blank() }),
            row("GHOST", M, Quote::blank()),
        ]
    };
    let mut frame = table(rows());
    frame.fill_nulls();
    assert_eq!(frame, table(rows()));
}

#[test]
fn fill_follows_time_order_not_table_order() {
    let mut frame = table(vec![
        row("A", 3 * M, close_only(bits(30.0))),
        row("A", M, close_only(bits(10.0))),
        row("A", 4 * M, close_only(None)),
        row("A", 2 * M, close_only(None)),
        row("A", 0, close_only(None)),
    ]);
    frame.fill_nulls();
    assert_eq!(closes(&frame), vec![Some(30.0), Some(10.0), Some(30.0), Some(10.0), Some(10.0)]);
    let instants: Vec<i64> = frame.frame.iter().map(|row| row.instant()).collect();
    assert_eq!(instants, vec![3 * M, M, 4 * M, 2 * M, 0]);
}

#[test]
fn rows_of_one_instant_fill_in_table_order() {
    let mut frame = table(vec![
        row("A", 0, close_only(None)),
        row("A", 0, close_only(bits(1.0))),
        row("A", 0, close_only(None)),
        row("A", 0, close_only(bits(2.0))),
        row("A", 0, close_only(None)),
    ]);
    frame.fill_nulls();
    assert_eq!(closes(&frame), vec![Some(1.0), Some(1.0), Some(1.0), Some(2.0), Some(2.0)]);
}

#[test]
fn repair_after_densification_fills_the_added_rows() {
    let mut frame = table(vec![
        row("A", 2 * M, all_of(bits(5.0))),
        row("A", 4 * M, all_of(bits(6.0))),
        row("B", 0, all_of(bits(1.0))),
        row("B", 5 * M, all_of(bits(2.0))),
    ]);
    frame.fill_date_range();
    frame.fill_nulls();
    let of = |symbol: &str| -> Vec<(i64, f64)> {
        let mut found: Vec<(i64, f64)> = frame
            .frame
            .iter()
            .filter(|row| row.symbol == symbol)
            .map(|row| (row.instant() / M, f64::from_bits(row.quote.close.unwrap())))
            .collect();
        found.sort_by(|a, b| a.0.cmp(&b.0));
        found
    };
    assert_eq!(of("A"), vec![(0, 5.0), (1, 5.0), (2, 5.0), (3, 5.0), (4, 6.0), (5, 6.0)]);
    assert_eq!(of("B"), vec![(0, 1.0), (1, 1.0), (2, 1.0), (3, 1.0), (4, 1.0), (5, 2.0)]);
    for filled in &frame.frame {
        assert_eq!(filled.quote.open, filled.quote.close);
        assert_eq!(filled.quote.high, filled.quote.close);
        assert_eq!(filled.quote.low, filled.quote.close);
    }
}

#[test]
fn repairing_twice_changes_nothing() {
    let mut frame = table(vec![
        row("A", 0, close_only(None)),
        row("B", 0, Quote { high: bits(4.0), ..Quote::blank() }),
        row("A", M, Quote { open: bits(0.5), close: bits(1.0), ..Quote::blank() }),
        row("A", 2 * M, close_only(None)),
        row("B", M, close_only(None)),
    ]);
    frame.fill_nulls();
    let once: Vec<Quote> = frame.frame.iter().map(|row| row.quote).collect();
    frame.fill_nulls();
    let twice: Vec<Quote> = frame.frame.iter().map(|row| row.quote).collect();
    assert_eq!(once, twice);
    assert_eq!(once[0], all_of(bits(1.0)));
    assert_eq!(once[1], Quote { high: bits(4.0), ..Quote::blank() });
}

#[test]
fn empty_table_repairs_to_itself() {
    let mut frame = table(vec![]);
    frame.fill_nulls();
    assert_eq!(frame, table(vec![]));
}
