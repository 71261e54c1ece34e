use stockframe::densify::MINUTE_MS;
use stockframe::frame::{column_names, StockFrame};
use stockframe::row::{Indicators, Quote, Row, Stamp};

const T0: i64 = 1_704_205_800_000;

fn observed(symbol: &str, instant: i64, close: f64) -> Row {
    Row {
        symbol: String::from(symbol),
        timestamp: Stamp::Instant(instant),
        quote: Quote {
            open: Some(close.to_bits()),
            high: Some(close.to_bits()),
            low: Some(close.to_bits()),
            close: Some(close.to_bits()),
            volume: Some(7),
            vwap: Some(close.to_bits()),
            trade_count: Some(1),
        },
        indicators: Indicators::blank(),
    }
}

fn filler(symbol: &str, instant: i64) -> Row {
    Row {
        symbol: String::from(symbol),
        timestamp: Stamp::Instant(instant),
        quote: Quote::blank(),
        indicators: Indicators::blank(),
    }
}

fn table(rows: Vec<Row>) -> StockFrame {
    StockFrame {
        columns: column_names(),
        tickers: vec![String::from("TSLA"), String::from("AAPL")],
        frame: rows,
    }
}

fn instants_of(frame: &StockFrame, symbol: &str) -> Vec<i64> {
    let mut found: Vec<i64> =
        frame.frame.iter().filter(|row| row.symbol == symbol).map(|row| row.instant()).collect();
    found.sort();
    found
}

#[test]
fn grid_step_is_a_minute() {
    assert_eq!(MINUTE_MS, 60_000);
}

#[test]
fn earliest_and_latest_instant_are_those_of_the_whole_table() {
    let frame = table(vec![
        observed("TSLA", T0 + 3 * MINUTE_MS, 1.0),
        observed("AAPL", T0 + 9 * MINUTE_MS, 1.0),
        observed("TSLA", T0, 1.0),
        observed("AAPL", T0 + 5 * MINUTE_MS, 1.0),
    ]);
    assert_eq!(frame.get_min_timestamp(), T0);
    assert_eq!(frame.get_max_timestamp(), T0 + 9 * MINUTE_MS);
    let single = table(vec![observed("TSLA", -5, 1.0)]);
    assert_eq!(single.get_min_timestamp(), -5);
    assert_eq!(single.get_max_timestamp(), -5);
}

#[test]
fn every_symbol_gets_the_grid_of_the_whole_table() {
    let rows = || {
        vec![
            observed("TSLA", T0 + MINUTE_MS, 200.0),
            observed("TSLA", T0 + 2 * MINUTE_MS, 201.0),
            observed("AAPL", T0, 100.0),
            observed("AAPL", T0 + 3 * MINUTE_MS, 103.0),
        ]
    };
    let mut frame = table(rows());
    frame.fill_date_range();
    let mut expected = rows();
    expected.extend(vec![
        filler("AAPL", T0 + MINUTE_MS),
        filler("AAPL", T0 + 2 * MINUTE_MS),
        filler("TSLA", T0),
        filler("TSLA", T0 + 3 * MINUTE_MS),
    ]);
    assert_eq!(frame, table(expected));
    let grid = vec![T0, T0 + MINUTE_MS, T0 + 2 * MINUTE_MS, T0 + 3 * MINUTE_MS];
    assert_eq!(instants_of(&frame, "AAPL"), grid);
    assert_eq!(instants_of(&frame, "TSLA"), grid);
}

#[test]
fn dense_table_gets_no_rows() {
    let rows = || vec![observed("A", T0, 1.0), observed("B", T0 + MINUTE_MS, 2.0), observed("A", T0 + MINUTE_MS, 3.0), observed("B", T0, 4.0)];
    let mut frame = table(rows());
    frame.fill_date_range();
    assert_eq!(frame, table(rows()));
}

#[test]
fn densifying_twice_changes_nothing() {
    let mut frame = table(vec![observed("A", T0, 1.0), observed("B", T0 + 4 * MINUTE_MS, 2.0)]);
    frame.fill_date_range();
    assert_eq!(frame.frame.len(), 10);
    let once: Vec<(String, i64)> = frame.frame.iter().map(|row| (row.symbol.clone(), row.instant())).collect();
    frame.fill_date_range();
    let twice: Vec<(String, i64)> = frame.frame.iter().map(|row| (row.symbol.clone(), row.instant())).collect();
    assert_eq!(once, twice);
}

#[test]
fn table_without_rows_stays_empty() {
    let mut frame = table(vec![]);
    frame.fill_date_range();
    assert_eq!(frame, table(vec![]));
}

#[test]
fn single_row_is_its_own_grid() {
    let mut frame = table(vec![observed("A", T0, 1.0)]);
    frame.fill_date_range();
    assert_eq!(frame, table(vec![observed("A", T0, 1.0)]));
}

#[test]
fn rows_off_the_grid_and_doubles_stay() {
    let rows = || {
        vec![
            observed("A", T0, 1.0),
            observed("A", T0, 1.5),
            observed("A", T0 + MINUTE_MS + 30_000, 2.0),
            observed("A", T0 + 2 * MINUTE_MS, 3.0),
        ]
    };
    let mut frame = table(rows());
    frame.fill_date_range();
    let mut expected = rows();
    expected.push(filler("A", T0 + MINUTE_MS));
    assert_eq!(frame, table(expected));
}

#[test]
fn grid_starts_at_the_earliest_instant_even_off_the_minute() {
    let mut frame = table(vec![observed("A", 15_000, 1.0), observed("B", 150_000, 2.0)]);
    frame.fill_date_range();
    assert_eq!(
        frame.frame,
        vec![
            observed("A", 15_000, 1.0),
            observed("B", 150_000, 2.0),
            filler("A", 75_000),
            filler("A", 135_000),
            filler("B", 15_000),
            filler("B", 75_000),
            filler("B", 135_000),
        ]
    );
}

#[test]
fn fillers_come_symbol_by_symbol_in_ascending_order() {
    let mut frame = table(vec![
        observed("b", T0, 1.0),
        observed("C", T0 + 2 * MINUTE_MS, 1.0),
        observed("a", T0 + MINUTE_MS, 1.0),
        observed("B", T0 + MINUTE_MS, 1.0),
    ]);
    frame.fill_date_range();
    let added: Vec<(String, i64)> =
        frame.frame[4..].iter().map(|row| (row.symbol.clone(), (row.instant() - T0) / MINUTE_MS)).collect();
    let expect = |symbol: &str, minute: i64| (String::from(symbol), minute);
    assert_eq!(
        added,
        vec![
            expect("B", 0),
            expect("B", 2),
            expect("C", 0),
            expect("C", 1),
            expect("a", 0),
            expect("a", 2),
            expect("b", 1),
            expect("b", 2),
        ]
    );
}

#[test]
fn grid_at_the_end_of_the_range_does_not_overflow() {
    let mut frame = table(vec![observed("A", i64::MAX - 2 * MINUTE_MS - 5, 1.0), observed("A", i64::MAX, 2.0)]);
    frame.fill_date_range();
    assert_eq!(
        instants_of(&frame, "A"),
        vec![i64::MAX - 2 * MINUTE_MS - 5, i64::MAX - MINUTE_MS - 5, i64::MAX - 5, i64::MAX]
    );
}

#[test]
fn symbol_with_shorter_history_is_stretched_to_the_whole_grid() {
    let mut frame = table(vec![
        observed("LONG", T0, 1.0),
        observed("LONG", T0 + 5 * MINUTE_MS, 1.0),
        observed("SHORT", T0 + 2 * MINUTE_MS, 9.0),
    ]);
    frame.fill_date_range();
    let grid: Vec<i64> = (0..6).map(|k| T0 + k * MINUTE_MS).collect();
    assert_eq!(instants_of(&frame, "LONG"), grid);
    assert_eq!(instants_of(&frame, "SHORT"), grid);
    let nulls = frame.frame.iter().filter(|row| row.symbol == "SHORT" && row.quote == Quote::blank()).count();
    assert_eq!(nulls, 5);
}
