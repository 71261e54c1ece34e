use stockframe::assemble::TickerFetch;
use stockframe::client::{bars_uri, request_url, Fetch, FetchError};
use stockframe::features::{IndicatorSeries, PriceSeries};
use stockframe::frame::{column_names, StockFrame};
use stockframe::json::Json;
use stockframe::row::{Row, Stamp};
use stockframe::session::hour_of_day;

const M: i64 = 60_000;
// 2024-01-02T13:40:00Z
const START: i64 = 1_704_202_800_000;

fn bar(minute: i64, close: f64) -> String {
    let at = 13 * 60 + 40 + minute;
    format!(
        "{{\"t\":\"2024-01-02T{:02}:{:02}:00Z\",\"o\":{},\"h\":{},\"l\":{},\"c\":{},\"v\":{},\"n\":{},\"vw\":{}}}",
        at / 60,
        at % 60,
        close - 0.5,
        close + 1.0,
        close - 1.0,
        close,
        100 + minute,
        minute,
        close
    )
}

fn page(minutes: &[i64], base: f64, next: Option<&str>) -> String {
    let bars: Vec<String> = minutes.iter().map(|m| bar(*m, base + *m as f64)).collect();
    let cursor = match next {
        Some(token) => format!("\"{}\"", token),
        None => String::from("null"),
    };
    format!("{{\"bars\":[{}],\"next_page_token\":{},\"symbol\":\"X\"}}", bars.join(","), cursor)
}

// What the provider answers to a request, by its address.
fn respond(url: &str) -> Option<String> {
    let aapl = bars_uri(&String::from("AAPL"), START, START + 59 * M).unwrap();
    let tsla = bars_uri(&String::from("TSLA"), START, START + 59 * M).unwrap();
    let first: Vec<i64> = (0..20).filter(|m| m % 7 != 3).collect();
    let second: Vec<i64> = (20..40).filter(|m| m % 5 != 1).collect();
    let third: Vec<i64> = (40..60).collect();
    let only: Vec<i64> = (5..56).filter(|m| m % 3 != 0).collect();
    if url == aapl {
        Some(page(&first, 100.0, Some("after-one")))
    } else if url == format!("{}&page_token=after-one", aapl) {
        Some(page(&second, 100.0, Some("after-two")))
    } else if url == format!("{}&page_token=after-two", aapl) {
        Some(page(&third, 100.0, None))
    } else if url == tsla {
        Some(page(&only, 200.0, None))
    } else {
        None
    }
}

// The client's loop: it asks, hands the response to the library, and does as it is told.
fn fetch(ticker: &str, requests: &mut Vec<String>) -> TickerFetch {
    let name = String::from(ticker);
    let uri = bars_uri(&name, START, START + 59 * M).unwrap();
    let mut gathered: Vec<Json> = vec![];
    let mut url = request_url(&uri, &None);
    loop {
        requests.push(url.clone());
        let body = match respond(&url) {
            Some(body) => body,
            None => return TickerFetch { ticker: name, outcome: Err(FetchError::Network) },
        };
        match StockFrame::grab_entire_json(&uri, gathered, body.as_bytes()) {
            Ok(Fetch::Continue { bars, url: next }) => {
                gathered = bars;
                url = next;
            }
            Ok(Fetch::Complete { bars }) => return TickerFetch { ticker: name, outcome: Ok(bars) },
            Err(error) => return TickerFetch { ticker: name, outcome: Err(error) },
        }
    }
}

// A stand-in for the indicator engine: every array is a running mean of the closes, shifted
// by the array's place among the fifteen.
fn engine(prices: &PriceSeries) -> IndicatorSeries {
    let mut sum = 0.0;
    let mean: Vec<f64> = prices
        .close
        .iter()
        .enumerate()
        .map(|(j, bits)| {
            sum += f64::from_bits(*bits);
            sum / (j + 1) as f64
        })
        .collect();
    let column = |shift: f64| -> Vec<u64> { mean.iter().map(|value| (value + shift).to_bits()).collect() };
    IndicatorSeries {
        adx: column(1.0),
        atr: column(2.0),
        aroonosc: column(3.0),
        aroonu: column(4.0),
        aroond: column(5.0),
        bband_up: column(6.0),
        bband_mid: column(7.0),
        bband_low: column(8.0),
        macd: column(9.0),
        macdsignal: column(10.0),
        macdhist: column(11.0),
        rsi: column(12.0),
        stoch_slowk: column(13.0),
        stoch_slowd: column(14.0),
        sma: column(15.0),
    }
}

fn minutes_of(frame: &StockFrame, symbol: &str) -> Vec<i64> {
    frame
        .frame
        .iter()
        .filter(|row| row.symbol == symbol)
        .map(|row| (row.instant() - START) / M)
        .collect()
}

#[test]
fn two_tickers_run_through_the_whole_pipeline() {
    let mut requests = vec![];
    let fetched = vec![fetch("TSLA", &mut requests), fetch("AAPL", &mut requests)];
    assert_eq!(requests.len(), 4);
    assert!(requests[1].ends_with("/AAPL/bars?start=2024-01-02T13:40:00Z&end=2024-01-02T14:39:00Z&timeframe=1Min"));
    assert!(requests[2].ends_with("&timeframe=1Min&page_token=after-one"));
    assert!(requests[3].ends_with("&timeframe=1Min&page_token=after-two"));
    match &fetched[1].outcome {
        Ok(bars) => assert_eq!(bars.len(), 17 + 16 + 20),
        Err(error) => panic!("AAPL failed: {:?}", error),
    }

    let mut frame = StockFrame::new(&fetched).unwrap();
    assert_eq!(frame.columns, column_names());
    assert_eq!(frame.tickers, vec!["TSLA", "AAPL"]);
    assert_eq!(frame.frame.len(), 34 + 53);
    assert!(frame.frame.iter().all(|row| matches!(row.timestamp, Stamp::Text(_))));

    assert_eq!(frame.parse_dt_column(), Ok(()));
    assert_eq!(frame.get_min_timestamp(), START);
    assert_eq!(frame.get_max_timestamp(), START + 59 * M);

    frame.fill_date_range();
    assert_eq!(frame.frame.len(), 120);
    frame.fill_nulls();
    assert!(frame.frame.iter().all(|row| row.quote.close.is_some()
        && row.quote.open.is_some()
        && row.quote.high.is_some()
        && row.quote.low.is_some()));

    let prices = frame.price_series().unwrap();
    assert_eq!(prices.len(), 2);
    assert!(prices.iter().all(|series| series.close.len() == 60));
    // The minute 3 of AAPL was missing: it carries the close of minute 2.
    assert_eq!(f64::from_bits(prices[0].close[3]), 102.0);
    // TSLA starts at minute 5: the minutes before it take that close.
    assert_eq!(f64::from_bits(prices[1].close[0]), 205.0);
    assert_eq!(f64::from_bits(prices[1].close[59]), 255.0);

    let computed: Vec<IndicatorSeries> = prices.iter().map(engine).collect();
    assert_eq!(frame.calc_technical_indicators(&computed), Ok(()));
    let all: Vec<i64> = (0..60).collect();
    assert_eq!(minutes_of(&frame, "AAPL"), all);
    assert_eq!(minutes_of(&frame, "TSLA"), all);
    let symbols: Vec<&str> = frame.frame.iter().map(|row| row.symbol.as_str()).collect();
    assert!(symbols[..60].iter().all(|symbol| *symbol == "AAPL"));
    assert!(symbols[60..].iter().all(|symbol| *symbol == "TSLA"));

    frame.clean();
    let session: Vec<i64> = (20..60).collect();
    assert_eq!(minutes_of(&frame, "AAPL"), session);
    assert_eq!(minutes_of(&frame, "TSLA"), session);
    assert_eq!(frame.frame.len(), 80);
    assert_eq!(frame.columns, column_names());
    for row in &frame.frame {
        let hour = hour_of_day(row.instant());
        assert!((14..=20).contains(&hour));
        let i = row.indicators;
        let cells = [
            i.adx, i.atr, i.aroonosc, i.aroonu, i.aroond, i.bband_up, i.bband_mid, i.bband_low,
            i.macd, i.macdsignal, i.macdhist, i.rsi, i.stoch_slowk, i.stoch_slowd, i.sma,
        ];
        assert!(cells.iter().all(|cell| cell.is_some()));
    }
    // The running mean of AAPL's closes up to minute 20, shifted by the place of `sma`.
    let first: &Row = &frame.frame[0];
    let closes: Vec<f64> = prices[0].close[..21].iter().map(|bits| f64::from_bits(*bits)).collect();
    let mean = closes.iter().sum::<f64>() / 21.0;
    assert_eq!(first.indicators.sma, Some((mean + 15.0).to_bits()));
    assert_eq!(first.indicators.adx, Some((mean + 1.0).to_bits()));
}

#[test]
fn ticker_that_fails_is_left_out_of_the_run() {
    let mut requests = vec![];
    let fetched =
        vec![fetch("AAPL", &mut requests), fetch("NOPE", &mut requests), fetch("TSLA", &mut requests)];
    assert_eq!(fetched[1].outcome, Err(FetchError::Network));
    let mut frame = StockFrame::new(&fetched).unwrap();
    assert_eq!(frame.parse_dt_column(), Ok(()));
    frame.fill_date_range();
    frame.fill_nulls();
    let prices = frame.price_series().unwrap();
    let computed: Vec<IndicatorSeries> = prices.iter().map(engine).collect();
    assert_eq!(frame.calc_technical_indicators(&computed), Ok(()));
    frame.clean();
    assert_eq!(frame.tickers, vec!["AAPL", "NOPE", "TSLA"]);
    assert_eq!(frame.frame.len(), 80);
    assert!(frame.frame.iter().all(|row| row.symbol == "AAPL" || row.symbol == "TSLA"));
}

#[test]
fn page_that_is_invalid_fails_its_ticker_only() {
    let uri = String::from("https://host/bars?x");
    let first = StockFrame::grab_entire_json(&uri, vec![], page(&[0, 1], 1.0, Some("after-one")).as_bytes());
    let gathered = match first {
        Ok(Fetch::Continue { bars, .. }) => bars,
        other => panic!("unexpected: {:?}", other),
    };
    let second = StockFrame::grab_entire_json(&uri, gathered, b"{\"code\":429}");
    assert_eq!(second, Err(FetchError::InvalidResponse));
    let fetched = vec![
        TickerFetch { ticker: String::from("BAD"), outcome: Err(FetchError::InvalidResponse) },
        fetch("TSLA", &mut vec![]),
    ];
    let frame = StockFrame::new(&fetched).unwrap();
    assert_eq!(frame.frame.len(), 34);
    assert!(frame.frame.iter().all(|row| row.symbol == "TSLA"));
}
