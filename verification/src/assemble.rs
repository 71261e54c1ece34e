//! The table assembler: the bars of every ticker that could be fetched, read by position
//! into rows and stacked into one table.

use vstd::prelude::*;
use vstd::string::*;
use crate::client::FetchError;
use crate::frame::{canonical_columns, column_names, StockFrame, RAW_COLUMN_COUNT};
use crate::groups::texts_view;
use crate::json::Json;
use crate::row::{blank_indicators, rows_view, Indicators, Quote, Row, RowModel, Stamp, StampModel};

verus! {

/// Milliseconds in a day.
pub const DAY_MS: i64 = 86_400_000;

/// The days that the default fetch window reaches back from the last midnight.
pub const DEFAULT_WINDOW_DAYS: i64 = 30;

/// What fetching one ticker gave: all its bars, or the reason why there are none.
#[derive(Debug, PartialEq, Eq)]
pub struct TickerFetch {
    pub ticker: String,
    pub outcome: Result<Vec<Json>, FetchError>,
}

/// A bar that does not have the provider's eight columns: the bar at position `bar` of the
/// ticker at position `ticker`. It stops the whole run.
#[derive(Clone, Copy, Debug, PartialEq, Eq)]
pub struct SchemaMismatch {
    pub ticker: usize,
    pub bar: usize,
}

/// The timestamp cell that a member of a bar gives: its text, or a missing stamp where the
/// member is no text.
pub open spec fn stamp_cell(json: Json) -> StampModel {
    match json {
        Json::Text(text) => StampModel::Text(text@),
        _ => StampModel::Missing,
    }
}

/// The bar is an object with as many members as the provider has columns.
pub open spec fn fits_schema(bar: Json) -> bool {
    bar matches Json::Object(members) && members@.len() == RAW_COLUMN_COUNT
}

/// The row that a bar gives for a symbol. The bar's members are read by position, not by
/// name: close, high, low, trade count, open, timestamp, volume, vwap. A cell whose member
/// is not of the cell's kind is null, and the indicator cells are null.
pub open spec fn bar_row(symbol: Seq<char>, bar: Json) -> RowModel
    recommends
        fits_schema(bar),
{
    let members = bar->Object_0@;
    RowModel {
        symbol,
        timestamp: stamp_cell(members[5].1),
        quote: Quote {
            open: members[4].1.bits_cell(),
            high: members[1].1.bits_cell(),
            low: members[2].1.bits_cell(),
            close: members[0].1.bits_cell(),
            volume: members[6].1.integer_cell(),
            vwap: members[7].1.bits_cell(),
            trade_count: members[3].1.integer_cell(),
        },
        indicators: blank_indicators(),
    }
}

/// Every bar of the ticker, where it has any, has the provider's columns.
pub open spec fn ticker_fits(fetch: TickerFetch) -> bool {
    match fetch.outcome {
        Ok(bars) => forall|b: int| 0 <= b < bars@.len() ==> fits_schema(#[trigger] bars@[b]),
        Err(_) => true,
    }
}

/// The rows that a ticker adds to the table: one for each of its bars, in their order,
/// tagged with the ticker; none where it could not be fetched.
pub open spec fn contribution(fetch: TickerFetch) -> Seq<RowModel> {
    match fetch.outcome {
        Ok(bars) => Seq::new(bars@.len(), |b: int| bar_row(fetch.ticker@, bars@[b])),
        Err(_) => Seq::empty(),
    }
}

/// The rows of the first `n` tickers, stacked in the tickers' order.
pub open spec fn stacked(fetched: Seq<TickerFetch>, n: int) -> Seq<RowModel>
    decreases n,
{
    if n <= 0 {
        Seq::empty()
    } else {
        stacked(fetched, n - 1) + contribution(fetched[n - 1])
    }
}

/// The bar at `bar` of the ticker at `ticker` is the first, in the order of stacking, that
/// does not have the provider's columns.
pub open spec fn first_mismatch(fetched: Seq<TickerFetch>, ticker: int, bar: int) -> bool {
    &&& 0 <= ticker < fetched.len()
    &&& forall|t: int| 0 <= t < ticker ==> ticker_fits(#[trigger] fetched[t])
    &&& fetched[ticker].outcome matches Ok(bars)
    &&& 0 <= bar < bars@.len()
    &&& !fits_schema(bars@[bar])
    &&& forall|b: int| 0 <= b < bar ==> fits_schema(#[trigger] bars@[b])
}

/// The tickers that were asked for, in order.
pub open spec fn asked(fetched: Seq<TickerFetch>) -> Seq<Seq<char>> {
    fetched.map_values(|fetch: TickerFetch| fetch.ticker@)
}

/// The instant of the last midnight, UTC, at or before `now`.
pub open spec fn midnight_before(now: int) -> int {
    now - now % (DAY_MS as int)
}

/// The row that a bar gives for a symbol, where the bar has the provider's columns.
pub fn row_of_bar(symbol: &String, bar: &Json) -> (row: Option<Row>)
    ensures
        match row {
            Some(row) => fits_schema(*bar) && row@ == bar_row(symbol@, *bar),
            None => !fits_schema(*bar),
        },
{
    match bar {
        Json::Object(members) => {
            if members.len() != RAW_COLUMN_COUNT {
                return None;
            }
            let timestamp: Stamp = match &members[5].1 {
                Json::Text(text) => Stamp::Text(text.clone()),
                _ => Stamp::Missing,
            };
            let quote = Quote {
                open: members[4].1.as_bits(),
                high: members[1].1.as_bits(),
                low: members[2].1.as_bits(),
                close: members[0].1.as_bits(),
                volume: members[6].1.as_integer(),
                vwap: members[7].1.as_bits(),
                trade_count: members[3].1.as_integer(),
            };
            Some(Row { symbol: symbol.clone(), timestamp, quote, indicators: Indicators::blank() })
        },
        _ => None,
    }
}

/// The tickers that are fetched where none are named.
pub fn default_tickers() -> (tickers: Vec<String>)
    ensures
        texts_view(tickers@) == seq!["AAPL"@, "TSLA"@],
{
    let mut tickers: Vec<String> = Vec::new();
    tickers.push(String::from_str("AAPL"));
    tickers.push(String::from_str("TSLA"));
    assert(texts_view(tickers@) =~= seq!["AAPL"@, "TSLA"@]);
    tickers
}

/// The window to fetch, in milliseconds since the epoch: the one given, or, where either
/// end is left open, the thirty days up to the last midnight before `now`.
pub fn fetch_window(start: Option<i64>, end: Option<i64>, now: i64) -> (window: (i64, i64))
    requires
        now >= i64::MIN + (DEFAULT_WINDOW_DAYS + 1) * DAY_MS,
    ensures
        window == match (start, end) {
            (Some(from), Some(to)) => (from, to),
            _ => (
                (midnight_before(now as int) - DEFAULT_WINDOW_DAYS * DAY_MS) as i64,
                midnight_before(now as int) as i64,
            ),
        },
{
    match (start, end) {
        (Some(from), Some(to)) => (from, to),
        _ => {
            let into_day: i64 = now % DAY_MS;
            let since_midnight: i64 = if into_day < 0 {
                into_day + DAY_MS
            } else {
                into_day
            };
            let to: i64 = now - since_midnight;
            (to - DEFAULT_WINDOW_DAYS * DAY_MS, to)
        },
    }
}

/// The rows of one ticker's bars, or the position of the first bar that does not have the
/// provider's columns.
fn rows_of_ticker(ticker: &String, bars: &Vec<Json>) -> (result: Result<Vec<Row>, usize>)
    ensures
        match result {
            Ok(rows) => {
                &&& forall|b: int| 0 <= b < bars@.len() ==> fits_schema(#[trigger] bars@[b])
                &&& rows_view(rows@) == Seq::new(bars@.len(), |b: int| bar_row(ticker@, bars@[b]))
            },
            Err(bar) => {
                &&& bar < bars@.len()
                &&& !fits_schema(bars@[bar as int])
                &&& forall|b: int| 0 <= b < bar ==> fits_schema(#[trigger] bars@[b])
            },
        },
{
    let mut rows: Vec<Row> = Vec::new();
    let mut b: usize = 0;
    while b < bars.len()
        invariant
            b <= bars.len(),
            forall|i: int| 0 <= i < b ==> fits_schema(#[trigger] bars@[i]),
            rows_view(rows@) == Seq::new(b as nat, |i: int| bar_row(ticker@, bars@[i])),
        decreases bars.len() - b,
    {
        let ghost before = rows_view(rows@);
        match row_of_bar(ticker, &bars[b]) {
            Some(row) => {
                rows.push(row);
                assert(rows_view(rows@) =~= before.push(row@));
            },
            None => { return Err(b); },
        }
        b += 1;
        assert(rows_view(rows@) =~= Seq::new(b as nat, |i: int| bar_row(ticker@, bars@[i])));
    }
    Ok(rows)
}

impl StockFrame {
    /// Stacks the bars of the tickers into rows, in the tickers' order.
    ///
    /// A ticker that could not be fetched adds no rows and stops nothing. A bar that does
    /// not have the provider's columns stops the run: the first such bar is reported.
    pub fn grab_latest_data(fetched: &Vec<TickerFetch>) -> (result: Result<Vec<Row>, SchemaMismatch>)
        ensures
            match result {
                Ok(rows) => {
                    &&& forall|t: int| 0 <= t < fetched@.len() ==> ticker_fits(#[trigger] fetched@[t])
                    &&& rows_view(rows@) == stacked(fetched@, fetched@.len() as int)
                },
                Err(error) => first_mismatch(fetched@, error.ticker as int, error.bar as int),
            },
    {
        let mut rows: Vec<Row> = Vec::new();
        let mut t: usize = 0;
        while t < fetched.len()
            invariant
                t <= fetched.len(),
                forall|i: int| 0 <= i < t ==> ticker_fits(#[trigger] fetched@[i]),
                rows_view(rows@) == stacked(fetched@, t as int),
            decreases fetched.len() - t,
        {
            let ghost before = rows_view(rows@);
            match &fetched[t].outcome {
                Ok(bars) => {
                    match rows_of_ticker(&fetched[t].ticker, bars) {
                        Ok(more) => {
                            let mut more = more;
                            let ghost added = rows_view(more@);
                            rows.append(&mut more);
                            assert(rows_view(rows@) =~= before + added);
                        },
                        Err(bar) => { return Err(SchemaMismatch { ticker: t, bar }); },
                    }
                },
                Err(_) => {
                    assert(rows_view(rows@) =~= before + contribution(fetched@[t as int]));
                },
            }
            t += 1;
        }
        Ok(rows)
    }

    /// The table of the tickers' bars: the fixed columns, the tickers that were asked for,
    /// and a row for every bar of every ticker that could be fetched, its indicator cells
    /// null. If no ticker could be fetched the table has no rows.
    pub fn new(fetched: &Vec<TickerFetch>) -> (result: Result<StockFrame, SchemaMismatch>)
        ensures
            match result {
                Ok(table) => {
                    &&& forall|t: int| 0 <= t < fetched@.len() ==> ticker_fits(#[trigger] fetched@[t])
                    &&& table@.columns == canonical_columns()
                    &&& table@.tickers == asked(fetched@)
                    &&& table@.rows == stacked(fetched@, fetched@.len() as int)
                },
                Err(error) => first_mismatch(fetched@, error.ticker as int, error.bar as int),
            },
    {
        let frame: Vec<Row> = match StockFrame::grab_latest_data(fetched) {
            Ok(rows) => rows,
            Err(error) => { return Err(error); },
        };
        let mut tickers: Vec<String> = Vec::new();
        let mut t: usize = 0;
        while t < fetched.len()
            invariant
                t <= fetched.len(),
                texts_view(tickers@) == asked(fetched@).take(t as int),
            decreases fetched.len() - t,
        {
            let ghost before = texts_view(tickers@);
            tickers.push(fetched[t].ticker.clone());
            assert(texts_view(tickers@) =~= before.push(fetched@[t as int].ticker@));
            t += 1;
            assert(texts_view(tickers@) =~= asked(fetched@).take(t as int));
        }
        assert(asked(fetched@).take(fetched@.len() as int) =~= asked(fetched@));
        Ok(StockFrame { columns: column_names(), tickers, frame })
    }
}

/// The rows of the first `n` tickers do not change when a ticker that could not be fetched
/// is taken out of the list.
proof fn lemma_stacked_without(fetched: Seq<TickerFetch>, k: int, n: int)
    requires
        0 <= k < fetched.len(),
        fetched[k].outcome is Err,
        0 <= n <= fetched.len(),
    ensures
        n <= k ==> stacked(fetched, n) == stacked(fetched.remove(k), n),
        n > k ==> stacked(fetched, n) == stacked(fetched.remove(k), n - 1),
    decreases n,
{
    if n > 0 {
        lemma_stacked_without(fetched, k, n - 1);
        if n - 1 < k {
            assert(fetched.remove(k)[n - 1] == fetched[n - 1]);
        } else if n - 1 == k {
            assert(stacked(fetched, n) =~= stacked(fetched, n - 1));
        } else {
            assert(fetched.remove(k)[n - 2] == fetched[n - 1]);
        }
    }
}

/// Per-ticker isolation: a ticker that could not be fetched leaves the table as it would
/// be had the ticker not been asked for, and never turns an assembly that succeeds
/// without it into one that fails.
pub proof fn lemma_failed_ticker_is_isolated(fetched: Seq<TickerFetch>, k: int)
    requires
        0 <= k < fetched.len(),
        fetched[k].outcome is Err,
    ensures
        stacked(fetched, fetched.len() as int) == stacked(
            fetched.remove(k),
            fetched.remove(k).len() as int,
        ),
        (forall|t: int| 0 <= t < fetched.len() ==> ticker_fits(#[trigger] fetched[t])) <==> (forall|
            t: int,
        |
            0 <= t < fetched.remove(k).len() ==> ticker_fits(#[trigger] fetched.remove(k)[t])),
{
    lemma_stacked_without(fetched, k, fetched.len() as int);
    let rest = fetched.remove(k);
    if forall|t: int| 0 <= t < fetched.len() ==> ticker_fits(#[trigger] fetched[t]) {
        assert forall|t: int| 0 <= t < rest.len() implies ticker_fits(#[trigger] rest[t]) by {
            if t < k {
                assert(rest[t] == fetched[t]);
            } else {
                assert(rest[t] == fetched[t + 1]);
            }
        }
    }
    if forall|t: int| 0 <= t < rest.len() ==> ticker_fits(#[trigger] rest[t]) {
        assert forall|t: int| 0 <= t < fetched.len() implies ticker_fits(#[trigger] fetched[t]) by {
            if t < k {
                assert(rest[t] == fetched[t]);
            } else if t > k {
                assert(rest[t - 1] == fetched[t]);
            }
        }
    }
}

} // verus!
