//! Timestamp parsing: the provider's timestamp texts become instants.

use polars::prelude::{
    col, lit, DataFrame, DataType, IntoLazy, NamedFrom, Series, StrptimeOptions, TimeUnit,
};
use vstd::prelude::*;
use crate::frame::StockFrame;
use crate::row::{all_parsed, rows_view, Row, RowModel, Stamp, StampModel};

verus! {

/// The instant that stands in for a timestamp that the provider did not send:
/// 1970-01-01T00:00:00Z.
pub const FALLBACK_EPOCH: i64 = 0;

/// The row whose timestamp text does not have the one format that is accepted. It stops
/// the whole run.
#[derive(Clone, Copy, Debug, PartialEq, Eq)]
pub struct ParseError {
    pub row: usize,
}

/// The instant, in milliseconds since the epoch, that polars reads from a timestamp text
/// with the combined date-and-time format `%+`; nothing where the text does not have that
/// format.
pub uninterp spec fn instant_of_text(text: Seq<char>) -> Option<i64>;

/// Puts the text into a one-row frame and runs polars' `strptime` expression on it, for
/// the type `Datetime` in milliseconds without a time zone, with the format `%+`, strict
/// and exact, and reads the cell back. An error of polars, which is how strict parsing
/// reports a text that does not match, is handed on as no instant. The contract claims
/// only that the outcome is a function of the text, [`instant_of_text`].
#[verifier::external_body]
fn strptime_millis(text: &str) -> (instant: Option<i64>)
    ensures
        instant == instant_of_text(text@),
{
    let options =
        StrptimeOptions { format: Some("%+".into()), strict: true, exact: true, cache: false };
    let kind = DataType::Datetime(TimeUnit::Milliseconds, None);
    let parsed = DataFrame::new(vec![Series::new("timestamp", [text])]).ok()?
        .lazy()
        .with_columns([col("timestamp").str().strptime(kind, options, lit("raise"))])
        .collect().ok()?;
    parsed.column("timestamp").ok()?.datetime().ok()?.get(0)
}

/// The stamp after parsing: a text becomes the instant that it reads as, a missing stamp
/// becomes the fallback epoch, and an instant stays. There is none for a text that does
/// not have the format.
pub open spec fn parsed_stamp(stamp: StampModel) -> Option<StampModel> {
    match stamp {
        StampModel::Text(text) => match instant_of_text(text) {
            Some(instant) => Some(StampModel::Instant(instant)),
            None => None,
        },
        StampModel::Missing => Some(StampModel::Instant(FALLBACK_EPOCH)),
        StampModel::Instant(instant) => Some(StampModel::Instant(instant)),
    }
}

/// The row with its stamp parsed.
pub open spec fn parsed_row(row: RowModel) -> RowModel
    recommends
        parsed_stamp(row.timestamp) is Some,
{
    RowModel { timestamp: parsed_stamp(row.timestamp).unwrap(), ..row }
}

/// Row `row` is the first whose timestamp text does not have the format.
pub open spec fn first_unparsable(rows: Seq<RowModel>, row: int) -> bool {
    &&& 0 <= row < rows.len()
    &&& parsed_stamp(rows[row].timestamp) is None
    &&& forall|j: int| 0 <= j < row ==> parsed_stamp((#[trigger] rows[j]).timestamp) is Some
}

/// The instant of a stamp after parsing.
pub fn parse_stamp(stamp: &Stamp) -> (instant: Option<i64>)
    ensures
        match instant {
            Some(instant) => parsed_stamp(stamp@) == Some(StampModel::Instant(instant)),
            None => parsed_stamp(stamp@) is None,
        },
{
    match stamp {
        Stamp::Text(text) => strptime_millis(text.as_str()),
        Stamp::Missing => Some(FALLBACK_EPOCH),
        Stamp::Instant(instant) => Some(*instant),
    }
}

impl StockFrame {
    /// Parses the timestamp of every row.
    ///
    /// A text becomes the instant that it reads as, and a row without a timestamp text
    /// gets the fallback epoch. A text that does not have the format stops the run: the
    /// first such row is reported and the table is left as it was.
    pub fn parse_dt_column(&mut self) -> (result: Result<(), ParseError>)
        ensures
            final(self)@.columns == old(self)@.columns,
            final(self)@.tickers == old(self)@.tickers,
            match result {
                Ok(()) => {
                    &&& forall|i: int|
                        0 <= i < old(self)@.rows.len() ==> parsed_stamp(
                            (#[trigger] old(self)@.rows[i]).timestamp,
                        ) is Some
                    &&& final(self)@.rows == old(self)@.rows.map_values(|row: RowModel| parsed_row(row))
                    &&& all_parsed(final(self)@.rows)
                },
                Err(error) => {
                    &&& first_unparsable(old(self)@.rows, error.row as int)
                    &&& final(self)@ == old(self)@
                },
            },
    {
        let ghost table = self@.rows;
        let mut instants: Vec<i64> = Vec::new();
        let mut i: usize = 0;
        while i < self.frame.len()
            invariant
                i <= self.frame.len(),
                table == rows_view(self.frame@),
                instants@.len() == i,
                forall|j: int|
                    0 <= j < i ==> parsed_stamp((#[trigger] table[j]).timestamp) == Some(
                        StampModel::Instant(instants@[j]),
                    ),
            decreases self.frame.len() - i,
        {
            assert(table[i as int].timestamp == self.frame@[i as int].timestamp@);
            match parse_stamp(&self.frame[i].timestamp) {
                Some(instant) => { instants.push(instant); },
                None => { return Err(ParseError { row: i }); },
            }
            i += 1;
        }
        let mut i: usize = 0;
        while i < self.frame.len()
            invariant
                i <= self.frame.len(),
                self.frame@.len() == table.len(),
                instants@.len() == table.len(),
                forall|j: int|
                    0 <= j < table.len() ==> parsed_stamp((#[trigger] table[j]).timestamp) == Some(
                        StampModel::Instant(instants@[j]),
                    ),
                forall|j: int| 0 <= j < i ==> #[trigger] rows_view(self.frame@)[j] == parsed_row(table[j]),
                forall|j: int| i <= j < table.len() ==> #[trigger] rows_view(self.frame@)[j] == table[j],
                self@.columns == old(self)@.columns,
                self@.tickers == old(self)@.tickers,
            decreases self.frame.len() - i,
        {
            let ghost held = rows_view(self.frame@);
            assert(held[i as int] == table[i as int]);
            self.frame[i].timestamp = Stamp::Instant(instants[i]);
            proof {
                let now = rows_view(self.frame@);
                assert(parsed_stamp(table[i as int].timestamp) is Some);
                assert(now[i as int] =~= parsed_row(table[i as int]));
                assert forall|j: int| 0 <= j < table.len() && j != i implies #[trigger] now[j]
                    == held[j] by {}
            }
            i += 1;
        }
        proof {
            let now = rows_view(self.frame@);
            assert(now =~= table.map_values(|row: RowModel| parsed_row(row)));
            assert forall|j: int| 0 <= j < now.len() implies (#[trigger] now[j]).parsed() by {
                assert(now[j] == parsed_row(table[j]));
            }
        }
        Ok(())
    }
}

} // verus!
