//! The trading-window filter: rows outside the active session hours are dropped.

use vstd::prelude::*;
use crate::frame::StockFrame;
use crate::row::{all_parsed, rows_view, Row, RowModel};

verus! {

/// Milliseconds in an hour.
pub const HOUR_MS: i64 = 3_600_000;

/// The first hour of the day, UTC, that belongs to the session.
pub const SESSION_FIRST_HOUR: i64 = 14;

/// The last hour of the day, UTC, that belongs to the session.
pub const SESSION_LAST_HOUR: i64 = 20;

/// The hour of the day, UTC, of an instant given in milliseconds since the epoch.
pub open spec fn hour_of(instant: int) -> int {
    (instant / (HOUR_MS as int)) % 24
}

/// The row lies in the session: its hour of the day is one of 14 to 20.
pub open spec fn in_session(row: RowModel) -> bool {
    SESSION_FIRST_HOUR <= hour_of(row.instant()) <= SESSION_LAST_HOUR
}

/// The rows of the session, in their order.
pub open spec fn session_rows(rows: Seq<RowModel>) -> Seq<RowModel> {
    rows.filter(|row: RowModel| in_session(row))
}

/// The hour of the day, UTC, of an instant given in milliseconds since the epoch.
pub fn hour_of_day(instant: i64) -> (hour: i64)
    ensures
        hour == hour_of(instant as int),
        0 <= hour < 24,
{
    let quotient: i64 = instant / HOUR_MS;
    let hours: i64 = if instant % HOUR_MS < 0 {
        quotient - 1
    } else {
        quotient
    };
    let hour: i64 = hours % 24;
    if hour < 0 {
        hour + 24
    } else {
        hour
    }
}

impl StockFrame {
    /// Keeps the rows of the session and drops the others. The rows that stay keep their
    /// order and their cells.
    pub fn clean(&mut self)
        requires
            all_parsed(old(self)@.rows),
        ensures
            final(self)@.columns == old(self)@.columns,
            final(self)@.tickers == old(self)@.tickers,
            final(self)@.rows == session_rows(old(self)@.rows),
            all_parsed(final(self)@.rows),
    {
        let ghost table = self@.rows;
        let ghost keep = |row: RowModel| in_session(row);
        let mut kept: Vec<Row> = Vec::new();
        let mut i: usize = 0;
        while i < self.frame.len()
            invariant
                i <= self.frame.len(),
                table == rows_view(self.frame@),
                all_parsed(table),
                keep == |row: RowModel| in_session(row),
                rows_view(kept@) == table.take(i as int).filter(keep),
                all_parsed(rows_view(kept@)),
            decreases self.frame.len() - i,
        {
            let ghost sofar = rows_view(kept@);
            assert(table[i as int].parsed());
            let hour: i64 = hour_of_day(self.frame[i].instant());
            proof {
                reveal(Seq::filter);
                assert(table.take(i + 1).drop_last() =~= table.take(i as int));
            }
            if SESSION_FIRST_HOUR <= hour && hour <= SESSION_LAST_HOUR {
                let row: Row = self.frame[i].duplicate();
                kept.push(row);
                assert(rows_view(kept@) =~= sofar.push(table[i as int]));
            }
            i += 1;
        }
        assert(table.take(table.len() as int) =~= table);
        self.frame = kept;
    }
}

} // verus!
