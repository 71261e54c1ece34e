//! The feature table and its fixed schema.

use vstd::prelude::*;
use vstd::string::*;
use crate::groups::{group_rows, grouping_of, groups_view, is_grouping, texts_view, SymbolGroup};
use crate::row::{all_parsed, rows_view, Row, RowModel};

verus! {

/// The number of columns that the provider sends for a bar.
pub const RAW_COLUMN_COUNT: usize = 8;

/// The number of columns of the feature table.
pub const COLUMN_COUNT: usize = 24;

/// The feature table: its column names, the tickers it was asked for, and its rows.
#[derive(Debug, PartialEq, Eq)]
pub struct StockFrame {
    pub columns: Vec<String>,
    pub tickers: Vec<String>,
    pub frame: Vec<Row>,
}

/// The value of a [`StockFrame`].
#[verifier::ext_equal]
pub struct FrameModel {
    pub columns: Seq<Seq<char>>,
    pub tickers: Seq<Seq<char>>,
    pub rows: Seq<RowModel>,
}

impl View for StockFrame {
    type V = FrameModel;

    open spec fn view(&self) -> FrameModel {
        FrameModel {
            columns: texts_view(self.columns@),
            tickers: texts_view(self.tickers@),
            rows: rows_view(self.frame@),
        }
    }
}

/// The names of the table's columns, in their fixed order.
pub open spec fn canonical_columns() -> Seq<Seq<char>> {
    seq![
        "symbol"@,
        "timestamp"@,
        "open"@,
        "high"@,
        "low"@,
        "close"@,
        "volume"@,
        "vwap"@,
        "trade_count"@,
        "adx"@,
        "atr"@,
        "aroonosc"@,
        "aroonu"@,
        "aroond"@,
        "bband_up"@,
        "bband_mid"@,
        "bband_low"@,
        "macd"@,
        "macdsignal"@,
        "macdhist"@,
        "rsi"@,
        "stoch_slowk"@,
        "stoch_slowd"@,
        "sma"@,
    ]
}

/// The names of the table's columns, in their fixed order.
pub fn column_names() -> (names: Vec<String>)
    ensures
        texts_view(names@) == canonical_columns(),
        names.len() == COLUMN_COUNT,
{
    let mut names: Vec<String> = Vec::new();
    names.push(String::from_str("symbol"));
    names.push(String::from_str("timestamp"));
    names.push(String::from_str("open"));
    names.push(String::from_str("high"));
    names.push(String::from_str("low"));
    names.push(String::from_str("close"));
    names.push(String::from_str("volume"));
    names.push(String::from_str("vwap"));
    names.push(String::from_str("trade_count"));
    names.push(String::from_str("adx"));
    names.push(String::from_str("atr"));
    names.push(String::from_str("aroonosc"));
    names.push(String::from_str("aroonu"));
    names.push(String::from_str("aroond"));
    names.push(String::from_str("bband_up"));
    names.push(String::from_str("bband_mid"));
    names.push(String::from_str("bband_low"));
    names.push(String::from_str("macd"));
    names.push(String::from_str("macdsignal"));
    names.push(String::from_str("macdhist"));
    names.push(String::from_str("rsi"));
    names.push(String::from_str("stoch_slowk"));
    names.push(String::from_str("stoch_slowd"));
    names.push(String::from_str("sma"));
    assert(texts_view(names@) =~= canonical_columns());
    names
}

impl StockFrame {
    /// Whether every row's timestamp has been parsed.
    pub fn is_parsed(&self) -> (parsed: bool)
        ensures
            parsed == all_parsed(self@.rows),
    {
        let mut i: usize = 0;
        while i < self.frame.len()
            invariant
                i <= self.frame.len(),
                forall|j: int| 0 <= j < i ==> (#[trigger] self@.rows[j]).parsed(),
            decreases self.frame.len() - i,
        {
            if !self.frame[i].is_parsed() {
                assert(!self@.rows[i as int].parsed());
                return false;
            }
            i += 1;
        }
        true
    }

    /// The symbol partitions of the table: for each symbol, in ascending order of symbol,
    /// the rows that carry it, in time order.
    pub fn update_symbol_groups(&self) -> (groups: Vec<SymbolGroup>)
        requires
            all_parsed(self@.rows),
        ensures
            is_grouping(self@.rows, groups_view(groups@)),
            groups_view(groups@) == grouping_of(self@.rows),
    {
        group_rows(&self.frame)
    }
}

} // verus!
