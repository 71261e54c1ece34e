//! Rows of the feature table, and the mathematical values they stand for.
//!
//! Prices and indicator values are binary64 numbers carried as their bit patterns: the
//! table moves them from place to place and never computes with them.

use vstd::prelude::*;

verus! {

/// The timestamp cell of a row: the provider's text until it is parsed, an instant in
/// milliseconds since the epoch afterwards.
#[derive(Debug, PartialEq, Eq)]
pub enum Stamp {
    /// The raw text as the provider sent it.
    Text(String),
    /// The provider sent no timestamp text.
    Missing,
    /// Milliseconds since 1970-01-01T00:00:00Z.
    Instant(i64),
}

/// The value of a [`Stamp`].
#[verifier::ext_equal]
pub enum StampModel {
    Text(Seq<char>),
    Missing,
    Instant(i64),
}

impl View for Stamp {
    type V = StampModel;

    open spec fn view(&self) -> StampModel {
        match self {
            Stamp::Text(text) => StampModel::Text(text@),
            Stamp::Missing => StampModel::Missing,
            Stamp::Instant(instant) => StampModel::Instant(*instant),
        }
    }
}

/// The seven provider cells of a row. Any of them may be null.
#[derive(Clone, Copy, Debug, PartialEq, Eq)]
pub struct Quote {
    pub open: Option<u64>,
    pub high: Option<u64>,
    pub low: Option<u64>,
    pub close: Option<u64>,
    pub volume: Option<i64>,
    pub vwap: Option<u64>,
    pub trade_count: Option<i64>,
}

/// The fifteen indicator cells of a row, null until the feature stage sets them.
#[derive(Clone, Copy, Debug, PartialEq, Eq)]
pub struct Indicators {
    pub adx: Option<u64>,
    pub atr: Option<u64>,
    pub aroonosc: Option<u64>,
    pub aroonu: Option<u64>,
    pub aroond: Option<u64>,
    pub bband_up: Option<u64>,
    pub bband_mid: Option<u64>,
    pub bband_low: Option<u64>,
    pub macd: Option<u64>,
    pub macdsignal: Option<u64>,
    pub macdhist: Option<u64>,
    pub rsi: Option<u64>,
    pub stoch_slowk: Option<u64>,
    pub stoch_slowd: Option<u64>,
    pub sma: Option<u64>,
}

/// One row of the feature table.
#[derive(Debug, PartialEq, Eq)]
pub struct Row {
    pub symbol: String,
    pub timestamp: Stamp,
    pub quote: Quote,
    pub indicators: Indicators,
}

/// The value of a [`Row`].
#[verifier::ext_equal]
pub struct RowModel {
    pub symbol: Seq<char>,
    pub timestamp: StampModel,
    pub quote: Quote,
    pub indicators: Indicators,
}

impl View for Row {
    type V = RowModel;

    open spec fn view(&self) -> RowModel {
        RowModel {
            symbol: self.symbol@,
            timestamp: self.timestamp@,
            quote: self.quote,
            indicators: self.indicators,
        }
    }
}

/// The values of a sequence of rows, in order.
pub open spec fn rows_view(rows: Seq<Row>) -> Seq<RowModel> {
    rows.map_values(|row: Row| row@)
}

/// A quote with every cell null.
pub open spec fn blank_quote() -> Quote {
    Quote {
        open: None,
        high: None,
        low: None,
        close: None,
        volume: None,
        vwap: None,
        trade_count: None,
    }
}

/// Indicator cells that are all null.
pub open spec fn blank_indicators() -> Indicators {
    Indicators {
        adx: None,
        atr: None,
        aroonosc: None,
        aroonu: None,
        aroond: None,
        bband_up: None,
        bband_mid: None,
        bband_low: None,
        macd: None,
        macdsignal: None,
        macdhist: None,
        rsi: None,
        stoch_slowk: None,
        stoch_slowd: None,
        sma: None,
    }
}

/// The row that densification puts where a symbol has no observation at an instant: the
/// two keys and nothing else.
pub open spec fn blank_row(symbol: Seq<char>, instant: i64) -> RowModel {
    RowModel {
        symbol,
        timestamp: StampModel::Instant(instant),
        quote: blank_quote(),
        indicators: blank_indicators(),
    }
}

impl RowModel {
    /// The row's instant, in milliseconds since the epoch. Meaningful for a parsed row.
    pub open spec fn instant(self) -> int {
        match self.timestamp {
            StampModel::Instant(instant) => instant as int,
            _ => 0,
        }
    }

    /// The row's timestamp has been parsed.
    pub open spec fn parsed(self) -> bool {
        self.timestamp is Instant
    }
}

/// Every row's timestamp has been parsed.
pub open spec fn all_parsed(rows: Seq<RowModel>) -> bool {
    forall|i: int| 0 <= i < rows.len() ==> (#[trigger] rows[i]).parsed()
}

impl Quote {
    /// A quote with every cell null.
    pub fn blank() -> (quote: Quote)
        ensures
            quote == blank_quote(),
    {
        Quote {
            open: None,
            high: None,
            low: None,
            close: None,
            volume: None,
            vwap: None,
            trade_count: None,
        }
    }
}

impl Indicators {
    /// Indicator cells that are all null.
    pub fn blank() -> (indicators: Indicators)
        ensures
            indicators == blank_indicators(),
    {
        Indicators {
            adx: None,
            atr: None,
            aroonosc: None,
            aroonu: None,
            aroond: None,
            bband_up: None,
            bband_mid: None,
            bband_low: None,
            macd: None,
            macdsignal: None,
            macdhist: None,
            rsi: None,
            stoch_slowk: None,
            stoch_slowd: None,
            sma: None,
        }
    }
}

impl Stamp {
    /// A copy of the stamp.
    pub fn duplicate(&self) -> (copy: Stamp)
        ensures
            copy == *self,
    {
        match self {
            Stamp::Text(text) => Stamp::Text(text.clone()),
            Stamp::Missing => Stamp::Missing,
            Stamp::Instant(instant) => Stamp::Instant(*instant),
        }
    }
}

impl Row {
    /// The row that densification puts where a symbol has no observation at an instant.
    pub fn blank(symbol: String, instant: i64) -> (row: Row)
        ensures
            row@ == blank_row(symbol@, instant),
    {
        Row {
            symbol,
            timestamp: Stamp::Instant(instant),
            quote: Quote::blank(),
            indicators: Indicators::blank(),
        }
    }

    /// A copy of the row.
    pub fn duplicate(&self) -> (copy: Row)
        ensures
            copy == *self,
    {
        Row {
            symbol: self.symbol.clone(),
            timestamp: self.timestamp.duplicate(),
            quote: self.quote,
            indicators: self.indicators,
        }
    }

    /// The row's instant in milliseconds since the epoch.
    pub fn instant(&self) -> (instant: i64)
        requires
            self@.parsed(),
        ensures
            instant == self@.instant(),
    {
        match &self.timestamp {
            Stamp::Instant(instant) => *instant,
            _ => 0,
        }
    }

    /// Whether the row's timestamp has been parsed.
    pub fn is_parsed(&self) -> (parsed: bool)
        ensures
            parsed == self@.parsed(),
    {
        match &self.timestamp {
            Stamp::Instant(_) => true,
            _ => false,
        }
    }
}

/// The instant of the row at `index`, in milliseconds since the epoch.
pub fn instant_at(rows: &Vec<Row>, index: usize) -> (instant: i64)
    requires
        index < rows.len(),
        all_parsed(rows_view(rows@)),
    ensures
        instant == rows_view(rows@)[index as int].instant(),
{
    assert(rows_view(rows@)[index as int].parsed());
    rows[index].instant()
}

} // verus!
