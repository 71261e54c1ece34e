//! The feature stage: the price arrays that the indicator engine is given for each symbol
//! partition, and the splicing of its results into the table.

use vstd::prelude::*;
use crate::frame::StockFrame;
use crate::groups::{
    group_offset, group_rows, grouping_of, groups_view, is_grouping, is_partition,
    lemma_grouping_covers, GroupModel, SymbolGroup,
};
use crate::row::{all_parsed, rows_view, Indicators, Row, RowModel};

verus! {

/// The shortest partition that the feature stage accepts: the slow period of MACD.
pub const MIN_HISTORY: usize = 26;

/// Window of the average directional index.
pub const ADX_PERIOD: u32 = 14;

/// Window of the average true range.
pub const ATR_PERIOD: u32 = 14;

/// Window of the Aroon indicator and of the Aroon oscillator.
pub const AROON_PERIOD: u32 = 14;

/// Window of the Bollinger bands, whose basis is a simple moving average.
pub const BBANDS_PERIOD: u32 = 5;

/// Width of the Bollinger bands above and below the basis, in standard deviations.
pub const BBANDS_DEVIATIONS: u32 = 2;

/// Fast period of MACD.
pub const MACD_FAST_PERIOD: u32 = 12;

/// Slow period of MACD.
pub const MACD_SLOW_PERIOD: u32 = 26;

/// Signal period of MACD.
pub const MACD_SIGNAL_PERIOD: u32 = 9;

/// Window of the relative strength index.
pub const RSI_PERIOD: u32 = 14;

/// %K period of the slow stochastic.
pub const STOCH_FASTK_PERIOD: u32 = 5;

/// %K smoothing of the slow stochastic, a simple moving average.
pub const STOCH_SLOWK_PERIOD: u32 = 3;

/// %D period of the slow stochastic, a simple moving average.
pub const STOCH_SLOWD_PERIOD: u32 = 3;

/// Window of the simple moving average.
pub const SMA_PERIOD: u32 = 30;

/// The price arrays of one symbol partition, in time order: what the indicator engine
/// reads.
#[derive(Debug, PartialEq, Eq)]
pub struct PriceSeries {
    pub high: Vec<u64>,
    pub low: Vec<u64>,
    pub close: Vec<u64>,
}

/// The indicator arrays that the engine computed for one symbol partition, one value for
/// each row of the partition.
#[derive(Debug, PartialEq, Eq)]
pub struct IndicatorSeries {
    pub adx: Vec<u64>,
    pub atr: Vec<u64>,
    pub aroonosc: Vec<u64>,
    pub aroonu: Vec<u64>,
    pub aroond: Vec<u64>,
    pub bband_up: Vec<u64>,
    pub bband_mid: Vec<u64>,
    pub bband_low: Vec<u64>,
    pub macd: Vec<u64>,
    pub macdsignal: Vec<u64>,
    pub macdhist: Vec<u64>,
    pub rsi: Vec<u64>,
    pub stoch_slowk: Vec<u64>,
    pub stoch_slowd: Vec<u64>,
    pub sma: Vec<u64>,
}

/// Why the feature stage refused a table.
#[derive(Clone, Copy, Debug, PartialEq, Eq)]
pub enum FeatureError {
    /// The partition at this position of the grouping has fewer than [`MIN_HISTORY`] rows,
    /// or one of its high, low or close cells is still null.
    InsufficientHistory { group: usize },
    /// The indicator arrays at this position do not all have the length of the partition
    /// at that position, or there is no partition or no set of arrays at that position.
    Misaligned { group: usize },
}

impl IndicatorSeries {
    /// Every array has one value for each of `len` rows.
    pub open spec fn aligned(&self, len: int) -> bool {
        &&& self.adx@.len() == len
        &&& self.atr@.len() == len
        &&& self.aroonosc@.len() == len
        &&& self.aroonu@.len() == len
        &&& self.aroond@.len() == len
        &&& self.bband_up@.len() == len
        &&& self.bband_mid@.len() == len
        &&& self.bband_low@.len() == len
        &&& self.macd@.len() == len
        &&& self.macdsignal@.len() == len
        &&& self.macdhist@.len() == len
        &&& self.rsi@.len() == len
        &&& self.stoch_slowk@.len() == len
        &&& self.stoch_slowd@.len() == len
        &&& self.sma@.len() == len
    }

    /// The indicator cells of the row at position `j` of the partition.
    pub open spec fn at(&self, j: int) -> Indicators {
        Indicators {
            adx: Some(self.adx@[j]),
            atr: Some(self.atr@[j]),
            aroonosc: Some(self.aroonosc@[j]),
            aroonu: Some(self.aroonu@[j]),
            aroond: Some(self.aroond@[j]),
            bband_up: Some(self.bband_up@[j]),
            bband_mid: Some(self.bband_mid@[j]),
            bband_low: Some(self.bband_low@[j]),
            macd: Some(self.macd@[j]),
            macdsignal: Some(self.macdsignal@[j]),
            macdhist: Some(self.macdhist@[j]),
            rsi: Some(self.rsi@[j]),
            stoch_slowk: Some(self.stoch_slowk@[j]),
            stoch_slowd: Some(self.stoch_slowd@[j]),
            sma: Some(self.sma@[j]),
        }
    }

    /// Whether every array has one value for each of `len` rows.
    pub fn is_aligned(&self, len: usize) -> (aligned: bool)
        ensures
            aligned == self.aligned(len as int),
    {
        self.adx.len() == len && self.atr.len() == len && self.aroonosc.len() == len
            && self.aroonu.len() == len && self.aroond.len() == len && self.bband_up.len() == len
            && self.bband_mid.len() == len && self.bband_low.len() == len && self.macd.len() == len
            && self.macdsignal.len() == len && self.macdhist.len() == len && self.rsi.len() == len
            && self.stoch_slowk.len() == len && self.stoch_slowd.len() == len && self.sma.len()
            == len
    }

    /// The indicator cells of the row at position `j` of the partition.
    pub fn indicators_at(&self, j: usize) -> (cells: Indicators)
        requires
            exists|len: int| j < len && self.aligned(len),
        ensures
            cells == self.at(j as int),
    {
        Indicators {
            adx: Some(self.adx[j]),
            atr: Some(self.atr[j]),
            aroonosc: Some(self.aroonosc[j]),
            aroonu: Some(self.aroonu[j]),
            aroond: Some(self.aroond[j]),
            bband_up: Some(self.bband_up[j]),
            bband_mid: Some(self.bband_mid[j]),
            bband_low: Some(self.bband_low[j]),
            macd: Some(self.macd[j]),
            macdsignal: Some(self.macdsignal[j]),
            macdhist: Some(self.macdhist[j]),
            rsi: Some(self.rsi[j]),
            stoch_slowk: Some(self.stoch_slowk[j]),
            stoch_slowd: Some(self.stoch_slowd[j]),
            sma: Some(self.sma[j]),
        }
    }
}

/// The row's high, low and close are all known.
pub open spec fn resolved(row: RowModel) -> bool {
    row.quote.high is Some && row.quote.low is Some && row.quote.close is Some
}

/// The partition is long enough for the indicators and none of its prices is null.
pub open spec fn group_ready(rows: Seq<RowModel>, group: GroupModel) -> bool {
    &&& group.rows.len() >= MIN_HISTORY
    &&& forall|j: int| 0 <= j < group.rows.len() ==> resolved(rows[#[trigger] group.rows[j] as int])
}

/// Every partition is ready.
pub open spec fn all_ready(rows: Seq<RowModel>, groups: Seq<GroupModel>) -> bool {
    forall|k: int| 0 <= k < groups.len() ==> group_ready(rows, #[trigger] groups[k])
}

/// Partition `k` is the first that is not ready.
pub open spec fn first_unready(rows: Seq<RowModel>, groups: Seq<GroupModel>, k: int) -> bool {
    &&& 0 <= k < groups.len()
    &&& !group_ready(rows, groups[k])
    &&& forall|m: int| 0 <= m < k ==> group_ready(rows, #[trigger] groups[m])
}

/// There are indicator arrays for partition `k`, and they have its length.
pub open spec fn group_aligned(
    groups: Seq<GroupModel>,
    computed: Seq<IndicatorSeries>,
    k: int,
) -> bool {
    k < computed.len() && computed[k].aligned(groups[k].rows.len() as int)
}

/// The indicator arrays line up with the partitions, one set for each, index for index.
pub open spec fn all_aligned(groups: Seq<GroupModel>, computed: Seq<IndicatorSeries>) -> bool {
    &&& computed.len() == groups.len()
    &&& forall|k: int| 0 <= k < groups.len() ==> #[trigger] group_aligned(groups, computed, k)
}

/// Position `k` is the first at which partitions and indicator arrays do not line up.
pub open spec fn first_misaligned(
    groups: Seq<GroupModel>,
    computed: Seq<IndicatorSeries>,
    k: int,
) -> bool {
    &&& 0 <= k <= groups.len()
    &&& forall|m: int| 0 <= m < k ==> #[trigger] group_aligned(groups, computed, m)
    &&& if k < groups.len() {
        !group_aligned(groups, computed, k)
    } else {
        computed.len() > groups.len()
    }
}

/// The row with its indicator cells replaced.
pub open spec fn with_indicators(row: RowModel, cells: Indicators) -> RowModel {
    RowModel { indicators: cells, ..row }
}

/// The rows of one partition, in time order, each with its indicator cells set from the
/// arrays at its position.
pub open spec fn spliced_group(
    rows: Seq<RowModel>,
    group: GroupModel,
    series: IndicatorSeries,
) -> Seq<RowModel> {
    Seq::new(
        group.rows.len(),
        |j: int| with_indicators(rows[group.rows[j] as int], series.at(j)),
    )
}

/// The first `n` partitions, spliced and laid end to end.
pub open spec fn spliced(
    rows: Seq<RowModel>,
    groups: Seq<GroupModel>,
    computed: Seq<IndicatorSeries>,
    n: int,
) -> Seq<RowModel>
    decreases n,
{
    if n <= 0 {
        Seq::empty()
    } else {
        spliced(rows, groups, computed, n - 1) + spliced_group(
            rows,
            groups[n - 1],
            computed[n - 1],
        )
    }
}

/// The price arrays of partition `group` hold the prices of its rows, in time order.
pub open spec fn prices_of(rows: Seq<RowModel>, group: GroupModel, prices: PriceSeries) -> bool {
    &&& prices.high@.len() == group.rows.len()
    &&& prices.low@.len() == group.rows.len()
    &&& prices.close@.len() == group.rows.len()
    &&& forall|j: int|
        0 <= j < group.rows.len() ==> {
            let row = rows[#[trigger] group.rows[j] as int];
            &&& row.quote.high == Some(prices.high@[j])
            &&& row.quote.low == Some(prices.low@[j])
            &&& row.quote.close == Some(prices.close@[j])
        }
}

/// Whether a partition is long enough and free of null prices.
fn group_is_ready(rows: &Vec<Row>, group: &SymbolGroup) -> (ready: bool)
    requires
        forall|j: int| 0 <= j < group.rows@.len() ==> (#[trigger] group.rows@[j]) < rows.len(),
    ensures
        ready == group_ready(rows_view(rows@), group@),
{
    if group.rows.len() < MIN_HISTORY {
        return false;
    }
    let mut j: usize = 0;
    while j < group.rows.len()
        invariant
            j <= group.rows.len(),
            group.rows.len() >= MIN_HISTORY,
            forall|m: int| 0 <= m < group.rows@.len() ==> (#[trigger] group.rows@[m]) < rows.len(),
            forall|m: int|
                0 <= m < j ==> resolved(rows_view(rows@)[#[trigger] group@.rows[m] as int]),
        decreases group.rows.len() - j,
    {
        let row: &Row = &rows[group.rows[j]];
        if row.quote.high.is_none() || row.quote.low.is_none() || row.quote.close.is_none() {
            assert(!resolved(rows_view(rows@)[group@.rows[j as int] as int]));
            return false;
        }
        j += 1;
    }
    true
}

/// The first partition that is not ready, if there is one.
fn find_unready(rows: &Vec<Row>, groups: &Vec<SymbolGroup>) -> (found: Option<usize>)
    requires
        is_grouping(rows_view(rows@), groups_view(groups@)),
    ensures
        match found {
            Some(k) => first_unready(rows_view(rows@), groups_view(groups@), k as int),
            None => all_ready(rows_view(rows@), groups_view(groups@)),
        },
{
    let ghost table = rows_view(rows@);
    let ghost models = groups_view(groups@);
    let mut k: usize = 0;
    while k < groups.len()
        invariant
            k <= groups.len(),
            table == rows_view(rows@),
            models == groups_view(groups@),
            is_grouping(table, models),
            forall|m: int| 0 <= m < k ==> group_ready(table, #[trigger] models[m]),
        decreases groups.len() - k,
    {
        assert(is_partition(table, models[k as int].symbol, models[k as int].rows));
        assert(models[k as int] == groups@[k as int]@);
        if !group_is_ready(rows, &groups[k]) {
            return Some(k);
        }
        k += 1;
    }
    None
}

/// The first position at which partitions and indicator arrays do not line up, if there
/// is one.
fn find_misaligned(groups: &Vec<SymbolGroup>, computed: &Vec<IndicatorSeries>) -> (found: Option<
    usize,
>)
    ensures
        match found {
            Some(k) => first_misaligned(groups_view(groups@), computed@, k as int),
            None => all_aligned(groups_view(groups@), computed@),
        },
{
    let ghost models = groups_view(groups@);
    let mut k: usize = 0;
    while k < groups.len()
        invariant
            k <= groups.len(),
            models == groups_view(groups@),
            forall|m: int| 0 <= m < k ==> #[trigger] group_aligned(models, computed@, m),
        decreases groups.len() - k,
    {
        assert(models[k as int] == groups@[k as int]@);
        if k >= computed.len() || !computed[k].is_aligned(groups[k].rows.len()) {
            return Some(k);
        }
        k += 1;
    }
    if computed.len() > groups.len() {
        return Some(k);
    }
    assert(groups.len() > 0 ==> group_aligned(models, computed@, groups.len() - 1));
    None
}

/// The price arrays of one partition.
fn prices_of_group(rows: &Vec<Row>, group: &SymbolGroup) -> (prices: PriceSeries)
    requires
        forall|j: int| 0 <= j < group.rows@.len() ==> (#[trigger] group.rows@[j]) < rows.len(),
        group_ready(rows_view(rows@), group@),
    ensures
        prices_of(rows_view(rows@), group@, prices),
{
    let ghost table = rows_view(rows@);
    let mut prices = PriceSeries { high: Vec::new(), low: Vec::new(), close: Vec::new() };
    let mut j: usize = 0;
    while j < group.rows.len()
        invariant
            j <= group.rows.len(),
            table == rows_view(rows@),
            forall|m: int| 0 <= m < group.rows@.len() ==> (#[trigger] group.rows@[m]) < rows.len(),
            group_ready(table, group@),
            prices.high@.len() == j,
            prices.low@.len() == j,
            prices.close@.len() == j,
            forall|m: int|
                0 <= m < j ==> {
                    let row = table[#[trigger] group@.rows[m] as int];
                    &&& row.quote.high == Some(prices.high@[m])
                    &&& row.quote.low == Some(prices.low@[m])
                    &&& row.quote.close == Some(prices.close@[m])
                },
        decreases group.rows.len() - j,
    {
        let row: &Row = &rows[group.rows[j]];
        assert(resolved(table[group@.rows[j as int] as int]));
        let high: u64 = row.quote.high.unwrap();
        let low: u64 = row.quote.low.unwrap();
        let close: u64 = row.quote.close.unwrap();
        prices.high.push(high);
        prices.low.push(low);
        prices.close.push(close);
        j += 1;
    }
    prices
}

impl StockFrame {
    /// The price arrays of every symbol partition, in the order of the grouping: what the
    /// indicator engine is to be run on, one partition at a time.
    ///
    /// Fails at the first partition that has fewer than [`MIN_HISTORY`] rows or a null
    /// among its high, low and close cells.
    pub fn price_series(&self) -> (result: Result<Vec<PriceSeries>, FeatureError>)
        requires
            all_parsed(self@.rows),
        ensures
            match result {
                Ok(series) => {
                    let groups = grouping_of(self@.rows);
                    &&& all_ready(self@.rows, groups)
                    &&& series@.len() == groups.len()
                    &&& forall|k: int|
                        0 <= k < groups.len() ==> prices_of(
                            self@.rows,
                            groups[k],
                            #[trigger] series@[k],
                        )
                },
                Err(FeatureError::InsufficientHistory { group }) => first_unready(
                    self@.rows,
                    grouping_of(self@.rows),
                    group as int,
                ),
                Err(FeatureError::Misaligned { .. }) => false,
            },
    {
        let groups: Vec<SymbolGroup> = group_rows(&self.frame);
        let ghost table = self@.rows;
        let ghost models = groups_view(groups@);
        match find_unready(&self.frame, &groups) {
            Some(k) => { return Err(FeatureError::InsufficientHistory { group: k }); },
            None => {},
        }
        let mut series: Vec<PriceSeries> = Vec::new();
        let mut k: usize = 0;
        while k < groups.len()
            invariant
                k <= groups.len(),
                table == rows_view(self.frame@),
                models == groups_view(groups@),
                is_grouping(table, models),
                all_ready(table, models),
                series@.len() == k,
                forall|m: int| 0 <= m < k ==> prices_of(table, models[m], #[trigger] series@[m]),
            decreases groups.len() - k,
        {
            assert(is_partition(table, models[k as int].symbol, models[k as int].rows));
            assert(models[k as int] == groups@[k as int]@);
            let prices: PriceSeries = prices_of_group(&self.frame, &groups[k]);
            series.push(prices);
            k += 1;
        }
        Ok(series)
    }

    /// Splices the indicator arrays that the engine computed into the table.
    ///
    /// `computed` holds one set of arrays for each symbol partition, in the order of the
    /// grouping. The table becomes the partitions laid end to end, symbols ascending and
    /// each partition in time order, every row with its indicator cells set from the
    /// arrays at its position; it has as many rows as before. A table that is refused is
    /// left as it was.
    pub fn calc_technical_indicators(&mut self, computed: &Vec<IndicatorSeries>) -> (result: Result<
        (),
        FeatureError,
    >)
        requires
            all_parsed(old(self)@.rows),
        ensures
            final(self)@.columns == old(self)@.columns,
            final(self)@.tickers == old(self)@.tickers,
            all_parsed(final(self)@.rows),
            match result {
                Ok(()) => {
                    let groups = grouping_of(old(self)@.rows);
                    &&& all_ready(old(self)@.rows, groups)
                    &&& all_aligned(groups, computed@)
                    &&& final(self)@.rows == spliced(
                        old(self)@.rows,
                        groups,
                        computed@,
                        groups.len() as int,
                    )
                    &&& final(self)@.rows.len() == old(self)@.rows.len()
                },
                Err(FeatureError::InsufficientHistory { group }) => {
                    &&& first_unready(old(self)@.rows, grouping_of(old(self)@.rows), group as int)
                    &&& final(self)@ == old(self)@
                },
                Err(FeatureError::Misaligned { group }) => {
                    &&& all_ready(old(self)@.rows, grouping_of(old(self)@.rows))
                    &&& first_misaligned(grouping_of(old(self)@.rows), computed@, group as int)
                    &&& final(self)@ == old(self)@
                },
            },
    {
        let groups: Vec<SymbolGroup> = group_rows(&self.frame);
        let ghost table = self@.rows;
        let ghost models = groups_view(groups@);
        match find_unready(&self.frame, &groups) {
            Some(k) => { return Err(FeatureError::InsufficientHistory { group: k }); },
            None => {},
        }
        match find_misaligned(&groups, computed) {
            Some(k) => { return Err(FeatureError::Misaligned { group: k }); },
            None => {},
        }
        let mut out: Vec<Row> = Vec::new();
        let mut k: usize = 0;
        while k < groups.len()
            invariant
                k <= groups.len(),
                table == rows_view(self.frame@),
                all_parsed(table),
                models == groups_view(groups@),
                is_grouping(table, models),
                all_aligned(models, computed@),
                rows_view(out@) == spliced(table, models, computed@, k as int),
                all_parsed(rows_view(out@)),
            decreases groups.len() - k,
        {
            let group: &SymbolGroup = &groups[k];
            let series: &IndicatorSeries = &computed[k];
            let ghost done = rows_view(out@);
            assert(models[k as int] == group@);
            assert(is_partition(table, models[k as int].symbol, models[k as int].rows));
            assert(group_aligned(models, computed@, k as int));
            let mut j: usize = 0;
            while j < group.rows.len()
                invariant
                    j <= group.rows.len(),
                    table == rows_view(self.frame@),
                    all_parsed(table),
                    series.aligned(group.rows@.len() as int),
                    forall|m: int|
                        0 <= m < group.rows@.len() ==> (#[trigger] group.rows@[m]) < table.len(),
                    rows_view(out@) == done + spliced_group(table, group@, *series).take(j as int),
                    all_parsed(done),
                    all_parsed(rows_view(out@)),
                decreases group.rows.len() - j,
            {
                let index: usize = group.rows[j];
                let source: &Row = &self.frame[index];
                let ghost before = rows_view(out@);
                let row = Row {
                    symbol: source.symbol.clone(),
                    timestamp: source.timestamp.duplicate(),
                    quote: source.quote,
                    indicators: series.indicators_at(j),
                };
                assert(row@ == with_indicators(table[index as int], series.at(j as int)));
                assert(table[index as int].parsed());
                out.push(row);
                proof {
                    let whole = spliced_group(table, group@, *series);
                    assert(rows_view(out@) =~= before.push(row@));
                    assert(whole.take(j + 1) =~= whole.take(j as int).push(whole[j as int]));
                    assert(rows_view(out@) =~= done + whole.take(j + 1));
                }
                j += 1;
            }
            proof {
                let whole = spliced_group(table, group@, *series);
                assert(whole.take(group.rows@.len() as int) =~= whole);
            }
            k += 1;
        }
        proof {
            lemma_spliced_len(table, models, computed@, groups.len() as int);
            lemma_grouping_covers(table, models);
        }
        self.frame = out;
        Ok(())
    }
}

/// Indicator alignment: in the spliced table, the row at position `j` of partition `k` is
/// the row at that position of the partition with the values at index `j` of the arrays
/// computed for that partition in its indicator cells.
pub proof fn lemma_spliced_index(
    rows: Seq<RowModel>,
    groups: Seq<GroupModel>,
    computed: Seq<IndicatorSeries>,
    n: int,
    k: int,
    j: int,
)
    requires
        0 <= k < n <= groups.len(),
        0 <= j < groups[k].rows.len(),
    ensures
        spliced(rows, groups, computed, n).len() == group_offset(groups, n),
        0 <= group_offset(groups, k),
        group_offset(groups, k) + j < group_offset(groups, n),
        spliced(rows, groups, computed, n)[group_offset(groups, k) + j] == with_indicators(
            rows[groups[k].rows[j] as int],
            computed[k].at(j),
        ),
    decreases n,
{
    lemma_spliced_len(rows, groups, computed, n - 1);
    if k < n - 1 {
        lemma_spliced_index(rows, groups, computed, n - 1, k, j);
    } else {
        lemma_spliced_len(rows, groups, computed, k);
    }
}

/// The spliced table has as many rows as the partitions have together.
pub proof fn lemma_spliced_len(
    rows: Seq<RowModel>,
    groups: Seq<GroupModel>,
    computed: Seq<IndicatorSeries>,
    n: int,
)
    requires
        0 <= n <= groups.len(),
    ensures
        spliced(rows, groups, computed, n).len() == group_offset(groups, n),
        0 <= group_offset(groups, n),
    decreases n,
{
    if n > 0 {
        lemma_spliced_len(rows, groups, computed, n - 1);
    }
}

} // verus!
