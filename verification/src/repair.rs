//! The null repair stage: closes are carried forward, then backward, along each symbol's
//! time order, and a missing open, high or low takes the repaired close of its row.

use vstd::prelude::*;
use crate::frame::StockFrame;
use crate::groups::{
    before, group_rows, groups_view, is_grouping, is_partition, lists, GroupModel, SymbolGroup,
};
use crate::row::{all_parsed, rows_view, Quote, Row, RowModel};
use crate::text::lemma_text_lt_irreflexive;

verus! {

/// Row `j` has a close.
pub open spec fn observed(rows: Seq<RowModel>, j: int) -> bool {
    rows[j].quote.close is Some
}

/// Rows `i` and `j` belong to one symbol.
pub open spec fn same_symbol(rows: Seq<RowModel>, i: int, j: int) -> bool {
    rows[i].symbol == rows[j].symbol
}

/// Row `j` is row `i` or comes before it in time.
pub open spec fn at_or_before(rows: Seq<RowModel>, j: int, i: int) -> bool {
    j == i || before(rows, j, i)
}

/// Row `j` is an observation of the symbol of row `i`.
pub open spec fn observation_for(rows: Seq<RowModel>, i: int, j: int) -> bool {
    0 <= j < rows.len() && same_symbol(rows, i, j) && observed(rows, j)
}

/// Row `j` is where forward fill takes the close of row `i` from: the latest observation of
/// the symbol at or before row `i`.
pub open spec fn carried_from(rows: Seq<RowModel>, i: int, j: int) -> bool {
    &&& observation_for(rows, i, j)
    &&& at_or_before(rows, j, i)
    &&& forall|k: int|
        #[trigger] observation_for(rows, i, k) && at_or_before(rows, k, i) ==> at_or_before(
            rows,
            k,
            j,
        )
}

/// Row `j` is where backward fill takes the close of row `i` from: the earliest observation
/// of the symbol, which comes after row `i`.
pub open spec fn drawn_from(rows: Seq<RowModel>, i: int, j: int) -> bool {
    &&& observation_for(rows, i, j)
    &&& before(rows, i, j)
    &&& forall|k: int| #[trigger] observation_for(rows, i, k) ==> at_or_before(rows, j, k)
}

/// The close of row `i` after repair: its own where it has one; else the close of the
/// latest earlier observation of its symbol; else that of the earliest later one; null
/// where the symbol has no observation at all.
pub open spec fn repaired_close(rows: Seq<RowModel>, i: int) -> Option<u64> {
    if exists|j: int| carried_from(rows, i, j) {
        rows[choose|j: int| carried_from(rows, i, j)].quote.close
    } else if exists|j: int| drawn_from(rows, i, j) {
        rows[choose|j: int| drawn_from(rows, i, j)].quote.close
    } else {
        None
    }
}

/// A quote after repair, given the repaired close of its row: open, high and low take that
/// close where they are null; volume, vwap and trade count stay as they are.
pub open spec fn repaired_quote(quote: Quote, close: Option<u64>) -> Quote {
    Quote {
        open: if quote.open is Some { quote.open } else { close },
        high: if quote.high is Some { quote.high } else { close },
        low: if quote.low is Some { quote.low } else { close },
        close,
        ..quote
    }
}

/// Row `i` after repair.
pub open spec fn repaired_row(rows: Seq<RowModel>, i: int) -> RowModel {
    RowModel { quote: repaired_quote(rows[i].quote, repaired_close(rows, i)), ..rows[i] }
}

/// The table after repair: every row in its place.
pub open spec fn repaired(rows: Seq<RowModel>) -> Seq<RowModel> {
    Seq::new(rows.len(), |i: int| repaired_row(rows, i))
}

/// Forward fill has one source only.
pub proof fn lemma_carried_close(rows: Seq<RowModel>, i: int, j: int)
    requires
        carried_from(rows, i, j),
    ensures
        repaired_close(rows, i) == rows[j].quote.close,
{
    let chosen = choose|j: int| carried_from(rows, i, j);
    assert(observation_for(rows, i, chosen));
    assert(observation_for(rows, i, j));
    assert(at_or_before(rows, chosen, j));
    assert(at_or_before(rows, j, chosen));
}

/// Backward fill has one source only, and applies where forward fill has none.
pub proof fn lemma_drawn_close(rows: Seq<RowModel>, i: int, j: int)
    requires
        drawn_from(rows, i, j),
    ensures
        repaired_close(rows, i) == rows[j].quote.close,
{
    if exists|k: int| carried_from(rows, i, k) {
        let k = choose|k: int| carried_from(rows, i, k);
        assert(observation_for(rows, i, k));
        assert(at_or_before(rows, j, k));
        assert(false);
    }
    let chosen = choose|j: int| drawn_from(rows, i, j);
    assert(observation_for(rows, i, chosen));
    assert(observation_for(rows, i, j));
    assert(at_or_before(rows, chosen, j));
    assert(at_or_before(rows, j, chosen));
}

/// A symbol without any observation keeps its closes null.
pub proof fn lemma_unobserved_close(rows: Seq<RowModel>, i: int)
    requires
        forall|k: int| !#[trigger] observation_for(rows, i, k),
    ensures
        repaired_close(rows, i) is None,
{
    if exists|j: int| carried_from(rows, i, j) {
        let j = choose|j: int| carried_from(rows, i, j);
        assert(observation_for(rows, i, j));
    }
    if exists|j: int| drawn_from(rows, i, j) {
        let j = choose|j: int| drawn_from(rows, i, j);
        assert(observation_for(rows, i, j));
    }
}

/// One of the first `n` symbols of the list is `symbol`.
spec fn listed_before(symbols: Seq<Seq<char>>, n: int, symbol: Seq<char>) -> bool {
    exists|m: int| 0 <= m < n && #[trigger] symbols[m] == symbol
}

/// The members of a partition are different rows.
proof fn lemma_members_distinct(rows: Seq<RowModel>, symbol: Seq<char>, members: Seq<usize>)
    requires
        is_partition(rows, symbol, members),
    ensures
        forall|a: int, b: int|
            0 <= a < members.len() && 0 <= b < members.len() && a != b ==> #[trigger] members[a]
                != #[trigger] members[b],
{
    assert forall|a: int, b: int|
        0 <= a < members.len() && 0 <= b < members.len() && a != b implies #[trigger] members[a]
        != #[trigger] members[b] by {
        if a < b {
            assert(before(rows, members[a] as int, members[b] as int));
        } else {
            assert(before(rows, members[b] as int, members[a] as int));
        }
    }
}

/// Along a partition, the member at an earlier position is at or before the one at a later
/// position, and every observation of the symbol is a member.
proof fn lemma_member_positions(
    rows: Seq<RowModel>,
    symbol: Seq<char>,
    members: Seq<usize>,
    at: int,
    k: int,
) -> (m: int)
    requires
        is_partition(rows, symbol, members),
        0 <= at < members.len(),
        observation_for(rows, members[at] as int, k),
    ensures
        0 <= m < members.len(),
        members[m] as int == k,
        at_or_before(rows, k, members[at] as int) ==> m <= at,
        before(rows, members[at] as int, k) ==> at < m,
{
    assert(rows[k].symbol == symbol);
    assert(lists(members, k));
    let m = choose|m: int| 0 <= m < members.len() && #[trigger] members[m] as int == k;
    if m < at {
        assert(before(rows, members[m] as int, members[at] as int));
    } else if m > at {
        assert(before(rows, members[at] as int, members[m] as int));
    }
    m
}

/// Repairs the closes of one symbol partition.
fn repair_group(rows: &Vec<Row>, group: &SymbolGroup, closes: &mut Vec<Option<u64>>)
    requires
        all_parsed(rows_view(rows@)),
        is_partition(rows_view(rows@), group@.symbol, group@.rows),
        old(closes)@.len() == rows@.len(),
        forall|i: int|
            0 <= i < rows@.len() && (#[trigger] rows_view(rows@)[i]).symbol == group@.symbol
                ==> old(closes)@[i] == rows_view(rows@)[i].quote.close,
    ensures
        final(closes)@.len() == rows@.len(),
        forall|i: int|
            0 <= i < rows@.len() && (#[trigger] rows_view(rows@)[i]).symbol == group@.symbol
                ==> final(closes)@[i] == repaired_close(rows_view(rows@), i),
        forall|i: int|
            0 <= i < rows@.len() && (#[trigger] rows_view(rows@)[i]).symbol != group@.symbol
                ==> final(closes)@[i] == old(closes)@[i],
{
    let ghost table = rows_view(rows@);
    let ghost symbol = group@.symbol;
    let ghost members = group@.rows;
    let ghost start = closes@;
    proof {
        lemma_members_distinct(table, symbol, members);
    }
    let mut first: Option<usize> = None;
    let mut last: Option<usize> = None;
    let mut k: usize = 0;
    while k < group.rows.len()
        invariant
            k <= members.len(),
            table == rows_view(rows@),
            symbol == group@.symbol,
            members == group@.rows,
            table.len() == rows@.len(),
            start.len() == rows@.len(),
            is_partition(table, symbol, members),
            forall|a: int, b: int|
                0 <= a < members.len() && 0 <= b < members.len() && a != b ==> #[trigger] members[a]
                    != #[trigger] members[b],
            closes@.len() == rows@.len(),
            forall|i: int|
                0 <= i < table.len() && (#[trigger] table[i]).symbol != symbol ==> closes@[i]
                    == start[i],
            forall|m: int|
                k <= m < members.len() ==> closes@[#[trigger] members[m] as int]
                    == table[members[m] as int].quote.close,
            first is Some <==> last is Some,
            match last {
                Some(s) => {
                    &&& s < k
                    &&& observed(table, members[s as int] as int)
                    &&& forall|m: int|
                        s < m < k ==> !observed(table, #[trigger] members[m] as int)
                },
                None => forall|m: int| 0 <= m < k ==> !observed(table, #[trigger] members[m] as int),
            },
            match first {
                Some(f) => {
                    &&& f < k
                    &&& observed(table, members[f as int] as int)
                    &&& forall|m: int|
                        0 <= m < f ==> !observed(table, #[trigger] members[m] as int)
                    &&& forall|m: int|
                        f <= m < k ==> closes@[#[trigger] members[m] as int] == repaired_close(
                            table,
                            members[m] as int,
                        )
                    &&& forall|m: int| 0 <= m < f ==> closes@[#[trigger] members[m] as int] is None
                },
                None => forall|m: int| 0 <= m < k ==> closes@[#[trigger] members[m] as int] is None,
            },
        decreases group.rows.len() - k,
    {
        let index: usize = group.rows[k];
        let close: Option<u64> = rows[index].quote.close;
        assert(table[index as int].quote.close == close);
        match close {
            Some(_) => {
                proof {
                    assert(observation_for(table, index as int, index as int));
                    assert(carried_from(table, index as int, index as int));
                    lemma_carried_close(table, index as int, index as int);
                }
                last = Some(k);
                if first.is_none() {
                    first = Some(k);
                }
            },
            None => {
                match last {
                    Some(s) => {
                        let source: usize = group.rows[s];
                        let carried: Option<u64> = rows[source].quote.close;
                        proof {
                            assert(observation_for(table, index as int, source as int));
                            assert(before(table, source as int, index as int));
                            assert forall|j: int|
                                #[trigger] observation_for(table, index as int, j) && at_or_before(
                                    table,
                                    j,
                                    index as int,
                                ) implies at_or_before(table, j, source as int) by {
                                let m = lemma_member_positions(table, symbol, members, k as int, j);
                                if m > s {
                                    assert(!observed(table, members[m] as int));
                                } else if m < s {
                                    assert(before(table, members[m] as int, members[s as int] as int));
                                }
                            }
                            assert(carried_from(table, index as int, source as int));
                            lemma_carried_close(table, index as int, source as int);
                        }
                        closes.set(index, carried);
                    },
                    None => {},
                }
            },
        }
        k += 1;
    }
    match first {
        Some(f) => {
            let source: usize = group.rows[f];
            let drawn: Option<u64> = rows[source].quote.close;
            let mut m: usize = 0;
            while m < f
                invariant
                    m <= f,
                    f < members.len(),
                    source == members[f as int],
                    drawn == table[source as int].quote.close,
                    table == rows_view(rows@),
                    symbol == group@.symbol,
                    members == group@.rows,
                    table.len() == rows@.len(),
                    start.len() == rows@.len(),
                    is_partition(table, symbol, members),
                    forall|a: int, b: int|
                        0 <= a < members.len() && 0 <= b < members.len() && a != b
                            ==> #[trigger] members[a] != #[trigger] members[b],
                    closes@.len() == rows@.len(),
                    forall|i: int|
                        0 <= i < table.len() && (#[trigger] table[i]).symbol != symbol
                            ==> closes@[i] == start[i],
                    observed(table, members[f as int] as int),
                    forall|a: int| 0 <= a < f ==> !observed(table, #[trigger] members[a] as int),
                    forall|a: int|
                        f <= a < members.len() ==> closes@[#[trigger] members[a] as int]
                            == repaired_close(table, members[a] as int),
                    forall|a: int|
                        0 <= a < m ==> closes@[#[trigger] members[a] as int] == repaired_close(
                            table,
                            members[a] as int,
                        ),
                decreases f - m,
            {
                let index: usize = group.rows[m];
                proof {
                    assert(observation_for(table, index as int, source as int));
                    assert(before(table, index as int, source as int));
                    assert forall|j: int| #[trigger]
                        observation_for(table, index as int, j) implies at_or_before(
                        table,
                        source as int,
                        j,
                    ) by {
                        let p = lemma_member_positions(table, symbol, members, m as int, j);
                        if p < f {
                            assert(!observed(table, members[p] as int));
                        } else if p > f {
                            assert(before(table, members[f as int] as int, members[p] as int));
                        }
                    }
                    assert(drawn_from(table, index as int, source as int));
                    lemma_drawn_close(table, index as int, source as int);
                }
                closes.set(index, drawn);
                m += 1;
            }
        },
        None => {
            proof {
                assert forall|a: int| 0 <= a < members.len() implies closes@[#[trigger] members[a] as int]
                    == repaired_close(table, members[a] as int) by {
                    let index = members[a] as int;
                    assert forall|j: int| !#[trigger] observation_for(table, index, j) by {
                        if observation_for(table, index, j) {
                            let p = lemma_member_positions(table, symbol, members, a, j);
                            assert(!observed(table, members[p] as int));
                        }
                    }
                    lemma_unobserved_close(table, index);
                    assert(!observed(table, index));
                }
            }
        },
    }
    proof {
        assert forall|i: int|
            0 <= i < rows@.len() && (#[trigger] table[i]).symbol == symbol implies closes@[i]
            == repaired_close(table, i) by {
            assert(lists(members, i));
            let a = choose|a: int| 0 <= a < members.len() && #[trigger] members[a] as int == i;
            assert(closes@[members[a] as int] == repaired_close(table, members[a] as int));
        }
    }
}

impl StockFrame {
    /// Repairs the nulls of the price cells, symbol by symbol.
    ///
    /// Along the time order of each symbol, a null close takes the close of the latest
    /// earlier observation of the symbol, and the closes before the symbol's first
    /// observation take that observation's close. A null open, high or low then takes the
    /// repaired close of its row. Volume, vwap and trade count are left as they are, and
    /// a symbol without any close keeps its nulls. No row moves.
    pub fn fill_nulls(&mut self)
        requires
            all_parsed(old(self)@.rows),
        ensures
            final(self)@.columns == old(self)@.columns,
            final(self)@.tickers == old(self)@.tickers,
            final(self)@.rows == repaired(old(self)@.rows),
            all_parsed(final(self)@.rows),
    {
        let groups: Vec<SymbolGroup> = group_rows(&self.frame);
        let ghost table = self@.rows;
        let ghost models = groups_view(groups@);
        let ghost symbols = models.map_values(|group: GroupModel| group.symbol);
        let mut closes: Vec<Option<u64>> = Vec::new();
        let mut i: usize = 0;
        while i < self.frame.len()
            invariant
                i <= self.frame.len(),
                table == rows_view(self.frame@),
                closes@.len() == i,
                forall|j: int| 0 <= j < i ==> #[trigger] closes@[j] == table[j].quote.close,
            decreases self.frame.len() - i,
        {
            closes.push(self.frame[i].quote.close);
            i += 1;
        }
        let mut g: usize = 0;
        while g < groups.len()
            invariant
                g <= groups.len(),
                table == rows_view(self.frame@),
                all_parsed(table),
                models == groups_view(groups@),
                symbols == models.map_values(|group: GroupModel| group.symbol),
                is_grouping(table, models),
                closes@.len() == table.len(),
                forall|j: int|
                    0 <= j < table.len() && listed_before(symbols, g as int, (#[trigger] table[j]).symbol)
                        ==> closes@[j] == repaired_close(table, j),
                forall|j: int|
                    0 <= j < table.len() && !listed_before(
                        symbols,
                        g as int,
                        (#[trigger] table[j]).symbol,
                    ) ==> closes@[j] == table[j].quote.close,
            decreases groups.len() - g,
        {
            let ghost sofar = closes@;
            assert(models[g as int] == groups@[g as int]@);
            assert(symbols[g as int] == models[g as int].symbol);
            assert(is_partition(table, models[g as int].symbol, models[g as int].rows));
            proof {
                if listed_before(symbols, g as int, symbols[g as int]) {
                    let m = choose|m: int| 0 <= m < g && #[trigger] symbols[m] == symbols[g as int];
                    assert(crate::text::text_lt(symbols[m], symbols[g as int]));
                    lemma_text_lt_irreflexive(symbols[m]);
                }
            }
            repair_group(&self.frame, &groups[g], &mut closes);
            proof {
                assert forall|j: int|
                    0 <= j < table.len() && listed_before(
                        symbols,
                        g + 1,
                        (#[trigger] table[j]).symbol,
                    ) implies closes@[j] == repaired_close(table, j) by {
                    let m = choose|m: int| 0 <= m < g + 1 && #[trigger] symbols[m] == table[j].symbol;
                    if m < g {
                        assert(listed_before(symbols, g as int, table[j].symbol));
                        assert(crate::text::text_lt(symbols[m], symbols[g as int]));
                        lemma_text_lt_irreflexive(symbols[m]);
                    }
                }
                assert forall|j: int|
                    0 <= j < table.len() && !listed_before(
                        symbols,
                        g + 1,
                        (#[trigger] table[j]).symbol,
                    ) implies closes@[j] == table[j].quote.close by {
                    if listed_before(symbols, g as int, table[j].symbol) {
                        let m = choose|m: int| 0 <= m < g && #[trigger] symbols[m] == table[j].symbol;
                        assert(listed_before(symbols, g + 1, table[j].symbol));
                    }
                    assert(symbols[g as int] != table[j].symbol);
                }
            }
            g += 1;
        }
        proof {
            assert forall|j: int| 0 <= j < table.len() implies closes@[j] == repaired_close(
                table,
                j,
            ) by {
                assert(symbols.contains(table[j].symbol));
                let m = choose|m: int| 0 <= m < symbols.len() && symbols[m] == table[j].symbol;
                assert(listed_before(symbols, groups.len() as int, table[j].symbol));
            }
        }
        let mut i: usize = 0;
        while i < self.frame.len()
            invariant
                i <= self.frame.len(),
                self.frame@.len() == table.len(),
                closes@.len() == table.len(),
                forall|j: int| 0 <= j < table.len() ==> #[trigger] closes@[j] == repaired_close(table, j),
                forall|j: int| 0 <= j < i ==> #[trigger] rows_view(self.frame@)[j] == repaired_row(table, j),
                forall|j: int| i <= j < table.len() ==> #[trigger] rows_view(self.frame@)[j] == table[j],
                self@.columns == old(self)@.columns,
                self@.tickers == old(self)@.tickers,
            decreases self.frame.len() - i,
        {
            let close: Option<u64> = closes[i];
            let ghost held = rows_view(self.frame@);
            assert(held[i as int] == table[i as int]);
            let quote: Quote = self.frame[i].quote;
            let repaired = Quote {
                open: if quote.open.is_some() { quote.open } else { close },
                high: if quote.high.is_some() { quote.high } else { close },
                low: if quote.low.is_some() { quote.low } else { close },
                close,
                volume: quote.volume,
                vwap: quote.vwap,
                trade_count: quote.trade_count,
            };
            assert(repaired == repaired_quote(quote, close));
            self.frame[i].quote = repaired;
            proof {
                let now = rows_view(self.frame@);
                assert(now[i as int] =~= repaired_row(table, i as int));
                assert forall|j: int| 0 <= j < table.len() && j != i implies #[trigger] now[j]
                    == held[j] by {}
            }
            i += 1;
        }
        proof {
            assert(rows_view(self.frame@) =~= repaired(table));
            assert forall|j: int| 0 <= j < table.len() implies (#[trigger] rows_view(self.frame@)[j]).parsed() by {
                assert(table[j].parsed());
            }
        }
    }
}

/// The latest observation of the symbol of row `i` among the first `n` rows that lies at or
/// before row `i`, if there is one.
proof fn lemma_latest_observation(rows: Seq<RowModel>, i: int, n: int) -> (found: Option<int>)
    requires
        0 <= n <= rows.len(),
    ensures
        match found {
            Some(j) => {
                &&& j < n
                &&& observation_for(rows, i, j)
                &&& at_or_before(rows, j, i)
                &&& forall|k: int|
                    k < n && #[trigger] observation_for(rows, i, k) && at_or_before(rows, k, i)
                        ==> at_or_before(rows, k, j)
            },
            None => forall|k: int|
                k < n && #[trigger] observation_for(rows, i, k) ==> !at_or_before(rows, k, i),
        },
    decreases n,
{
    if n == 0 {
        None
    } else {
        let rest = lemma_latest_observation(rows, i, n - 1);
        let c = n - 1;
        if observation_for(rows, i, c) && at_or_before(rows, c, i) {
            match rest {
                Some(j) => if at_or_before(rows, c, j) {
                    Some(j)
                } else {
                    Some(c)
                },
                None => Some(c),
            }
        } else {
            rest
        }
    }
}

/// The earliest observation of the symbol of row `i` among the first `n` rows, if there is
/// one.
proof fn lemma_earliest_observation(rows: Seq<RowModel>, i: int, n: int) -> (found: Option<int>)
    requires
        0 <= n <= rows.len(),
    ensures
        match found {
            Some(j) => {
                &&& j < n
                &&& observation_for(rows, i, j)
                &&& forall|k: int|
                    k < n && #[trigger] observation_for(rows, i, k) ==> at_or_before(rows, j, k)
            },
            None => forall|k: int| k < n ==> !#[trigger] observation_for(rows, i, k),
        },
    decreases n,
{
    if n == 0 {
        None
    } else {
        let rest = lemma_earliest_observation(rows, i, n - 1);
        let c = n - 1;
        if observation_for(rows, i, c) {
            match rest {
                Some(j) => if at_or_before(rows, j, c) {
                    Some(j)
                } else {
                    Some(c)
                },
                None => Some(c),
            }
        } else {
            rest
        }
    }
}

/// Fill monotonicity: where a symbol has a close in any of its rows, repair leaves none of
/// its rows without one.
pub proof fn lemma_repair_fills(rows: Seq<RowModel>, i: int, j: int)
    requires
        0 <= i < rows.len(),
        observation_for(rows, i, j),
    ensures
        repaired_close(rows, i) is Some,
{
    match lemma_latest_observation(rows, i, rows.len() as int) {
        Some(source) => {
            assert(carried_from(rows, i, source));
            lemma_carried_close(rows, i, source);
        },
        None => {
            match lemma_earliest_observation(rows, i, rows.len() as int) {
                Some(source) => {
                    assert(!at_or_before(rows, source, i));
                    assert(drawn_from(rows, i, source));
                    lemma_drawn_close(rows, i, source);
                },
                None => {
                    assert(false);
                },
            }
        },
    }
}

/// Repair fills a close only from an observation of the same symbol: where it gives a row
/// a close, the symbol had one.
pub proof fn lemma_repair_needs_observation(rows: Seq<RowModel>, i: int)
    requires
        repaired_close(rows, i) is Some,
    ensures
        exists|j: int| observation_for(rows, i, j),
{
    if forall|k: int| !#[trigger] observation_for(rows, i, k) {
        lemma_unobserved_close(rows, i);
    }
}

/// Idempotence: repairing a repaired table changes nothing.
pub proof fn lemma_repair_idempotent(rows: Seq<RowModel>)
    ensures
        repaired(repaired(rows)) == repaired(rows),
{
    let once = repaired(rows);
    assert forall|i: int| 0 <= i < rows.len() implies repaired_row(once, i) == once[i] by {
        assert forall|k: int| 0 <= k < rows.len() implies (observation_for(once, i, k) <==> (
        same_symbol(rows, i, k) && repaired_close(rows, k) is Some)) by {}
        if repaired_close(rows, i) is Some {
            assert(observation_for(once, i, i));
            assert(carried_from(once, i, i));
            lemma_carried_close(once, i, i);
        } else {
            assert forall|k: int| !#[trigger] observation_for(once, i, k) by {
                if observation_for(once, i, k) {
                    lemma_repair_needs_observation(rows, k);
                    let j = choose|j: int| observation_for(rows, k, j);
                    assert(observation_for(rows, i, j));
                    lemma_repair_fills(rows, i, j);
                }
            }
            lemma_unobserved_close(once, i);
        }
        assert(repaired_close(once, i) == once[i].quote.close);
        assert(repaired_row(once, i) =~= once[i]);
    }
    assert(repaired(once) =~= once);
}

} // verus!
