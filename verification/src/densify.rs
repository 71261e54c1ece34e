//! The time-grid reconciler: the minute grid between the table's first and last instant,
//! and the rows that are added so that every symbol has a row at every grid point.

use vstd::prelude::*;
use vstd::string::*;
use crate::frame::StockFrame;
use crate::groups::{
    before, group_rows, groups_view, has_symbol, is_grouping, is_partition, lemma_ascending_unique,
    lists, GroupModel, SymbolGroup,
};
use crate::row::{all_parsed, blank_row, instant_at, rows_view, Row, RowModel};
use crate::text::{lemma_text_lt_irreflexive, lemma_text_lt_transitive, text_lt};

verus! {

/// Milliseconds in a minute: the step of the grid.
pub const MINUTE_MS: i64 = 60_000;

/// `lo` is the earliest instant of the table.
pub open spec fn is_min_instant(rows: Seq<RowModel>, lo: int) -> bool {
    &&& exists|i: int| 0 <= i < rows.len() && (#[trigger] rows[i]).instant() == lo
    &&& forall|i: int| 0 <= i < rows.len() ==> lo <= (#[trigger] rows[i]).instant()
}

/// `hi` is the latest instant of the table.
pub open spec fn is_max_instant(rows: Seq<RowModel>, hi: int) -> bool {
    &&& exists|i: int| 0 <= i < rows.len() && (#[trigger] rows[i]).instant() == hi
    &&& forall|i: int| 0 <= i < rows.len() ==> (#[trigger] rows[i]).instant() <= hi
}

/// The earliest instant of a table that has rows.
pub open spec fn min_instant(rows: Seq<RowModel>) -> int {
    choose|lo: int| is_min_instant(rows, lo)
}

/// The latest instant of a table that has rows.
pub open spec fn max_instant(rows: Seq<RowModel>) -> int {
    choose|hi: int| is_max_instant(rows, hi)
}

/// `t` is a point of the minute grid that starts at `lo` and ends at or before `hi`.
pub open spec fn grid_point(lo: int, hi: int, t: int) -> bool {
    lo <= t <= hi && (t - lo) % (MINUTE_MS as int) == 0
}

/// The table has a row of `symbol` at instant `t`.
pub open spec fn has_row(rows: Seq<RowModel>, symbol: Seq<char>, t: int) -> bool {
    exists|i: int|
        0 <= i < rows.len() && (#[trigger] rows[i]).symbol == symbol && rows[i].instant() == t
}

/// `row` is what densification adds for a symbol of the table and a grid point at which
/// the table has no row of that symbol: the two keys, every other cell null.
pub open spec fn is_filler(rows: Seq<RowModel>, lo: int, hi: int, row: RowModel) -> bool {
    &&& has_symbol(rows, row.symbol)
    &&& row.parsed()
    &&& grid_point(lo, hi, row.instant())
    &&& !has_row(rows, row.symbol, row.instant())
    &&& row == blank_row(row.symbol, row.instant() as i64)
}

/// The order of the added rows: by symbol, ascending, and by instant within a symbol.
pub open spec fn filler_before(a: RowModel, b: RowModel) -> bool {
    text_lt(a.symbol, b.symbol) || (a.symbol == b.symbol && a.instant() < b.instant())
}

/// `fill` is what densification adds to the table: one row for each symbol of the table and
/// each grid point at which the table has no row of that symbol, and nothing else, in
/// order.
pub open spec fn is_fill(rows: Seq<RowModel>, lo: int, hi: int, fill: Seq<RowModel>) -> bool {
    &&& forall|j: int| 0 <= j < fill.len() ==> is_filler(rows, lo, hi, #[trigger] fill[j])
    &&& forall|symbol: Seq<char>, t: int|
        #[trigger] has_symbol(rows, symbol) && #[trigger] grid_point(lo, hi, t) && !has_row(
            rows,
            symbol,
            t,
        ) ==> has_row(fill, symbol, t)
    &&& forall|j: int, l: int|
        0 <= j < l < fill.len() ==> filler_before(#[trigger] fill[j], #[trigger] fill[l])
}

/// `after` is the table `rows` densified onto the grid from `lo` to `hi`: the rows it had,
/// in their order, followed by the rows that fill the grid.
pub open spec fn densified(rows: Seq<RowModel>, lo: int, hi: int, after: Seq<RowModel>) -> bool {
    &&& rows.len() <= after.len()
    &&& after.take(rows.len() as int) == rows
    &&& is_fill(rows, lo, hi, after.skip(rows.len() as int))
}

/// A table that has rows has one earliest instant only.
pub proof fn lemma_min_instant_unique(rows: Seq<RowModel>, lo: int)
    requires
        is_min_instant(rows, lo),
    ensures
        min_instant(rows) == lo,
{
}

/// A table that has rows has one latest instant only.
pub proof fn lemma_max_instant_unique(rows: Seq<RowModel>, hi: int)
    requires
        is_max_instant(rows, hi),
    ensures
        max_instant(rows) == hi,
{
}

/// A row that a table has, it still has after another row is added.
proof fn lemma_has_row_push(rows: Seq<RowModel>, row: RowModel, symbol: Seq<char>, t: int)
    requires
        has_row(rows, symbol, t),
    ensures
        has_row(rows.push(row), symbol, t),
{
    let i = choose|i: int|
        0 <= i < rows.len() && (#[trigger] rows[i]).symbol == symbol && rows[i].instant() == t;
    assert(rows.push(row)[i] == rows[i]);
}

/// A row that a sequence of rows has, every sequence that starts with it has too.
proof fn lemma_has_row_prefix(short: Seq<RowModel>, long: Seq<RowModel>, symbol: Seq<char>, t: int)
    requires
        short.len() <= long.len(),
        long.take(short.len() as int) == short,
        has_row(short, symbol, t),
    ensures
        has_row(long, symbol, t),
{
    let i = choose|i: int|
        0 <= i < short.len() && (#[trigger] short[i]).symbol == symbol && short[i].instant() == t;
    assert(long.take(short.len() as int)[i] == long[i]);
}

/// Every row so far is a filler of the table.
spec fn fillers_only(rows: Seq<RowModel>, lo: int, hi: int, fill: Seq<RowModel>) -> bool {
    forall|j: int| 0 <= j < fill.len() ==> is_filler(rows, lo, hi, #[trigger] fill[j])
}

/// The rows so far are in the order of fillers.
spec fn fillers_ordered(fill: Seq<RowModel>) -> bool {
    forall|j: int, l: int|
        0 <= j < l < fill.len() ==> filler_before(#[trigger] fill[j], #[trigger] fill[l])
}

/// Every row so far belongs to a symbol before `symbol`, or to `symbol` at an instant
/// before `t`.
spec fn fillers_below(fill: Seq<RowModel>, symbol: Seq<char>, t: int) -> bool {
    forall|j: int|
        0 <= j < fill.len() ==> text_lt((#[trigger] fill[j]).symbol, symbol) || (fill[j].symbol
            == symbol && fill[j].instant() < t)
}

/// The grid points of `symbol` before `t` that the table leaves empty are filled.
spec fn filled_below(
    rows: Seq<RowModel>,
    lo: int,
    hi: int,
    fill: Seq<RowModel>,
    symbol: Seq<char>,
    t: int,
) -> bool {
    forall|at: int|
        #[trigger] grid_point(lo, hi, at) && at < t && !has_row(rows, symbol, at) ==> has_row(
            fill,
            symbol,
            at,
        )
}

/// Adds to `fill` a row for every grid point at which the table has no row of the group's
/// symbol.
fn fill_symbol(rows: &Vec<Row>, group: &SymbolGroup, lo: i64, hi: i64, fill: &mut Vec<Row>)
    requires
        all_parsed(rows_view(rows@)),
        is_partition(rows_view(rows@), group@.symbol, group@.rows),
        has_symbol(rows_view(rows@), group@.symbol),
        lo <= hi,
        fillers_only(rows_view(rows@), lo as int, hi as int, rows_view(old(fill)@)),
        fillers_ordered(rows_view(old(fill)@)),
        fillers_below(rows_view(old(fill)@), group@.symbol, lo as int),
    ensures
        fillers_only(rows_view(rows@), lo as int, hi as int, rows_view(final(fill)@)),
        fillers_ordered(rows_view(final(fill)@)),
        fillers_below(rows_view(final(fill)@), group@.symbol, hi + 1),
        filled_below(
            rows_view(rows@),
            lo as int,
            hi as int,
            rows_view(final(fill)@),
            group@.symbol,
            hi + 1,
        ),
        old(fill)@.len() <= final(fill)@.len(),
        rows_view(final(fill)@).take(old(fill)@.len() as int) == rows_view(old(fill)@),
{
    let ghost table = rows_view(rows@);
    let ghost symbol = group@.symbol;
    let ghost members = group@.rows;
    let ghost start = rows_view(fill@);
    let mut q: usize = 0;
    let mut t: i64 = lo;
    loop
        invariant_except_break
            lo <= t <= hi,
            (t - lo) % (MINUTE_MS as int) == 0,
            filled_below(table, lo as int, hi as int, rows_view(fill@), symbol, t as int),
            fillers_below(rows_view(fill@), symbol, t as int),
        invariant
            table == rows_view(rows@),
            symbol == group@.symbol,
            members == group@.rows,
            all_parsed(table),
            is_partition(table, symbol, members),
            has_symbol(table, symbol),
            q <= members.len(),
            forall|m: int| 0 <= m < q ==> table[#[trigger] members[m] as int].instant() < t,
            fillers_only(table, lo as int, hi as int, rows_view(fill@)),
            fillers_ordered(rows_view(fill@)),
            start.len() <= fill@.len(),
            rows_view(fill@).take(start.len() as int) == start,
        ensures
            filled_below(table, lo as int, hi as int, rows_view(fill@), symbol, hi + 1),
            fillers_below(rows_view(fill@), symbol, hi + 1),
        decreases hi - t,
    {
        let mut found: bool = false;
        while q < group.rows.len()
            invariant_except_break
                !found,
            invariant
                table == rows_view(rows@),
                members == group@.rows,
                all_parsed(table),
                is_partition(table, symbol, members),
                q <= members.len(),
                forall|m: int| 0 <= m < q ==> table[#[trigger] members[m] as int].instant() < t,
            ensures
                q < members.len() ==> table[members[q as int] as int].instant() >= t,
                found == (q < members.len() && table[members[q as int] as int].instant() == t),
            decreases group.rows.len() - q,
        {
            let instant: i64 = instant_at(rows, group.rows[q]);
            if instant >= t {
                found = instant == t;
                break;
            }
            q += 1;
        }
        let ghost sofar = rows_view(fill@);
        if !found {
            proof {
                // No row of the symbol lies at `t`: the members before `q` are earlier,
                // those from `q` on are later.
                assert forall|i: int|
                    0 <= i < table.len() && (#[trigger] table[i]).symbol == symbol implies table[i].instant()
                    != t by {
                    assert(lists(members, i));
                    let m = choose|m: int| 0 <= m < members.len() && #[trigger] members[m] as int == i;
                    if m < q {
                        assert(table[members[m] as int].instant() < t);
                    } else if m == q {
                        assert(table[members[q as int] as int].instant() > t);
                    } else {
                        assert(before(table, members[q as int] as int, members[m] as int));
                    }
                }
                assert(!has_row(table, symbol, t as int));
            }
            let row: Row = Row::blank(group.symbol.clone(), t);
            fill.push(row);
            proof {
                let grown = rows_view(fill@);
                assert(grown =~= sofar.push(row@));
                assert(is_filler(table, lo as int, hi as int, row@));
                assert forall|j: int, l: int| 0 <= j < l < grown.len() implies filler_before(
                    #[trigger] grown[j],
                    #[trigger] grown[l],
                ) by {
                    if l < sofar.len() {
                        assert(filler_before(sofar[j], sofar[l]));
                    } else {
                        assert(grown[j] == sofar[j]);
                    }
                }
                assert(grown.take(start.len() as int) =~= sofar.take(start.len() as int));
                assert(has_row(grown, symbol, t as int)) by {
                    assert(grown[sofar.len() as int].symbol == symbol);
                }
                assert forall|at: int|
                    #[trigger] grid_point(lo as int, hi as int, at) && at < t && !has_row(
                        table,
                        symbol,
                        at,
                    ) implies has_row(grown, symbol, at) by {
                    lemma_has_row_push(sofar, row@, symbol, at);
                }
            }
        } else {
            assert(has_row(table, symbol, t as int)) by {
                assert(table[members[q as int] as int].symbol == symbol);
            }
        }
        let ghost grown = rows_view(fill@);
        assert(!has_row(table, symbol, t as int) ==> has_row(grown, symbol, t as int));
        assert(forall|j: int|
            0 <= j < grown.len() ==> text_lt((#[trigger] grown[j]).symbol, symbol) || (
            grown[j].symbol == symbol && grown[j].instant() <= t));
        let next: Option<i64> = t.checked_add(MINUTE_MS);
        let more: bool = match next {
            Some(n) => n <= hi,
            None => false,
        };
        if !more {
            proof {
                assert forall|at: int|
                    #[trigger] grid_point(lo as int, hi as int, at) && at < hi + 1 && !has_row(
                        table,
                        symbol,
                        at,
                    ) implies has_row(grown, symbol, at) by {
                    lemma_between_grid_points(lo as int, t as int, at);
                }
            }
            break;
        }
        proof {
            assert forall|at: int|
                #[trigger] grid_point(lo as int, hi as int, at) && at < t + MINUTE_MS && !has_row(
                    table,
                    symbol,
                    at,
                ) implies has_row(grown, symbol, at) by {
                lemma_between_grid_points(lo as int, t as int, at);
            }
        }
        t = next.unwrap();
    }
}

/// No grid point lies strictly between a grid point and the next.
proof fn lemma_between_grid_points(lo: int, t: int, at: int)
    requires
        (t - lo) % (MINUTE_MS as int) == 0,
        (at - lo) % (MINUTE_MS as int) == 0,
        at < t + MINUTE_MS,
    ensures
        at <= t,
{
}

impl StockFrame {
    /// The earliest instant of the table, in milliseconds since the epoch.
    pub fn get_min_timestamp(&self) -> (lo: i64)
        requires
            all_parsed(self@.rows),
            self@.rows.len() > 0,
        ensures
            is_min_instant(self@.rows, lo as int),
            lo == min_instant(self@.rows),
    {
        let mut lo: i64 = instant_at(&self.frame, 0);
        let mut i: usize = 1;
        while i < self.frame.len()
            invariant
                1 <= i <= self.frame.len(),
                all_parsed(self@.rows),
                exists|j: int| 0 <= j < i && (#[trigger] self@.rows[j]).instant() == lo,
                forall|j: int| 0 <= j < i ==> lo <= (#[trigger] self@.rows[j]).instant(),
            decreases self.frame.len() - i,
        {
            let instant: i64 = instant_at(&self.frame, i);
            if instant < lo {
                lo = instant;
            }
            i += 1;
        }
        proof {
            lemma_min_instant_unique(self@.rows, lo as int);
        }
        lo
    }

    /// The latest instant of the table, in milliseconds since the epoch.
    pub fn get_max_timestamp(&self) -> (hi: i64)
        requires
            all_parsed(self@.rows),
            self@.rows.len() > 0,
        ensures
            is_max_instant(self@.rows, hi as int),
            hi == max_instant(self@.rows),
    {
        let mut hi: i64 = instant_at(&self.frame, 0);
        let mut i: usize = 1;
        while i < self.frame.len()
            invariant
                1 <= i <= self.frame.len(),
                all_parsed(self@.rows),
                exists|j: int| 0 <= j < i && (#[trigger] self@.rows[j]).instant() == hi,
                forall|j: int| 0 <= j < i ==> (#[trigger] self@.rows[j]).instant() <= hi,
            decreases self.frame.len() - i,
        {
            let instant: i64 = instant_at(&self.frame, i);
            if instant > hi {
                hi = instant;
            }
            i += 1;
        }
        proof {
            lemma_max_instant_unique(self@.rows, hi as int);
        }
        hi
    }
}

impl StockFrame {
    /// Densifies the table onto the minute grid between its earliest and its latest
    /// instant.
    ///
    /// The rows that the table has stay, in their order. After them comes one row for every
    /// symbol of the table and every grid point at which the table has no row of that
    /// symbol, its cells other than the two keys null: symbols ascending, instants
    /// ascending within a symbol. A table without rows is left as it is.
    pub fn fill_date_range(&mut self)
        requires
            all_parsed(old(self)@.rows),
        ensures
            final(self)@.columns == old(self)@.columns,
            final(self)@.tickers == old(self)@.tickers,
            all_parsed(final(self)@.rows),
            old(self)@.rows.len() == 0 ==> final(self)@.rows == old(self)@.rows,
            old(self)@.rows.len() > 0 ==> densified(
                old(self)@.rows,
                min_instant(old(self)@.rows),
                max_instant(old(self)@.rows),
                final(self)@.rows,
            ),
    {
        if self.frame.len() == 0 {
            return ;
        }
        let lo: i64 = self.get_min_timestamp();
        let hi: i64 = self.get_max_timestamp();
        let groups: Vec<SymbolGroup> = group_rows(&self.frame);
        let ghost table = self@.rows;
        let ghost models = groups_view(groups@);
        let ghost symbols = models.map_values(|group: GroupModel| group.symbol);
        let mut fill: Vec<Row> = Vec::new();
        let mut k: usize = 0;
        while k < groups.len()
            invariant
                k <= groups.len(),
                lo <= hi,
                table == rows_view(self.frame@),
                all_parsed(table),
                models == groups_view(groups@),
                symbols == models.map_values(|group: GroupModel| group.symbol),
                is_grouping(table, models),
                fillers_only(table, lo as int, hi as int, rows_view(fill@)),
                fillers_ordered(rows_view(fill@)),
                forall|j: int, m: int|
                    0 <= j < fill@.len() && k <= m < symbols.len() ==> text_lt(
                        (#[trigger] rows_view(fill@)[j]).symbol,
                        #[trigger] symbols[m],
                    ),
                forall|m: int|
                    0 <= m < k ==> filled_below(
                        table,
                        lo as int,
                        hi as int,
                        rows_view(fill@),
                        #[trigger] symbols[m],
                        hi + 1,
                    ),
            decreases groups.len() - k,
        {
            let ghost sofar = rows_view(fill@);
            assert(models[k as int] == groups@[k as int]@);
            assert(symbols[k as int] == models[k as int].symbol);
            assert(is_partition(table, models[k as int].symbol, models[k as int].rows));
            assert(has_symbol(table, symbols[k as int]));
            fill_symbol(&self.frame, &groups[k], lo, hi, &mut fill);
            proof {
                let grown = rows_view(fill@);
                assert forall|j: int, m: int|
                    0 <= j < grown.len() && k + 1 <= m < symbols.len() implies text_lt(
                    (#[trigger] grown[j]).symbol,
                    #[trigger] symbols[m],
                ) by {
                    assert(text_lt(symbols[k as int], symbols[m]));
                    if grown[j].symbol != symbols[k as int] {
                        lemma_text_lt_transitive(grown[j].symbol, symbols[k as int], symbols[m]);
                    }
                }
                assert forall|m: int| 0 <= m < k implies filled_below(
                    table,
                    lo as int,
                    hi as int,
                    grown,
                    #[trigger] symbols[m],
                    hi + 1,
                ) by {
                    assert(filled_below(table, lo as int, hi as int, sofar, symbols[m], hi + 1));
                    assert forall|at: int|
                        #[trigger] grid_point(lo as int, hi as int, at) && at < hi + 1 && !has_row(
                            table,
                            symbols[m],
                            at,
                        ) implies has_row(grown, symbols[m], at) by {
                        lemma_has_row_prefix(sofar, grown, symbols[m], at);
                    }
                }
            }
            k += 1;
        }
        proof {
            let added = rows_view(fill@);
            assert forall|symbol: Seq<char>, t: int|
                #[trigger] has_symbol(table, symbol) && #[trigger] grid_point(
                    lo as int,
                    hi as int,
                    t,
                ) && !has_row(table, symbol, t) implies has_row(added, symbol, t) by {
                let i = choose|i: int| 0 <= i < table.len() && (#[trigger] table[i]).symbol == symbol;
                assert(symbols.contains(table[i].symbol));
                let m = choose|m: int| 0 <= m < symbols.len() && symbols[m] == symbol;
                assert(filled_below(table, lo as int, hi as int, added, symbols[m], hi + 1));
            }
            assert(is_fill(table, lo as int, hi as int, added));
        }
        let ghost added = rows_view(fill@);
        self.frame.append(&mut fill);
        proof {
            let after = rows_view(self.frame@);
            assert(after =~= table + added);
            assert(after.take(table.len() as int) =~= table);
            assert(after.skip(table.len() as int) =~= added);
            assert forall|i: int| 0 <= i < after.len() implies (#[trigger] after[i]).parsed() by {
                if i < table.len() {
                    assert(table[i].parsed());
                } else {
                    assert(is_filler(table, lo as int, hi as int, added[i - table.len()]));
                }
            }
        }
    }
}

/// The earliest instant among the first `n` rows.
proof fn lemma_prefix_min(rows: Seq<RowModel>, n: int) -> (lo: int)
    requires
        0 < n <= rows.len(),
    ensures
        exists|i: int| 0 <= i < n && (#[trigger] rows[i]).instant() == lo,
        forall|i: int| 0 <= i < n ==> lo <= (#[trigger] rows[i]).instant(),
    decreases n,
{
    if n == 1 {
        rows[0].instant()
    } else {
        let rest = lemma_prefix_min(rows, n - 1);
        if rows[n - 1].instant() < rest {
            rows[n - 1].instant()
        } else {
            rest
        }
    }
}

/// The latest instant among the first `n` rows.
proof fn lemma_prefix_max(rows: Seq<RowModel>, n: int) -> (hi: int)
    requires
        0 < n <= rows.len(),
    ensures
        exists|i: int| 0 <= i < n && (#[trigger] rows[i]).instant() == hi,
        forall|i: int| 0 <= i < n ==> (#[trigger] rows[i]).instant() <= hi,
    decreases n,
{
    if n == 1 {
        rows[0].instant()
    } else {
        let rest = lemma_prefix_max(rows, n - 1);
        if rows[n - 1].instant() > rest {
            rows[n - 1].instant()
        } else {
            rest
        }
    }
}

/// A table that has rows has an earliest and a latest instant.
pub proof fn lemma_instant_bounds(rows: Seq<RowModel>)
    requires
        rows.len() > 0,
    ensures
        is_min_instant(rows, min_instant(rows)),
        is_max_instant(rows, max_instant(rows)),
        min_instant(rows) <= max_instant(rows),
{
    let lo = lemma_prefix_min(rows, rows.len() as int);
    let hi = lemma_prefix_max(rows, rows.len() as int);
    assert(is_min_instant(rows, lo));
    assert(is_max_instant(rows, hi));
    assert(lo <= rows[0].instant() <= hi);
}

/// No two rows of the table have the same symbol and the same instant.
pub open spec fn keys_distinct(rows: Seq<RowModel>) -> bool {
    forall|i: int, j: int|
        0 <= i < j < rows.len() ==> !((#[trigger] rows[i]).symbol == (#[trigger] rows[j]).symbol
            && rows[i].instant() == rows[j].instant())
}

/// Every instant of the table lies on the minute grid that starts at its earliest instant.
pub open spec fn on_grid(rows: Seq<RowModel>) -> bool {
    forall|i: int|
        0 <= i < rows.len() ==> grid_point(
            min_instant(rows),
            max_instant(rows),
            (#[trigger] rows[i]).instant(),
        )
}

/// Every row of a densified table lies on the grid and belongs to a symbol of the table
/// as it was.
proof fn lemma_densified_on_grid(rows: Seq<RowModel>, lo: int, hi: int, after: Seq<RowModel>, k: int)
    requires
        forall|i: int| 0 <= i < rows.len() ==> grid_point(lo, hi, (#[trigger] rows[i]).instant()),
        densified(rows, lo, hi, after),
        0 <= k < after.len(),
    ensures
        grid_point(lo, hi, after[k].instant()),
        has_symbol(rows, after[k].symbol),
{
    let n = rows.len() as int;
    if k < n {
        assert(after[k] == after.take(n)[k]);
        assert(grid_point(lo, hi, rows[k].instant()));
    } else {
        assert(after[k] == after.skip(n)[k - n]);
        assert(is_filler(rows, lo, hi, after.skip(n)[k - n]));
    }
}

/// A densified table has a row of every symbol of the table at every grid point.
proof fn lemma_densified_covers(
    rows: Seq<RowModel>,
    lo: int,
    hi: int,
    after: Seq<RowModel>,
    symbol: Seq<char>,
    t: int,
)
    requires
        densified(rows, lo, hi, after),
        has_symbol(rows, symbol),
        grid_point(lo, hi, t),
    ensures
        has_row(after, symbol, t),
{
    let n = rows.len() as int;
    let fill = after.skip(n);
    if has_row(rows, symbol, t) {
        lemma_has_row_prefix(rows, after, symbol, t);
    } else {
        assert(has_row(fill, symbol, t));
        let j = choose|j: int|
            0 <= j < fill.len() && (#[trigger] fill[j]).symbol == symbol && fill[j].instant() == t;
        assert(after[j + n] == fill[j]);
    }
}

/// Two rows of a densified table differ in symbol or instant, if those of the table did.
proof fn lemma_densified_distinct(
    rows: Seq<RowModel>,
    lo: int,
    hi: int,
    after: Seq<RowModel>,
    i: int,
    j: int,
)
    requires
        keys_distinct(rows),
        densified(rows, lo, hi, after),
        0 <= i < j < after.len(),
    ensures
        !(after[i].symbol == after[j].symbol && after[i].instant() == after[j].instant()),
{
    let n = rows.len() as int;
    let fill = after.skip(n);
    if j < n {
        assert(after[i] == after.take(n)[i]);
        assert(after[j] == after.take(n)[j]);
    } else if i < n {
        assert(after[i] == after.take(n)[i]);
        assert(after[j] == fill[j - n]);
        assert(is_filler(rows, lo, hi, fill[j - n]));
        if after[i].symbol == after[j].symbol && after[i].instant() == after[j].instant() {
            assert(rows[i].symbol == after[j].symbol);
            assert(has_row(rows, after[j].symbol, after[j].instant()));
        }
    } else {
        assert(after[i] == fill[i - n]);
        assert(after[j] == fill[j - n]);
        assert(filler_before(fill[i - n], fill[j - n]));
        if after[i].symbol == after[j].symbol {
            lemma_text_lt_irreflexive(after[i].symbol);
        }
    }
}

/// Densification completeness: once a table whose rows lie on the grid, no two of them with
/// the same symbol and instant, has been densified, the instants of every symbol are
/// exactly the grid points between the table's earliest and latest instant, each once; and
/// those two instants are still the earliest and the latest.
pub proof fn lemma_densification_complete(rows: Seq<RowModel>, after: Seq<RowModel>)
    requires
        rows.len() > 0,
        on_grid(rows),
        keys_distinct(rows),
        densified(rows, min_instant(rows), max_instant(rows), after),
    ensures
        forall|k: int|
            0 <= k < after.len() ==> grid_point(
                min_instant(rows),
                max_instant(rows),
                (#[trigger] after[k]).instant(),
            ),
        forall|k: int, t: int|
            0 <= k < after.len() && #[trigger] grid_point(min_instant(rows), max_instant(rows), t)
                ==> has_row(after, (#[trigger] after[k]).symbol, t),
        keys_distinct(after),
        min_instant(after) == min_instant(rows),
        max_instant(after) == max_instant(rows),
{
    let lo = min_instant(rows);
    let hi = max_instant(rows);
    let n = rows.len() as int;
    lemma_instant_bounds(rows);
    assert forall|k: int| 0 <= k < after.len() implies grid_point(
        lo,
        hi,
        (#[trigger] after[k]).instant(),
    ) by {
        lemma_densified_on_grid(rows, lo, hi, after, k);
    }
    assert forall|k: int, t: int|
        0 <= k < after.len() && #[trigger] grid_point(lo, hi, t) implies has_row(
        after,
        (#[trigger] after[k]).symbol,
        t,
    ) by {
        lemma_densified_on_grid(rows, lo, hi, after, k);
        lemma_densified_covers(rows, lo, hi, after, after[k].symbol, t);
    }
    assert forall|i: int, j: int| 0 <= i < j < after.len() implies !((#[trigger] after[i]).symbol
        == (#[trigger] after[j]).symbol && after[i].instant() == after[j].instant()) by {
        lemma_densified_distinct(rows, lo, hi, after, i, j);
    }
    assert(is_min_instant(after, lo)) by {
        let i = choose|i: int| 0 <= i < rows.len() && (#[trigger] rows[i]).instant() == lo;
        assert(after[i] == after.take(n)[i]);
    }
    assert(is_max_instant(after, hi)) by {
        let i = choose|i: int| 0 <= i < rows.len() && (#[trigger] rows[i]).instant() == hi;
        assert(after[i] == after.take(n)[i]);
    }
    lemma_min_instant_unique(after, lo);
    lemma_max_instant_unique(after, hi);
}

/// What densification adds to a table is determined by the table and the grid.
pub proof fn lemma_fill_unique(
    rows: Seq<RowModel>,
    lo: int,
    hi: int,
    a: Seq<RowModel>,
    b: Seq<RowModel>,
)
    requires
        is_fill(rows, lo, hi, a),
        is_fill(rows, lo, hi, b),
    ensures
        a == b,
{
    let lt = |x: RowModel, y: RowModel| filler_before(x, y);
    assert forall|x: RowModel, y: RowModel| !(#[trigger] lt(x, y) && lt(y, x)) by {
        if text_lt(x.symbol, y.symbol) {
            crate::text::lemma_text_lt_asymmetric(x.symbol, y.symbol);
            lemma_text_lt_irreflexive(x.symbol);
        }
        if x.symbol == y.symbol {
            lemma_text_lt_irreflexive(x.symbol);
        }
    }
    assert forall|i: int| 0 <= i < a.len() implies b.contains(#[trigger] a[i]) by {
        lemma_filler_listed(rows, lo, hi, a[i], b);
    }
    assert forall|i: int| 0 <= i < b.len() implies a.contains(#[trigger] b[i]) by {
        lemma_filler_listed(rows, lo, hi, b[i], a);
    }
    assert forall|i: int, j: int| 0 <= i < j < a.len() implies lt(
        #[trigger] a[i],
        #[trigger] a[j],
    ) by {}
    assert forall|i: int, j: int| 0 <= i < j < b.len() implies lt(
        #[trigger] b[i],
        #[trigger] b[j],
    ) by {}
    lemma_ascending_unique(a, b, lt);
}

/// A filler of the table is one of the rows of every fill of the table.
proof fn lemma_filler_listed(
    rows: Seq<RowModel>,
    lo: int,
    hi: int,
    row: RowModel,
    fill: Seq<RowModel>,
)
    requires
        is_filler(rows, lo, hi, row),
        is_fill(rows, lo, hi, fill),
    ensures
        fill.contains(row),
{
    assert(has_row(fill, row.symbol, row.instant()));
    let k = choose|k: int|
        0 <= k < fill.len() && (#[trigger] fill[k]).symbol == row.symbol && fill[k].instant()
            == row.instant();
    assert(is_filler(rows, lo, hi, fill[k]));
    assert(fill[k] == row);
}

/// The densified table is determined by the table and the grid.
pub proof fn lemma_densified_unique(
    rows: Seq<RowModel>,
    lo: int,
    hi: int,
    a: Seq<RowModel>,
    b: Seq<RowModel>,
)
    requires
        densified(rows, lo, hi, a),
        densified(rows, lo, hi, b),
    ensures
        a == b,
{
    let n = rows.len() as int;
    lemma_fill_unique(rows, lo, hi, a.skip(n), b.skip(n));
    assert(a =~= a.take(n) + a.skip(n));
    assert(b =~= b.take(n) + b.skip(n));
}

} // verus!
