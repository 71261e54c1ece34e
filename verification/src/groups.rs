//! Symbol partitions: the rows of one symbol in time order, and the symbols of a table in
//! ascending order.

use vstd::prelude::*;
use vstd::string::*;
use crate::row::{all_parsed, instant_at, rows_view, Row, RowModel};
use crate::text::{
    lemma_text_lt_asymmetric, lemma_text_lt_total, lemma_text_lt_transitive, text_less, text_lt,
};

verus! {

/// Row `i` comes before row `j` in time; rows of one instant keep their table order.
pub open spec fn before(rows: Seq<RowModel>, i: int, j: int) -> bool {
    rows[i].instant() < rows[j].instant() || (rows[i].instant() == rows[j].instant() && i < j)
}

/// The rows of one symbol, as indices into the table, in time order.
#[derive(Debug, PartialEq, Eq)]
pub struct SymbolGroup {
    pub symbol: String,
    pub rows: Vec<usize>,
}

/// The value of a [`SymbolGroup`].
#[verifier::ext_equal]
pub struct GroupModel {
    pub symbol: Seq<char>,
    pub rows: Seq<usize>,
}

impl View for SymbolGroup {
    type V = GroupModel;

    open spec fn view(&self) -> GroupModel {
        GroupModel { symbol: self.symbol@, rows: self.rows@ }
    }
}

/// The values of a sequence of groups, in order.
pub open spec fn groups_view(groups: Seq<SymbolGroup>) -> Seq<GroupModel> {
    groups.map_values(|group: SymbolGroup| group@)
}

/// The values of a sequence of strings, in order.
pub open spec fn texts_view(texts: Seq<String>) -> Seq<Seq<char>> {
    texts.map_values(|text: String| text@)
}

/// Row `i` is one of `members`.
pub open spec fn lists(members: Seq<usize>, i: int) -> bool {
    exists|k: int| 0 <= k < members.len() && #[trigger] members[k] as int == i
}

/// `members` lists exactly the rows of `symbol` among the first `n` rows, each once, in
/// time order.
pub open spec fn is_partition_of_prefix(
    rows: Seq<RowModel>,
    symbol: Seq<char>,
    members: Seq<usize>,
    n: int,
) -> bool {
    &&& forall|k: int|
        0 <= k < members.len() ==> (#[trigger] members[k]) < n && rows[members[k] as int].symbol
            == symbol
    &&& forall|i: int| 0 <= i < n && (#[trigger] rows[i]).symbol == symbol ==> lists(members, i)
    &&& forall|k: int, l: int|
        0 <= k < l < members.len() ==> before(
            rows,
            #[trigger] members[k] as int,
            #[trigger] members[l] as int,
        )
}

/// `members` is the partition of `symbol`: exactly the rows of that symbol, each once, in
/// time order.
pub open spec fn is_partition(rows: Seq<RowModel>, symbol: Seq<char>, members: Seq<usize>) -> bool {
    is_partition_of_prefix(rows, symbol, members, rows.len() as int)
}

/// Some row of the table carries `symbol`.
pub open spec fn has_symbol(rows: Seq<RowModel>, symbol: Seq<char>) -> bool {
    exists|i: int| 0 <= i < rows.len() && (#[trigger] rows[i]).symbol == symbol
}

/// `symbols` lists exactly the symbols of the table, each once, in ascending order.
pub open spec fn is_symbol_list(rows: Seq<RowModel>, symbols: Seq<Seq<char>>) -> bool {
    &&& forall|k: int, l: int|
        0 <= k < l < symbols.len() ==> text_lt(#[trigger] symbols[k], #[trigger] symbols[l])
    &&& forall|i: int| 0 <= i < rows.len() ==> symbols.contains((#[trigger] rows[i]).symbol)
    &&& forall|k: int| 0 <= k < symbols.len() ==> has_symbol(rows, #[trigger] symbols[k])
}

/// `groups` holds one partition for each symbol of the table, the symbols ascending.
pub open spec fn is_grouping(rows: Seq<RowModel>, groups: Seq<GroupModel>) -> bool {
    &&& is_symbol_list(rows, groups.map_values(|group: GroupModel| group.symbol))
    &&& forall|k: int|
        0 <= k < groups.len() ==> is_partition(
            rows,
            (#[trigger] groups[k]).symbol,
            groups[k].rows,
        )
}

/// The symbols of the table, each once, in ascending order.
pub fn distinct_symbols(rows: &Vec<Row>) -> (symbols: Vec<String>)
    ensures
        is_symbol_list(rows_view(rows@), texts_view(symbols@)),
{
    let mut symbols: Vec<String> = Vec::new();
    let mut i: usize = 0;
    while i < rows.len()
        invariant
            i <= rows.len(),
            is_symbol_list(rows_view(rows@).take(i as int), texts_view(symbols@)),
        decreases rows.len() - i,
    {
        let ghost seen = rows_view(rows@).take(i as int);
        let ghost grown = rows_view(rows@).take(i + 1);
        let ghost listed = texts_view(symbols@);
        let symbol: &String = &rows[i].symbol;
        let mut k: usize = 0;
        while k < symbols.len() && text_less(symbols[k].as_str(), symbol.as_str())
            invariant
                k <= symbols.len(),
                forall|m: int| 0 <= m < k ==> text_lt(#[trigger] symbols@[m]@, symbol@),
            decreases symbols.len() - k,
        {
            k += 1;
        }
        assert(grown[i as int].symbol == symbol@);
        assert forall|j: int| 0 <= j < i implies #[trigger] grown[j] == seen[j] by {}
        if k < symbols.len() && symbols[k] == *symbol {
            assert(listed[k as int] == symbol@);
            assert forall|j: int| 0 <= j < grown.len() implies listed.contains(
                (#[trigger] grown[j]).symbol,
            ) by {
                if j < i {
                    assert(listed.contains(seen[j].symbol));
                }
            }
            assert forall|m: int| 0 <= m < listed.len() implies has_symbol(
                grown,
                #[trigger] listed[m],
            ) by {
                assert(has_symbol(seen, listed[m]));
                let j = choose|j: int| 0 <= j < seen.len() && (#[trigger] seen[j]).symbol == listed[m];
                assert(grown[j].symbol == listed[m]);
            }
        } else {
            proof {
                if k < symbols.len() {
                    lemma_text_lt_total(symbol@, listed[k as int]);
                    assert forall|m: int| k <= m < listed.len() implies text_lt(
                        symbol@,
                        #[trigger] listed[m],
                    ) by {
                        if m > k {
                            lemma_text_lt_transitive(symbol@, listed[k as int], listed[m]);
                        }
                    }
                }
            }
            symbols.insert(k, symbol.clone());
            proof {
                let after = texts_view(symbols@);
                assert(after =~= listed.insert(k as int, symbol@));
                assert forall|a: int, b: int| 0 <= a < b < after.len() implies text_lt(
                    #[trigger] after[a],
                    #[trigger] after[b],
                ) by {
                    if a < k && b > k {
                        assert(after[a] == listed[a]);
                        assert(after[b] == listed[b - 1]);
                    }
                }
                assert forall|j: int| 0 <= j < grown.len() implies after.contains(
                    (#[trigger] grown[j]).symbol,
                ) by {
                    if j < i {
                        assert(listed.contains(seen[j].symbol));
                        let m = choose|m: int| 0 <= m < listed.len() && listed[m] == seen[j].symbol;
                        if m < k {
                            assert(after[m] == listed[m]);
                        } else {
                            assert(after[m + 1] == listed[m]);
                        }
                    } else {
                        assert(after[k as int] == symbol@);
                    }
                }
                assert forall|m: int| 0 <= m < after.len() implies has_symbol(
                    grown,
                    #[trigger] after[m],
                ) by {
                    if m == k {
                        assert(grown[i as int].symbol == after[m]);
                    } else {
                        let old_m = if m < k { m } else { m - 1 };
                        assert(after[m] == listed[old_m]);
                        assert(has_symbol(seen, listed[old_m]));
                        let j = choose|j: int|
                            0 <= j < seen.len() && (#[trigger] seen[j]).symbol == listed[old_m];
                        assert(grown[j].symbol == after[m]);
                    }
                }
            }
        }
        i += 1;
    }
    assert(rows_view(rows@).take(rows.len() as int) =~= rows_view(rows@));
    symbols
}

/// The partition of `symbol`: the rows that carry it, each once, in time order.
pub fn partition(rows: &Vec<Row>, symbol: &String) -> (members: Vec<usize>)
    requires
        all_parsed(rows_view(rows@)),
    ensures
        is_partition(rows_view(rows@), symbol@, members@),
{
    let ghost table = rows_view(rows@);
    let mut members: Vec<usize> = Vec::new();
    let mut i: usize = 0;
    while i < rows.len()
        invariant
            i <= rows.len(),
            table == rows_view(rows@),
            all_parsed(table),
            is_partition_of_prefix(table, symbol@, members@, i as int),
        decreases rows.len() - i,
    {
        if rows[i].symbol == *symbol {
            let instant: i64 = instant_at(rows, i);
            let mut pos: usize = members.len();
            while pos > 0 && instant < instant_at(rows, members[pos - 1])
                invariant
                    pos <= members.len(),
                    i < rows.len(),
                    table == rows_view(rows@),
                    all_parsed(table),
                    instant == table[i as int].instant(),
                    is_partition_of_prefix(table, symbol@, members@, i as int),
                    forall|k: int|
                        pos <= k < members.len() ==> before(
                            table,
                            i as int,
                            #[trigger] members@[k] as int,
                        ),
                decreases pos,
            {
                pos -= 1;
            }
            let ghost listed = members@;
            members.insert(pos, i);
            proof {
                let after = members@;
                assert(after =~= listed.insert(pos as int, i));
                assert forall|k: int| 0 <= k < after.len() implies (#[trigger] after[k]) < i + 1
                    && table[after[k] as int].symbol == symbol@ by {
                    if k < pos {
                        assert(after[k] == listed[k]);
                    } else if k > pos {
                        assert(after[k] == listed[k - 1]);
                    }
                }
                assert forall|j: int|
                    0 <= j < i + 1 && (#[trigger] table[j]).symbol == symbol@ implies lists(
                    after,
                    j,
                ) by {
                    if j < i {
                        assert(lists(listed, j));
                        let m = choose|m: int| 0 <= m < listed.len() && #[trigger] listed[m] as int == j;
                        if m < pos {
                            assert(after[m] as int == j);
                        } else {
                            assert(after[m + 1] as int == j);
                        }
                    } else {
                        assert(after[pos as int] as int == i);
                    }
                }
                assert forall|k: int, l: int| 0 <= k < l < after.len() implies before(
                    table,
                    #[trigger] after[k] as int,
                    #[trigger] after[l] as int,
                ) by {
                    let a = if k < pos { k } else { k - 1 };
                    let b = if l < pos { l } else { l - 1 };
                    if k != pos {
                        assert(after[k] == listed[a]);
                    }
                    if l != pos {
                        assert(after[l] == listed[b]);
                    }
                    if l == pos {
                        // Every earlier member is no later than the last one before `pos`,
                        // which is no later than the new row.
                        assert(listed[pos - 1] < i);
                        if k < pos - 1 {
                            assert(before(table, listed[k] as int, listed[pos - 1] as int));
                        }
                    } else if k == pos {
                        assert(before(table, i as int, listed[b] as int));
                    } else {
                        assert(before(table, listed[a] as int, listed[b] as int));
                    }
                }
            }
        }
        i += 1;
    }
    members
}

/// One partition for each symbol of the table, the symbols ascending.
pub fn group_rows(rows: &Vec<Row>) -> (groups: Vec<SymbolGroup>)
    requires
        all_parsed(rows_view(rows@)),
    ensures
        is_grouping(rows_view(rows@), groups_view(groups@)),
        groups_view(groups@) == grouping_of(rows_view(rows@)),
{
    let ghost table = rows_view(rows@);
    let symbols: Vec<String> = distinct_symbols(rows);
    let ghost listed = texts_view(symbols@);
    let mut groups: Vec<SymbolGroup> = Vec::new();
    let mut k: usize = 0;
    while k < symbols.len()
        invariant
            k <= symbols.len(),
            table == rows_view(rows@),
            all_parsed(table),
            listed == texts_view(symbols@),
            groups.len() == k,
            forall|m: int| 0 <= m < k ==> (#[trigger] groups@[m])@.symbol == listed[m],
            forall|m: int|
                0 <= m < k ==> is_partition(table, (#[trigger] groups@[m])@.symbol, groups@[m]@.rows),
        decreases symbols.len() - k,
    {
        let members: Vec<usize> = partition(rows, &symbols[k]);
        let symbol: String = symbols[k].clone();
        groups.push(SymbolGroup { symbol, rows: members });
        k += 1;
    }
    proof {
        let models = groups_view(groups@);
        assert(models.map_values(|group: GroupModel| group.symbol) =~= listed);
        assert(is_grouping(table, models));
        lemma_grouping_unique(table, models, grouping_of(table));
    }
    groups
}

/// Two sequences that hold the same members, each strictly ascending in one order, are the
/// same sequence up to index `k`.
proof fn lemma_ascending_agree<T>(a: Seq<T>, b: Seq<T>, lt: spec_fn(T, T) -> bool, k: int)
    requires
        forall|i: int, j: int| 0 <= i < j < a.len() ==> lt(#[trigger] a[i], #[trigger] a[j]),
        forall|i: int, j: int| 0 <= i < j < b.len() ==> lt(#[trigger] b[i], #[trigger] b[j]),
        forall|i: int| 0 <= i < a.len() ==> b.contains(#[trigger] a[i]),
        forall|i: int| 0 <= i < b.len() ==> a.contains(#[trigger] b[i]),
        forall|x: T, y: T| !(#[trigger] lt(x, y) && lt(y, x)),
        0 <= k < a.len(),
    ensures
        k < b.len(),
        forall|m: int| 0 <= m <= k ==> a[m] == b[m],
    decreases k,
{
    if k > 0 {
        lemma_ascending_agree(a, b, lt, k - 1);
    }
    assert(b.contains(a[k]));
    let p = choose|p: int| 0 <= p < b.len() && b[p] == a[k];
    if p < k {
        assert(a[p] == b[p]);
        assert(lt(a[p], a[k]));
        assert(false);
    }
    assert(a.contains(b[k]));
    let q = choose|q: int| 0 <= q < a.len() && a[q] == b[k];
    if q < k {
        assert(b[q] == a[q]);
        assert(lt(b[q], b[k]));
        assert(false);
    }
    if p > k && q > k {
        assert(lt(b[k], b[p]));
        assert(lt(a[k], a[q]));
        assert(false);
    }
}

/// Two sequences that hold the same members, each strictly ascending in one order, are
/// equal.
pub proof fn lemma_ascending_unique<T>(a: Seq<T>, b: Seq<T>, lt: spec_fn(T, T) -> bool)
    requires
        forall|i: int, j: int| 0 <= i < j < a.len() ==> lt(#[trigger] a[i], #[trigger] a[j]),
        forall|i: int, j: int| 0 <= i < j < b.len() ==> lt(#[trigger] b[i], #[trigger] b[j]),
        forall|i: int| 0 <= i < a.len() ==> b.contains(#[trigger] a[i]),
        forall|i: int| 0 <= i < b.len() ==> a.contains(#[trigger] b[i]),
        forall|x: T, y: T| !(#[trigger] lt(x, y) && lt(y, x)),
    ensures
        a == b,
{
    if a.len() > 0 {
        lemma_ascending_agree(a, b, lt, a.len() - 1);
    }
    if b.len() > 0 {
        lemma_ascending_agree(b, a, lt, b.len() - 1);
    }
    assert(a =~= b);
}

/// A symbol has one partition only.
pub proof fn lemma_partition_unique(
    rows: Seq<RowModel>,
    symbol: Seq<char>,
    a: Seq<usize>,
    b: Seq<usize>,
)
    requires
        is_partition(rows, symbol, a),
        is_partition(rows, symbol, b),
    ensures
        a == b,
{
    let lt = |x: usize, y: usize| before(rows, x as int, y as int);
    assert forall|i: int| 0 <= i < a.len() implies b.contains(#[trigger] a[i]) by {
        assert(rows[a[i] as int].symbol == symbol);
        assert(lists(b, a[i] as int));
        let k = choose|k: int| 0 <= k < b.len() && #[trigger] b[k] as int == a[i] as int;
        assert(b[k] == a[i]);
    }
    assert forall|i: int| 0 <= i < b.len() implies a.contains(#[trigger] b[i]) by {
        assert(rows[b[i] as int].symbol == symbol);
        assert(lists(a, b[i] as int));
        let k = choose|k: int| 0 <= k < a.len() && #[trigger] a[k] as int == b[i] as int;
        assert(a[k] == b[i]);
    }
    assert forall|i: int, j: int| 0 <= i < j < a.len() implies lt(
        #[trigger] a[i],
        #[trigger] a[j],
    ) by {}
    assert forall|i: int, j: int| 0 <= i < j < b.len() implies lt(
        #[trigger] b[i],
        #[trigger] b[j],
    ) by {}
    lemma_ascending_unique(a, b, lt);
}

/// A table has one symbol list only.
pub proof fn lemma_symbol_list_unique(rows: Seq<RowModel>, a: Seq<Seq<char>>, b: Seq<Seq<char>>)
    requires
        is_symbol_list(rows, a),
        is_symbol_list(rows, b),
    ensures
        a == b,
{
    let lt = |x: Seq<char>, y: Seq<char>| text_lt(x, y);
    assert forall|i: int| 0 <= i < a.len() implies b.contains(#[trigger] a[i]) by {
        assert(has_symbol(rows, a[i]));
    }
    assert forall|i: int| 0 <= i < b.len() implies a.contains(#[trigger] b[i]) by {
        assert(has_symbol(rows, b[i]));
    }
    assert forall|x: Seq<char>, y: Seq<char>| !(#[trigger] lt(x, y) && lt(y, x)) by {
        if text_lt(x, y) {
            lemma_text_lt_asymmetric(x, y);
        }
    }
    assert forall|i: int, j: int| 0 <= i < j < a.len() implies lt(
        #[trigger] a[i],
        #[trigger] a[j],
    ) by {}
    assert forall|i: int, j: int| 0 <= i < j < b.len() implies lt(
        #[trigger] b[i],
        #[trigger] b[j],
    ) by {}
    lemma_ascending_unique(a, b, lt);
}

/// A table has one grouping only.
pub proof fn lemma_grouping_unique(rows: Seq<RowModel>, a: Seq<GroupModel>, b: Seq<GroupModel>)
    requires
        is_grouping(rows, a),
        is_grouping(rows, b),
    ensures
        a == b,
{
    let names_a = a.map_values(|group: GroupModel| group.symbol);
    let names_b = b.map_values(|group: GroupModel| group.symbol);
    lemma_symbol_list_unique(rows, names_a, names_b);
    assert(a.len() == names_a.len());
    assert(b.len() == names_b.len());
    assert forall|k: int| 0 <= k < a.len() implies a[k] == b[k] by {
        assert(a[k].symbol == names_a[k]);
        assert(b[k].symbol == names_b[k]);
        lemma_partition_unique(rows, a[k].symbol, a[k].rows, b[k].rows);
        assert(a[k] =~= b[k]);
    }
    assert(a =~= b);
}

/// The grouping of a table: one partition for each of its symbols, the symbols ascending.
pub open spec fn grouping_of(rows: Seq<RowModel>) -> Seq<GroupModel> {
    choose|groups: Seq<GroupModel>| is_grouping(rows, groups)
}

/// The number of rows in the partitions before partition `k`.
pub open spec fn group_offset(groups: Seq<GroupModel>, k: int) -> int
    decreases k,
{
    if k <= 0 {
        0
    } else {
        group_offset(groups, k - 1) + groups[k - 1].rows.len()
    }
}

/// The rows of the table that carry `symbol`.
spec fn rows_of(rows: Seq<RowModel>, symbol: Seq<char>) -> Set<int> {
    Set::new(|i: int| 0 <= i < rows.len() && rows[i].symbol == symbol)
}

/// The rows of the table that carry one of the first `k` symbols of the list.
spec fn rows_listed(rows: Seq<RowModel>, symbols: Seq<Seq<char>>, k: int) -> Set<int> {
    Set::new(
        |i: int| 0 <= i < rows.len() && exists|m: int| 0 <= m < k && #[trigger] symbols[m] == rows[i].symbol,
    )
}

/// A partition has as many members as the table has rows of its symbol.
proof fn lemma_partition_len(rows: Seq<RowModel>, symbol: Seq<char>, members: Seq<usize>)
    requires
        is_partition(rows, symbol, members),
    ensures
        rows_of(rows, symbol).finite(),
        members.len() == rows_of(rows, symbol).len(),
{
    let indices = members.map_values(|member: usize| member as int);
    assert forall|a: int, b: int|
        0 <= a < indices.len() && 0 <= b < indices.len() && a != b implies indices[a] != indices[b] by {
        if a < b {
            assert(before(rows, members[a] as int, members[b] as int));
        } else {
            assert(before(rows, members[b] as int, members[a] as int));
        }
    }
    assert forall|i: int| indices.to_set().contains(i) <==> rows_of(rows, symbol).contains(i) by {
        if indices.to_set().contains(i) {
            let k = choose|k: int| 0 <= k < indices.len() && indices[k] == i;
            assert(members[k] as int == i);
        }
        if rows_of(rows, symbol).contains(i) {
            assert(lists(members, i));
            let k = choose|k: int| 0 <= k < members.len() && #[trigger] members[k] as int == i;
            assert(indices[k] == i);
        }
    }
    assert(indices.to_set() =~= rows_of(rows, symbol));
    indices.unique_seq_to_set();
    vstd::set_lib::lemma_int_range(0, rows.len() as int);
    vstd::set_lib::lemma_len_subset(
        rows_of(rows, symbol),
        vstd::set_lib::set_int_range(0, rows.len() as int),
    );
}

/// The first `k` partitions have as many members together as the table has rows of their
/// symbols.
proof fn lemma_offset_counts(rows: Seq<RowModel>, groups: Seq<GroupModel>, k: int)
    requires
        is_grouping(rows, groups),
        0 <= k <= groups.len(),
    ensures
        rows_listed(rows, groups.map_values(|group: GroupModel| group.symbol), k).finite(),
        group_offset(groups, k) == rows_listed(
            rows,
            groups.map_values(|group: GroupModel| group.symbol),
            k,
        ).len(),
    decreases k,
{
    let symbols = groups.map_values(|group: GroupModel| group.symbol);
    if k == 0 {
        assert(rows_listed(rows, symbols, 0) =~= Set::empty());
    } else {
        lemma_offset_counts(rows, groups, k - 1);
        let sofar = rows_listed(rows, symbols, k - 1);
        let added = rows_of(rows, symbols[k - 1]);
        assert(symbols[k - 1] == groups[k - 1].symbol);
        lemma_partition_len(rows, groups[k - 1].symbol, groups[k - 1].rows);
        assert forall|i: int| sofar.contains(i) implies !added.contains(i) by {
            let m = choose|m: int| 0 <= m < k - 1 && #[trigger] symbols[m] == rows[i].symbol;
            assert(text_lt(symbols[m], symbols[k - 1]));
            crate::text::lemma_text_lt_irreflexive(symbols[m]);
        }
        assert(sofar.disjoint(added));
        assert forall|i: int| (sofar + added).contains(i) <==> rows_listed(
            rows,
            symbols,
            k,
        ).contains(i) by {
            if sofar.contains(i) {
                let m = choose|m: int| 0 <= m < k - 1 && #[trigger] symbols[m] == rows[i].symbol;
                assert(0 <= m < k);
            }
            if rows_listed(rows, symbols, k).contains(i) {
                let m = choose|m: int| 0 <= m < k && #[trigger] symbols[m] == rows[i].symbol;
                if m < k - 1 {
                    assert(sofar.contains(i));
                } else {
                    assert(added.contains(i));
                }
            }
        }
        assert(sofar + added =~= rows_listed(rows, symbols, k));
        vstd::set_lib::lemma_set_disjoint_lens(sofar, added);
    }
}

/// The partitions of a grouping have as many members together as the table has rows.
pub proof fn lemma_grouping_covers(rows: Seq<RowModel>, groups: Seq<GroupModel>)
    requires
        is_grouping(rows, groups),
    ensures
        group_offset(groups, groups.len() as int) == rows.len(),
{
    let symbols = groups.map_values(|group: GroupModel| group.symbol);
    lemma_offset_counts(rows, groups, groups.len() as int);
    let all = vstd::set_lib::set_int_range(0, rows.len() as int);
    assert forall|i: int| all.contains(i) implies rows_listed(
        rows,
        symbols,
        groups.len() as int,
    ).contains(i) by {
        assert(symbols.contains(rows[i].symbol));
        let m = choose|m: int| 0 <= m < symbols.len() && symbols[m] == rows[i].symbol;
        assert(symbols[m] == rows[i].symbol);
    }
    assert(rows_listed(rows, symbols, groups.len() as int) =~= all);
    vstd::set_lib::lemma_int_range(0, rows.len() as int);
}

} // verus!
