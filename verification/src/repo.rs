//! What the schema repository makes of the rows that its queries give back.
use vstd::prelude::*;

use crate::dto::{TableColumn, TableIndex, TableNameDto};
use crate::str_map::StrMap;
use crate::text::has_prefix;

verus! {

/// How to reach the database of one environment.
pub struct PostgresRepoSettings {
    pub conn_string: String,
}

impl PostgresRepoSettings {
    /// Settings for the connection string `conn_string`.
    pub fn new(conn_string: String) -> (r: Self)
        ensures
            r.conn_string == conn_string,
    {
        Self { conn_string }
    }

    /// The connection string, as the database driver asks for it.
    pub fn connection_string(&self) -> (r: String)
        ensures
            r@ == self.conn_string@,
    {
        self.conn_string.clone()
    }
}

/// Whether a table is one of the database's own: its name begins with "pg".
pub open spec fn is_system_table(name: Seq<char>) -> bool {
    "pg"@.is_prefix_of(name)
}

/// The names of the listed tables, in order, without the database's own tables.
pub open spec fn user_table_names(rows: Seq<TableNameDto>) -> Seq<String> {
    rows.map_values(|r: TableNameDto| r.table_name).filter(|n: String| !is_system_table(n@))
}

/// The tables of a listing, without those whose names begin with "pg".
pub fn table_names(rows: Vec<TableNameDto>) -> (r: Vec<String>)
    ensures
        r@ == user_table_names(rows@),
        forall|i: int| 0 <= i < r.len() ==> !is_system_table(#[trigger] r@[i]@),
{
    let ghost all = rows@.map_values(|r: TableNameDto| r.table_name);
    let ghost pred = |n: String| !is_system_table(n@);
    let mut result: Vec<String> = Vec::new();
    for item in it: rows.into_iter()
        invariant
            it.seq() == rows@,
            all == rows@.map_values(|r: TableNameDto| r.table_name),
            pred == (|n: String| !is_system_table(n@)),
            result@ == all.take(it.index()).filter(pred),
    {
        proof {
            reveal_with_fuel(Seq::filter, 1);
            assert(all.take(it.index() + 1).drop_last() =~= all.take(it.index()));
            assert(all[it.index()] == item.table_name);
        }
        if !has_prefix(item.table_name.as_str(), "pg") {
            result.push(item.table_name);
        }
    }
    proof {
        assert(all.take(rows@.len() as int) =~= all);
        assert forall|i: int| 0 <= i < result.len() implies !is_system_table(#[trigger] result@[i]@) by {
            all.lemma_filter_pred(pred, i);
        }
    }
    result
}

/// A table is the database's own exactly when its name begins with the characters 'p' and
/// 'g'; a name that has "pg" only further on is not.
pub proof fn lemma_system_table_names(name: Seq<char>)
    ensures
        is_system_table(name) <==> (name.len() >= 2 && name[0] == 'p' && name[1] == 'g'),
{
    reveal_strlit("pg");
    if name.len() >= 2 && name[0] == 'p' && name[1] == 'g' {
        assert(name.subrange(0, 2) =~= "pg"@);
    }
    if is_system_table(name) {
        assert(name.subrange(0, 2)[0] == name[0]);
        assert(name.subrange(0, 2)[1] == name[1]);
    }
}

/// The listing keeps every table whose name does not begin with "pg", and only such
/// tables.
pub proof fn lemma_user_table_names(rows: Seq<TableNameDto>)
    ensures
        forall|i: int|
            0 <= i < rows.len() && !(rows[i].table_name@.len() >= 2 && rows[i].table_name@[0] == 'p'
                && rows[i].table_name@[1] == 'g') ==> #[trigger] user_table_names(rows).contains(
                rows[i].table_name,
            ),
        forall|j: int|
            0 <= j < user_table_names(rows).len() ==> {
                let n = #[trigger] user_table_names(rows)[j]@;
                !(n.len() >= 2 && n[0] == 'p' && n[1] == 'g')
            },
        forall|j: int|
            0 <= j < user_table_names(rows).len() ==> rows.map_values(|r: TableNameDto| r.table_name).contains(
                #[trigger] user_table_names(rows)[j],
            ),
{
    let all = rows.map_values(|r: TableNameDto| r.table_name);
    let pred = |n: String| !is_system_table(n@);
    assert forall|i: int|
        0 <= i < rows.len() && !(rows[i].table_name@.len() >= 2 && rows[i].table_name@[0] == 'p'
            && rows[i].table_name@[1] == 'g') implies #[trigger] user_table_names(rows).contains(
        rows[i].table_name,
    ) by {
        lemma_system_table_names(rows[i].table_name@);
        assert(all[i] == rows[i].table_name);
        all.lemma_filter_contains(pred, i);
    }
    assert forall|j: int| 0 <= j < user_table_names(rows).len() implies {
        let n = #[trigger] user_table_names(rows)[j]@;
        !(n.len() >= 2 && n[0] == 'p' && n[1] == 'g')
    } by {
        all.lemma_filter_pred(pred, j);
        lemma_system_table_names(user_table_names(rows)[j]@);
    }
    assert forall|j: int| 0 <= j < user_table_names(rows).len() implies all.contains(
        #[trigger] user_table_names(rows)[j],
    ) by {
        let x = user_table_names(rows)[j];
        assert(user_table_names(rows).contains(x));
        all.lemma_filter_contains_rev(pred, x);
    }
}

/// The columns of a table by name: each row under its column name, a later row in place
/// of an earlier one with the same name.
pub open spec fn columns_map(rows: Seq<TableColumn>) -> Map<Seq<char>, TableColumn>
    decreases rows.len(),
{
    if rows.len() == 0 {
        Map::empty()
    } else {
        columns_map(rows.drop_last()).insert(rows.last().column_name@, rows.last())
    }
}

/// The definitions of a table's indexes by index name, a later row in place of an earlier
/// one with the same name.
pub open spec fn indexes_map(rows: Seq<TableIndex>) -> Map<Seq<char>, String>
    decreases rows.len(),
{
    if rows.len() == 0 {
        Map::empty()
    } else {
        indexes_map(rows.drop_last()).insert(rows.last().indexname@, rows.last().indexdef)
    }
}

/// The columns of a table, keyed by column name.
pub fn columns_by_name(rows: Vec<TableColumn>) -> (r: StrMap<TableColumn>)
    ensures
        r@ == columns_map(rows@),
{
    let mut result: StrMap<TableColumn> = StrMap::new();
    for column in it: rows.into_iter()
        invariant
            it.seq() == rows@,
            result@ == columns_map(rows@.take(it.index())),
    {
        proof {
            assert(rows@.take(it.index() + 1).drop_last() =~= rows@.take(it.index()));
        }
        let name = column.column_name.clone();
        result.insert(name, column);
    }
    proof {
        assert(rows@.take(rows@.len() as int) =~= rows@);
    }
    result
}

/// The definitions of a table's indexes, keyed by index name.
pub fn indexes_by_name(rows: Vec<TableIndex>) -> (r: StrMap<String>)
    ensures
        r@ == indexes_map(rows@),
{
    let mut result: StrMap<String> = StrMap::new();
    for index in it: rows.into_iter()
        invariant
            it.seq() == rows@,
            result@ == indexes_map(rows@.take(it.index())),
    {
        proof {
            assert(rows@.take(it.index() + 1).drop_last() =~= rows@.take(it.index()));
        }
        result.insert(index.indexname, index.indexdef);
    }
    proof {
        assert(rows@.take(rows@.len() as int) =~= rows@);
    }
    result
}

/// Every row's column name is a key of the map of columns, and under each key stands the
/// last row with that name; there are no other keys.
pub proof fn lemma_columns_map(rows: Seq<TableColumn>)
    ensures
        forall|k: Seq<char>|
            #[trigger] columns_map(rows).contains_key(k) <==> exists|i: int|
                0 <= i < rows.len() && rows[i].column_name@ == k,
        forall|i: int|
            0 <= i < rows.len() && (forall|j: int|
                i < j < rows.len() ==> rows[j].column_name@ != rows[i].column_name@) ==> #[trigger] columns_map(
                rows,
            )[rows[i].column_name@] == rows[i],
    decreases rows.len(),
{
    if rows.len() > 0 {
        let init = rows.drop_last();
        lemma_columns_map(init);
        assert forall|k: Seq<char>|
            #[trigger] columns_map(rows).contains_key(k) <==> exists|i: int|
                0 <= i < rows.len() && rows[i].column_name@ == k by {
            if columns_map(init).contains_key(k) {
                let i = choose|i: int| 0 <= i < init.len() && init[i].column_name@ == k;
                assert(rows[i] == init[i]);
            }
            if exists|i: int| 0 <= i < rows.len() && rows[i].column_name@ == k {
                let i = choose|i: int| 0 <= i < rows.len() && rows[i].column_name@ == k;
                if i < rows.len() - 1 {
                    assert(init[i] == rows[i]);
                }
            }
        }
        assert forall|i: int|
            0 <= i < rows.len() && (forall|j: int|
                i < j < rows.len() ==> rows[j].column_name@ != rows[i].column_name@) implies #[trigger] columns_map(
            rows,
        )[rows[i].column_name@] == rows[i] by {
            if i < rows.len() - 1 {
                assert(init[i] == rows[i]);
                assert(rows[rows.len() - 1].column_name@ != rows[i].column_name@);
                assert forall|j: int| i < j < init.len() implies init[j].column_name@
                    != init[i].column_name@ by {
                    assert(init[j] == rows[j]);
                }
                assert(columns_map(init)[init[i].column_name@] == init[i]);
            }
        }
    }
}

/// Every row's index name is a key of the map of indexes, and under each key stands the
/// definition of the last row with that name; there are no other keys.
pub proof fn lemma_indexes_map(rows: Seq<TableIndex>)
    ensures
        forall|k: Seq<char>|
            #[trigger] indexes_map(rows).contains_key(k) <==> exists|i: int|
                0 <= i < rows.len() && rows[i].indexname@ == k,
        forall|i: int|
            0 <= i < rows.len() && (forall|j: int|
                i < j < rows.len() ==> rows[j].indexname@ != rows[i].indexname@) ==> #[trigger] indexes_map(
                rows,
            )[rows[i].indexname@] == rows[i].indexdef,
    decreases rows.len(),
{
    if rows.len() > 0 {
        let init = rows.drop_last();
        lemma_indexes_map(init);
        assert forall|k: Seq<char>|
            #[trigger] indexes_map(rows).contains_key(k) <==> exists|i: int|
                0 <= i < rows.len() && rows[i].indexname@ == k by {
            if indexes_map(init).contains_key(k) {
                let i = choose|i: int| 0 <= i < init.len() && init[i].indexname@ == k;
                assert(rows[i] == init[i]);
            }
            if exists|i: int| 0 <= i < rows.len() && rows[i].indexname@ == k {
                let i = choose|i: int| 0 <= i < rows.len() && rows[i].indexname@ == k;
                if i < rows.len() - 1 {
                    assert(init[i] == rows[i]);
                }
            }
        }
        assert forall|i: int|
            0 <= i < rows.len() && (forall|j: int|
                i < j < rows.len() ==> rows[j].indexname@ != rows[i].indexname@) implies #[trigger] indexes_map(
            rows,
        )[rows[i].indexname@] == rows[i].indexdef by {
            if i < rows.len() - 1 {
                assert(init[i] == rows[i]);
                assert(rows[rows.len() - 1].indexname@ != rows[i].indexname@);
                assert forall|j: int| i < j < init.len() implies init[j].indexname@
                    != init[i].indexname@ by {
                    assert(init[j] == rows[j]);
                }
                assert(indexes_map(init)[init[i].indexname@] == init[i].indexdef);
            }
        }
    }
}

} // verus!
