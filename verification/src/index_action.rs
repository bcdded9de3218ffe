//! The overview page: every table, in which environments it exists, and whether the
//! environments agree on it.
use vstd::prelude::*;

use crate::dto::{columns_differ, TableColumn};
use crate::schema::{nested, TableInfo};
use crate::str_map::StrMap;
use crate::text::{decimal, lemma_occurs_in_middle, lemma_occurs_in_self, occurs_in, push_decimal, same_text};

verus! {

/// Whether the environments disagree on a table's columns, measured against the
/// environment `first`: there is only one environment, `first` lacks the table, or another
/// environment has a column that `first` lacks or describes otherwise. (A column that only
/// `first` has is no disagreement.)
pub open spec fn columns_differ_from_first(
    first: Seq<char>,
    envs: Map<Seq<char>, Map<Seq<char>, TableColumn>>,
) -> bool {
    ||| envs.len() == 1
    ||| !envs.contains_key(first)
    ||| exists|e: Seq<char>, k: Seq<char>|
        #![trigger envs[e].contains_key(k)]
        envs.contains_key(e) && e != first && envs[e].contains_key(k) && (!envs[first].contains_key(k)
            || columns_differ(envs[first][k], envs[e][k]))
}

/// Whether the environments disagree on a table's indexes, measured against the
/// environment `first`: there is only one environment, `first` lacks the table, or another
/// environment has an index that `first` lacks or defines otherwise. (An index that only
/// `first` has is no disagreement.)
pub open spec fn indexes_differ_from_first(
    first: Seq<char>,
    envs: Map<Seq<char>, Map<Seq<char>, String>>,
) -> bool {
    ||| envs.len() == 1
    ||| !envs.contains_key(first)
    ||| exists|e: Seq<char>, k: Seq<char>|
        #![trigger envs[e].contains_key(k)]
        envs.contains_key(e) && e != first && envs[e].contains_key(k) && (!envs[first].contains_key(k)
            || envs[first][k]@ != envs[e][k]@)
}

/// Where the first environment and at least one other have a table, and every environment
/// has the first one's columns, described alike, the table's columns are not flagged.
pub proof fn lemma_agreeing_columns_not_flagged(
    first: Seq<char>,
    envs: Map<Seq<char>, Map<Seq<char>, TableColumn>>,
)
    requires
        envs.dom().finite(),
        envs.len() >= 2,
        envs.contains_key(first),
        forall|e: Seq<char>, k: Seq<char>|
            #![trigger envs[e].contains_key(k)]
            envs.contains_key(e) && envs[e].contains_key(k) ==> envs[first].contains_key(k)
                && !columns_differ(envs[first][k], envs[e][k]),
    ensures
        !columns_differ_from_first(first, envs),
{
}

/// Where the first environment and at least one other have a table, and every environment
/// has the first one's indexes, defined alike, the table's indexes are not flagged.
pub proof fn lemma_agreeing_indexes_not_flagged(
    first: Seq<char>,
    envs: Map<Seq<char>, Map<Seq<char>, String>>,
)
    requires
        envs.dom().finite(),
        envs.len() >= 2,
        envs.contains_key(first),
        forall|e: Seq<char>, k: Seq<char>|
            #![trigger envs[e].contains_key(k)]
            envs.contains_key(e) && envs[e].contains_key(k) ==> envs[first].contains_key(k)
                && envs[first][k]@ == envs[e][k]@,
    ensures
        !indexes_differ_from_first(first, envs),
{
}

/// Whether a row of a page opens highlighted, as rows on which environments disagree do.
pub open spec fn highlighted(row: Seq<char>) -> bool {
    "<tr style=\"background:#ffdede\">"@.is_prefix_of(row)
}

/// A row that opens with the highlighted tag is highlighted, and one that opens with the
/// plain `<tr>` is not.
pub proof fn lemma_row_opening(differs: bool, rest: Seq<char>)
    ensures
        highlighted(
            (if differs {
                "<tr style=\"background:#ffdede\">"@
            } else {
                "<tr>"@
            }) + rest,
        ) == differs,
{
    reveal_strlit("<tr style=\"background:#ffdede\">");
    reveal_strlit("<tr>");
    let hl = "<tr style=\"background:#ffdede\">"@;
    if differs {
        assert((hl + rest).subrange(0, hl.len() as int) =~= hl);
    } else {
        let row = "<tr>"@ + rest;
        if hl.len() <= row.len() {
            assert(row[3] == '>');
            assert(hl[3] == ' ');
            assert(row.subrange(0, hl.len() as int)[3] == row[3]);
        }
    }
}

/// Measured against the first environment, the environments disagree on a table's columns
/// exactly when there is a single environment, when the first one lacks the table, or when
/// another environment has a column that the first lacks or names, types or makes
/// nullable otherwise.
pub proof fn lemma_first_env_column_measure(
    first: Seq<char>,
    envs: Map<Seq<char>, Map<Seq<char>, TableColumn>>,
)
    ensures
        columns_differ_from_first(first, envs) <==> {
            ||| envs.len() == 1
            ||| !envs.contains_key(first)
            ||| exists|e: Seq<char>, k: Seq<char>|
                #![trigger envs[e].contains_key(k)]
                envs.contains_key(e) && e != first && envs[e].contains_key(k) && (
                !envs[first].contains_key(k) || envs[first][k].column_name@ != envs[e][k].column_name@
                    || envs[first][k].data_type@ != envs[e][k].data_type@
                    || envs[first][k].is_nullable@ != envs[e][k].is_nullable@)
        },
{
}

/// Measured against the first environment, the environments disagree on a table's indexes
/// exactly when there is a single environment, when the first one lacks the table, or when
/// another environment has an index that the first lacks or defines otherwise.
pub proof fn lemma_first_env_index_measure(
    first: Seq<char>,
    envs: Map<Seq<char>, Map<Seq<char>, String>>,
)
    ensures
        indexes_differ_from_first(first, envs) <==> {
            ||| envs.len() == 1
            ||| !envs.contains_key(first)
            ||| exists|e: Seq<char>, k: Seq<char>|
                #![trigger envs[e].contains_key(k)]
                envs.contains_key(e) && e != first && envs[e].contains_key(k) && (
                !envs[first].contains_key(k) || envs[first][k]@ != envs[e][k]@)
        },
{
}

/// A table's row in the overview is highlighted exactly when the environments, measured
/// against the first one, disagree on its columns or on its indexes: one environment
/// only, the first one lacking the table, or another environment having a column or an
/// index that the first lacks or describes otherwise. Index disagreement alone suffices.
pub proof fn lemma_overview_row_highlight(
    envs: Seq<Seq<char>>,
    first: Seq<char>,
    name: Seq<char>,
    info: TableInfo,
)
    ensures
        highlighted(table_row(envs, first, name, info)) <==> {
            let cs = nested(info.columns);
            let ix = nested(info.indexes);
            ||| cs.len() == 1
            ||| !cs.contains_key(first)
            ||| (exists|e: Seq<char>, k: Seq<char>|
                #![trigger cs[e].contains_key(k)]
                cs.contains_key(e) && e != first && cs[e].contains_key(k) && (!cs[first].contains_key(k)
                    || cs[first][k].column_name@ != cs[e][k].column_name@
                    || cs[first][k].data_type@ != cs[e][k].data_type@
                    || cs[first][k].is_nullable@ != cs[e][k].is_nullable@))
            ||| ix.len() == 1
            ||| !ix.contains_key(first)
            ||| (exists|e: Seq<char>, k: Seq<char>|
                #![trigger ix[e].contains_key(k)]
                ix.contains_key(e) && e != first && ix[e].contains_key(k) && (!ix[first].contains_key(k)
                    || ix[first][k]@ != ix[e][k]@))
        },
{
    let rest = "<td><a href=\"/table/"@ + name + "\">"@ + name + "</a></td>"@ + env_cells(envs, info)
        + "</tr>"@;
    let differs = table_differs(first, info);
    lemma_row_opening(differs, rest);
    assert(table_row(envs, first, name, info) =~= (if differs {
        "<tr style=\"background:#ffdede\">"@
    } else {
        "<tr>"@
    }) + rest);
    lemma_first_env_column_measure(first, nested(info.columns));
    lemma_first_env_index_measure(first, nested(info.indexes));
}

/// Every table's row stands among the rows.
pub proof fn lemma_table_rows_contain(
    envs: Seq<Seq<char>>,
    first: Seq<char>,
    tables: Seq<(Seq<char>, TableInfo)>,
    i: int,
)
    requires
        0 <= i < tables.len(),
    ensures
        occurs_in(table_row(envs, first, tables[i].0, tables[i].1), table_rows(envs, first, tables)),
    decreases tables.len(),
{
    let row = table_row(envs, first, tables[i].0, tables[i].1);
    let init = tables.drop_last();
    if i == tables.len() - 1 {
        lemma_occurs_in_self(row);
        lemma_occurs_in_middle(row, table_rows(envs, first, init), row, Seq::empty());
        assert(table_rows(envs, first, init) + row + Seq::<char>::empty() =~= table_rows(envs, first, tables));
    } else {
        assert(init[i] == tables[i]);
        lemma_table_rows_contain(envs, first, init, i);
        let last = table_row(envs, first, tables.last().0, tables.last().1);
        lemma_occurs_in_middle(row, Seq::empty(), table_rows(envs, first, init), last);
        assert(Seq::<char>::empty() + table_rows(envs, first, init) + last =~= table_rows(envs, first, tables));
    }
}

/// The overview page holds the row of every table, measured against the first of the
/// environments.
pub proof fn lemma_index_page_rows(envs: Seq<Seq<char>>, tables: Seq<(Seq<char>, TableInfo)>, i: int)
    requires
        0 <= i < tables.len(),
    ensures
        occurs_in(table_row(envs, envs[0], tables[i].0, tables[i].1), index_page(envs, tables)),
{
    lemma_table_rows_contain(envs, envs[0], tables, i);
    let a = INDEX_PAGE_HEAD@ + env_column_headers(envs) + "</tr>"@;
    let c = "</table></body></html>"@;
    lemma_occurs_in_middle(table_row(envs, envs[0], tables[i].0, tables[i].1), a, table_rows(envs, envs[0], tables), c);
    assert(a + table_rows(envs, envs[0], tables) + c =~= index_page(envs, tables));
}

/// Whether every column of `other` is in `first`, described the same way.
fn columns_covered(first: &StrMap<TableColumn>, other: &StrMap<TableColumn>) -> (r: bool)
    ensures
        r == forall|k: Seq<char>|
            #[trigger] other@.contains_key(k) ==> first@.contains_key(k) && !columns_differ(
                first@[k],
                other@[k],
            ),
{
    let n = other.len();
    proof {
        other.lemma_well_formed();
    }
    for i in 0..n
        invariant
            n == other.key_seq().len(),
            other.well_formed(),
            forall|j: int|
                0 <= j < i ==> first@.contains_key(#[trigger] other.key_seq()[j]) && !columns_differ(
                    first@[other.key_seq()[j]],
                    other@[other.key_seq()[j]],
                ),
    {
        let name = other.key_at(i);
        let column = other.value_at(i);
        match first.get(name.as_str()) {
            Some(first_column) => {
                if first_column.has_difference_with(column) {
                    return false;
                }
            },
            None => {
                return false;
            },
        }
    }
    proof {
        other.lemma_well_formed();
        assert forall|k: Seq<char>| #[trigger] other@.contains_key(k) implies first@.contains_key(k)
            && !columns_differ(first@[k], other@[k]) by {
            let j = choose|j: int| 0 <= j < other.key_seq().len() && #[trigger] other.key_seq()[j] == k;
        }
    }
    true
}

/// Whether every index of `other` is in `first`, with the same definition.
fn indexes_covered(first: &StrMap<String>, other: &StrMap<String>) -> (r: bool)
    ensures
        r == forall|k: Seq<char>|
            #[trigger] other@.contains_key(k) ==> first@.contains_key(k) && first@[k]@ == other@[k]@,
{
    let n = other.len();
    proof {
        other.lemma_well_formed();
    }
    for i in 0..n
        invariant
            n == other.key_seq().len(),
            other.well_formed(),
            forall|j: int|
                0 <= j < i ==> first@.contains_key(#[trigger] other.key_seq()[j])
                    && first@[other.key_seq()[j]]@ == other@[other.key_seq()[j]]@,
    {
        let name = other.key_at(i);
        let definition = other.value_at(i);
        match first.get(name.as_str()) {
            Some(first_definition) => {
                if !(*first_definition == *definition) {
                    return false;
                }
            },
            None => {
                return false;
            },
        }
    }
    proof {
        other.lemma_well_formed();
        assert forall|k: Seq<char>| #[trigger] other@.contains_key(k) implies first@.contains_key(k)
            && first@[k]@ == other@[k]@ by {
            let j = choose|j: int| 0 <= j < other.key_seq().len() && #[trigger] other.key_seq()[j] == k;
        }
    }
    true
}

/// Whether the environments disagree on a table's columns, measured against the
/// environment named `first_env_id`.
pub fn columns_are_different(first_env_id: &str, envs: &StrMap<StrMap<TableColumn>>) -> (r: bool)
    ensures
        r == columns_differ_from_first(first_env_id@, nested(*envs)),
{
    let ghost nv = nested(*envs);
    let total = envs.len();
    proof {
        envs.lemma_well_formed();
        assert(nv.dom() =~= envs@.dom());
    }
    if total == 1 {
        return true;
    }
    let first_env = match envs.get(first_env_id) {
        Some(first_env) => first_env,
        None => {
            return true;
        },
    };
    let n = total;
    for i in 0..n
        invariant
            n == envs.key_seq().len(),
            envs.well_formed(),
            nv == nested(*envs),
            envs@.contains_key(first_env_id@),
            *first_env == envs@[first_env_id@],
            forall|j: int, k: Seq<char>|
                0 <= j < i && envs.key_seq()[j] != first_env_id@ && #[trigger] nv[envs.key_seq()[j]].contains_key(k)
                    ==> nv[first_env_id@].contains_key(k) && !columns_differ(
                    nv[first_env_id@][k],
                    nv[envs.key_seq()[j]][k],
                ),
    {
        proof {
            envs.lemma_well_formed();
        }
        let env_name = envs.key_at(i);
        let columns = envs.value_at(i);
        if !same_text(env_name.as_str(), first_env_id) {
            if !columns_covered(first_env, columns) {
                proof {
                    let e = envs.key_seq()[i as int];
                    let k = choose|k: Seq<char>| #[trigger] columns@.contains_key(k) && !(first_env@.contains_key(k) && !columns_differ(first_env@[k], columns@[k]));
                    assert(nv[e].contains_key(k));
                }
                return true;
            }
        }
    }
    proof {
        envs.lemma_well_formed();
        if columns_differ_from_first(first_env_id@, nv) {
            let (e, k) = choose|e: Seq<char>, k: Seq<char>|
                #![trigger nv[e].contains_key(k)]
                nv.contains_key(e) && e != first_env_id@ && nv[e].contains_key(k) && (
                !nv[first_env_id@].contains_key(k) || columns_differ(nv[first_env_id@][k], nv[e][k]));
            let j = choose|j: int| 0 <= j < envs.key_seq().len() && #[trigger] envs.key_seq()[j] == e;
            assert(nv[envs.key_seq()[j]].contains_key(k));
        }
    }
    false
}

/// Whether the environments disagree on a table's indexes, measured against the
/// environment named `first_env_id`.
pub fn indexes_are_different(first_env_id: &str, envs: &StrMap<StrMap<String>>) -> (r: bool)
    ensures
        r == indexes_differ_from_first(first_env_id@, nested(*envs)),
{
    let ghost nv = nested(*envs);
    let total = envs.len();
    proof {
        envs.lemma_well_formed();
        assert(nv.dom() =~= envs@.dom());
    }
    if total == 1 {
        return true;
    }
    let first_env = match envs.get(first_env_id) {
        Some(first_env) => first_env,
        None => {
            return true;
        },
    };
    let n = total;
    for i in 0..n
        invariant
            n == envs.key_seq().len(),
            envs.well_formed(),
            nv == nested(*envs),
            envs@.contains_key(first_env_id@),
            *first_env == envs@[first_env_id@],
            forall|j: int, k: Seq<char>|
                0 <= j < i && envs.key_seq()[j] != first_env_id@ && #[trigger] nv[envs.key_seq()[j]].contains_key(k)
                    ==> nv[first_env_id@].contains_key(k) && nv[first_env_id@][k]@
                    == nv[envs.key_seq()[j]][k]@,
    {
        proof {
            envs.lemma_well_formed();
        }
        let env_name = envs.key_at(i);
        let indexes = envs.value_at(i);
        if !same_text(env_name.as_str(), first_env_id) {
            if !indexes_covered(first_env, indexes) {
                proof {
                    let e = envs.key_seq()[i as int];
                    let k = choose|k: Seq<char>| #[trigger] indexes@.contains_key(k) && !(first_env@.contains_key(k) && first_env@[k]@ == indexes@[k]@);
                    assert(nv[e].contains_key(k));
                }
                return true;
            }
        }
    }
    proof {
        envs.lemma_well_formed();
        if indexes_differ_from_first(first_env_id@, nv) {
            let (e, k) = choose|e: Seq<char>, k: Seq<char>|
                #![trigger nv[e].contains_key(k)]
                nv.contains_key(e) && e != first_env_id@ && nv[e].contains_key(k) && (
                !nv[first_env_id@].contains_key(k) || nv[first_env_id@][k]@ != nv[e][k]@);
            let j = choose|j: int| 0 <= j < envs.key_seq().len() && #[trigger] envs.key_seq()[j] == e;
            assert(nv[envs.key_seq()[j]].contains_key(k));
        }
    }
    false
}

/// The top of the overview page, up to the heading of the column of table names.
pub const INDEX_PAGE_HEAD: &'static str = r###"<html><body><link rel="icon" type="image/x-icon" href="/img/{favicon_file_name}">
    <link href="/css/bootstrap.css" rel="stylesheet" type="text/css" />
    <link href="/css/site.css" rel="stylesheet" type="text/css" />
    <script src="/lib/jquery.js"></script>
    <table class="table"><tr><th>TableName</th>"###;

/// For each environment, the headings of its three columns.
pub open spec fn env_column_headers(envs: Seq<Seq<char>>) -> Seq<char>
    decreases envs.len(),
{
    if envs.len() == 0 {
        Seq::empty()
    } else {
        env_column_headers(envs.drop_last()) + "<th>"@ + envs.last()
            + "</th><th>Columns</th><th>Indexes</th>"@
    }
}

/// Whether the environment `env` has the table, and with how many columns.
pub open spec fn columns_cells(env: Seq<char>, info: TableInfo) -> Seq<char> {
    if info.columns@.contains_key(env) {
        "<td style=\"color:green\">Yes</td>"@ + "<td>"@ + decimal(info.columns@[env]@.len()) + "</td>"@
    } else {
        "<td style=\"color:red\">No</td><td>--</td>"@
    }
}

/// How many indexes the environment `env` has on the table; none stands out in red.
pub open spec fn indexes_cell(env: Seq<char>, info: TableInfo) -> Seq<char> {
    if info.indexes@.contains_key(env) {
        if info.indexes@[env]@.len() == 0 {
            "<td style=\"background:red;color:white\"><b>"@ + decimal(0) + "</b></td>"@
        } else {
            "<td>"@ + decimal(info.indexes@[env]@.len()) + "</td>"@
        }
    } else {
        "<td>--</td>"@
    }
}

/// The cells of a table's row, environment after environment.
pub open spec fn env_cells(envs: Seq<Seq<char>>, info: TableInfo) -> Seq<char>
    decreases envs.len(),
{
    if envs.len() == 0 {
        Seq::empty()
    } else {
        env_cells(envs.drop_last(), info) + columns_cells(envs.last(), info) + indexes_cell(
            envs.last(),
            info,
        )
    }
}

/// Whether the environments disagree on a table, in its columns or else in its indexes.
pub open spec fn table_differs(first: Seq<char>, info: TableInfo) -> bool {
    columns_differ_from_first(first, nested(info.columns)) || indexes_differ_from_first(
        first,
        nested(info.indexes),
    )
}

/// A table's row: highlighted where the environments disagree, with a link to the
/// table's page.
pub open spec fn table_row(envs: Seq<Seq<char>>, first: Seq<char>, name: Seq<char>, info: TableInfo) -> Seq<char> {
    (if table_differs(first, info) {
        "<tr style=\"background:#ffdede\">"@
    } else {
        "<tr>"@
    }) + "<td><a href=\"/table/"@ + name + "\">"@ + name + "</a></td>"@ + env_cells(envs, info)
        + "</tr>"@
}

/// The rows of the tables, in the order given.
pub open spec fn table_rows(
    envs: Seq<Seq<char>>,
    first: Seq<char>,
    tables: Seq<(Seq<char>, TableInfo)>,
) -> Seq<char>
    decreases tables.len(),
{
    if tables.len() == 0 {
        Seq::empty()
    } else {
        table_rows(envs, first, tables.drop_last()) + table_row(
            envs,
            first,
            tables.last().0,
            tables.last().1,
        )
    }
}

/// The overview page: a heading per environment, then a row per table, each measured
/// against the first environment.
pub open spec fn index_page(envs: Seq<Seq<char>>, tables: Seq<(Seq<char>, TableInfo)>) -> Seq<char> {
    INDEX_PAGE_HEAD@ + env_column_headers(envs) + "</tr>"@ + table_rows(envs, envs[0], tables)
        + "</table></body></html>"@
}

/// The names of the environments.
pub open spec fn env_names(envs: Seq<String>) -> Seq<Seq<char>> {
    envs.map_values(|e: String| e@)
}

fn env_cells_html(env: &String, info: &TableInfo) -> (cells: String)
    ensures
        cells@ == columns_cells(env@, *info) + indexes_cell(env@, *info),
{
    let mut cells = String::new();
    match info.columns.get(env.as_str()) {
        Some(columns) => {
            cells.append("<td style=\"color:green\">Yes</td>");
            cells.append("<td>");
            push_decimal(&mut cells, columns.len());
            cells.append("</td>");
        },
        None => {
            cells.append("<td style=\"color:red\">No</td><td>--</td>");
        },
    }
    let ghost lead = cells@;
    match info.indexes.get(env.as_str()) {
        Some(indexes) => {
            let n = indexes.len();
            if n == 0 {
                cells.append("<td style=\"background:red;color:white\"><b>");
                push_decimal(&mut cells, n);
                cells.append("</b></td>");
            } else {
                cells.append("<td>");
                push_decimal(&mut cells, n);
                cells.append("</td>");
            }
        },
        None => {
            cells.append("<td>--</td>");
        },
    }
    proof {
        assert(lead =~= columns_cells(env@, *info));
        assert(cells@ =~= lead + indexes_cell(env@, *info));
    }
    cells
}

fn push_env_cells(html: &mut String, envs: &Vec<String>, info: &TableInfo)
    ensures
        final(html)@ == old(html)@ + env_cells(env_names(envs@), *info),
{
    let ghost names = env_names(envs@);
    let ghost start = html@;
    for i in 0..envs.len()
        invariant
            names == env_names(envs@),
            html@ == start + env_cells(names.take(i as int), *info),
    {
        let cells = env_cells_html(&envs[i], info);
        proof {
            assert(names.take(i + 1).drop_last() =~= names.take(i as int));
            assert(names[i as int] == envs@[i as int]@);
        }
        html.append(cells.as_str());
        proof {
            assert(html@ =~= start + env_cells(names.take(i + 1), *info));
        }
    }
    proof {
        assert(names.take(envs.len() as int) =~= names);
    }
}

/// Renders the overview page: the environments `envs`, in order, and the tables, in the
/// order of their names, each compared across environments against the first one.
pub fn render_index_page(envs: &Vec<String>, tables: &StrMap<TableInfo>) -> (html: String)
    requires
        envs.len() > 0 || tables@.len() == 0,
    ensures
        html@ == index_page(env_names(envs@), tables.entry_seq()),
{
    let ghost names = env_names(envs@);
    let mut html = String::new();
    html.append(INDEX_PAGE_HEAD);
    for i in 0..envs.len()
        invariant
            names == env_names(envs@),
            html@ == INDEX_PAGE_HEAD@ + env_column_headers(names.take(i as int)),
    {
        proof {
            assert(names.take(i + 1).drop_last() =~= names.take(i as int));
        }
        html.append("<th>");
        html.append(envs[i].as_str());
        html.append("</th><th>Columns</th><th>Indexes</th>");
        proof {
            assert(html@ =~= INDEX_PAGE_HEAD@ + env_column_headers(names.take(i + 1)));
        }
    }
    proof {
        assert(names.take(envs.len() as int) =~= names);
    }
    html.append("</tr>");
    let n = tables.len();
    let first: &str = if envs.len() > 0 {
        envs[0].as_str()
    } else {
        ""
    };
    let ghost rows = tables.entry_seq();
    let ghost top = html@;
    proof {
        assert(rows.take(0) =~= Seq::<(Seq<char>, TableInfo)>::empty());
    }
    for i in 0..n
        invariant
            n == tables.entry_seq().len(),
            n == tables.key_seq().len(),
            tables.well_formed(),
            names == env_names(envs@),
            rows == tables.entry_seq(),
            n > 0 ==> first@ == names[0],
            html@ == top + table_rows(names, names[0], rows.take(i as int)),
    {
        let name = tables.key_at(i);
        let info = tables.value_at(i);
        proof {
            assert(rows.take(i + 1).drop_last() =~= rows.take(i as int));
        }
        let mut differs = columns_are_different(first, &info.columns);
        if !differs {
            differs = indexes_are_different(first, &info.indexes);
        }
        let mut row = String::new();
        if differs {
            row.append("<tr style=\"background:#ffdede\">");
        } else {
            row.append("<tr>");
        }
        row.append("<td><a href=\"/table/");
        row.append(name.as_str());
        row.append("\">");
        row.append(name.as_str());
        row.append("</a></td>");
        let ghost lead = row@;
        push_env_cells(&mut row, envs, info);
        row.append("</tr>");
        proof {
            assert(differs == table_differs(names[0], *info));
            assert(row@ =~= lead + env_cells(names, *info) + "</tr>"@);
            assert(row@ =~= table_row(names, names[0], name@, *info));
        }
        html.append(row.as_str());
        proof {
            assert(rows[i as int] == (name@, *info));
            assert(rows.take(i + 1).last() == rows[i as int]);
            assert(html@ =~= top + table_rows(names, names[0], rows.take(i + 1)));
        }
    }
    proof {
        assert(rows.take(n as int) =~= rows);
    }
    html.append("</table></body></html>");
    html
}

} // verus!
