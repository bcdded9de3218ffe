//! The page of one table: its columns and indexes, environment by environment.
use vstd::prelude::*;

use crate::dto::{columns_differ, lemma_column_difference, TableColumn};
use crate::index_action::{env_names, highlighted, lemma_row_opening};
use crate::text::{lemma_occurs_in_middle, lemma_occurs_in_self, occurs_in};
use crate::schema::TableSchema;
use crate::str_map::StrMap;

verus! {

/// The input of a table's page: the table's name, taken from the path.
pub struct GetTableNameInput {
    pub table_name: String,
}

/// Whether the environments disagree on a column: there is only one environment, or two
/// environments describe the column differently.
pub open spec fn column_envs_differ(envs: Map<Seq<char>, TableColumn>) -> bool {
    ||| envs.len() == 1
    ||| exists|a: Seq<char>, b: Seq<char>|
        envs.contains_key(a) && envs.contains_key(b) && #[trigger] columns_differ(envs[a], envs[b])
}

/// Whether the environments disagree on an index: there is only one environment, or two
/// environments define the index differently.
pub open spec fn index_envs_differ(envs: Map<Seq<char>, String>) -> bool {
    ||| envs.len() == 1
    ||| exists|a: Seq<char>, b: Seq<char>|
        #![trigger envs[a], envs[b]]
        envs.contains_key(a) && envs.contains_key(b) && envs[a]@ != envs[b]@
}

/// The environments disagree on a column exactly when there is a single environment or
/// two environments, whichever they are, give the column another name, data type or
/// nullability.
pub proof fn lemma_column_envs_measure(envs: Map<Seq<char>, TableColumn>)
    ensures
        column_envs_differ(envs) <==> {
            ||| envs.len() == 1
            ||| exists|a: Seq<char>, b: Seq<char>|
                #![trigger envs[a], envs[b]]
                envs.contains_key(a) && envs.contains_key(b) && (envs[a].column_name@
                    != envs[b].column_name@ || envs[a].data_type@ != envs[b].data_type@
                    || envs[a].is_nullable@ != envs[b].is_nullable@)
        },
{
    if exists|a: Seq<char>, b: Seq<char>|
        #![trigger envs[a], envs[b]]
        envs.contains_key(a) && envs.contains_key(b) && (envs[a].column_name@ != envs[b].column_name@
            || envs[a].data_type@ != envs[b].data_type@ || envs[a].is_nullable@
            != envs[b].is_nullable@) {
        let (a, b) = choose|a: Seq<char>, b: Seq<char>|
            #![trigger envs[a], envs[b]]
            envs.contains_key(a) && envs.contains_key(b) && (envs[a].column_name@
                != envs[b].column_name@ || envs[a].data_type@ != envs[b].data_type@
                || envs[a].is_nullable@ != envs[b].is_nullable@);
        assert(columns_differ(envs[a], envs[b]));
    }
}

/// A column's row on a table's page is highlighted exactly when there is a single
/// environment or two environments describe the column otherwise.
pub proof fn lemma_column_row_highlight(
    envs: Seq<Seq<char>>,
    name: Seq<char>,
    per_env: Map<Seq<char>, TableColumn>,
)
    ensures
        highlighted(column_row(envs, name, per_env)) <==> {
            ||| per_env.len() == 1
            ||| exists|a: Seq<char>, b: Seq<char>|
                #![trigger per_env[a], per_env[b]]
                per_env.contains_key(a) && per_env.contains_key(b) && (per_env[a].column_name@
                    != per_env[b].column_name@ || per_env[a].data_type@ != per_env[b].data_type@
                    || per_env[a].is_nullable@ != per_env[b].is_nullable@)
        },
{
    let rest = "<td>"@ + name + "</td>"@ + column_cells(envs, per_env) + "</tr>"@;
    let differs = column_envs_differ(per_env);
    lemma_row_opening(differs, rest);
    assert(column_row(envs, name, per_env) =~= (if differs {
        "<tr style=\"background:#ffdede\">"@
    } else {
        "<tr>"@
    }) + rest);
    lemma_column_envs_measure(per_env);
}

/// An index's row on a table's page is highlighted exactly when there is a single
/// environment or two environments, whichever they are, define the index otherwise.
pub proof fn lemma_index_row_highlight(
    envs: Seq<Seq<char>>,
    name: Seq<char>,
    per_env: Map<Seq<char>, String>,
)
    ensures
        highlighted(index_row(envs, name, per_env)) <==> {
            ||| per_env.len() == 1
            ||| exists|a: Seq<char>, b: Seq<char>|
                #![trigger per_env[a], per_env[b]]
                per_env.contains_key(a) && per_env.contains_key(b) && per_env[a]@ != per_env[b]@
        },
{
    let rest = "<td>"@ + name + "</td>"@ + index_cells(envs, per_env) + "</tr>"@;
    let differs = index_envs_differ(per_env);
    lemma_row_opening(differs, rest);
    assert(index_row(envs, name, per_env) =~= (if differs {
        "<tr style=\"background:#ffdede\">"@
    } else {
        "<tr>"@
    }) + rest);
}

/// Every column's row stands among the column rows.
pub proof fn lemma_column_rows_contain(
    envs: Seq<Seq<char>>,
    columns: Seq<(Seq<char>, StrMap<TableColumn>)>,
    i: int,
)
    requires
        0 <= i < columns.len(),
    ensures
        occurs_in(column_row(envs, columns[i].0, columns[i].1@), column_rows(envs, columns)),
    decreases columns.len(),
{
    let row = column_row(envs, columns[i].0, columns[i].1@);
    let init = columns.drop_last();
    if i == columns.len() - 1 {
        lemma_occurs_in_self(row);
        lemma_occurs_in_middle(row, column_rows(envs, init), row, Seq::empty());
        assert(column_rows(envs, init) + row + Seq::<char>::empty() =~= column_rows(envs, columns));
    } else {
        assert(init[i] == columns[i]);
        lemma_column_rows_contain(envs, init, i);
        let last = column_row(envs, columns.last().0, columns.last().1@);
        lemma_occurs_in_middle(row, Seq::empty(), column_rows(envs, init), last);
        assert(Seq::<char>::empty() + column_rows(envs, init) + last =~= column_rows(envs, columns));
    }
}

/// Every index's row stands among the index rows.
pub proof fn lemma_index_rows_contain(
    envs: Seq<Seq<char>>,
    indexes: Seq<(Seq<char>, StrMap<String>)>,
    i: int,
)
    requires
        0 <= i < indexes.len(),
    ensures
        occurs_in(index_row(envs, indexes[i].0, indexes[i].1@), index_rows(envs, indexes)),
    decreases indexes.len(),
{
    let row = index_row(envs, indexes[i].0, indexes[i].1@);
    let init = indexes.drop_last();
    if i == indexes.len() - 1 {
        lemma_occurs_in_self(row);
        lemma_occurs_in_middle(row, index_rows(envs, init), row, Seq::empty());
        assert(index_rows(envs, init) + row + Seq::<char>::empty() =~= index_rows(envs, indexes));
    } else {
        assert(init[i] == indexes[i]);
        lemma_index_rows_contain(envs, init, i);
        let last = index_row(envs, indexes.last().0, indexes.last().1@);
        lemma_occurs_in_middle(row, Seq::empty(), index_rows(envs, init), last);
        assert(Seq::<char>::empty() + index_rows(envs, init) + last =~= index_rows(envs, indexes));
    }
}

/// A table's page holds the row of each of its columns and of each of its indexes.
pub proof fn lemma_table_page_rows(envs: Seq<Seq<char>>, table_name: Seq<char>, schema: TableSchema)
    ensures
        forall|i: int|
            0 <= i < schema.columns.entry_seq().len() ==> occurs_in(
                #[trigger] column_row(envs, schema.columns.entry_seq()[i].0, schema.columns.entry_seq()[i].1@),
                table_page(envs, table_name, schema),
            ),
        forall|i: int|
            0 <= i < schema.indexes.entry_seq().len() ==> occurs_in(
                #[trigger] index_row(envs, schema.indexes.entry_seq()[i].0, schema.indexes.entry_seq()[i].1@),
                table_page(envs, table_name, schema),
            ),
{
    let cs = schema.columns.entry_seq();
    let ix = schema.indexes.entry_seq();
    let head = TABLE_PAGE_HEAD@ + "<h1>Table: "@ + table_name + "</h1>"@
        + "<table class=\"table\"><tr><th>Column</th>"@ + env_headers(envs) + "</tr>"@;
    let mid = "</table>"@ + "<h2>Indexes</h2>"@ + "<table class=\"table\"><tr><th>Column</th>"@
        + env_headers(envs) + "</tr>"@;
    let tail = "</table>"@ + "</body></html>"@;
    let page = table_page(envs, table_name, schema);
    assert(page =~= head + column_rows(envs, cs) + (mid + index_rows(envs, ix) + tail));
    assert(page =~= (head + column_rows(envs, cs) + mid) + index_rows(envs, ix) + tail);
    assert forall|i: int| 0 <= i < cs.len() implies occurs_in(
        #[trigger] column_row(envs, cs[i].0, cs[i].1@),
        page,
    ) by {
        lemma_column_rows_contain(envs, cs, i);
        lemma_occurs_in_middle(column_row(envs, cs[i].0, cs[i].1@), head, column_rows(envs, cs), mid + index_rows(envs, ix) + tail);
    }
    assert forall|i: int| 0 <= i < ix.len() implies occurs_in(
        #[trigger] index_row(envs, ix[i].0, ix[i].1@),
        page,
    ) by {
        lemma_index_rows_contain(envs, ix, i);
        lemma_occurs_in_middle(index_row(envs, ix[i].0, ix[i].1@), head + column_rows(envs, cs) + mid, index_rows(envs, ix), tail);
    }
}

/// Whether the environments disagree on a column.
pub fn columns_are_different(envs: &StrMap<TableColumn>) -> (r: bool)
    ensures
        r == column_envs_differ(envs@),
{
    let n = envs.len();
    proof {
        envs.lemma_well_formed();
    }
    if n == 1 {
        return true;
    }
    if n == 0 {
        return false;
    }
    let first = envs.value_at(0);
    for i in 1..n
        invariant
            n == envs.key_seq().len(),
            envs.well_formed(),
            n > 1,
            *first == envs.value_seq()[0],
            forall|j: int| 0 <= j < i ==> !columns_differ(*first, #[trigger] envs.value_seq()[j]),
    {
        let column = envs.value_at(i);
        if first.has_difference_with(column) {
            proof {
                envs.lemma_well_formed();
                let a = envs.key_seq()[0];
                let b = envs.key_seq()[i as int];
                assert(envs@.contains_key(a) && envs@.contains_key(b));
                assert(columns_differ(envs@[a], envs@[b]));
            }
            return true;
        }
    }
    proof {
        envs.lemma_well_formed();
        assert forall|a: Seq<char>, b: Seq<char>|
            envs@.contains_key(a) && envs@.contains_key(b) implies !#[trigger] columns_differ(
            envs@[a],
            envs@[b],
        ) by {
            let ia = choose|j: int| 0 <= j < envs.key_seq().len() && #[trigger] envs.key_seq()[j] == a;
            let ib = choose|j: int| 0 <= j < envs.key_seq().len() && #[trigger] envs.key_seq()[j] == b;
            assert(!columns_differ(*first, envs.value_seq()[ia]));
            assert(!columns_differ(*first, envs.value_seq()[ib]));
            lemma_column_difference(envs.value_seq()[ia], *first, envs.value_seq()[ib]);
        }
    }
    false
}

/// Whether the environments disagree on an index.
pub fn indexes_are_different(envs: &StrMap<String>) -> (r: bool)
    ensures
        r == index_envs_differ(envs@),
{
    let n = envs.len();
    proof {
        envs.lemma_well_formed();
    }
    if n == 1 {
        return true;
    }
    if n == 0 {
        return false;
    }
    let first = envs.value_at(0);
    for i in 1..n
        invariant
            n == envs.key_seq().len(),
            envs.well_formed(),
            n > 1,
            *first == envs.value_seq()[0],
            forall|j: int| 0 <= j < i ==> first@ == (#[trigger] envs.value_seq()[j])@,
    {
        let definition = envs.value_at(i);
        if !(*first == *definition) {
            proof {
                envs.lemma_well_formed();
                let a = envs.key_seq()[0];
                let b = envs.key_seq()[i as int];
                assert(envs@.contains_key(a) && envs@.contains_key(b));
                assert(envs@[a]@ != envs@[b]@);
            }
            return true;
        }
    }
    proof {
        envs.lemma_well_formed();
        assert forall|a: Seq<char>, b: Seq<char>|
            envs@.contains_key(a) && envs@.contains_key(b) implies #[trigger] envs@[a]@ == #[trigger] envs@[b]@ by {
            let ia = choose|j: int| 0 <= j < envs.key_seq().len() && #[trigger] envs.key_seq()[j] == a;
            let ib = choose|j: int| 0 <= j < envs.key_seq().len() && #[trigger] envs.key_seq()[j] == b;
            assert(first@ == envs.value_seq()[ia]@);
            assert(first@ == envs.value_seq()[ib]@);
        }
    }
    false
}

/// The top of a table's page.
pub const TABLE_PAGE_HEAD: &'static str = r###"<html><body><link rel="icon" type="image/x-icon" href="/img/{favicon_file_name}">
    <link href="/css/bootstrap.css" rel="stylesheet" type="text/css" />
    <link href="/css/site.css" rel="stylesheet" type="text/css" />
    <script src="/lib/jquery.js"></script>"###;

/// A heading per environment.
pub open spec fn env_headers(envs: Seq<Seq<char>>) -> Seq<char>
    decreases envs.len(),
{
    if envs.len() == 0 {
        Seq::empty()
    } else {
        env_headers(envs.drop_last()) + "<th>"@ + envs.last() + "</th>"@
    }
}

/// How the environment `env` describes a column, or that it lacks the column.
pub open spec fn column_cell(env: Seq<char>, per_env: Map<Seq<char>, TableColumn>) -> Seq<char> {
    if per_env.contains_key(env) {
        "<td>"@ + per_env[env].column_name@ + ":"@ + per_env[env].data_type@ + " [nullable:"@
            + per_env[env].is_nullable@ + "]</td>"@
    } else {
        "<td style=\"color:red\">No</td>"@
    }
}

/// The cells of a column's row, environment after environment.
pub open spec fn column_cells(envs: Seq<Seq<char>>, per_env: Map<Seq<char>, TableColumn>) -> Seq<char>
    decreases envs.len(),
{
    if envs.len() == 0 {
        Seq::empty()
    } else {
        column_cells(envs.drop_last(), per_env) + column_cell(envs.last(), per_env)
    }
}

/// A column's row, highlighted where the environments disagree on it.
pub open spec fn column_row(envs: Seq<Seq<char>>, name: Seq<char>, per_env: Map<Seq<char>, TableColumn>) -> Seq<char> {
    (if column_envs_differ(per_env) {
        "<tr style=\"background:#ffdede\">"@
    } else {
        "<tr>"@
    }) + "<td>"@ + name + "</td>"@ + column_cells(envs, per_env) + "</tr>"@
}

/// The rows of the columns, in the order given.
pub open spec fn column_rows(envs: Seq<Seq<char>>, columns: Seq<(Seq<char>, StrMap<TableColumn>)>) -> Seq<char>
    decreases columns.len(),
{
    if columns.len() == 0 {
        Seq::empty()
    } else {
        column_rows(envs, columns.drop_last()) + column_row(envs, columns.last().0, columns.last().1@)
    }
}

/// How the environment `env` defines an index, or that it lacks the index.
pub open spec fn index_cell(env: Seq<char>, per_env: Map<Seq<char>, String>) -> Seq<char> {
    if per_env.contains_key(env) {
        "<td>"@ + per_env[env]@ + "</td>"@
    } else {
        "<td style=\"color:red\">No</td>"@
    }
}

/// The cells of an index's row, environment after environment.
pub open spec fn index_cells(envs: Seq<Seq<char>>, per_env: Map<Seq<char>, String>) -> Seq<char>
    decreases envs.len(),
{
    if envs.len() == 0 {
        Seq::empty()
    } else {
        index_cells(envs.drop_last(), per_env) + index_cell(envs.last(), per_env)
    }
}

/// An index's row, highlighted where the environments disagree on it.
pub open spec fn index_row(envs: Seq<Seq<char>>, name: Seq<char>, per_env: Map<Seq<char>, String>) -> Seq<char> {
    (if index_envs_differ(per_env) {
        "<tr style=\"background:#ffdede\">"@
    } else {
        "<tr>"@
    }) + "<td>"@ + name + "</td>"@ + index_cells(envs, per_env) + "</tr>"@
}

/// The rows of the indexes, in the order given.
pub open spec fn index_rows(envs: Seq<Seq<char>>, indexes: Seq<(Seq<char>, StrMap<String>)>) -> Seq<char>
    decreases indexes.len(),
{
    if indexes.len() == 0 {
        Seq::empty()
    } else {
        index_rows(envs, indexes.drop_last()) + index_row(envs, indexes.last().0, indexes.last().1@)
    }
}

/// A table's page: its columns, then its indexes, each with a cell per environment.
pub open spec fn table_page(envs: Seq<Seq<char>>, table_name: Seq<char>, schema: TableSchema) -> Seq<char> {
    TABLE_PAGE_HEAD@ + "<h1>Table: "@ + table_name + "</h1>"@
        + "<table class=\"table\"><tr><th>Column</th>"@ + env_headers(envs) + "</tr>"@ + column_rows(
        envs,
        schema.columns.entry_seq(),
    ) + "</table>"@ + "<h2>Indexes</h2>"@ + "<table class=\"table\"><tr><th>Column</th>"@
        + env_headers(envs) + "</tr>"@ + index_rows(envs, schema.indexes.entry_seq()) + "</table>"@
        + "</body></html>"@
}

fn push_env_headers(html: &mut String, envs: &Vec<String>)
    ensures
        final(html)@ == old(html)@ + env_headers(env_names(envs@)),
{
    let ghost names = env_names(envs@);
    let ghost start = html@;
    for i in 0..envs.len()
        invariant
            names == env_names(envs@),
            html@ == start + env_headers(names.take(i as int)),
    {
        proof {
            assert(names.take(i + 1).drop_last() =~= names.take(i as int));
        }
        html.append("<th>");
        html.append(envs[i].as_str());
        html.append("</th>");
        proof {
            assert(html@ =~= start + env_headers(names.take(i + 1)));
        }
    }
    proof {
        assert(names.take(envs.len() as int) =~= names);
    }
}

fn column_row_html(envs: &Vec<String>, name: &String, per_env: &StrMap<TableColumn>) -> (row: String)
    ensures
        row@ == column_row(env_names(envs@), name@, per_env@),
{
    let ghost names = env_names(envs@);
    let mut row = String::new();
    if columns_are_different(per_env) {
        row.append("<tr style=\"background:#ffdede\">");
    } else {
        row.append("<tr>");
    }
    row.append("<td>");
    row.append(name.as_str());
    row.append("</td>");
    let ghost start = row@;
    for i in 0..envs.len()
        invariant
            names == env_names(envs@),
            row@ == start + column_cells(names.take(i as int), per_env@),
    {
        proof {
            assert(names.take(i + 1).drop_last() =~= names.take(i as int));
        }
        match per_env.get(envs[i].as_str()) {
            Some(column) => {
                row.append("<td>");
                row.append(column.column_name.as_str());
                row.append(":");
                row.append(column.data_type.as_str());
                row.append(" [nullable:");
                row.append(column.is_nullable.as_str());
                row.append("]</td>");
            },
            None => {
                row.append("<td style=\"color:red\">No</td>");
            },
        }
        proof {
            assert(row@ =~= start + column_cells(names.take(i + 1), per_env@));
        }
    }
    proof {
        assert(names.take(envs.len() as int) =~= names);
    }
    row.append("</tr>");
    row
}

fn index_row_html(envs: &Vec<String>, name: &String, per_env: &StrMap<String>) -> (row: String)
    ensures
        row@ == index_row(env_names(envs@), name@, per_env@),
{
    let ghost names = env_names(envs@);
    let mut row = String::new();
    if indexes_are_different(per_env) {
        row.append("<tr style=\"background:#ffdede\">");
    } else {
        row.append("<tr>");
    }
    row.append("<td>");
    row.append(name.as_str());
    row.append("</td>");
    let ghost start = row@;
    for i in 0..envs.len()
        invariant
            names == env_names(envs@),
            row@ == start + index_cells(names.take(i as int), per_env@),
    {
        proof {
            assert(names.take(i + 1).drop_last() =~= names.take(i as int));
        }
        match per_env.get(envs[i].as_str()) {
            Some(definition) => {
                row.append("<td>");
                row.append(definition.as_str());
                row.append("</td>");
            },
            None => {
                row.append("<td style=\"color:red\">No</td>");
            },
        }
        proof {
            assert(row@ =~= start + index_cells(names.take(i + 1), per_env@));
        }
    }
    proof {
        assert(names.take(envs.len() as int) =~= names);
    }
    row.append("</tr>");
    row
}

/// Renders the page of the table `table_name`: a row per column and a row per index, in
/// the order of their names, with a cell for each of the environments `envs`, in order.
pub fn render_table_page(envs: &Vec<String>, table_name: &str, schema: &TableSchema) -> (html: String)
    ensures
        html@ == table_page(env_names(envs@), table_name@, *schema),
{
    let ghost names = env_names(envs@);
    let mut html = String::new();
    html.append(TABLE_PAGE_HEAD);
    html.append("<h1>Table: ");
    html.append(table_name);
    html.append("</h1>");
    html.append("<table class=\"table\"><tr><th>Column</th>");
    push_env_headers(&mut html, envs);
    html.append("</tr>");
    let ghost columns = schema.columns.entry_seq();
    let ghost top = html@;
    let n = schema.columns.len();
    proof {
        assert(columns.take(0) =~= Seq::<(Seq<char>, StrMap<TableColumn>)>::empty());
    }
    for i in 0..n
        invariant
            n == schema.columns.key_seq().len(),
            n == columns.len(),
            schema.columns.well_formed(),
            columns == schema.columns.entry_seq(),
            names == env_names(envs@),
            html@ == top + column_rows(names, columns.take(i as int)),
    {
        let name = schema.columns.key_at(i);
        let per_env = schema.columns.value_at(i);
        let row = column_row_html(envs, name, per_env);
        html.append(row.as_str());
        proof {
            assert(columns[i as int] == (name@, *per_env));
            assert(columns.take(i + 1).drop_last() =~= columns.take(i as int));
            assert(html@ =~= top + column_rows(names, columns.take(i + 1)));
        }
    }
    proof {
        assert(columns.take(n as int) =~= columns);
    }
    html.append("</table>");
    html.append("<h2>Indexes</h2>");
    html.append("<table class=\"table\"><tr><th>Column</th>");
    push_env_headers(&mut html, envs);
    html.append("</tr>");
    let ghost indexes = schema.indexes.entry_seq();
    let ghost middle = html@;
    let m = schema.indexes.len();
    proof {
        assert(indexes.take(0) =~= Seq::<(Seq<char>, StrMap<String>)>::empty());
    }
    for i in 0..m
        invariant
            m == schema.indexes.key_seq().len(),
            m == indexes.len(),
            schema.indexes.well_formed(),
            indexes == schema.indexes.entry_seq(),
            names == env_names(envs@),
            html@ == middle + index_rows(names, indexes.take(i as int)),
    {
        let name = schema.indexes.key_at(i);
        let per_env = schema.indexes.value_at(i);
        let row = index_row_html(envs, name, per_env);
        html.append(row.as_str());
        proof {
            assert(indexes[i as int] == (name@, *per_env));
            assert(indexes.take(i + 1).drop_last() =~= indexes.take(i as int));
            assert(html@ =~= middle + index_rows(names, indexes.take(i + 1)));
        }
    }
    proof {
        assert(indexes.take(m as int) =~= indexes);
    }
    html.append("</table>");
    html.append("</body></html>");
    proof {
        assert(html@ =~= table_page(names, table_name@, *schema));
    }
    html
}

} // verus!
