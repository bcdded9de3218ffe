use db_sync::dto::TableColumn;
use db_sync::index_action::{self, render_index_page, INDEX_PAGE_HEAD};
use db_sync::schema::{TableInfo, TableSchema};
use db_sync::str_map::StrMap;
use db_sync::table_action::{self, render_table_page, GetTableNameInput, TABLE_PAGE_HEAD};

fn column(name: &str, data_type: &str, nullable: &str) -> TableColumn {
    TableColumn {
        column_name: name.to_string(),
        data_type: data_type.to_string(),
        is_nullable: nullable.to_string(),
    }
}

fn columns(list: &[(&str, &str)]) -> StrMap<TableColumn> {
    let mut m = StrMap::new();
    for (name, ty) in list {
        m.insert(name.to_string(), column(name, ty, "NO"));
    }
    m
}

fn indexes(list: &[(&str, &str)]) -> StrMap<String> {
    let mut m = StrMap::new();
    for (name, def) in list {
        m.insert(name.to_string(), def.to_string());
    }
    m
}

fn envs_of<V>(list: Vec<(&str, V)>) -> StrMap<V> {
    let mut m = StrMap::new();
    for (env, v) in list {
        m.insert(env.to_string(), v);
    }
    m
}

#[test]
fn cross_env_columns_single_environment_differs() {
    let envs = envs_of(vec![("prod", columns(&[("id", "integer")]))]);
    assert!(index_action::columns_are_different("prod", &envs));
}

#[test]
fn cross_env_columns_first_missing_differs() {
    let envs = envs_of(vec![("dev", columns(&[("id", "integer")])), ("qa", columns(&[("id", "integer")]))]);
    assert!(index_action::columns_are_different("prod", &envs));
    let empty: StrMap<StrMap<TableColumn>> = StrMap::new();
    assert!(index_action::columns_are_different("prod", &empty));
}

#[test]
fn cross_env_columns_agreement_and_disagreement() {
    let same = envs_of(vec![
        ("prod", columns(&[("id", "integer"), ("name", "text")])),
        ("dev", columns(&[("id", "integer"), ("name", "text")])),
    ]);
    assert!(!index_action::columns_are_different("prod", &same));
    let other_type = envs_of(vec![
        ("prod", columns(&[("id", "integer")])),
        ("dev", columns(&[("id", "bigint")])),
    ]);
    assert!(index_action::columns_are_different("prod", &other_type));
    let extra_in_other = envs_of(vec![
        ("prod", columns(&[("id", "integer")])),
        ("dev", columns(&[("id", "integer"), ("x", "text")])),
    ]);
    assert!(index_action::columns_are_different("prod", &extra_in_other));
    // A column that only the first environment has is not counted.
    let extra_in_first = envs_of(vec![
        ("prod", columns(&[("id", "integer"), ("x", "text")])),
        ("dev", columns(&[("id", "integer")])),
    ]);
    assert!(!index_action::columns_are_different("prod", &extra_in_first));
}

#[test]
fn cross_env_indexes() {
    let single = envs_of(vec![("prod", indexes(&[("pk", "A")]))]);
    assert!(index_action::indexes_are_different("prod", &single));
    let same = envs_of(vec![("prod", indexes(&[("pk", "A")])), ("dev", indexes(&[("pk", "A")]))]);
    assert!(!index_action::indexes_are_different("prod", &same));
    let other_def = envs_of(vec![("prod", indexes(&[("pk", "A")])), ("dev", indexes(&[("pk", "B")]))]);
    assert!(index_action::indexes_are_different("prod", &other_def));
    let missing_first = envs_of(vec![("prod", indexes(&[])), ("dev", indexes(&[("pk", "A")]))]);
    assert!(index_action::indexes_are_different("prod", &missing_first));
    let only_first = envs_of(vec![("prod", indexes(&[("pk", "A")])), ("dev", indexes(&[]))]);
    assert!(!index_action::indexes_are_different("prod", &only_first));
    assert!(index_action::indexes_are_different("qa", &same));
}

#[test]
fn one_column_across_environments() {
    let one = envs_of(vec![("prod", column("id", "integer", "NO"))]);
    assert!(table_action::columns_are_different(&one));
    let none: StrMap<TableColumn> = StrMap::new();
    assert!(!table_action::columns_are_different(&none));
    let same = envs_of(vec![
        ("prod", column("id", "integer", "NO")),
        ("dev", column("id", "integer", "NO")),
        ("qa", column("id", "integer", "NO")),
    ]);
    assert!(!table_action::columns_are_different(&same));
    let last_differs = envs_of(vec![
        ("a", column("id", "integer", "NO")),
        ("b", column("id", "integer", "NO")),
        ("c", column("id", "integer", "YES")),
    ]);
    assert!(table_action::columns_are_different(&last_differs));
}

#[test]
fn one_index_across_environments() {
    let one = envs_of(vec![("prod", "A".to_string())]);
    assert!(table_action::indexes_are_different(&one));
    let none: StrMap<String> = StrMap::new();
    assert!(!table_action::indexes_are_different(&none));
    let same = envs_of(vec![("prod", "A".to_string()), ("dev", "A".to_string())]);
    assert!(!table_action::indexes_are_different(&same));
    let differ = envs_of(vec![("prod", "A".to_string()), ("dev", "B".to_string())]);
    assert!(table_action::indexes_are_different(&differ));
}

fn info(list: Vec<(&str, StrMap<TableColumn>, StrMap<String>)>) -> TableInfo {
    let mut info = TableInfo::new();
    for (env, c, i) in list {
        info.columns.insert(env.to_string(), c);
        info.indexes.insert(env.to_string(), i);
    }
    info
}

#[test]
fn overview_page_in_full() {
    let envs = vec!["prod".to_string(), "dev".to_string()];
    let mut tables: StrMap<TableInfo> = StrMap::new();
    tables.insert(
        "users".to_string(),
        info(vec![
            ("prod", columns(&[("id", "integer"), ("name", "text")]), indexes(&[("pk", "A")])),
            ("dev", columns(&[("id", "integer"), ("name", "text")]), indexes(&[("pk", "A")])),
        ]),
    );
    tables.insert(
        "audit".to_string(),
        info(vec![("prod", columns(&[("id", "integer")]), indexes(&[]))]),
    );
    let html = render_index_page(&envs, &tables);
    let expected = String::new()
        + INDEX_PAGE_HEAD
        + "<th>prod</th><th>Columns</th><th>Indexes</th>"
        + "<th>dev</th><th>Columns</th><th>Indexes</th>"
        + "</tr>"
        + "<tr style=\"background:#ffdede\"><td><a href=\"/table/audit\">audit</a></td>"
        + "<td style=\"color:green\">Yes</td><td>1</td>"
        + "<td style=\"background:red;color:white\"><b>0</b></td>"
        + "<td style=\"color:red\">No</td><td>--</td><td>--</td>"
        + "</tr>"
        + "<tr><td><a href=\"/table/users\">users</a></td>"
        + "<td style=\"color:green\">Yes</td><td>2</td><td>1</td>"
        + "<td style=\"color:green\">Yes</td><td>2</td><td>1</td>"
        + "</tr>"
        + "</table></body></html>";
    assert_eq!(html, expected);
}

#[test]
fn overview_page_without_tables() {
    let html = render_index_page(&Vec::new(), &StrMap::new());
    assert_eq!(html, String::new() + INDEX_PAGE_HEAD + "</tr></table></body></html>");
}

#[test]
fn overview_page_head_is_the_html_preamble() {
    assert!(INDEX_PAGE_HEAD.starts_with("<html><body>"));
    assert!(INDEX_PAGE_HEAD.ends_with("<table class=\"table\"><tr><th>TableName</th>"));
}

#[test]
fn table_page_in_full() {
    let envs = vec!["prod".to_string(), "dev".to_string()];
    let input = GetTableNameInput { table_name: "users".to_string() };
    let mut schema = TableSchema::new();
    schema.add_env(
        &"prod".to_string(),
        columns(&[("id", "integer"), ("name", "text")]),
        indexes(&[("pk", "CREATE UNIQUE INDEX pk")]),
    );
    schema.add_env(
        &"dev".to_string(),
        columns(&[("id", "bigint")]),
        indexes(&[("pk", "CREATE UNIQUE INDEX pk")]),
    );
    let html = render_table_page(&envs, &input.table_name, &schema);
    let expected = String::new()
        + TABLE_PAGE_HEAD
        + "<h1>Table: users</h1>"
        + "<table class=\"table\"><tr><th>Column</th><th>prod</th><th>dev</th></tr>"
        + "<tr style=\"background:#ffdede\"><td>id</td>"
        + "<td>id:integer [nullable:NO]</td><td>id:bigint [nullable:NO]</td></tr>"
        + "<tr style=\"background:#ffdede\"><td>name</td>"
        + "<td>name:text [nullable:NO]</td><td style=\"color:red\">No</td></tr>"
        + "</table>"
        + "<h2>Indexes</h2>"
        + "<table class=\"table\"><tr><th>Column</th><th>prod</th><th>dev</th></tr>"
        + "<tr><td>pk</td><td>CREATE UNIQUE INDEX pk</td><td>CREATE UNIQUE INDEX pk</td></tr>"
        + "</table>"
        + "</body></html>";
    assert_eq!(html, expected);
}
