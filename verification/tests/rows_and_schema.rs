use db_sync::dto::{TableColumn, TableIndex, TableNameDto};
use db_sync::repo::{columns_by_name, indexes_by_name, table_names, PostgresRepoSettings};
use db_sync::schema::{table_schema_from, tables_difference_from, TableInfo, TableSchema};
use db_sync::str_map::StrMap;

fn column(name: &str, data_type: &str, nullable: &str) -> TableColumn {
    TableColumn {
        column_name: name.to_string(),
        data_type: data_type.to_string(),
        is_nullable: nullable.to_string(),
    }
}

fn keys<V>(m: &StrMap<V>) -> Vec<String> {
    (0..m.len()).map(|i| m.key_at(i).clone()).collect()
}

#[test]
fn column_difference_by_each_field() {
    let a = column("id", "integer", "NO");
    assert!(!a.has_difference_with(&column("id", "integer", "NO")));
    assert!(a.has_difference_with(&column("id2", "integer", "NO")));
    assert!(a.has_difference_with(&column("id", "bigint", "NO")));
    assert!(a.has_difference_with(&column("id", "integer", "YES")));
    let b = column("id", "text", "YES");
    assert_eq!(a.has_difference_with(&b), b.has_difference_with(&a));
}

#[test]
fn listing_drops_the_databases_own_tables() {
    let rows = vec!["users", "pg_stat", "pgx", "orders", "page", "pg", "p"]
        .into_iter()
        .map(|n| TableNameDto { table_name: n.to_string() })
        .collect();
    assert_eq!(table_names(rows), vec!["users", "orders", "page", "p"]);
    assert!(table_names(Vec::new()).is_empty());
}

#[test]
fn columns_by_name_keeps_the_last_row_of_a_name() {
    let rows = vec![
        column("id", "integer", "NO"),
        column("name", "text", "YES"),
        column("id", "bigint", "NO"),
    ];
    let m = columns_by_name(rows);
    assert_eq!(keys(&m), vec!["id", "name"]);
    assert_eq!(m.get("id").unwrap().data_type, "bigint");
    assert_eq!(m.get("name").unwrap().is_nullable, "YES");
}

#[test]
fn indexes_by_name_maps_names_to_definitions() {
    let rows = vec![
        TableIndex { indexname: "users_pkey".to_string(), indexdef: "CREATE UNIQUE INDEX a".to_string() },
        TableIndex { indexname: "ix_name".to_string(), indexdef: "CREATE INDEX b".to_string() },
    ];
    let m = indexes_by_name(rows);
    assert_eq!(keys(&m), vec!["ix_name", "users_pkey"]);
    assert_eq!(m.get("users_pkey").unwrap(), "CREATE UNIQUE INDEX a");
}

#[test]
fn repo_settings_hold_the_connection_string() {
    let s = PostgresRepoSettings::new("host=db".to_string());
    assert_eq!(s.conn_string, "host=db");
    assert_eq!(s.connection_string(), "host=db");
}

fn columns(list: &[(&str, &str)]) -> StrMap<TableColumn> {
    let mut m = StrMap::new();
    for (name, ty) in list {
        m.insert(name.to_string(), column(name, ty, "NO"));
    }
    m
}

fn indexes(list: &[(&str, &str)]) -> StrMap<String> {
    let mut m = StrMap::new();
    for (name, def) in list {
        m.insert(name.to_string(), def.to_string());
    }
    m
}

#[test]
fn new_schema_and_info_are_empty() {
    let s = TableSchema::new();
    assert_eq!(s.columns.len(), 0);
    assert_eq!(s.indexes.len(), 0);
    let i = TableInfo::new();
    assert_eq!(i.columns.len(), 0);
    assert_eq!(i.indexes.len(), 0);
}

#[test]
fn table_schema_files_each_column_under_each_environment() {
    let parts = vec![
        ("prod".to_string(), columns(&[("id", "integer"), ("name", "text")]), indexes(&[("pk", "A")])),
        ("dev".to_string(), columns(&[("id", "bigint"), ("extra", "text")]), indexes(&[])),
    ];
    let schema = table_schema_from(parts);
    assert_eq!(keys(&schema.columns), vec!["extra", "id", "name"]);
    let id = schema.columns.get("id").unwrap();
    assert_eq!(keys(id), vec!["dev", "prod"]);
    assert_eq!(id.get("prod").unwrap().data_type, "integer");
    assert_eq!(id.get("dev").unwrap().data_type, "bigint");
    assert_eq!(keys(schema.columns.get("name").unwrap()), vec!["prod"]);
    assert_eq!(keys(schema.columns.get("extra").unwrap()), vec!["dev"]);
    assert_eq!(keys(&schema.indexes), vec!["pk"]);
    assert_eq!(schema.indexes.get("pk").unwrap().get("prod").unwrap(), "A");
}

#[test]
fn add_env_adds_one_environment() {
    let mut schema = TableSchema::new();
    schema.add_env(&"prod".to_string(), columns(&[("id", "integer")]), indexes(&[("pk", "A")]));
    schema.add_env(&"dev".to_string(), columns(&[("id", "integer")]), indexes(&[("pk", "B")]));
    let pk = schema.indexes.get("pk").unwrap();
    assert_eq!(keys(pk), vec!["dev", "prod"]);
    assert_eq!(pk.get("dev").unwrap(), "B");
}

#[test]
fn overview_files_each_table_under_each_environment() {
    let mut prod: StrMap<(StrMap<TableColumn>, StrMap<String>)> = StrMap::new();
    prod.insert("users".to_string(), (columns(&[("id", "integer")]), indexes(&[("pk", "A")])));
    prod.insert("orders".to_string(), (columns(&[("id", "integer")]), indexes(&[])));
    let mut dev: StrMap<(StrMap<TableColumn>, StrMap<String>)> = StrMap::new();
    dev.insert("users".to_string(), (columns(&[("id", "integer"), ("x", "text")]), indexes(&[])));
    let result = tables_difference_from(vec![("prod".to_string(), prod), ("dev".to_string(), dev)]);
    assert_eq!(keys(&result), vec!["orders", "users"]);
    let users = result.get("users").unwrap();
    assert_eq!(keys(&users.columns), vec!["dev", "prod"]);
    assert_eq!(keys(&users.indexes), vec!["dev", "prod"]);
    assert_eq!(users.columns.get("dev").unwrap().len(), 2);
    assert_eq!(users.indexes.get("prod").unwrap().len(), 1);
    let orders = result.get("orders").unwrap();
    assert_eq!(keys(&orders.columns), vec!["prod"]);
    assert_eq!(keys(&orders.indexes), vec!["prod"]);
}

#[test]
fn overview_of_no_environment_is_empty() {
    let result = tables_difference_from(Vec::new());
    assert_eq!(result.len(), 0);
}
