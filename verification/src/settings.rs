//! The settings of the service: which databases to compare.
use vstd::prelude::*;

verus! {

/// The settings file: one entry per environment.
pub struct SettingsModel {
    pub postgres_conn_string: Vec<PostgresSettings>,
}

/// One environment: its name, how to reach its database, and the schema to compare.
pub struct PostgresSettings {
    pub env: String,
    pub conn_string: String,
    pub scheme: String,
}

} // verus!
