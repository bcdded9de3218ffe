pub mod dto;
pub mod index_action;
pub mod repo;
pub mod schema;
pub mod settings;
pub mod str_map;
pub mod table_action;
pub mod text;
