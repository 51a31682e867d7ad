pub mod config;
pub mod database;
pub mod graph;
pub mod update;
