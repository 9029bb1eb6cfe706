pub mod app;
pub mod args;
pub mod config;
pub mod json;
pub mod mqtt;
pub mod text;
pub mod topic;
pub mod ui;
