pub mod text;
pub mod json;
pub mod piece;
pub mod format;
pub mod lex;
pub mod strmap;
pub mod rank;
pub mod paths;
pub mod config;
pub mod detail;
pub mod app;
pub mod keys;
pub mod ui;
pub mod reader;
pub mod presence;
