pub mod text;
pub mod tokenizer;
pub mod fuzzy;
pub mod compression;
pub mod index;
pub mod bktree;
pub mod boolean;
pub mod store;
pub mod ranking;
pub mod crawler;
pub mod server;
pub mod cli;
