pub mod cli;
pub mod config;
pub mod daemon;
pub mod dag;
pub mod executor;
pub mod gate;
pub mod hooks;
pub mod input;
pub mod keys;
pub mod laws;
pub mod loader;
pub mod output;
pub mod patterns;
pub mod rows;
pub mod runner;
pub mod settings;
pub mod sort;
pub mod state;
pub mod store;
pub mod text;
pub mod transitions;
pub mod validate;
