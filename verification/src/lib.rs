//! Launch-time mod injection for the Vivaldi browser: the verified core.

pub mod text;
pub mod patcher;
pub mod launcher;
pub mod paths;
pub mod config;
pub mod bundler;
pub mod discovery;
pub mod os_hook;
pub mod cli;
pub mod webui;
pub mod json;
