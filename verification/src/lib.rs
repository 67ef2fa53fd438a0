//! Rule matching, request rewriting and control-plane state for the
//! InterceptKit local proxy.
pub mod clock;
pub mod config;
pub mod control;
pub mod glob;
pub mod headers;
pub mod json;
pub mod models;
pub mod proxy;
pub mod rewrite;
pub mod rules;
pub mod state;
pub mod text;
