//! The rules of a runner that executes many agent tasks side by side.
pub mod artifact;
pub mod commands;
pub mod config;
pub mod coordination;
pub mod coordinator;
pub mod dashboard;
pub mod error;
pub mod event;
pub mod execution;
pub mod id;
pub mod json;
pub mod listing;
pub mod message;
pub mod meta;
pub mod names;
pub mod order;
pub mod paths;
pub mod plan;
pub mod runner;
pub mod text;
pub mod time;
