//! Archiving the Elten forum network.

pub mod api;
pub mod auth;
pub mod bench;
pub mod config;
pub mod digest;
pub mod json;
pub mod model;
pub mod order;
pub mod progress;
pub mod scrape;
pub mod select;
pub mod store;
pub mod text;
