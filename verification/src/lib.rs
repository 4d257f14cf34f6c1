//! TinyStore: the verified core of a small S3-compatible object store.

pub mod api;
pub mod auth;
pub mod backend;
pub mod cli;
pub mod config;
pub mod digest;
pub mod error;
pub mod filesystem;
pub mod keyed;
pub mod memory;
pub mod model;
pub mod paging;
pub mod s3;
pub mod shared;
pub mod sigv4;
pub mod text;
pub mod time;
pub mod ui;
pub mod xml;
