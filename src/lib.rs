//! Secure path resolution, listings, navigation outlines and live-reload
//! fan-out for a local Markdown content server.

pub mod text;
pub mod toc;
pub mod error;
pub mod paths;
pub mod order;
pub mod listing;
pub mod hub;
pub mod cli;
pub mod tree;
pub mod page;
