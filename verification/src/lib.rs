//! A justification-based truth maintenance library: belief networks, their
//! queries and reports, and the domain configuration that selects databases.
pub mod config;
pub mod desktop;
pub mod domains;
pub mod explain;
pub mod listing;
pub mod neighbors;
pub mod network;
pub mod params;
pub mod render;
pub mod search;
pub mod show;
pub mod text;
pub mod tms;
pub mod tools;
pub mod tree;
pub mod update;
