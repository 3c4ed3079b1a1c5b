//! Verified core of `dam`, a content-addressed snapshot tool for working trees.

pub mod text;
pub mod drain;
pub mod seal;
pub mod merge;
pub mod lineage;
pub mod objects;
pub mod credentials;
pub mod rules;
pub mod staging;
pub mod paths;
pub mod scan;
pub mod sync;
pub mod config;
pub mod stream;
pub mod providers;
pub mod platforms;
pub mod timeline;
pub mod reservoir;
pub mod answers;
