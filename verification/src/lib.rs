//! Snapshots of a file tree and the differences between them.
pub mod acl;
pub mod browse;
pub mod bubble;
pub mod codec;
pub mod compare;
pub mod debounce;
pub mod diff;
pub mod digest;
pub mod display;
pub mod explorer;
pub mod ignore;
pub mod laws;
pub mod monitor;
pub mod node;
pub mod order;
pub mod panels;
pub mod path;
pub mod path_map;
pub mod progress;
pub mod report;
pub mod snapshot;
pub mod text;
pub mod tree;
pub mod xattrs;
