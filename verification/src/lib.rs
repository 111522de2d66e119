pub mod cli;
pub mod demo;
pub mod dupes;
pub mod excludes;
pub mod fsext;
pub mod order;
pub mod scan;
pub mod server;
pub mod snapshots;
pub mod sums;
pub mod text;
pub mod tree;
