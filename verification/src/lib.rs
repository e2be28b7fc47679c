pub mod action_builder;
pub mod aliases;
pub mod bottle_set;
pub mod bottles;
pub mod cache;
pub mod closure;
pub mod db;
pub mod dirs;
pub mod error;
pub mod executor;
pub mod extract;
pub mod forest;
pub mod formulae;
pub mod graph;
pub mod image;
pub mod laws;
pub mod link;
pub mod macho;
pub mod magic;
pub mod orphans;
pub mod patch;
pub mod paths;
pub mod resolve;
pub mod status;
pub mod target;
pub mod text;
pub mod tree;
pub mod validate;
