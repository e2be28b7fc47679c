//! The records that the catalog of installed bottles holds.

pub mod models;
