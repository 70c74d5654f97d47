//! Installed disk usage of the packages of a local package database, with
//! name filtering, dependency-closure expansion, sorting and a grand total.

pub mod args;
pub mod closure;
pub mod index;
pub mod matcher;
pub mod report;
pub mod resolve;
