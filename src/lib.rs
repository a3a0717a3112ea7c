//! A day-per-file journal: canonical entry names, lookup of the previous
//! entry, and the section format that carries content from one day to the next.
pub mod collate;
pub mod config;
pub mod date;
pub mod datefs;
pub mod template;
