//! Core of a Japanese dictionary builder: expands lexicon records into the
//! full set of lookup keys (including inflected verb/adjective forms, each
//! with a numeric ranking priority), merges records from several sources into
//! dictionary entries, and lays the entry list out for two target dictionary
//! formats.

pub mod generic_dict;
pub mod jmdict;
pub mod kana;
pub mod kobo;
pub mod kobo_ja;
pub mod stardict;
mod sorting;
pub mod text;
pub mod yomichan;
