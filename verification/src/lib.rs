//! Patch mail workflows: reading mail, recognising patch series, tracking
//! review state, searching threads and planning mailbox synchronisation.

pub mod catalog;
pub mod cli;
pub mod completion;
pub mod config;
pub mod dates;
pub mod error;
pub mod following;
pub mod imap;
pub mod mail_parser;
pub mod mail_store;
pub mod patch;
pub mod query;
pub mod reply_store;
pub mod review;
pub mod selection;
pub mod series_store;
pub mod sync;
pub mod text;
