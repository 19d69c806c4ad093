//! Verified core of a personal knowledge-base app: the data model and its
//! merge rules, the command logic that edits the model, attachment records
//! and their folders, what a sync does to the store and reports, the sync
//! payload encryption, and the WebDAV multistatus parser.

pub mod ai;
pub mod attachments;
pub mod codec;
pub mod commands;
pub mod crypto;
pub mod models;
pub mod seq_facts;
pub mod storage;
pub mod sync;
pub mod webdav;
