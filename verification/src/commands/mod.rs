//! The commands: what each one decides and what it reports. Each submodule's
//! `run` takes what the program around this library read (the memos, a
//! memo's file content) and gives back what to write and what to print.
pub mod append;
pub mod del;
pub mod edit;
pub mod expand;
pub mod init;
pub mod new;
pub mod overview;
pub mod path;
pub mod rename;
pub mod search;
pub mod show;
pub mod sync;
pub mod tag;
pub mod tags;
pub mod untag;
pub mod util;
