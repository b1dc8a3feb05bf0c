//! Finding mail in Maildir trees: the directory-listing logic, the
//! `getdents64` record format, the newest-first ordering of messages, the
//! search over the newest messages and the rendering of a found message.

pub mod dirent;
pub mod order;
pub mod text;
pub mod dirlist;
pub mod mail;
pub mod search;
