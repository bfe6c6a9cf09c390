//! Verified core of the `xcode` command: watch-path bookkeeping, path
//! comparison by components, and the messages the command prints.

pub mod text;
pub mod path;
pub mod watch;
pub mod command;
