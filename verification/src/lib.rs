//! A small capture-the-flag console: the command-line grammar, the argument map,
//! the command handlers, and the line-editing state machines of the curses console
//! and of the telnet session, each verified against its contract.

pub mod index_map;
pub mod text;
pub mod commands;
pub mod parser;
pub mod console;
pub mod sock;
pub mod guess;
