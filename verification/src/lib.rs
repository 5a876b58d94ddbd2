//! Logic of the `wx` command-line tool for WeChat data: the search of
//! process memory for database keys, the matching of keys with database
//! salts, the parsing of the process list, and the decisions and texts of
//! the `daemon` and `send` commands. Reading memory, running processes and
//! printing are left to the caller.
pub mod daemon_cmd;
pub mod keys;
pub mod pattern;
pub mod process_list;
pub mod region;
pub mod send;
pub mod text;
