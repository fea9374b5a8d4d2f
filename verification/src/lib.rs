//! Verified core of `sqlrunner`, a tool listing the `.sql` files of a directory
//! with the psql variables they use, and running one of them with psql.
//!
//! The library holds the logic: the SQL scanner finding `:'name'` references,
//! the listing table, the parsing of `NAME=VALUE` assignments, the psql command
//! and its rendering as a POSIX shell command line.

pub mod command;
pub mod complete;
pub mod listing;
pub mod order;
pub mod scan;
pub mod shell;
pub mod table;
pub mod text;
