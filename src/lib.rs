//! Parsers for a plain-text todo file and its key=value configuration file.

pub mod config;
pub mod datetime;
pub mod duration;
pub mod errors;
pub mod task;
pub mod text;
pub mod todo;

pub use errors::ParsingError;
pub use config::read_parse_config_file;
pub use task::Task;
pub use todo::read_parse_todo_file;
