//! Core logic of a zsh configuration manager: parsers and serializers for
//! alias lines, brace-delimited function blocks and the `plugins=( ... )`
//! list marker, together with the pure edit operations built on them.
//! All file reading and writing lives outside this crate; every function
//! here maps plain text to plain text.

pub mod alias;
pub mod catalog;
pub mod config;
pub mod errors;
pub mod functions;
pub mod paths;
pub mod plugins;
pub mod text;

pub use alias::Alias;
pub use alias::parse_alias_line;
pub use catalog::get_plugin_info;
pub use config::ConfigContent;
pub use errors::EditError;
pub use functions::Function;
pub use functions::parse_functions;
pub use functions::try_parse_function_start;
pub use paths::get_alias_file_path;
pub use paths::get_config_file_path;
pub use paths::get_function_file_path;
pub use paths::get_oh_my_zsh_custom_plugins_dir;
pub use paths::get_oh_my_zsh_plugins_dir;
pub use paths::get_secrets_file_path;
pub use paths::get_zshrc_local_path;
pub use plugins::Plugin;
pub use plugins::PluginManager;
pub use plugins::parse_plugins_from_file;
