//! A theming configuration manager: a keyed store of templates, the tag and color
//! rules of its themed output, the freshness rule of its config snapshot, the
//! decisions of its apply pipeline, and the retention policy of its log directory.


pub mod cli_config;
pub mod commands;
pub mod config;
pub mod db;
pub mod factory;
pub mod markup;
pub mod processor;
pub mod retention;
pub mod strmap;
pub mod template;
pub mod text;
