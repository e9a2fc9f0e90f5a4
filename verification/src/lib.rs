pub mod text_utils;
pub mod ui_control;
pub mod config;
pub mod pack;
pub mod codeblock_title;
pub mod embed;
pub mod inclusion;
pub mod script_build;
