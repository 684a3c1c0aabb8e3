//! Plugin discovery and plugin help-text analysis for the nilla command line.
pub mod text;
pub mod plugin_metadata;
pub mod plugins;
pub mod listing;
pub mod cli;
