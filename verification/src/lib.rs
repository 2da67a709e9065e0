//! A verified core for a wallpaper audio visualiser.
pub mod app_config;
pub mod control;
pub mod curve;
pub mod editor;
pub mod frame;
pub mod json;
pub mod output;
pub mod palette;
pub mod placement;
pub mod render;
pub mod scheme;
pub mod single;
pub mod startup;
pub mod text;
pub mod watch;
