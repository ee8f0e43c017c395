//! Pure logic of a terminal monitor configurator for wlroots compositors:
//! the model of outputs and pending settings, relative positioning, projection
//! presets, the `wlr-randr` text format and command line, and the key-driven
//! state machine of the user interface.
pub mod text;
pub mod decimal;
pub mod scale;
pub mod consts;
pub mod monitor;
pub mod proj;
pub mod apply;
pub mod parse;
pub mod app;
pub mod input;
pub mod ui;
pub mod laws;
pub mod behaviour;
pub mod diagram;
