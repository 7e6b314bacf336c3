//! The decision logic of a remote-desktop server for macOS: connection guarding,
//! screen-capture planning, pointer shaping, video-pipeline control, device
//! redirection, display arrangement and start-up configuration.
//!
//! Everything here is a function of plain values. The program around it performs
//! the input and output and hands the results in.
pub mod around;
pub mod auth_guard;
pub mod capture;
pub mod config;
pub mod cursor;
pub mod double;
pub mod env;
pub mod file_promise_lazy;
pub mod h264;
pub mod health;
pub mod keyboard_layout;
pub mod keyed;
pub mod logging;
pub mod multitransport;
pub mod order;
pub mod precision;
pub mod rdpdr;
pub mod reaper;
pub mod scancodes;
pub mod shield;
pub mod startup;
pub mod supervisor;
pub mod text;
pub mod time;
pub mod tls;
pub mod virtual_display;
pub mod wire;
