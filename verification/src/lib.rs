//! Core pipeline of a window-manager socket watcher: a byte-stream line
//! framer, an event classifier, a payload parser, a wallpaper-index
//! resolver, a dispatch-outcome classifier, and the read-loop state
//! machine, each with a verified contract. I/O (the socket, the config
//! file, the external apply command) lives outside this crate's logic and
//! hands these components plain values.

pub mod config;
pub mod controller;
pub mod dispatch;
pub mod event;
pub mod framer;
pub mod resolver;
pub mod util;
