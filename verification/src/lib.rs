//! Verified core of a small Wayland notification daemon: the rules that decide
//! when a notification expires, how its text is wrapped and cut to fit its box,
//! and how the stack of visible notifications and the queue behind it evolve.

pub mod config;
pub mod timeout;
pub mod layout;
pub mod stack;
pub mod stack_laws;
pub mod text;
pub mod text_laws;
pub mod server;
