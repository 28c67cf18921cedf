//! Session emulation engine of an interactive-login honeypot: a line editor,
//! a small fake command interpreter with variable expansion, an
//! authentication decision model and a per-connection event record.

pub mod session;
pub mod shell;
pub mod text;
