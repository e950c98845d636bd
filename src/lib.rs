//! Parser and printer for device-manager rule files: one rule per line,
//! each decoded into a [`Conf`] and printable back to canonical text.
//!
//! A line reads `[-][VAR=regex;]...filter user:group mode [on-creation] [command args...]`;
//! [`grammar`] states field by field what a line means, [`parse`] decodes text
//! against it, [`print`] writes a rule back, and [`laws`] proves how the two fit.

pub mod decode;
pub mod grammar;
pub mod laws;
pub mod model;
pub mod parse;
pub mod pattern;
pub mod print;
pub mod text;

pub use model::{
    Command, Conf, ConfError, DeviceRegex, EnvMatch, ErrorKind, Filter, MajMin, OnCreation,
    WhenToRun,
};
pub use parse::{parse, parse_line, parse_with_rejections};
