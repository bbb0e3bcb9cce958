//! Switches a user's shell environment and SSH client between direct and
//! proxied access, editing human-maintained configuration text in place.
//!
//! - `proxy`: reads a canonical `host:port` from a proxy specification and
//!   chooses the specification to use (explicit, environment, discovery,
//!   fallback).
//! - `hosts`: reads the registry of host patterns and their proxies.
//! - `ssh`: adds and removes the `ProxyCommand` directives of the registry's
//!   host blocks in an SSH client configuration.
//! - `profile`: keeps one managed block of `export` lines in a shell profile.
//! - `config`, `defaults`, `db`, `doctor`: settings, built-in values, the
//!   recorded state and the configuration view.
//! - `text`: the character-level operations that the rest is stated in.

pub mod config;
pub mod db;
pub mod defaults;
pub mod doctor;
pub mod hosts;
pub mod profile;
pub mod proxy;
pub mod ssh;
pub mod text;
