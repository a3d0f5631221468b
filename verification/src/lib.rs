//! Token-authenticated webhook daemon: the verified core.
pub mod auth;
pub mod config;
pub mod daemon;
pub mod paths;
pub mod pidfile;
pub mod text;
pub mod webhook;
