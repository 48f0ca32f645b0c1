//! The verified core of a small server-status service: the server list and
//! its credential check, the per-connection authentication session, the
//! text of the status events, and the choice of static files.
pub mod text;
pub mod server_config;
pub mod command;
pub mod session;
pub mod serverstatus;
pub mod static_files;
