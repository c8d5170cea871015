pub mod commands;
pub mod resp;
pub mod server;
pub mod wire;
