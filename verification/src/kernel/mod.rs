//! The daemon's side of the terminal: the feed from the window process, the
//! messages to browsers, the session and the rules of the daemon itself.

pub mod auth;
pub mod client_laws;
pub mod feed;
pub mod flow;
pub mod gate_laws;
pub mod http;
pub mod hub;
pub mod hub_laws;
pub mod hub_routes;
pub mod le;
pub mod proto;
pub mod ring;
pub mod session;
pub mod session_laws;
pub mod turns;
pub mod wire_laws;
