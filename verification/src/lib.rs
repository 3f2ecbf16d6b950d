//! Request parsing, response building and secret handling for a signing
//! reverse proxy and the file server that sits behind it.

pub mod text;
pub mod html;
pub mod proxy;
pub mod server;
pub mod secret;
pub mod laws;
