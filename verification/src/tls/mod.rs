//! Reading the start of a TLS handshake.
//!
//! Only the ClientHello matters here: it is in the clear, and carries the host
//! name that the client asks for. Nothing is decrypted, nothing is sent.

pub mod client_hello;

pub use client_hello::{server_name, TlsError};
