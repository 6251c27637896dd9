//! A minimal HTTPS server core: an HTTP/1.1 request decoder that can resume
//! across arbitrarily fragmented reads (including `multipart/form-data`
//! bodies), the matching body-part encoder, and the response framer.
//!
//! The TLS record engine, sockets and the filesystem are collaborators that
//! live outside this crate; everything here is pure computation over bytes
//! and header text.

pub mod server;
