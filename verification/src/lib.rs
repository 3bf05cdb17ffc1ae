//! Request-ingestion engine for an HTTP/1.x server: a streaming message
//! parser that turns a possibly-fragmented byte stream into a structured
//! request head (method, target, version, headers) and materializes the
//! body according to Content-Length or chunked transfer framing.

pub mod err;
pub mod headers;
pub mod machine;
pub mod bytebuf;
pub mod source;
pub mod message;
pub mod request;
pub mod uricoding;
pub mod laws;
