//! A minimal HTTP/1.1 protocol layer: request parsing from raw bytes,
//! response building and serialisation, and routing of a parsed request.

pub mod headers;
pub mod request;
pub mod response;
pub mod routing;
pub mod text;
