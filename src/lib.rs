//! A minimal HTTP/1.1 message layer: a request parser, a response
//! serializer and the routing decisions of a static file server.

pub mod http;
pub mod headers;
pub mod request;
pub mod response;
pub mod dispatch;
pub mod wire;
pub mod laws;
