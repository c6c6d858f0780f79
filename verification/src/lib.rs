//! A minimal HTTP/1.1 engine: request decoding, route dispatch and response
//! encoding, with every function verified against its contract.

pub mod connection;
pub mod helpers;
pub mod params;
pub mod request;
pub mod response;
pub mod router;
pub mod text;
