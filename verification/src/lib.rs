//! The protocol layer of a small HTTP/1.1 server: reading a request from
//! bytes, deciding the answer, and writing the response as bytes. Sockets,
//! files and threads are left to the program around it.

pub mod config;
pub mod error;
pub mod handler;
pub mod headers;
pub mod laws;
pub mod reader;
pub mod request;
pub mod response;
pub mod router;
pub mod text;
