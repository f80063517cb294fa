//! Request parsing, response framing and session decisions for a small
//! collection of socket servers and clients (HTTP, FTP, raw TCP/UDP).

pub mod text;
pub mod http;
pub mod ftp;
pub mod transport;
pub mod encoding;
pub mod request_laws;
