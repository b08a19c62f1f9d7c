//! A parser for complete HTTP/1.x messages held in a byte buffer.
//!
//! The buffer is decoded as UTF-8 text, cut into lines at every CRLF, and
//! read as a request line, a table of headers and a body. Every public
//! function carries a contract over `Seq<char>` models of the text it reads,
//! and every contract is proved.

pub mod text;
pub mod error;
pub mod headers;
pub mod message;
pub mod scan;
pub mod start_line;
