//! Incremental HTTP/1.1 response handling: a header parser over an
//! accumulated byte buffer, and an exchange state machine that frames
//! the body by `Content-Length`.

pub mod scan;
pub mod parser;
pub mod exchange;
