//! Body filters for a web server's request and response bodies: a reader
//! that turns the server's buffer chain into segments, a redaction filter for
//! outbound bodies, an inspection filter for inbound ones, a writer that
//! installs a rewritten body, and the mapping of verdicts to control codes.
pub mod redact;
pub mod chain;
pub mod inspect;
pub mod stage;
pub mod writer;
