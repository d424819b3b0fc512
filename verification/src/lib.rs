//! The logic of a language server that sends the HTTP requests that a document
//! holds: what a document says, what takes the place of its variables, what is
//! sent, and how the response is shown.

pub mod clock;
pub mod documents;
pub mod laws;
pub mod number;
pub mod pattern;
pub mod request;
pub mod response;
pub mod session;
pub mod store;
pub mod text;
pub mod variables;
