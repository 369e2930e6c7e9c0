//! What the summarizer's parts are for, said of messages, texts and settings themselves.

pub mod checks;
pub mod gate;
pub mod probe;
pub mod replay;
pub mod requests;
pub mod slice;
