//! Context pruning for agent transcripts.

pub mod assoc;
pub mod config;
pub mod json;
pub mod json_laws;
pub mod pairing;
pub mod pairing_laws;
pub mod rewrite;
pub mod sites;
pub mod size;
pub mod strategies;
pub mod summarizer;
pub mod sweep;
pub mod text;
pub mod text_laws;
