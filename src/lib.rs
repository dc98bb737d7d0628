//! Batch triage of opaque byte payloads: decoding, tagging, similarity
//! hashing, protocol inference and clustering.

pub mod codec;
pub mod distance;
pub mod text;
pub mod lzjd;
pub mod fbhash;
pub mod mrshv2;
pub mod similarity;
pub mod condition;
pub mod sigma;
pub mod inference;
pub mod regex_engine;
pub mod util;
pub mod tagging;
pub mod aggregate;
pub mod pipeline;
