//! A local-first knowledge engine: per-item encrypted payloads, deterministic
//! retrieval, confidence policy and grounded-answer validation.
pub mod error;
pub mod crypto;
pub mod float_bits;
pub mod types;
pub mod calibrator;
pub mod policy;
pub mod text;
pub mod ranking;
pub mod retrieval;
pub mod vector;
pub mod store;
pub mod llm;
pub mod uuid_gen;
