//! Prompt compression engine: protected-region detection, rule layers,
//! rule-based text compression and the plain decisions of the proxy around it.
use vstd::prelude::*;

pub mod text;
pub mod types;
pub mod code_fence;
pub mod boundary;
pub mod search;
pub mod order;
pub mod token_counter;
pub mod domain_detector;
pub mod preprocessor;
pub mod layer1_static;
pub mod layer2_domain;
pub mod rewrite;
pub mod compressor;
pub mod provider;
pub mod error;
pub mod config;
pub mod admin;
pub mod messages;
pub mod anthropic;

verus! {
} // verus!
