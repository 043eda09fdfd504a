//! Verified core of a GKR prover whose sumcheck rounds can run on a GPU.

pub mod agreement;
pub mod algebra;
pub mod batch;
pub mod chain;
pub mod circuit;
pub mod claims;
pub mod cuda_dispatch;
pub mod device;
pub mod dispatch;
pub mod engine;
pub mod extension;
pub mod field;
pub mod gates;
pub mod gkr;
pub mod gkr_protocol;
pub mod instance;
pub mod interpolation;
pub mod layout;
pub mod lockstep;
pub mod m31;
pub mod machine;
pub mod offload;
pub mod ownership;
pub mod poly;
pub mod product_gate;
pub mod protocol;
pub mod questions;
pub mod record;
pub mod residency;
pub mod rounds;
pub mod scatter;
pub mod simd_gate;
pub mod sumcheck;
pub mod transcript;
pub mod transfer;
pub mod verdict;
pub mod whole;
pub mod workings;
