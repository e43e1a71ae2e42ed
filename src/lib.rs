//! Client side of a single-server lattice-based private information
//! retrieval scheme: parameter bundles, polynomial matrices, the wire codecs
//! for public parameters and queries, key generation, query construction
//! and response decoding.

pub mod arith;
pub mod bits;
pub mod client;
pub mod codec;
pub mod decode;
pub mod keygen;
pub mod params;
pub mod poly;
pub mod public_params;
pub mod public_rng;
pub mod query;
pub mod query_build;
pub mod regev;
pub mod ring;
