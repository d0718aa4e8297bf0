//! Card-fraud detection by nearest-neighbour search over quantised feature vectors.

pub mod balancer;
pub mod binary32;
pub mod binary64;
pub mod build_index;
pub mod http;
pub mod index;
pub mod laws;
pub mod models;
pub mod responses;
pub mod rounding;
pub mod stream;
pub mod text;
pub mod vectorizer;
pub mod warmup;
