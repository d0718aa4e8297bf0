//! What the library is for, told by its inputs and results alone.

pub mod building;
pub mod distances;
pub mod doubles;
pub mod features;
pub mod files;
pub mod neighbours;
pub mod numbers;
pub mod requests;
pub mod service;
pub mod training;
