//! An order-k Markov chain over word tokens, served as named, independently
//! lockable "brains": training, weighted-backoff generation, a binary
//! persistence codec, and the registry that owns the brains.

pub mod brain;
pub mod chainmodel;
pub mod codec;
pub mod text;
pub mod types;
pub mod linkset;
pub mod markov;
pub mod model;
pub mod persist;
pub mod registry;
pub mod rng;
pub mod sample;
pub mod stats;
