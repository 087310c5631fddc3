pub mod derivation;
pub mod errors;
pub mod grammar;
pub mod rng;
pub mod rule;
pub mod sentential;
pub mod symbol;
pub mod text;
