//! Adinkra symbols as compressed behavioural signatures of agents.
//!
//! An agent's five-trait behavioural profile projects onto a symbol with a
//! geometry, a symmetry and a proverb; a registry keeps agents and symbols
//! and groups agents into clusters of similar behaviour.
pub mod cluster;
pub mod graph;
pub mod id;
pub mod keyed;
pub mod registry;
pub mod signature;
pub mod symbol;

pub use cluster::connected_components;
pub use id::AdinkraId;
pub use registry::{AdinkraRegistry, AgentEntry};
pub use signature::{AgentSignature, Trait, TraitReading};
pub use symbol::{
    adinkrahene, builtin_symbols, fawohodie, gye_nyame, mate_masie, sankofa, AdinkraSymbol,
    SymbolGeometry, SymbolMeaning,
};
