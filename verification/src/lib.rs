//! Simulation of a single level of a set-associative hardware cache.
//!
//! A trace of memory addresses is replayed against a configurable geometry
//! (`cache::Cache`); every access is classified as a hit or as a compulsory,
//! conflict or capacity miss (`historico_acessos`), under a random
//! replacement policy (`politica_substituicao::random`) backed by a lower
//! memory level (`memoria`).

pub mod cache;
pub mod historico_acessos;
pub mod memoria;
pub mod politica_substituicao;
