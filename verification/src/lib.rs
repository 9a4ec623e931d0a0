//! Æther's core: citation handling, text normalisation, URL policy, tab history
//! and the other decisions the browser shell makes, stated and proved with Verus.

pub mod text;
pub mod numbers;
pub mod chat;
pub mod urls;
pub mod search;
pub mod order;
pub mod air;
pub mod tabs;
pub mod trail;
pub mod updates;
pub mod blocking;
pub mod downloads;
pub mod models;
pub mod library;
pub mod extract;
pub mod shell;
pub mod diagnostics;
pub mod dossier;
pub mod iceberg;
pub mod gather;
pub mod retrieval;
pub mod lexical;
pub mod jsonld;
pub mod vectors;
pub mod flow;
pub mod favicon;
pub mod store;
pub mod dom;
