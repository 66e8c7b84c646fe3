//! The verified core of the CND exporter: the document model, the
//! algorithms that build and cross-link its node tree, and the byte-level
//! checks that guard font loading.

pub mod document;
pub mod extract;
pub mod fmt;
pub mod fxmap;
pub mod ide;
pub mod inputs;
pub mod labels;
pub mod meta;
pub mod ancestry;
pub mod cli;
pub mod cmap;
pub mod convert;
pub mod model;
pub mod pools;
pub mod reading_order;
pub mod refs;
pub mod source;
pub mod table;
pub mod text;
pub mod textset;
pub mod tree;
