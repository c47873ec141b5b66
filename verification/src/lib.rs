//! Verified building blocks for text transforms, vector quantization codes,
//! an inverted-file container format, a full-text search tool, generated
//! document layout and an editor keybinding reference.
pub mod counting;
pub mod bwt_laws;
pub mod bwt;
pub mod suffix_array;
pub mod induced_order;
pub mod bits;
pub mod rabitq;
pub mod le_bytes;
pub mod ivf;
pub mod search;
pub mod cache_key;
pub mod text;
pub mod file_filter;
pub mod doc_format;
pub mod helix;
pub mod ivf_file;
pub mod file_text;
