//! Trim OpenAPI documents down to the operations that are wanted.

pub mod app_state;
pub mod browse;
pub mod browse_laws;
pub mod cli;
pub mod cli_laws;
pub mod codec;
pub mod component;
pub mod download;
pub mod drift;
pub mod drift_laws;
pub mod edit;
pub mod editor_laws;
pub mod export_laws;
pub mod extract;
pub mod extract_laws;
pub mod filter;
pub mod filter_laws;
pub mod format;
pub mod format_laws;
pub mod info;
pub mod info_laws;
pub mod json;
pub mod keyed;
pub mod limits;
pub mod model;
pub mod model_laws;
pub mod places;
pub mod pointer;
pub mod prune;
pub mod prune_laws;
pub mod refs;
pub mod selection;
pub mod selection_laws;
pub mod session_laws;
pub mod storage;
pub mod text;
pub mod text_laws;
pub mod text_set;
