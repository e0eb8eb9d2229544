//! State that lets long Codex conversations be resumed instead of resent.

pub mod canonical;
pub mod compaction;
pub mod compaction_laws;
pub mod context_laws;
pub mod context_management;
pub mod continuation;
pub mod continuation_laws;
pub mod error_laws;
pub mod history;
pub mod history_laws;
pub mod item_laws;
pub mod json;
pub mod json_laws;
pub mod json_text_laws;
pub mod model;
pub mod model_laws;
pub mod openai_compat;
pub mod outside;
pub mod prompt_laws;
pub mod quota_laws;
pub mod rate_limits;
pub mod request;
pub mod size_laws;
pub mod sse;
pub mod sse_laws;
pub mod table;
pub mod text;
pub mod text_laws;
pub mod writing_laws;
