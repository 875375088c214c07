//! Verified core of an on-device PII redactor: label spaces of a token
//! classifier, BIOES span extraction, placeholder substitution, and the
//! small state machines that the desktop shell drives.

pub mod text;
pub mod decode;
pub mod redaction;
pub mod config;
pub mod tokenize;
pub mod server_state;
pub mod model_state;
pub mod settings;
pub mod schemas;
pub mod history;
pub mod engine;
pub mod sidecar;
pub mod model_files;
pub mod server_control;
pub mod quick_panel;
pub mod pipeline;
