//! Messages of the HTTP API and of the inference sidecar.

use vstd::prelude::*;

verus! {

/// Body of `POST /redact`.
#[derive(Debug, Clone)]
pub struct RedactRequest {
    pub text: String,
}

/// Body of `GET /health`.
#[derive(Debug, Clone)]
pub struct HealthResponse {
    pub status: String,
    pub model_loaded: bool,
}

impl HealthResponse {
    /// The server answers health checks with `ok`, and whether the model
    /// answers too.
    pub fn ok(model_loaded: bool) -> (h: HealthResponse)
        ensures
            h.status@ == "ok"@,
            h.model_loaded == model_loaded,
    {
        HealthResponse { status: "ok".to_owned(), model_loaded }
    }
}

/// The model description that the inference sidecar reports.
#[derive(Debug, Clone)]
pub struct SidecarModelInfo {
    pub name: String,
    pub architecture: String,
    pub num_labels: i32,
    pub hidden_size: i64,
    pub vocab_size: i64,
    pub max_position_embeddings: i64,
}

} // verus!
