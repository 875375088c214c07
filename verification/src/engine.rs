//! What the inference engine does with a redaction request, given whether a
//! model is loaded.

use vstd::prelude::*;

use crate::config::ModelInfo;
use crate::redaction::Redaction;
use crate::text::{all_whitespace, is_blank};

verus! {

/// How a redaction request is served.
#[derive(Debug, Clone, Copy, PartialEq, Eq, Structural)]
pub enum RedactRoute {
    /// Blank text comes back unchanged, without asking the model.
    Unchanged,
    /// No model is loaded: the request fails.
    NotLoaded,
    /// The loaded model redacts the text.
    Run,
}

/// The engine's state: the loaded redactor, if any, and its description.
pub struct EngineState<R> {
    pub redactor: Option<R>,
    pub info: Option<ModelInfo>,
}

impl<R> EngineState<R> {
    /// Nothing loaded.
    pub fn new() -> (s: Self)
        ensures
            s.redactor is None,
            s.info is None,
    {
        EngineState { redactor: None, info: None }
    }

    /// Installs a freshly loaded redactor and its description, replacing
    /// any earlier one.
    pub fn load(&mut self, redactor: R, info: ModelInfo)
        ensures
            final(self).redactor == Some(redactor),
            final(self).info == Some(info),
    {
        self.redactor = Some(redactor);
        self.info = Some(info);
    }

    pub fn is_model_loaded(&self) -> (r: bool)
        ensures
            r == self.redactor is Some,
    {
        self.redactor.is_some()
    }

    /// The description of the loaded model, if one is loaded.
    pub fn get_info(&self) -> (r: Option<ModelInfo>)
        ensures
            r == self.info,
    {
        match &self.info {
            Some(i) => Some(i.clone_info()),
            None => None,
        }
    }

    /// Blank text is answered unchanged; otherwise the loaded model runs,
    /// or the request fails when none is loaded.
    pub fn route(&self, text: &str) -> (r: RedactRoute)
        ensures
            all_whitespace(text@) ==> r == RedactRoute::Unchanged,
            !all_whitespace(text@) && self.redactor is None ==> r == RedactRoute::NotLoaded,
            !all_whitespace(text@) && self.redactor is Some ==> r == RedactRoute::Run,
    {
        if is_blank(text) {
            RedactRoute::Unchanged
        } else if self.redactor.is_none() {
            RedactRoute::NotLoaded
        } else {
            RedactRoute::Run
        }
    }
}

impl Redaction {
    /// The answer to a blank text: the text itself, nothing detected.
    pub fn unchanged(text: &String) -> (r: Redaction)
        ensures
            r.text@ == text@,
            r.redacted_text@ == text@,
            r.detected_spans@.len() == 0,
            r.summary@.len() == 0,
    {
        Redaction {
            text: text.clone(),
            redacted_text: text.clone(),
            detected_spans: Vec::new(),
            summary: Vec::new(),
        }
    }
}

} // verus!
