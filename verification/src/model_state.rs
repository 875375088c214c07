//! Where the configured model stands: found, loading, loaded, failed.

use vstd::prelude::*;

verus! {

/// The model's status and path, as the model page shows them.
#[derive(Debug, Clone)]
pub struct ModelState {
    pub status: String,
    pub model_path: String,
}

impl Default for ModelState {
    /// No model: status `not_found` and an empty path.
    fn default() -> (s: Self)
        ensures
            s.status@ == "not_found"@,
            s.model_path@ == Seq::<char>::empty(),
    {
        ModelState { status: "not_found".to_owned(), model_path: String::new() }
    }
}

/// The statuses a model goes through.
#[derive(Debug, Clone, Copy, PartialEq, Eq, Structural)]
pub enum ModelStatus {
    NotFound,
    Loading,
    Ready,
    Loaded,
    Error,
}

/// The name of a status in `ModelState::status`.
pub open spec fn status_name(s: ModelStatus) -> Seq<char> {
    match s {
        ModelStatus::NotFound => "not_found"@,
        ModelStatus::Loading => "loading"@,
        ModelStatus::Ready => "ready"@,
        ModelStatus::Loaded => "loaded"@,
        ModelStatus::Error => "error"@,
    }
}

impl ModelStatus {
    pub fn name(&self) -> (r: String)
        ensures
            r@ == status_name(*self),
    {
        match self {
            ModelStatus::NotFound => "not_found".to_owned(),
            ModelStatus::Loading => "loading".to_owned(),
            ModelStatus::Ready => "ready".to_owned(),
            ModelStatus::Loaded => "loaded".to_owned(),
            ModelStatus::Error => "error".to_owned(),
        }
    }
}

/// The configured model directory and what is known of it. Whether the
/// directory holds a model (`config.json`, `tokenizer.json` and a
/// `.safetensors` file) is looked up on disk by the caller.
pub struct ModelManager {
    pub status: ModelStatus,
    pub model_path: String,
}

/// A model that is (or may soon be) usable.
pub open spec fn spec_available(s: ModelStatus) -> bool {
    s == ModelStatus::Ready || s == ModelStatus::Loaded || s == ModelStatus::Loading
}

impl ModelManager {
    /// At start-up a model found at `model_path` is about to be loaded.
    pub fn new(model_path: &String, files_present: bool) -> (m: Self)
        ensures
            m.model_path@ == model_path@,
            m.status == if files_present {
                ModelStatus::Loading
            } else {
                ModelStatus::NotFound
            },
    {
        let status = if files_present {
            ModelStatus::Loading
        } else {
            ModelStatus::NotFound
        };
        ModelManager { status, model_path: model_path.clone() }
    }

    pub fn get_state(&self) -> (s: ModelState)
        ensures
            s.status@ == status_name(self.status),
            s.model_path@ == self.model_path@,
    {
        ModelState { status: self.status.name(), model_path: self.model_path.clone() }
    }

    /// Points at a new model directory; it is ready when it holds a model.
    pub fn set_model_path(&mut self, path: &String, files_present: bool)
        ensures
            final(self).model_path@ == path@,
            final(self).status == if files_present {
                ModelStatus::Ready
            } else {
                ModelStatus::NotFound
            },
    {
        self.model_path = path.clone();
        self.status = if files_present {
            ModelStatus::Ready
        } else {
            ModelStatus::NotFound
        };
    }

    /// After the model directory was removed.
    pub fn delete_model(&mut self)
        ensures
            final(self).status == ModelStatus::NotFound,
            final(self).model_path == old(self).model_path,
    {
        self.status = ModelStatus::NotFound;
    }

    /// A model is available when it is ready, loaded or loading.
    pub fn is_available(&self) -> (r: bool)
        ensures
            r == spec_available(self.status),
    {
        matches!(self.status, ModelStatus::Ready | ModelStatus::Loaded | ModelStatus::Loading)
    }

    pub fn model_dir(&self) -> (d: String)
        ensures
            d@ == self.model_path@,
    {
        self.model_path.clone()
    }

    pub fn set_loaded(&mut self)
        ensures
            final(self).status == ModelStatus::Loaded,
            final(self).model_path == old(self).model_path,
    {
        self.status = ModelStatus::Loaded;
    }

    pub fn set_loading(&mut self)
        ensures
            final(self).status == ModelStatus::Loading,
            final(self).model_path == old(self).model_path,
    {
        self.status = ModelStatus::Loading;
    }

    pub fn set_error(&mut self)
        ensures
            final(self).status == ModelStatus::Error,
            final(self).model_path == old(self).model_path,
    {
        self.status = ModelStatus::Error;
    }
}

/// The model counts as available exactly in the statuses `ready`, `loaded`
/// and `loading`: a model that failed to load, or whose directory holds no
/// model, is not offered for redaction.
pub proof fn lemma_availability(s: ModelStatus)
    ensures
        spec_available(s) <==> (status_name(s) == "ready"@ || status_name(s) == "loaded"@
            || status_name(s) == "loading"@),
{
    reveal_strlit("ready");
    reveal_strlit("loaded");
    reveal_strlit("loading");
    reveal_strlit("not_found");
    reveal_strlit("error");
    assert("ready"@[0] == 'r' && "loaded"@[0] == 'l' && "loading"@[0] == 'l');
    assert("not_found"@[0] == 'n' && "error"@[0] == 'e');
    assert("loaded"@[4] == 'e' && "loading"@[4] == 'i');
}

/// The names the model page shows: `not_found`, `loading`, `ready`,
/// `loaded` and `error`, one per status, so that no two statuses read the
/// same.
pub proof fn lemma_status_names(s: ModelStatus, t: ModelStatus)
    ensures
        status_name(ModelStatus::NotFound) == "not_found"@,
        status_name(ModelStatus::Loading) == "loading"@,
        status_name(ModelStatus::Ready) == "ready"@,
        status_name(ModelStatus::Loaded) == "loaded"@,
        status_name(ModelStatus::Error) == "error"@,
        status_name(s) == status_name(t) ==> s == t,
{
    reveal_strlit("not_found");
    reveal_strlit("loading");
    reveal_strlit("ready");
    reveal_strlit("loaded");
    reveal_strlit("error");
    if status_name(s) == status_name(t) && s != t {
        let a = status_name(s);
        let b = status_name(t);
        assert(a.len() == b.len());
        assert(a[0] == b[0]);
        assert(a[4] == b[4]);
    }
}

} // verus!
