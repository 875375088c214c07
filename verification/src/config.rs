//! Model-directory conventions: the placeholder of each entity, the
//! defaults of the model configuration, and where a model lives.

use std::collections::HashMap;
use vstd::prelude::*;

use crate::text::{string_from_chars, to_chars, to_upper, upper_case};

verus! {

/// Pairs of strings, as characters.
pub open spec fn pairs_view(v: Seq<(String, String)>) -> Seq<(Seq<char>, Seq<char>)> {
    v.map_values(|p: (String, String)| (p.0@, p.1@))
}

/// The entity names the model knows, with their placeholders.
pub open spec fn placeholder_pairs() -> Seq<(Seq<char>, Seq<char>)> {
    seq![
        ("account_number"@, "[ACCOUNT_NUMBER]"@),
        ("private_address"@, "[ADDRESS]"@),
        ("private_date"@, "[DATE]"@),
        ("private_email"@, "[EMAIL]"@),
        ("private_person"@, "[PERSON]"@),
        ("private_phone"@, "[PHONE]"@),
        ("private_url"@, "[URL]"@),
        ("secret"@, "[SECRET]"@),
    ]
}

/// The placeholder of each known entity name.
pub fn placeholder_map() -> (m: Vec<(String, String)>)
    ensures
        pairs_view(m@) == placeholder_pairs(),
{
    let mut m: Vec<(String, String)> = Vec::new();
    m.push(("account_number".to_owned(), "[ACCOUNT_NUMBER]".to_owned()));
    m.push(("private_address".to_owned(), "[ADDRESS]".to_owned()));
    m.push(("private_date".to_owned(), "[DATE]".to_owned()));
    m.push(("private_email".to_owned(), "[EMAIL]".to_owned()));
    m.push(("private_person".to_owned(), "[PERSON]".to_owned()));
    m.push(("private_phone".to_owned(), "[PHONE]".to_owned()));
    m.push(("private_url".to_owned(), "[URL]".to_owned()));
    m.push(("secret".to_owned(), "[SECRET]".to_owned()));
    assert(pairs_view(m@) =~= placeholder_pairs());
    m
}

/// Each known entity name occurs once, and no two of them share a
/// placeholder.
pub proof fn lemma_placeholder_pairs_distinct()
    ensures
        forall|i: int, j: int|
            0 <= i < j < placeholder_pairs().len() ==> (#[trigger] placeholder_pairs()[i]).0
                != (#[trigger] placeholder_pairs()[j]).0 && placeholder_pairs()[i].1
                != placeholder_pairs()[j].1,
{
    reveal_strlit("account_number");
    reveal_strlit("private_address");
    reveal_strlit("private_date");
    reveal_strlit("private_email");
    reveal_strlit("private_person");
    reveal_strlit("private_phone");
    reveal_strlit("private_url");
    reveal_strlit("secret");
    reveal_strlit("[ACCOUNT_NUMBER]");
    reveal_strlit("[ADDRESS]");
    reveal_strlit("[DATE]");
    reveal_strlit("[EMAIL]");
    reveal_strlit("[PERSON]");
    reveal_strlit("[PHONE]");
    reveal_strlit("[URL]");
    reveal_strlit("[SECRET]");
    let p = placeholder_pairs();
    let key_lens = seq![14int, 15, 12, 13, 14, 13, 11, 6];
    let value_lens = seq![16int, 9, 6, 7, 8, 7, 5, 8];
    assert forall|i: int| 0 <= i < 8 implies p[i].0.len() == key_lens[i] && p[i].1.len()
        == value_lens[i] by {}
    assert(p[0].0[0] != p[4].0[0]);
    assert(p[3].0[8] != p[5].0[8]);
    assert(p[3].1[1] != p[5].1[1]);
    assert(p[4].1[1] != p[7].1[1]);
    assert forall|i: int, j: int| 0 <= i < j < p.len() implies (#[trigger] p[i]).0 != (
    #[trigger] p[j]).0 && p[i].1 != p[j].1 by {
        if p[i].0 == p[j].0 {
            assert(p[i].0.len() == p[j].0.len());
        }
        if p[i].1 == p[j].1 {
            assert(p[i].1.len() == p[j].1.len());
        }
    }
}

/// The value of the first pair whose key is `key`.
pub open spec fn lookup_pair(pm: Seq<(Seq<char>, Seq<char>)>, key: Seq<char>) -> Option<Seq<char>>
    decreases pm.len(),
{
    if pm.len() == 0 {
        None
    } else if pm[0].0 == key {
        Some(pm[0].1)
    } else {
        lookup_pair(pm.drop_first(), key)
    }
}

/// Looking up a key of a table whose keys are distinct gives the value paired
/// with it, wherever it stands; a key the table lacks gives nothing.
pub proof fn lemma_lookup_finds_pair(pm: Seq<(Seq<char>, Seq<char>)>, i: int, key: Seq<char>)
    requires
        forall|a: int, b: int| 0 <= a < b < pm.len() ==> (#[trigger] pm[a]).0 != (#[trigger] pm[b]).0,
    ensures
        0 <= i < pm.len() ==> lookup_pair(pm, pm[i].0) == Some(pm[i].1),
        (forall|j: int| 0 <= j < pm.len() ==> (#[trigger] pm[j]).0 != key) ==> lookup_pair(pm, key) is None,
    decreases pm.len(),
{
    if pm.len() > 0 {
        let rest = pm.drop_first();
        assert forall|a: int, b: int| 0 <= a < b < rest.len() implies (#[trigger] rest[a]).0 != (
        #[trigger] rest[b]).0 by {
            assert(rest[a] == pm[a + 1] && rest[b] == pm[b + 1]);
        }
        if 0 < i < pm.len() {
            assert(pm[i] == rest[i - 1]);
            assert(pm[0].0 != pm[i].0);
        }
        lemma_lookup_finds_pair(rest, i - 1, key);
        if forall|j: int| 0 <= j < pm.len() ==> (#[trigger] pm[j]).0 != key {
            assert forall|j: int| 0 <= j < rest.len() implies (#[trigger] rest[j]).0 != key by {
                assert(rest[j] == pm[j + 1]);
            }
            assert(pm[0].0 != key);
            lemma_lookup_finds_pair(rest, i - 1, key);
        }
    }
}

/// The placeholder of an entity: the mapped one, or the upper-cased name in
/// square brackets.
pub open spec fn placeholder_spec(pm: Seq<(Seq<char>, Seq<char>)>, label: Seq<char>) -> Seq<char> {
    match lookup_pair(pm, label) {
        Some(p) => p,
        None => seq!['['] + upper_case(label) + seq![']'],
    }
}

/// The placeholder that replaces a span of entity `label`.
pub fn placeholder_for(placeholders: &Vec<(String, String)>, label: &String) -> (p: String)
    ensures
        p@ == placeholder_spec(pairs_view(placeholders@), label@),
{
    let ghost pm = pairs_view(placeholders@);
    let mut i: usize = 0;
    assert(pm.skip(0) =~= pm);
    while i < placeholders.len()
        invariant
            i <= placeholders.len(),
            pm == pairs_view(placeholders@),
            lookup_pair(pm, label@) == lookup_pair(pm.skip(i as int), label@),
        decreases placeholders.len() - i,
    {
        assert(pm.skip(i as int)[0] == pm[i as int]);
        assert(pm.skip(i as int).drop_first() =~= pm.skip(i + 1));
        if placeholders[i].0 == *label {
            return placeholders[i].1.clone();
        }
        i += 1;
    }
    assert(pm.skip(i as int) =~= Seq::<(Seq<char>, Seq<char>)>::empty());
    let up = to_chars(to_upper(label.as_str()).as_str());
    let mut out: Vec<char> = Vec::new();
    out.push('[');
    let mut k: usize = 0;
    while k < up.len()
        invariant
            k <= up.len(),
            out@ == seq!['['] + up@.take(k as int),
        decreases up.len() - k,
    {
        out.push(up[k]);
        k += 1;
        assert(out@ =~= seq!['['] + up@.take(k as int));
    }
    out.push(']');
    assert(up@.take(up.len() as int) =~= up@);
    assert(out@ =~= seq!['['] + upper_case(label@) + seq![']']);
    string_from_chars(out.as_slice())
}

/// Default `original_max_position_embeddings` of the rotary embedding.
pub fn default_original_max_pos() -> (r: i64)
    ensures
        r == 4096,
{
    4096
}

/// Default attention window, in tokens.
pub fn default_sliding_window() -> (r: usize)
    ensures
        r == 128,
{
    128
}

/// The integer and string settings of a model's `config.json` that the
/// library reads (the floating-point ones stay with the inference backend).
pub struct ModelConfig {
    pub architectures: Vec<String>,
    pub hidden_size: usize,
    pub intermediate_size: usize,
    pub num_hidden_layers: usize,
    pub num_attention_heads: usize,
    pub num_key_value_heads: usize,
    pub head_dim: usize,
    pub vocab_size: usize,
    pub num_local_experts: usize,
    pub num_experts_per_tok: usize,
    pub sliding_window: usize,
    pub max_position_embeddings: usize,
    pub id2label: HashMap<String, String>,
}

impl ModelConfig {
    /// Number of labels of the classifier.
    pub fn num_labels(&self) -> (n: usize)
        ensures
            n == self.id2label.len(),
    {
        self.id2label.len()
    }

    /// The first listed architecture, or `unknown`.
    pub fn architecture(&self) -> (a: &str)
        ensures
            a@ == if self.architectures@.len() > 0 {
                self.architectures@[0]@
            } else {
                "unknown"@
            },
    {
        if self.architectures.len() > 0 {
            self.architectures[0].as_str()
        } else {
            "unknown"
        }
    }

    /// The model's name: the last component of its directory, or `unknown`.
    pub fn model_name(model_dir: &str) -> (n: String)
        ensures
            n@ == match path_file_name_of(model_dir@) {
                Some(f) => f,
                None => "unknown"@,
            },
    {
        match path_file_name(model_dir) {
            Some(f) => f,
            None => "unknown".to_owned(),
        }
    }
}

/// What the model page shows of a loaded model.
#[derive(Debug, Clone)]
pub struct ModelInfo {
    pub name: String,
    pub architecture: String,
    pub num_labels: i32,
    pub hidden_size: i64,
    pub vocab_size: i64,
    pub max_position_embeddings: i64,
}

impl ModelInfo {
    /// A copy of the description.
    pub fn clone_info(&self) -> (c: ModelInfo)
        ensures
            c == *self,
    {
        ModelInfo {
            name: self.name.clone(),
            architecture: self.architecture.clone(),
            num_labels: self.num_labels,
            hidden_size: self.hidden_size,
            vocab_size: self.vocab_size,
            max_position_embeddings: self.max_position_embeddings,
        }
    }

    /// The description of a model named `name` with configuration `config`
    /// (counts converted with `as`, as the shell displays them).
    pub fn from_config(name: String, config: &ModelConfig) -> (info: ModelInfo)
        ensures
            info.name@ == name@,
            info.architecture@ == if config.architectures@.len() > 0 {
                config.architectures@[0]@
            } else {
                "unknown"@
            },
            info.num_labels == config.id2label.len() as i32,
            info.hidden_size == config.hidden_size as i64,
            info.vocab_size == config.vocab_size as i64,
            info.max_position_embeddings == config.max_position_embeddings as i64,
    {
        let architecture = config.architecture().to_owned();
        ModelInfo {
            name,
            architecture,
            num_labels: config.num_labels() as i32,
            hidden_size: config.hidden_size as i64,
            vocab_size: config.vocab_size as i64,
            max_position_embeddings: config.max_position_embeddings as i64,
        }
    }
}

/// What `Path::parent` gives for a path: the path without its last
/// component, or nothing for a root, a prefix or the empty path.
pub uninterp spec fn path_parent_of(p: Seq<char>) -> Option<Seq<char>>;

/// What `Path::file_name` gives for a path: its last normal component, or
/// nothing when it ends in `..` or is a root.
pub uninterp spec fn path_file_name_of(p: Seq<char>) -> Option<Seq<char>>;

/// `Path::parent` of a path given as a string (the parent of a `str` path
/// is a `str` again).
#[verifier::external_body]
fn path_parent(p: &str) -> (r: Option<String>)
    ensures
        match r {
            Some(s) => path_parent_of(p@) == Some(s@),
            None => path_parent_of(p@) is None,
        },
{
    std::path::Path::new(p).parent().map(|q| q.to_string_lossy().into_owned())
}

/// `Path::file_name` of a path given as a string.
#[verifier::external_body]
fn path_file_name(p: &str) -> (r: Option<String>)
    ensures
        match r {
            Some(s) => path_file_name_of(p@) == Some(s@),
            None => path_file_name_of(p@) is None,
        },
{
    std::path::Path::new(p).file_name().map(|q| q.to_string_lossy().into_owned())
}

/// Why a model path could not be resolved to a directory.
#[derive(Debug)]
pub enum ModelDirError {
    /// The path names a file that has no parent directory.
    NoParent,
    /// Nothing exists at the path; the payload is the path.
    NotFound(String),
}

/// The directory of a model: the path itself when it is a directory, the
/// parent directory when it is a file. Whether the path is a directory or
/// a file is looked up on disk by the caller.
pub fn resolve_model_dir(model_path: &str, is_dir: bool, is_file: bool) -> (r: Result<
    String,
    ModelDirError,
>)
    ensures
        is_dir ==> (r matches Ok(d) && d@ == model_path@),
        !is_dir && is_file ==> match path_parent_of(model_path@) {
            Some(p) => (r matches Ok(d) && d@ == p),
            None => r matches Err(ModelDirError::NoParent),
        },
        !is_dir && !is_file ==> (r matches Err(ModelDirError::NotFound(p)) && p@ == model_path@),
{
    if is_dir {
        return Ok(model_path.to_owned());
    }
    if is_file {
        return match path_parent(model_path) {
            Some(p) => Ok(p),
            None => Err(ModelDirError::NoParent),
        };
    }
    Err(ModelDirError::NotFound(model_path.to_owned()))
}

} // verus!
