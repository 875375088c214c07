//! The line protocol spoken with the inference sidecar: one JSON request
//! per line out, JSON replies (among other output) per line in.

use serde_json::Value;
use vstd::prelude::*;

use crate::redaction::{trim_hi, trim_lo};
use crate::config::pairs_view;
use crate::text::{is_whitespace, string_from_chars, to_chars};

verus! {

#[verifier::external_type_specification]
#[verifier::external_body]
pub struct ExJsonValue(Value);

/// The JSON string holding `s` (`Value::String`).
pub uninterp spec fn string_value(s: Seq<char>) -> Value;

/// `Value::String(s)`.
#[verifier::external_body]
fn json_string_value(s: String) -> (r: Value)
    ensures
        r == string_value(s@),
{
    Value::String(s)
}

/// The JSON number `n` (`Value::from` of a `u64`).
pub uninterp spec fn number_value(n: u64) -> Value;

/// `Value::from(n)` for a `u64`.
#[verifier::external_body]
fn json_number_value(n: u64) -> (r: Value)
    ensures
        r == number_value(n),
{
    Value::from(n)
}

/// The JSON object collected from `members` by `Value::from_iter` (a later
/// member replaces an earlier one with the same key).
pub uninterp spec fn object_value(members: Seq<(Seq<char>, Value)>) -> Value;

/// `Value::from_iter` over key-value members.
#[verifier::external_body]
fn json_object_value(members: Vec<(String, Value)>) -> (r: Value)
    ensures
        r == object_value(members@.map_values(|m: (String, Value)| (m.0@, m.1))),
{
    Value::from_iter(members)
}

/// The text that `serde_json::to_string` writes for `v`.
pub uninterp spec fn json_text(v: Value) -> Seq<char>;

/// `serde_json::to_string` of a `Value`. It cannot fail for a `Value`
/// (object keys are strings); the error arm is never taken.
#[verifier::external_body]
fn json_to_string(v: &Value) -> (r: String)
    ensures
        r@ == json_text(*v),
{
    match serde_json::to_string(v) {
        Ok(s) => s,
        Err(_) => String::new(),
    }
}

/// The request that asks the sidecar to run `cmd` with the string
/// parameters `params` under request id `id`:
/// `{"id": id, "cmd": cmd, "params": {name: value, ...}}`.
pub open spec fn request_value(id: u64, cmd: Seq<char>, params: Seq<(Seq<char>, Seq<char>)>) -> Value {
    object_value(
        seq![
            ("id"@, number_value(id)),
            ("cmd"@, string_value(cmd)),
            ("params"@, object_value(params.map_values(|p: (Seq<char>, Seq<char>)| (p.0, string_value(p.1))))),
        ],
    )
}

/// Builds the request line that asks the sidecar to run `cmd` with string
/// parameters `params` under request id `id`: the request serialized by
/// `serde_json`, and a newline.
pub fn request_line(id: u64, cmd: &str, params: &Vec<(String, String)>) -> (r: String)
    ensures
        r@ == json_text(request_value(id, cmd@, pairs_view(params@))) + seq!['\n'],
{
    let ghost pv = pairs_view(params@);
    let ghost spec_members = pv.map_values(|p: (Seq<char>, Seq<char>)| (p.0, string_value(p.1)));
    let mut members: Vec<(String, Value)> = Vec::new();
    let mut i: usize = 0;
    while i < params.len()
        invariant
            i <= params.len(),
            pv == pairs_view(params@),
            spec_members == pv.map_values(|p: (Seq<char>, Seq<char>)| (p.0, string_value(p.1))),
            members@.len() == i,
            members@.map_values(|m: (String, Value)| (m.0@, m.1)) == spec_members.take(i as int),
        decreases params.len() - i,
    {
        assert(pv[i as int] == (params@[i as int].0@, params@[i as int].1@));
        assert(spec_members[i as int] == (params@[i as int].0@, string_value(params@[i as int].1@)));
        let ghost before = members@;
        let v = json_string_value(params[i].1.clone());
        let k = params[i].0.clone();
        assert(k@ == params@[i as int].0@);
        members.push((k, v));
        assert(members@[i as int].0@ == params@[i as int].0@);
        assert(members@[i as int].1 == string_value(params@[i as int].1@));
        assert(forall|j: int| 0 <= j < i ==> members@[j] == before[j]);
        i += 1;
        assert(members@.map_values(|m: (String, Value)| (m.0@, m.1)) =~= spec_members.take(i as int));
    }
    assert(spec_members.take(params.len() as int) =~= spec_members);
    let inner = json_object_value(members);
    let mut top: Vec<(String, Value)> = Vec::new();
    top.push(("id".to_owned(), json_number_value(id)));
    top.push(("cmd".to_owned(), json_string_value(cmd.to_owned())));
    top.push(("params".to_owned(), inner));
    assert(top@.map_values(|m: (String, Value)| (m.0@, m.1)) =~= seq![
        ("id"@, number_value(id)),
        ("cmd"@, string_value(cmd@)),
        ("params"@, object_value(spec_members)),
    ]);
    let request = json_object_value(top);
    let text = json_to_string(&request);
    let mut out = to_chars(text.as_str());
    out.push('\n');
    string_from_chars(out.as_slice())
}

/// The member `key` of a JSON object (`Value::get` with a string key).
pub uninterp spec fn member_of(v: Value, key: Seq<char>) -> Option<Value>;

/// `Value::get(key)`, the member copied out.
#[verifier::external_body]
fn json_member(v: &Value, key: &str) -> (r: Option<Value>)
    ensures
        r == member_of(*v, key@),
{
    v.get(key).cloned()
}

/// The text of a JSON string (`Value::as_str`).
pub uninterp spec fn str_of(v: Value) -> Option<Seq<char>>;

/// `Value::as_str`, the text copied out.
#[verifier::external_body]
fn json_as_str(v: &Value) -> (r: Option<String>)
    ensures
        match r {
            Some(s) => str_of(*v) == Some(s@),
            None => str_of(*v) is None,
        },
{
    match v.as_str() {
        Some(s) => Some(s.to_owned()),
        None => None,
    }
}

/// The value of a JSON boolean (`Value::as_bool`).
pub uninterp spec fn bool_of(v: Value) -> Option<bool>;

/// `Value::as_bool`.
#[verifier::external_body]
fn json_as_bool(v: &Value) -> (r: Option<bool>)
    ensures
        r == bool_of(*v),
{
    v.as_bool()
}

/// The text of the string member `key` of a reply, if it has one.
pub open spec fn text_member(v: Value, key: Seq<char>) -> Option<Seq<char>> {
    match member_of(v, key) {
        Some(m) => str_of(m),
        None => None,
    }
}

fn text_member_of(v: &Value, key: &str) -> (r: Option<String>)
    ensures
        match r {
            Some(s) => text_member(*v, key@) == Some(s@),
            None => text_member(*v, key@) is None,
        },
{
    match json_member(v, key) {
        Some(m) => json_as_str(&m),
        None => None,
    }
}

/// The message of a reply that reports an error: its string member
/// `error`, if it has one.
pub fn reply_error(resp: &Value) -> (r: Option<String>)
    ensures
        match r {
            Some(e) => text_member(*resp, "error"@) == Some(e@),
            None => text_member(*resp, "error"@) is None,
        },
{
    text_member_of(resp, "error")
}

/// Whether the sidecar's first line announces that it is ready: its member
/// `ready` is the boolean `true`.
pub fn is_ready_signal(v: &Value) -> (r: bool)
    ensures
        r == match member_of(*v, "ready"@) {
            Some(m) => bool_of(m) == Some(true),
            None => false,
        },
{
    match json_member(v, "ready") {
        Some(m) => match json_as_bool(&m) {
            Some(b) => b,
            None => false,
        },
        None => false,
    }
}

/// Whether a health reply reports the model as working: its member
/// `status` is the string `ok`.
pub fn reports_ok(resp: &Value) -> (r: bool)
    ensures
        r == (text_member(*resp, "status"@) == Some("ok"@)),
{
    match text_member_of(resp, "status") {
        Some(s) => {
            let ok = "ok".to_owned();
            s == ok
        },
        None => false,
    }
}

/// `s` without leading and trailing white space (`str::trim`).
pub open spec fn trimmed(s: Seq<char>) -> Seq<char> {
    let lo = trim_lo(s, 0, s.len() as int);
    s.subrange(lo, trim_hi(s, lo, s.len() as int))
}

/// Whether `serde_json` accepts `s` as one JSON value.
pub uninterp spec fn is_json_text(s: Seq<char>) -> bool;

/// The value that `serde_json::from_str::<Value>` reads from `s`, where it
/// accepts `s`.
pub uninterp spec fn parsed_json(s: Seq<char>) -> Value;

/// `serde_json::from_str::<Value>`, the value kept where the text parses.
/// Whether it parses and what it parses to are named, not spelled out.
#[verifier::external_body]
fn parse_json_value(s: &str) -> (r: Option<Value>)
    ensures
        r == if is_json_text(s@) {
            Some(parsed_json(s@))
        } else {
            None
        },
{
    serde_json::from_str::<Value>(s).ok()
}

/// What a line read from the sidecar's output means.
pub enum ReplyLine {
    /// The sidecar closed its output (a read of zero bytes).
    Closed,
    /// Blank or not JSON: skip it and read on.
    Skip,
    /// A JSON reply.
    Reply(Value),
}

/// Classifies a line read from the sidecar (`bytes_read` is what the read
/// returned): a reply is a line whose trimmed text parses as JSON, and it
/// carries the value parsed from that text.
pub fn classify_reply_line(bytes_read: usize, line: &str) -> (r: ReplyLine)
    ensures
        bytes_read == 0 ==> r is Closed,
        bytes_read != 0 && trimmed(line@).len() == 0 ==> r is Skip,
        bytes_read != 0 && trimmed(line@).len() > 0 ==> (r is Reply <==> is_json_text(
            trimmed(line@),
        )) && (r is Skip <==> !is_json_text(trimmed(line@))),
        r matches ReplyLine::Reply(v) ==> bytes_read != 0 && v == parsed_json(trimmed(line@)),
{
    if bytes_read == 0 {
        return ReplyLine::Closed;
    }
    let chars = to_chars(line);
    let n = chars.len();
    let mut lo: usize = 0;
    while lo < n && is_whitespace(chars[lo])
        invariant
            lo <= n == chars@.len(),
            chars@ == line@,
            trim_lo(chars@, 0, n as int) == trim_lo(chars@, lo as int, n as int),
        decreases n - lo,
    {
        lo += 1;
    }
    let mut hi: usize = n;
    while hi > lo && is_whitespace(chars[hi - 1])
        invariant
            lo <= hi <= n == chars@.len(),
            trim_hi(chars@, lo as int, n as int) == trim_hi(chars@, lo as int, hi as int),
        decreases hi,
    {
        hi -= 1;
    }
    if lo == hi {
        return ReplyLine::Skip;
    }
    let t = string_from_chars(crate::text::sub_chars(&chars, lo, hi).as_slice());
    match parse_json_value(t.as_str()) {
        Some(v) => ReplyLine::Reply(v),
        None => ReplyLine::Skip,
    }
}

} // verus!
