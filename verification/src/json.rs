//! JSON documents as plain values: the tree that `serde_json` reads from bytes,
//! and reading fields from it as `serde_json::Value::get` and `as_str` do.
use vstd::prelude::*;

verus! {

/// `serde_json::Value`, declared so that the reader can hand it on.
#[verifier::external_type_specification]
#[verifier::external_body]
pub struct ExJsonValue(serde_json::Value);

/// A JSON document. Numbers keep their text; an object keeps its members in the
/// order `serde_json` gives them (by key, each key once).
#[derive(Debug)]
pub enum Json {
    Null,
    Bool(bool),
    Number(String),
    Str(String),
    Array(Vec<Json>),
    Object(Vec<(String, Json)>),
}

/// The mathematical form of a JSON document.
pub enum JsonView {
    Null,
    Bool(bool),
    Number(Seq<char>),
    Str(Seq<char>),
    Array(Seq<JsonView>),
    Object(Seq<(Seq<char>, JsonView)>),
}

impl Json {
    pub open spec fn view(&self) -> JsonView
        decreases self,
    {
        match self {
            Json::Null => JsonView::Null,
            Json::Bool(b) => JsonView::Bool(*b),
            Json::Number(n) => JsonView::Number(n@),
            Json::Str(s) => JsonView::Str(s@),
            Json::Array(a) => JsonView::Array(
                Seq::new(a@.len(), |i: int| if 0 <= i < a@.len() { a@[i].view() } else { JsonView::Null }),
            ),
            Json::Object(o) => JsonView::Object(
                Seq::new(
                    o@.len(),
                    |i: int|
                        if 0 <= i < o@.len() {
                            (o@[i].0@, o@[i].1.view())
                        } else {
                            (Seq::empty(), JsonView::Null)
                        },
                ),
            ),
        }
    }
}

/// The optional view of an optional document.
pub open spec fn json_opt_view(j: Option<Json>) -> Option<JsonView> {
    match j {
        Some(d) => Some(d.view()),
        None => None,
    }
}

/// The document that `serde_json` reads from bytes, if they hold one.
pub uninterp spec fn json_of(body: Seq<u8>) -> Option<JsonView>;

/// Converts a `serde_json::Value` into a `Json`, variant for variant; called only
/// by `parse_json`, whose contract covers the conversion.
#[verifier::external_body]
fn json_tree(v: &serde_json::Value) -> (out: Json) {
    match v {
        serde_json::Value::Null => Json::Null,
        serde_json::Value::Bool(b) => Json::Bool(*b),
        serde_json::Value::Number(n) => Json::Number(n.to_string()),
        serde_json::Value::String(s) => Json::Str(s.clone()),
        serde_json::Value::Array(a) => Json::Array(a.iter().map(json_tree).collect()),
        serde_json::Value::Object(o) => Json::Object(
            o.iter().map(|(k, x)| (k.clone(), json_tree(x))).collect(),
        ),
    }
}

/// Wraps `serde_json::from_slice` into a `serde_json::Value`: the document the
/// bytes hold, converted variant for variant, or `None` where `serde_json`
/// reports an error. The document is named; nothing more is stated of it.
#[verifier::external_body]
pub(crate) fn parse_json(body: &[u8]) -> (out: Option<Json>)
    ensures
        json_opt_view(out) == json_of(body@),
{
    serde_json::from_slice::<serde_json::Value>(body).ok().map(|v| json_tree(&v))
}

/// The value of member `key` of an object (the first member with that key);
/// `None` for a missing member or for a document that is not an object, as
/// `serde_json::Value::get` gives.
#[verifier::opaque]
pub open spec fn member(j: JsonView, key: Seq<char>) -> Option<JsonView> {
    match j {
        JsonView::Object(ms) => if exists|i: int| 0 <= i < ms.len() && (#[trigger] ms[i]).0 == key {
            let i = choose|i: int|
                0 <= i < ms.len() && (#[trigger] ms[i]).0 == key && forall|k: int|
                    0 <= k < i ==> ms[k].0 != key;
            Some(ms[i].1)
        } else {
            None
        },
        _ => None,
    }
}

/// The text of a string document, as `serde_json::Value::as_str` gives.
pub open spec fn as_text(j: Option<JsonView>) -> Option<Seq<char>> {
    match j {
        Some(JsonView::Str(s)) => Some(s),
        _ => None,
    }
}

/// The member `key` of `j`, if `j` is an object that has one.
pub fn get<'a>(j: &'a Json, key: &str) -> (out: Option<&'a Json>)
    ensures
        match out {
            Some(v) => member(j.view(), key@) == Some(v.view()),
            None => member(j.view(), key@) is None,
        },
{
    proof {
        reveal(member);
    }
    match j {
        Json::Object(ms) => {
            let ghost mv = j.view();
            let mut i: usize = 0;
            while i < ms.len()
                invariant
                    i <= ms@.len(),
                    mv == j.view(),
                    j == Json::Object(*ms),
                    forall|k: int| 0 <= k < i ==> ms@[k].0@ != key@,
                decreases ms@.len() - i,
            {
                if crate::text::str_eq(ms[i].0.as_str(), key) {
                    proof {
                        reveal(member);
                        let vs = mv->Object_0;
                        assert(vs[i as int] == (ms@[i as int].0@, ms@[i as int].1.view()));
                        assert forall|k: int| 0 <= k < i implies vs[k].0 != key@ by {
                            assert(vs[k] == (ms@[k].0@, ms@[k].1.view()));
                        }
                        let c = choose|c: int|
                            0 <= c < vs.len() && (#[trigger] vs[c]).0 == key@ && forall|k: int|
                                0 <= k < c ==> vs[k].0 != key@;
                        if c < i {
                            assert(vs[c] == (ms@[c].0@, ms@[c].1.view()));
                        }
                        if c > i {
                            assert(vs[i as int].0 == key@);
                        }
                    }
                    return Some(&ms[i].1);
                }
                i = i + 1;
            }
            proof {
                let vs = mv->Object_0;
                assert forall|k: int| 0 <= k < vs.len() implies (#[trigger] vs[k]).0 != key@ by {
                    assert(vs[k] == (ms@[k].0@, ms@[k].1.view()));
                }
            }
            None
        },
        _ => None,
    }
}

/// The text of a document, if it is a string.
pub fn text_of(j: Option<&Json>) -> (out: Option<String>)
    ensures
        match out {
            Some(t) => j is Some && as_text(Some(j->0.view())) == Some(t@),
            None => j is None || as_text(Some(j->0.view())) is None,
        },
{
    match j {
        Some(Json::Str(s)) => Some(s.clone()),
        _ => None,
    }
}

/// The member `key` of an optional document.
pub open spec fn member_of(j: Option<JsonView>, key: Seq<char>) -> Option<JsonView> {
    match j {
        Some(d) => member(d, key),
        None => None,
    }
}

/// The member `key` of an optional document, if it is an object that has one.
pub fn get_in<'a>(j: Option<&'a Json>, key: &str) -> (out: Option<&'a Json>)
    ensures
        match out {
            Some(v) => member_of(opt_ref_view(j), key@) == Some(v.view()),
            None => member_of(opt_ref_view(j), key@) is None,
        },
{
    match j {
        Some(d) => get(d, key),
        None => None,
    }
}

pub open spec fn opt_ref_view(j: Option<&Json>) -> Option<JsonView> {
    match j {
        Some(d) => Some(d.view()),
        None => None,
    }
}

} // verus!
