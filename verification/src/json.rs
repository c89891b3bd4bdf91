//! JSON: values are handled as the texts that stand for them, and read one
//! level at a time.
use crate::lists;
use crate::text;
use crate::text::str_eq;
use serde_json::{from_str, to_string_pretty, Value};
use vstd::prelude::*;
use vstd::string::*;

verus! {

/// What a JSON text holds. Elements and members are JSON texts again.
#[derive(Debug, Clone, PartialEq, Eq)]
pub enum Level {
    Null,
    Bool(bool),
    /// A number, as far as it is an integer that fits.
    Number { unsigned: Option<u64>, signed: Option<i64> },
    Text(String),
    Array(Vec<String>),
    Object(Vec<(String, String)>),
}

/// The contents of a [`Level`].
pub enum LevelView {
    Null,
    Bool(bool),
    Number { unsigned: Option<u64>, signed: Option<i64> },
    Text(Seq<char>),
    Array(Seq<Seq<char>>),
    Object(Seq<(Seq<char>, Seq<char>)>),
}

impl View for Level {
    type V = LevelView;

    open spec fn view(&self) -> LevelView {
        match *self {
            Level::Null => LevelView::Null,
            Level::Bool(b) => LevelView::Bool(b),
            Level::Number { unsigned, signed } => LevelView::Number { unsigned, signed },
            Level::Text(s) => LevelView::Text(s@),
            Level::Array(a) => LevelView::Array(text::views(a@)),
            Level::Object(o) => LevelView::Object(member_views(o@)),
        }
    }
}

/// The contents of a list of members.
pub open spec fn member_views(o: Seq<(String, String)>) -> Seq<(Seq<char>, Seq<char>)> {
    o.map_values(|m: (String, String)| (m.0@, m.1@))
}

/// The contents of what was read, or why nothing was.
pub open spec fn result_view(r: Result<Level, String>) -> Result<LevelView, Seq<char>> {
    match r {
        Ok(l) => Ok(l@),
        Err(e) => Err(e@),
    }
}

/// What a text holds as JSON, or why it holds nothing.
pub uninterp spec fn reading(s: Seq<char>) -> Result<LevelView, Seq<char>>;

/// `serde_json::from_str` into a `Value`: the value, or the error in words, is
/// a function of the text alone. Elements and members are given as the texts
/// into which the value writes them.
#[verifier::external_body]
pub(crate) fn read(s: &str) -> (r: Result<Level, String>)
    ensures
        result_view(r) == reading(s@),
{
    Ok(match from_str::<Value>(s).map_err(|e| e.to_string())? {
        Value::Null => Level::Null,
        Value::Bool(b) => Level::Bool(b),
        Value::Number(n) => Level::Number { unsigned: n.as_u64(), signed: n.as_i64() },
        Value::String(s) => Level::Text(s),
        Value::Array(a) => Level::Array(a.iter().map(|v| v.to_string()).collect()),
        Value::Object(o) => Level::Object(o.iter().map(|(k, v)| (k.clone(), v.to_string())).collect()),
    })
}

/// The JSON text of a string.
pub uninterp spec fn json_string(s: Seq<char>) -> Seq<char>;

/// `Value::from` a string and its `to_string`: a function of the text alone.
#[verifier::external_body]
pub(crate) fn quote(s: &str) -> (r: String)
    ensures
        r@ == json_string(s@),
{
    Value::from(s).to_string()
}

/// A JSON text laid out over lines.
pub uninterp spec fn json_lines(s: Seq<char>) -> Option<Seq<char>>;

/// `serde_json::to_string_pretty` of the value that a text holds: a function
/// of the text alone, and none where the text is no JSON.
#[verifier::external_body]
fn lay_out(s: &str) -> (r: Option<String>)
    ensures
        text::opt_view(r) == json_lines(s@),
{
    to_string_pretty(&from_str::<Value>(s).ok()?).ok()
}

/// A JSON text laid out over lines; what is no JSON stays as it is.
pub open spec fn pretty_text(s: Seq<char>) -> Seq<char> {
    match json_lines(s) {
        Some(t) => t,
        None => s,
    }
}

/// A JSON text laid out over lines.
pub fn pretty(s: &str) -> (r: String)
    ensures
        r@ == pretty_text(s@),
{
    match lay_out(s) {
        Some(t) => t,
        None => s.to_owned(),
    }
}

/// The members of an object; none where the text holds no object.
pub open spec fn members_of(l: Result<LevelView, Seq<char>>) -> Option<
    Seq<(Seq<char>, Seq<char>)>,
> {
    match l {
        Ok(LevelView::Object(o)) => Some(o),
        _ => None,
    }
}

/// The condition that a member has a key.
pub open spec fn has_key(key: Seq<char>) -> spec_fn((Seq<char>, Seq<char>)) -> bool {
    |m: (Seq<char>, Seq<char>)| m.0 == key
}

/// The member of an object under a key, as a JSON text.
pub open spec fn member_in(l: Result<LevelView, Seq<char>>, key: Seq<char>) -> Option<Seq<char>> {
    match members_of(l) {
        Some(o) => match lists::first_index(o, has_key(key)) {
            Some(i) => Some(o[i].1),
            None => None,
        },
        None => None,
    }
}

/// The member of an object under a key, as a JSON text.
pub open spec fn member(s: Seq<char>, key: Seq<char>) -> Option<Seq<char>> {
    member_in(reading(s), key)
}

/// The string that a JSON text holds.
pub open spec fn string_of(s: Seq<char>) -> Option<Seq<char>> {
    match reading(s) {
        Ok(LevelView::Text(t)) => Some(t),
        _ => None,
    }
}

/// The string under a key.
pub open spec fn string_at(s: Seq<char>, key: Seq<char>) -> Option<Seq<char>> {
    match member(s, key) {
        Some(v) => string_of(v),
        None => None,
    }
}

/// The integer that is not negative under a key.
pub open spec fn unsigned_at(s: Seq<char>, key: Seq<char>) -> Option<u64> {
    match member(s, key) {
        Some(v) => match reading(v) {
            Ok(LevelView::Number { unsigned, .. }) => unsigned,
            _ => None,
        },
        None => None,
    }
}

/// The integer under a key.
pub open spec fn signed_at(s: Seq<char>, key: Seq<char>) -> Option<i64> {
    match member(s, key) {
        Some(v) => match reading(v) {
            Ok(LevelView::Number { signed, .. }) => signed,
            _ => None,
        },
        None => None,
    }
}

/// The member of an object under a key, as a JSON text.
pub fn get(s: &str, key: &str) -> (r: Option<String>)
    ensures
        text::opt_view(r) == member(s@, key@),
{
    let level = read(s);
    get_in(&level, key)
}

/// The member under a key of what was read, as a JSON text.
pub fn get_in(level: &Result<Level, String>, key: &str) -> (r: Option<String>)
    ensures
        text::opt_view(r) == member_in(result_view(*level), key@),
{
    match level {
        Ok(Level::Object(o)) => {
            let ghost p = has_key(key@);
            let ghost all = member_views(o@);
            let mut i: usize = 0;
            while i < o.len()
                invariant
                    i <= o@.len(),
                    all == member_views(o@),
                    members_of(result_view(*level)) == Some(all),
                    p == has_key(key@),
                    forall|j: int| 0 <= j < i ==> !p(#[trigger] all[j]),
                decreases o@.len() - i,
            {
                assert(all[i as int] == (o@[i as int].0@, o@[i as int].1@));
                if str_eq(o[i].0.as_str(), key) {
                    proof {
                        lists::lemma_is_first_index(all, p, i as int);
                    }
                    return Some(o[i].1.clone());
                }
                i = i + 1;
            }
            proof {
                lists::lemma_no_first_index(all, p);
            }
            None
        },
        _ => None,
    }
}

/// The string that a JSON text holds.
pub fn as_str(s: &str) -> (r: Option<String>)
    ensures
        text::opt_view(r) == string_of(s@),
{
    match read(s) {
        Ok(Level::Text(t)) => Some(t),
        _ => None,
    }
}

/// The string under a key.
pub fn str_at(s: &str, key: &str) -> (r: Option<String>)
    ensures
        text::opt_view(r) == string_at(s@, key@),
{
    match get(s, key) {
        Some(v) => as_str(v.as_str()),
        None => None,
    }
}

/// The integer that is not negative under a key.
pub fn u64_at(s: &str, key: &str) -> (r: Option<u64>)
    ensures
        r == unsigned_at(s@, key@),
{
    match get(s, key) {
        Some(v) => match read(v.as_str()) {
            Ok(Level::Number { unsigned, .. }) => unsigned,
            _ => None,
        },
        None => None,
    }
}

/// The integer under a key.
pub fn i64_at(s: &str, key: &str) -> (r: Option<i64>)
    ensures
        r == signed_at(s@, key@),
{
    match get(s, key) {
        Some(v) => match read(v.as_str()) {
            Ok(Level::Number { signed, .. }) => signed,
            _ => None,
        },
        None => None,
    }
}

/// What is read under a key of an object, where the first member with the key is
/// the one at `k`: a string only where the member is one, and a number only where
/// it is one of that kind. Under a key that no member has there is nothing.
pub proof fn law_what_is_under_a_key(s: Seq<char>, o: Seq<(Seq<char>, Seq<char>)>, k: int)
    requires
        reading(s) == Ok::<LevelView, Seq<char>>(LevelView::Object(o)),
        0 <= k < o.len(),
        forall|j: int| 0 <= j < k ==> (#[trigger] o[j]).0 != o[k].0,
    ensures
        member(s, o[k].0) == Some(o[k].1),
        string_at(s, o[k].0) == (match reading(o[k].1) {
            Ok(LevelView::Text(t)) => Some(t),
            _ => None,
        }),
        unsigned_at(s, o[k].0) == (match reading(o[k].1) {
            Ok(LevelView::Number { unsigned, signed }) => unsigned,
            _ => None,
        }),
        signed_at(s, o[k].0) == (match reading(o[k].1) {
            Ok(LevelView::Number { unsigned, signed }) => signed,
            _ => None,
        }),
{
    lists::lemma_is_first_index(o, has_key(o[k].0), k);
}

/// Nothing is under a key that no member has, nor in what is no object.
pub proof fn law_nothing_under_other_keys(s: Seq<char>, key: Seq<char>)
    requires
        reading(s) matches Ok(LevelView::Object(o)) ==> forall|j: int|
            0 <= j < o.len() ==> (#[trigger] o[j]).0 != key,
    ensures
        member(s, key) is None,
        string_at(s, key) is None,
        unsigned_at(s, key) is None,
        signed_at(s, key) is None,
{
    match reading(s) {
        Ok(LevelView::Object(o)) => lists::lemma_no_first_index(o, has_key(key)),
        _ => {},
    }
}

} // verus!
