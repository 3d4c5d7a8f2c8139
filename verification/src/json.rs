//! Navigation of JSON values with a known structure, as the wiki API
//! returns them: a path of keys (or `Only`, the sole element of an object
//! or array) leads to the value, and every failure reports the path walked
//! so far.

use vstd::prelude::*;

use crate::sections::dec_string;

verus! {

use vstd::string::StringExecFns;

/// A JSON value. Numbers carry the unsigned integers the wiki API uses for
/// revision identifiers.
#[derive(Debug)]
pub enum JsonValue {
    Null,
    Boolean(bool),
    Number(u64),
    String(String),
    Array(Vec<JsonValue>),
    Object(Vec<(String, JsonValue)>),
}

/// A single element of a JSON path.
#[derive(Clone, Copy, Debug)]
pub enum JsonPathElement {
    /// A specific, known key.
    Key(&'static str),
    /// The only key in an object (or the only element of an array).
    Only,
}

/// The value stored under the first pair with key `k`, if any.
pub open spec fn spec_object_get(pairs: Seq<(String, JsonValue)>, k: Seq<char>) -> Option<
    JsonValue,
>
    decreases pairs.len(),
{
    if pairs.len() == 0 {
        None
    } else if pairs[0].0@ == k {
        Some(pairs[0].1)
    } else {
        spec_object_get(pairs.drop_first(), k)
    }
}

/// Where one step of the path leads from `json`, if anywhere.
pub open spec fn spec_step(json: JsonValue, elem: JsonPathElement) -> Option<JsonValue> {
    match elem {
        JsonPathElement::Key(key) => match json {
            JsonValue::Object(obj) => spec_object_get(obj@, key@),
            _ => None,
        },
        JsonPathElement::Only => match json {
            JsonValue::Object(obj) => if obj@.len() == 1 {
                Some(obj@[0].1)
            } else {
                None
            },
            JsonValue::Array(vec) => if vec@.len() == 1 {
                Some(vec@[0])
            } else {
                None
            },
            _ => None,
        },
    }
}

/// Where the whole path from position `index` on leads, if anywhere.
pub open spec fn spec_get_json(json: JsonValue, path: Seq<JsonPathElement>, index: int) -> Option<
    JsonValue,
>
    decreases path.len() - index,
{
    if index < 0 || index > path.len() {
        None
    } else if index == path.len() {
        Some(json)
    } else {
        match spec_step(json, path[index]) {
            Some(v) => spec_get_json(v, path, index + 1),
            None => None,
        }
    }
}

/// The characters of `(root)`.
pub open spec fn root_chars() -> Seq<char> {
    seq!['(', 'r', 'o', 'o', 't', ')']
}

/// The characters of `(only)`.
pub open spec fn only_chars() -> Seq<char> {
    seq!['(', 'o', 'n', 'l', 'y', ')']
}

/// How one path element prints.
pub open spec fn elem_chars(e: JsonPathElement) -> Seq<char> {
    match e {
        JsonPathElement::Key(k) => k@,
        JsonPathElement::Only => only_chars(),
    }
}

/// How a path prefix prints: the root, then each element after a dot.
pub open spec fn spec_pretty(path: Seq<JsonPathElement>) -> Seq<char>
    decreases path.len(),
{
    if path.len() == 0 {
        root_chars()
    } else {
        spec_pretty(path.drop_last()) + seq!['.'] + elem_chars(path.last())
    }
}

/// Prints a path for error messages: the root, then each element after a
/// dot.
pub fn pretty_print(path_elements: &[JsonPathElement]) -> (r: String)
    ensures
        r@ == spec_pretty(path_elements@),
{
    proof {
        reveal_strlit("(root)");
        reveal_strlit("(only)");
        reveal_strlit(".");
    }
    let mut r = String::from_str("(root)");
    proof {
        assert(r@ =~= root_chars());
        assert(path_elements@.take(0) =~= Seq::<JsonPathElement>::empty());
    }
    let mut i: usize = 0;
    while i < path_elements.len()
        invariant
            0 <= i <= path_elements@.len(),
            r@ == spec_pretty(path_elements@.take(i as int)),
        decreases path_elements@.len() - i,
    {
        r.append(".");
        match path_elements[i] {
            JsonPathElement::Key(key) => {
                r.append(key);
            },
            JsonPathElement::Only => {
                r.append("(only)");
            },
        }
        proof {
            reveal_strlit("(only)");
            reveal_strlit(".");
            assert(path_elements@.take(i + 1).drop_last() =~= path_elements@.take(i as int));
            assert(path_elements@.take(i + 1).last() == path_elements@[i as int]);
            assert((".")@ =~= seq!['.']);
            assert(r@ =~= spec_pretty(path_elements@.take(i + 1)));
        }
        i += 1;
    }
    proof {
        assert(path_elements@.take(path_elements@.len() as int) =~= path_elements@);
    }
    r
}

/// Looks up `key` among the object's pairs.
fn object_get<'a>(pairs: &'a Vec<(String, JsonValue)>, key: &str) -> (r: Option<&'a JsonValue>)
    ensures
        match r {
            Some(v) => spec_object_get(pairs@, key@) == Some(*v),
            None => spec_object_get(pairs@, key@) is None,
        },
{
    let mut i: usize = 0;
    proof {
        assert(pairs@.skip(0) =~= pairs@);
    }
    while i < pairs.len()
        invariant
            0 <= i <= pairs@.len(),
            spec_object_get(pairs@.skip(i as int), key@) == spec_object_get(pairs@, key@),
        decreases pairs@.len() - i,
    {
        proof {
            assert(pairs@.skip(i as int)[0] == pairs@[i as int]);
            assert(pairs@.skip(i as int).drop_first() =~= pairs@.skip(i + 1));
        }
        if crate::str_eq(pairs[i].0.as_str(), key) {
            return Some(&pairs[i].1);
        }
        i += 1;
    }
    proof {
        assert(pairs@.skip(pairs@.len() as int) =~= Seq::<(String, JsonValue)>::empty());
    }
    None
}

/// The message reported when a key is absent.
pub open spec fn msg_key_not_found(key: Seq<char>, prefix: Seq<JsonPathElement>) -> Seq<char> {
    ("Key ")@ + key + (" not found in ")@ + spec_pretty(prefix)
}

/// The message reported when a key is asked of a non-object.
pub open spec fn msg_not_object(key: Seq<char>, prefix: Seq<JsonPathElement>) -> Seq<char> {
    ("Asked for key ")@ + key + (" in ")@ + spec_pretty(prefix) + (", but value is not an object")@
}

/// The message reported when the only key is asked of an object that does
/// not have exactly one value.
pub open spec fn msg_only_object(prefix: Seq<JsonPathElement>, count: nat) -> Seq<char> {
    ("Asked for only key in ")@ + spec_pretty(prefix) + (", but object has ")@
        + crate::sections::spec_dec_chars(count) + (" values")@
}

/// The message reported when the only element is asked of an array that
/// does not have exactly one element.
pub open spec fn msg_only_array(prefix: Seq<JsonPathElement>, count: nat) -> Seq<char> {
    ("Asked for only key in ")@ + spec_pretty(prefix) + (", but array has ")@
        + crate::sections::spec_dec_chars(count) + (" elements")@
}

/// The message reported when the only element is asked of a leaf value.
pub open spec fn msg_only_not_container(prefix: Seq<JsonPathElement>) -> Seq<char> {
    ("Asked for only key in ")@ + spec_pretty(prefix) + (", but value is not an object or array")@
}

/// The message a failed walk reports: what went wrong at the first failing
/// step, naming the path walked so far.
pub open spec fn spec_get_err(json: JsonValue, path: Seq<JsonPathElement>, index: int) -> Seq<
    char,
>
    decreases path.len() - index,
{
    if index < 0 || index >= path.len() {
        Seq::empty()
    } else {
        match path[index] {
            JsonPathElement::Key(key) => match json {
                JsonValue::Object(obj) => match spec_object_get(obj@, key@) {
                    Some(v) => spec_get_err(v, path, index + 1),
                    None => msg_key_not_found(key@, path.take(index)),
                },
                _ => msg_not_object(key@, path.take(index)),
            },
            JsonPathElement::Only => match json {
                JsonValue::Object(obj) => if obj@.len() == 1 {
                    spec_get_err(obj@[0].1, path, index + 1)
                } else {
                    msg_only_object(path.take(index), obj@.len())
                },
                JsonValue::Array(vec) => if vec@.len() == 1 {
                    spec_get_err(vec@[0], path, index + 1)
                } else {
                    msg_only_array(path.take(index), vec@.len())
                },
                _ => msg_only_not_container(path.take(index)),
            },
        }
    }
}

/// Walks `path` from position `index` into `json`. `Ok` exactly when the
/// whole path exists; any `Err` carries a message naming the path walked so
/// far and what went wrong there.
fn get_json_value<'a>(json: &'a JsonValue, path: &[JsonPathElement], index: usize) -> (r: Result<
    &'a JsonValue,
    String,
>)
    requires
        index <= path@.len(),
    ensures
        match r {
            Ok(v) => spec_get_json(*json, path@, index as int) == Some(*v),
            Err(m) => spec_get_json(*json, path@, index as int) is None && m@ == spec_get_err(
                *json,
                path@,
                index as int,
            ),
        },
    decreases path@.len() - index,
{
    if index == path.len() {
        return Ok(json);
    }
    match path[index] {
        JsonPathElement::Key(key) => {
            match json {
                JsonValue::Object(obj) => {
                    match object_get(obj, key) {
                        Some(value) => get_json_value(value, path, index + 1),
                        None => {
                            let mut msg = String::from_str("Key ");
                            msg.append(key);
                            msg.append(" not found in ");
                            let pp = pretty_print(vstd::slice::slice_subrange(path, 0, index));
                            msg.append(pp.as_str());
                            proof {
                                assert(path@.subrange(0, index as int) =~= path@.take(index as int));
                                assert(msg@ =~= msg_key_not_found(key@, path@.take(index as int)));
                            }
                            Err(msg)
                        },
                    }
                },
                _ => {
                    let mut msg = String::from_str("Asked for key ");
                    msg.append(key);
                    msg.append(" in ");
                    let pp = pretty_print(vstd::slice::slice_subrange(path, 0, index));
                    msg.append(pp.as_str());
                    msg.append(", but value is not an object");
                    proof {
                        assert(path@.subrange(0, index as int) =~= path@.take(index as int));
                        assert(msg@ =~= msg_not_object(key@, path@.take(index as int)));
                    }
                    Err(msg)
                },
            }
        },
        JsonPathElement::Only => {
            match json {
                JsonValue::Object(obj) => {
                    if obj.len() == 1 {
                        get_json_value(&obj[0].1, path, index + 1)
                    } else {
                        let mut msg = String::from_str("Asked for only key in ");
                        let pp = pretty_print(vstd::slice::slice_subrange(path, 0, index));
                        msg.append(pp.as_str());
                        msg.append(", but object has ");
                        let n = dec_string(obj.len() as u64);
                        msg.append(n.as_str());
                        msg.append(" values");
                        proof {
                            assert(path@.subrange(0, index as int) =~= path@.take(index as int));
                            assert(msg@ =~= msg_only_object(path@.take(index as int), obj@.len()));
                        }
                        Err(msg)
                    }
                },
                JsonValue::Array(vec) => {
                    if vec.len() == 1 {
                        get_json_value(&vec[0], path, index + 1)
                    } else {
                        let mut msg = String::from_str("Asked for only key in ");
                        let pp = pretty_print(vstd::slice::slice_subrange(path, 0, index));
                        msg.append(pp.as_str());
                        msg.append(", but array has ");
                        let n = dec_string(vec.len() as u64);
                        msg.append(n.as_str());
                        msg.append(" elements");
                        proof {
                            assert(path@.subrange(0, index as int) =~= path@.take(index as int));
                            assert(msg@ =~= msg_only_array(path@.take(index as int), vec@.len()));
                        }
                        Err(msg)
                    }
                },
                _ => {
                    let mut msg = String::from_str("Asked for only key in ");
                    let pp = pretty_print(vstd::slice::slice_subrange(path, 0, index));
                    msg.append(pp.as_str());
                    msg.append(", but value is not an object or array");
                    proof {
                        assert(path@.subrange(0, index as int) =~= path@.take(index as int));
                        assert(msg@ =~= msg_only_not_container(path@.take(index as int)));
                    }
                    Err(msg)
                },
            }
        },
    }
}

/// The message reported when the path leads to a value of the wrong kind.
pub open spec fn msg_wrong_array(path: Seq<JsonPathElement>) -> Seq<char> {
    ("Asked for array ")@ + spec_pretty(path) + (", but value is not an array")@
}

pub open spec fn msg_wrong_number(path: Seq<JsonPathElement>) -> Seq<char> {
    ("Asked for number ")@ + spec_pretty(path) + (", but value is not a number")@
}

pub open spec fn msg_wrong_string(path: Seq<JsonPathElement>) -> Seq<char> {
    ("Asked for string ")@ + spec_pretty(path) + (", but value is not a string")@
}

/// Returns the array found at `path` inside `json`: `Ok` exactly when the
/// path leads to an array value.
pub fn get_json_array<'a>(json: &'a JsonValue, path: &[JsonPathElement]) -> (r: Result<
    &'a Vec<JsonValue>,
    String,
>)
    ensures
        match r {
            Ok(v) => spec_get_json(*json, path@, 0) == Some(JsonValue::Array(*v)),
            Err(m) => !(spec_get_json(*json, path@, 0) matches Some(j) && j is Array) && m@ == (
            if spec_get_json(*json, path@, 0) is Some {
                msg_wrong_array(path@)
            } else {
                spec_get_err(*json, path@, 0)
            }),
        },
{
    match get_json_value(json, path, 0) {
        Ok(value) => match value {
            JsonValue::Array(v) => Ok(v),
            _ => {
                let mut msg = String::from_str("Asked for array ");
                let pp = pretty_print(path);
                msg.append(pp.as_str());
                msg.append(", but value is not an array");
                proof {
                    assert(msg@ =~= msg_wrong_array(path@));
                }
                Err(msg)
            },
        },
        Err(message) => Err(message),
    }
}

/// Returns the number found at `path` inside `json`: `Ok` exactly when the
/// path leads to a number.
pub fn get_json_number(json: &JsonValue, path: &[JsonPathElement]) -> (r: Result<u64, String>)
    ensures
        match r {
            Ok(n) => spec_get_json(*json, path@, 0) == Some(JsonValue::Number(n)),
            Err(m) => !(spec_get_json(*json, path@, 0) matches Some(j) && j is Number) && m@ == (
            if spec_get_json(*json, path@, 0) is Some {
                msg_wrong_number(path@)
            } else {
                spec_get_err(*json, path@, 0)
            }),
        },
{
    match get_json_value(json, path, 0) {
        Ok(value) => match value {
            JsonValue::Number(n) => Ok(*n),
            _ => {
                let mut msg = String::from_str("Asked for number ");
                let pp = pretty_print(path);
                msg.append(pp.as_str());
                msg.append(", but value is not a number");
                proof {
                    assert(msg@ =~= msg_wrong_number(path@));
                }
                Err(msg)
            },
        },
        Err(message) => Err(message),
    }
}

/// Returns the string found at `path` inside `json`: `Ok` exactly when the
/// path leads to a string value.
pub fn get_json_string<'a>(json: &'a JsonValue, path: &[JsonPathElement]) -> (r: Result<
    &'a str,
    String,
>)
    ensures
        match r {
            Ok(s) => spec_get_json(*json, path@, 0) matches Some(j) && j matches JsonValue::String(
                v,
            ) && v@ == s@,
            Err(m) => !(spec_get_json(*json, path@, 0) matches Some(j) && j is String) && m@ == (
            if spec_get_json(*json, path@, 0) is Some {
                msg_wrong_string(path@)
            } else {
                spec_get_err(*json, path@, 0)
            }),
        },
{
    match get_json_value(json, path, 0) {
        Ok(value) => match value {
            JsonValue::String(v) => Ok(v.as_str()),
            _ => {
                let mut msg = String::from_str("Asked for string ");
                let pp = pretty_print(path);
                msg.append(pp.as_str());
                msg.append(", but value is not a string");
                proof {
                    assert(msg@ =~= msg_wrong_string(path@));
                }
                Err(msg)
            },
        },
        Err(message) => Err(message),
    }
}

} // verus!
