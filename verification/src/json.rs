use vstd::prelude::*;
use vstd::string::StrSliceExecFns;
use vstd::utf8::encode_utf8;

verus! {

// The proxy reads and rewrites one JSON document per status exchange.
// Parsing and printing are serde_json's work, reached through the
// trusted items at the bottom; the rewrite itself is verified on the
// model below.

#[verifier::external_type_specification]
#[verifier::external_body]
pub struct ExNumber(serde_json::Number);

#[verifier::external_type_specification]
#[verifier::external_body]
pub struct ExValue(serde_json::Value);

/// A JSON document. Numbers stay in serde_json's own representation,
/// carried through unread; everything else is held as plain values.
#[derive(Debug)]
pub enum JsonValue {
    Null,
    Bool(bool),
    Num(serde_json::Number),
    Str(String),
    Array(Vec<JsonValue>),
    Object(Vec<(String, JsonValue)>),
}

/// Why rewriting a status document failed.
#[derive(Debug, PartialEq, Eq, Structural, Clone, Copy)]
pub enum StatusRewriteError {
    /// The document was not a JSON object.
    NotAnObject,
    /// The object had no `description` member.
    NoDescription,
    /// The description was an object without an `extra` array.
    MissingExtraArray,
    /// The description was a scalar other than a string.
    BadDescriptionShape,
}

/// The first member of `fields` whose key reads `key`, if any.
pub open spec fn spec_find_key(fields: Seq<(String, JsonValue)>, key: Seq<char>) -> Option<int>
    decreases fields.len(),
{
    if fields.len() == 0 {
        None
    } else if fields[0].0@ == key {
        Some(0)
    } else {
        match spec_find_key(fields.drop_first(), key) {
            Some(i) => Some(i + 1),
            None => None,
        }
    }
}

/// What `spec_find_key` finds is the first hit.
pub proof fn lemma_find_key(fields: Seq<(String, JsonValue)>, key: Seq<char>)
    ensures
        match spec_find_key(fields, key) {
            Some(i) => 0 <= i < fields.len() && fields[i].0@ == key && (forall|j: int|
                0 <= j < i ==> (#[trigger] fields[j]).0@ != key),
            None => forall|j: int| 0 <= j < fields.len() ==> (#[trigger] fields[j]).0@ != key,
        },
    decreases fields.len(),
{
    if fields.len() > 0 && fields[0].0@ != key {
        lemma_find_key(fields.drop_first(), key);
        assert(forall|j: int|
            1 <= j < fields.len() ==> #[trigger] fields[j] == fields.drop_first()[j - 1]);
    }
}

/// How a rewritten description relates to the one found: a string gets
/// the suffix appended; an array gets it pushed as a new string
/// element; an object must already hold an `extra` array, which gets
/// it pushed as a new string element.
pub open spec fn spec_description_rewritten(d: JsonValue, nd: JsonValue, suffix: Seq<char>) -> bool {
    match d {
        JsonValue::Str(s) => nd matches JsonValue::Str(t) && t@ == s@ + suffix,
        JsonValue::Array(a) => nd matches JsonValue::Array(b) && b@.len() == a@.len() + 1 && (
        forall|k: int| 0 <= k < a@.len() ==> a@[k] == b@[k]) && (b@[a@.len() as int]
            matches JsonValue::Str(t) && t@ == suffix),
        JsonValue::Object(inner) => {
            &&& spec_find_key(inner@, "extra"@) matches Some(k)
            &&& inner@[spec_find_key(inner@, "extra"@)->Some_0].1 matches JsonValue::Array(a)
            &&& nd matches JsonValue::Object(ninner)
            &&& {
                let k = spec_find_key(inner@, "extra"@)->Some_0;
                let a = inner@[k].1->Array_0;
                &&& ninner@.len() == inner@.len()
                &&& forall|j: int| 0 <= j < inner@.len() && j != k ==> ninner@[j] == inner@[j]
                &&& ninner@[k].0 == inner@[k].0
                &&& ninner@[k].1 matches JsonValue::Array(b) && b@.len() == a@.len() + 1 && (
                forall|t: int| 0 <= t < a@.len() ==> a@[t] == b@[t]) && (b@[a@.len() as int]
                    matches JsonValue::Str(t) && t@ == suffix)
            }
        },
        _ => false,
    }
}

/// How a whole rewritten status document relates to the original:
/// only the `description` member changed, in the way
/// `spec_description_rewritten` says.
pub open spec fn spec_status_rewritten(doc: JsonValue, nd: JsonValue, suffix: Seq<char>) -> bool {
    &&& doc matches JsonValue::Object(fields)
    &&& spec_find_key(doc->Object_0@, "description"@) matches Some(i)
    &&& nd matches JsonValue::Object(nfields)
    &&& {
        let fields = doc->Object_0;
        let nfields = nd->Object_0;
        let i = spec_find_key(fields@, "description"@)->Some_0;
        &&& nfields@.len() == fields@.len()
        &&& forall|j: int| 0 <= j < fields@.len() && j != i ==> nfields@[j] == fields@[j]
        &&& nfields@[i].0 == fields@[i].0
        &&& spec_description_rewritten(fields@[i].1, nfields@[i].1, suffix)
    }
}

/// The error a rewrite of `doc` must produce, if any.
pub open spec fn spec_rewrite_error(doc: JsonValue, e: StatusRewriteError) -> bool {
    match doc {
        JsonValue::Object(fields) => {
            match spec_find_key(fields@, "description"@) {
                None => e == StatusRewriteError::NoDescription,
                Some(i) => {
                    match fields@[i].1 {
                        JsonValue::Str(_) => false,
                        JsonValue::Array(_) => false,
                        JsonValue::Object(inner) => {
                            e == StatusRewriteError::MissingExtraArray && !(spec_find_key(
                                inner@,
                                "extra"@,
                            ) matches Some(k) && inner@[k].1 is Array)
                        },
                        _ => e == StatusRewriteError::BadDescriptionShape,
                    }
                },
            }
        },
        _ => e == StatusRewriteError::NotAnObject,
    }
}

/// Compares a string against a literal by bytes; equal bytes mean
/// equal characters because UTF-8 encoding is lossless.
pub fn str_eq(a: &str, b: &str) -> (r: bool)
    ensures
        r == (a@ == b@),
{
    let ab = a.as_bytes();
    let bb = b.as_bytes();
    if ab.len() != bb.len() {
        proof {
            vstd::utf8::encode_utf8_decode_utf8(a@);
            vstd::utf8::encode_utf8_decode_utf8(b@);
        }
        return false;
    }
    let n = ab.len();
    let mut i: usize = 0;
    while i < n
        invariant
            i <= n == ab@.len() == bb@.len(),
            ab@ == encode_utf8(a@),
            bb@ == encode_utf8(b@),
            forall|j: int| 0 <= j < i ==> ab@[j] == bb@[j],
        decreases n - i,
    {
        if ab[i] != bb[i] {
            proof {
                vstd::utf8::encode_utf8_decode_utf8(a@);
                vstd::utf8::encode_utf8_decode_utf8(b@);
            }
            return false;
        }
        i += 1;
    }
    proof {
        assert(ab@ =~= bb@);
        vstd::utf8::encode_utf8_decode_utf8(a@);
        vstd::utf8::encode_utf8_decode_utf8(b@);
    }
    true
}

/// Finds the first member with the given key, as `spec_find_key` does.
fn find_key(fields: &Vec<(String, JsonValue)>, key: &str) -> (r: Option<usize>)
    ensures
        match r {
            Some(i) => spec_find_key(fields@, key@) == Some(i as int),
            None => spec_find_key(fields@, key@) is None,
        },
{
    proof {
        lemma_find_key(fields@, key@);
    }
    let mut i: usize = 0;
    while i < fields.len()
        invariant
            i <= fields@.len(),
            forall|j: int| 0 <= j < i ==> (#[trigger] fields@[j]).0@ != key@,
        decreases fields@.len() - i,
    {
        if str_eq(fields[i].0.as_str(), key) {
            proof {
                lemma_find_key(fields@, key@);
                if spec_find_key(fields@, key@) is None {
                    assert(fields@[i as int].0@ != key@);
                }
                let f = spec_find_key(fields@, key@)->Some_0;
                if f < i {
                    assert(fields@[f].0@ != key@);
                }
                if f > i {
                    assert(fields@[i as int].0@ != key@);
                }
            }
            return Some(i);
        }
        i += 1;
    }
    proof {
        lemma_find_key(fields@, key@);
        match spec_find_key(fields@, key@) {
            Some(f) => {
                assert(fields@[f].0@ != key@);
            },
            None => {},
        }
    }
    None
}

/// Appends `suffix` to the `description` member of a status document,
/// in whichever of the three accepted shapes it has; any other shape
/// is refused with the exact error `spec_rewrite_error` assigns.
pub fn rewrite_description(doc: JsonValue, suffix: &str) -> (res: Result<
    JsonValue,
    StatusRewriteError,
>)
    ensures
        match res {
            Ok(nd) => spec_status_rewritten(doc, nd, suffix@),
            Err(e) => spec_rewrite_error(doc, e),
        },
{
    let fields = match doc {
        JsonValue::Object(fields) => fields,
        _ => {
            return Err(StatusRewriteError::NotAnObject);
        },
    };
    let i = match find_key(&fields, "description") {
        Some(i) => i,
        None => {
            return Err(StatusRewriteError::NoDescription);
        },
    };
    proof {
        lemma_find_key(fields@, "description"@);
    }
    let ghost fields0 = fields@;
    let mut fields = fields;
    let (key, desc) = fields.remove(i);
    let new_desc = match desc {
        JsonValue::Str(s) => {
            let mut t = s;
            t.append(suffix);
            JsonValue::Str(t)
        },
        JsonValue::Array(items) => {
            let mut items = items;
            let ghost items0 = items@;
            items.push(JsonValue::Str(suffix.to_owned()));
            proof {
                assert(forall|k: int| 0 <= k < items0.len() ==> items0[k] == items@[k]);
            }
            JsonValue::Array(items)
        },
        JsonValue::Object(inner) => {
            let k = match find_key(&inner, "extra") {
                Some(k) => k,
                None => {
                    return Err(StatusRewriteError::MissingExtraArray);
                },
            };
            proof {
                lemma_find_key(inner@, "extra"@);
            }
            let ghost inner0 = inner@;
            let mut inner = inner;
            let (ekey, evalue) = inner.remove(k);
            let extra = match evalue {
                JsonValue::Array(extra) => extra,
                other => {
                    return Err(StatusRewriteError::MissingExtraArray);
                },
            };
            let mut extra = extra;
            let ghost extra0 = extra@;
            extra.push(JsonValue::Str(suffix.to_owned()));
            proof {
                assert(forall|t: int| 0 <= t < extra0.len() ==> extra0[t] == extra@[t]);
            }
            inner.insert(k, (ekey, JsonValue::Array(extra)));
            proof {
                assert(inner@.len() == inner0.len());
                assert(forall|j: int|
                    0 <= j < inner0.len() && j != k ==> inner@[j] == inner0[j]);
            }
            JsonValue::Object(inner)
        },
        other => {
            return Err(StatusRewriteError::BadDescriptionShape);
        },
    };
    fields.insert(i, (key, new_desc));
    proof {
        assert(fields@.len() == fields0.len());
        assert(forall|j: int| 0 <= j < fields0.len() && j != i ==> fields@[j] == fields0[j]);
    }
    Ok(JsonValue::Object(fields))
}

// ---------------------------------------------------------------------
// The serde_json boundary.

/// What parsing a JSON text yields, as a value of the model; a name
/// for the result of serde_json's parser, which depends on the text
/// alone.
pub uninterp spec fn spec_json_parse(s: Seq<char>) -> Option<JsonValue>;

/// The text a document prints as; a name for the result of
/// serde_json's compact printer, which depends on the document alone.
pub uninterp spec fn spec_json_render(j: JsonValue) -> Seq<char>;

/// Relies on serde_json::from_str::<Value>: parsing JSON text is a
/// function of the text alone; `json_of_value` carries the parsed
/// value into the model one constructor at a time.
#[verifier::external_body]
pub(crate) fn json_parse(s: &str) -> (r: Option<JsonValue>)
    ensures
        r == spec_json_parse(s@),
{
    serde_json::from_str::<serde_json::Value>(s).ok().map(json_of_value)
}

/// Relies on the Display impl of serde_json::Value: it prints the
/// compact JSON text of the value, a function of the value alone;
/// `value_of_json` carries the model back one constructor at a time.
#[verifier::external_body]
pub(crate) fn json_render(j: JsonValue) -> (r: String)
    ensures
        r@ == spec_json_render(j),
{
    value_of_json(j).to_string()
}

/// Conversion used by `json_parse`: each serde_json variant moves to
/// the matching model variant.
#[verifier::external_body]
fn json_of_value(v: serde_json::Value) -> JsonValue {
    match v {
        serde_json::Value::Null => JsonValue::Null,
        serde_json::Value::Bool(b) => JsonValue::Bool(b),
        serde_json::Value::Number(n) => JsonValue::Num(n),
        serde_json::Value::String(s) => JsonValue::Str(s),
        serde_json::Value::Array(a) => JsonValue::Array(a.into_iter().map(json_of_value).collect()),
        serde_json::Value::Object(m) => JsonValue::Object(
            m.into_iter().map(|(k, x)| (k, json_of_value(x))).collect(),
        ),
    }
}

/// Conversion used by `json_render`: each model variant moves to the
/// matching serde_json variant.
#[verifier::external_body]
fn value_of_json(j: JsonValue) -> serde_json::Value {
    match j {
        JsonValue::Null => serde_json::Value::Null,
        JsonValue::Bool(b) => serde_json::Value::Bool(b),
        JsonValue::Num(n) => serde_json::Value::Number(n),
        JsonValue::Str(s) => serde_json::Value::String(s),
        JsonValue::Array(a) => serde_json::Value::Array(
            a.into_iter().map(value_of_json).collect(),
        ),
        JsonValue::Object(m) => serde_json::Value::Object(
            m.into_iter().map(|(k, x)| (k, value_of_json(x))).collect(),
        ),
    }
}

} // verus!
