//! One JSON object per line, read as its top-level fields.
use vstd::prelude::*;
use crate::text::same_text;

verus! {

/// A top-level field of a JSON object: its key, and its value where that value
/// is a JSON string.
#[derive(Debug)]
pub struct JsonField {
    pub key: String,
    pub text: Option<String>,
}

/// A field as plain values.
pub open spec fn field_view(f: JsonField) -> (Seq<char>, Option<Seq<char>>) {
    (f.key@, match f.text {
        Some(t) => Some(t@),
        None => None,
    })
}

/// The fields of a list, as plain values.
pub open spec fn fields_view(fs: Seq<JsonField>) -> Seq<(Seq<char>, Option<Seq<char>>)> {
    fs.map_values(|f: JsonField| field_view(f))
}

/// The top-level fields of `text` read as one JSON object, or `None` where
/// `text` is not the text of a JSON object.
pub uninterp spec fn json_object_fields(text: Seq<char>) -> Option<Seq<(Seq<char>, Option<Seq<char>>)>>;

/// Relies on `serde_json::from_str` into a `serde_json::Value`: the result
/// depends on the text alone. Each field's value is kept where it is a string.
#[verifier::external_body]
pub(crate) fn object_fields(text: &str) -> (r: Option<Vec<JsonField>>)
    ensures
        match r {
            Some(fs) => json_object_fields(text@) == Some(fields_view(fs@)),
            None => json_object_fields(text@) is None,
        },
{
    match serde_json::from_str::<serde_json::Value>(text) {
        Ok(serde_json::Value::Object(m)) => Some(
            m.into_iter().map(|(key, v)| JsonField { key, text: v.as_str().map(String::from) }).collect(),
        ),
        _ => None,
    }
}

/// The first field of `fs` under `key`: `None` where no field has that key,
/// else `Some` of its string value (itself `None` where the value is no string).
pub open spec fn lookup(fs: Seq<(Seq<char>, Option<Seq<char>>)>, key: Seq<char>) -> Option<Option<Seq<char>>>
    decreases fs.len(),
{
    if fs.len() == 0 {
        None
    } else if fs[0].0 == key {
        Some(fs[0].1)
    } else {
        lookup(fs.drop_first(), key)
    }
}

/// The field of `fs` under `key`.
pub fn find_field(fs: &Vec<JsonField>, key: &str) -> (r: Option<Option<String>>)
    ensures
        match r {
            None => lookup(fields_view(fs@), key@) is None,
            Some(None) => lookup(fields_view(fs@), key@) == Some(None::<Seq<char>>),
            Some(Some(t)) => lookup(fields_view(fs@), key@) == Some(Some(t@)),
        },
{
    let mut i: usize = 0;
    assert(fields_view(fs@).subrange(0, fs@.len() as int) =~= fields_view(fs@));
    while i < fs.len()
        invariant
            i <= fs@.len(),
            lookup(fields_view(fs@), key@) == lookup(fields_view(fs@).subrange(i as int, fs@.len() as int), key@),
        decreases fs@.len() - i,
    {
        let ghost rest = fields_view(fs@).subrange(i as int, fs@.len() as int);
        assert(rest[0] == field_view(fs@[i as int]));
        if same_text(fs[i].key.as_str(), key) {
            return Some(fs[i].text.clone());
        }
        assert(rest.drop_first() =~= fields_view(fs@).subrange(i + 1, fs@.len() as int));
        i = i + 1;
    }
    None
}

} // verus!
