//! The JSON boundary: trusted declarations for the serde_json calls that
//! parse datasets, language lists, and encode results.
use vstd::prelude::*;
use std::collections::BTreeMap;

verus! {

/// serde_json's error type, carried through opaquely.
#[verifier::external_type_specification]
#[verifier::external_body]
pub struct ExJsonError(serde_json::Error);

/// What parsing a whole dataset text yields: the language entries with their
/// raw keyword/glyph-text pairs, or nothing when the text is not a JSON
/// object of objects of strings.
pub uninterp spec fn parsed_dataset(s: Seq<char>) -> Option<
    Seq<(Seq<char>, Seq<(Seq<char>, Seq<char>)>)>,
>;

/// What parsing one language's data text yields: the raw keyword/glyph-text
/// pairs, or nothing when the text is not a JSON object of strings.
pub uninterp spec fn parsed_table(s: Seq<char>) -> Option<Seq<(Seq<char>, Seq<char>)>>;

/// What parsing a language-list text yields: the ids in order, or nothing
/// when the text is not a JSON array of strings.
pub uninterp spec fn parsed_id_list(s: Seq<char>) -> Option<Seq<Seq<char>>>;

/// What encoding a result sequence as text yields.
pub uninterp spec fn encoded_results(rs: Seq<(Seq<char>, Seq<Seq<char>>)>) -> Seq<char>;

/// What encoding a list of language ids as text yields.
pub uninterp spec fn encoded_id_list(ids: Seq<Seq<char>>) -> Seq<char>;

/// What encoding per-language keyword counts as text yields.
pub uninterp spec fn encoded_stats(st: Seq<(Seq<char>, usize)>) -> Seq<char>;

/// Relies on `serde_json::from_str` deserializing a
/// `BTreeMap<String, BTreeMap<String, String>>`: it accepts exactly the JSON
/// objects whose members are objects of strings, and the parse is a function
/// of the text alone.
#[verifier::external_body]
pub fn parse_dataset(s: &str) -> (r: Result<
    Vec<(String, Vec<(String, String)>)>,
    serde_json::Error,
>)
    ensures
        match r {
            Ok(v) => parsed_dataset(s@) == Some(v.deep_view()),
            Err(_) => parsed_dataset(s@) is None,
        },
{
    let m: BTreeMap<String, BTreeMap<String, String>> = serde_json::from_str(s)?;
    Ok(m.into_iter().map(|(k, t)| (k, t.into_iter().collect())).collect())
}

/// Relies on `serde_json::from_str` deserializing a
/// `BTreeMap<String, String>`: it accepts exactly the JSON objects of
/// strings, and the parse is a function of the text alone.
#[verifier::external_body]
pub fn parse_table(s: &str) -> (r: Result<Vec<(String, String)>, serde_json::Error>)
    ensures
        match r {
            Ok(v) => parsed_table(s@) == Some(v.deep_view()),
            Err(_) => parsed_table(s@) is None,
        },
{
    let m: BTreeMap<String, String> = serde_json::from_str(s)?;
    Ok(m.into_iter().collect())
}

/// Relies on `serde_json::from_str` deserializing a `Vec<String>`: it accepts
/// exactly the JSON arrays of strings, in order, and the parse is a function
/// of the text alone.
#[verifier::external_body]
pub fn parse_id_list(s: &str) -> (r: Result<Vec<String>, serde_json::Error>)
    ensures
        match r {
            Ok(v) => parsed_id_list(s@) == Some(v.deep_view()),
            Err(_) => parsed_id_list(s@) is None,
        },
{
    serde_json::from_str(s)
}

/// Relies on `serde_json::to_string` serializing a
/// `Vec<(String, Vec<String>)>` as an array of `[keyword, [glyph, ...]]`
/// pairs: the text is a function of the values alone. It always succeeds:
/// serialization fails only when a `Serialize` impl decides to fail or a map
/// has non-string keys, and strings, vectors and tuples do neither.
#[verifier::external_body]
pub fn encode_results(v: &Vec<(String, Vec<String>)>) -> (r: Result<String, serde_json::Error>)
    ensures
        r is Ok,
        r matches Ok(j) ==> j@ == encoded_results(v.deep_view()),
{
    serde_json::to_string(v)
}

/// Relies on `serde_json::to_string` serializing a `Vec<String>` as an array
/// of strings: the text is a function of the values alone. It always
/// succeeds, as for `encode_results`.
#[verifier::external_body]
pub fn encode_id_list(v: &Vec<String>) -> (r: Result<String, serde_json::Error>)
    ensures
        r is Ok,
        r matches Ok(j) ==> j@ == encoded_id_list(v.deep_view()),
{
    serde_json::to_string(v)
}

/// Relies on `serde_json::to_string` serializing a `serde_json::Map` built
/// from the pairs as a JSON object of integers: the text is a function of the
/// pairs alone. It always succeeds: the map's keys are strings and the
/// number values' `Serialize` impl does not fail.
#[verifier::external_body]
pub fn encode_stats(v: &Vec<(String, usize)>) -> (r: Result<String, serde_json::Error>)
    ensures
        r is Ok,
        r matches Ok(j) ==> j@ == encoded_stats(v.deep_view()),
{
    let m: serde_json::Map<String, serde_json::Value> = v.iter().map(
        |e| (e.0.clone(), serde_json::Value::from(e.1)),
    ).collect();
    serde_json::to_string(&m)
}

} // verus!
