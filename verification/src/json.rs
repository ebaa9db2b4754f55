//! JSON texts: what `serde_json` reads from them and writes into them.

use vstd::prelude::*;
use crate::strings;

verus! {

/// The members of the JSON object that a text denotes, each as its key and the JSON text of its
/// value: `Ok(None)` where the text denotes another value, `Err` with the message where it is not
/// JSON.
pub uninterp spec fn object_members(text: Seq<char>) -> Result<
    Option<Seq<(Seq<char>, Seq<char>)>>,
    Seq<char>,
>;

/// The members of the JSON object of strings that a text denotes, `Err` with the message where it
/// denotes none.
pub uninterp spec fn string_members(text: Seq<char>) -> Result<
    Seq<(Seq<char>, Seq<char>)>,
    Seq<char>,
>;

/// The string that a JSON text denotes, where it denotes one.
pub uninterp spec fn string_value(text: Seq<char>) -> Option<Seq<char>>;

/// The list of strings that a JSON text denotes, where it denotes one.
pub uninterp spec fn string_list(text: Seq<char>) -> Option<Seq<Seq<char>>>;

/// The JSON text of a list of strings.
pub uninterp spec fn string_list_text(list: Seq<Seq<char>>) -> Option<Seq<char>>;

/// The character sequences of a list of pairs.
pub open spec fn pair_texts(v: Seq<(String, String)>) -> Seq<(Seq<char>, Seq<char>)> {
    Seq::new(v.len(), |i: int| (v[i].0@, v[i].1@))
}

/// `serde_json::from_str` reads a JSON value; of an object it hands out the members in the order
/// in which the object keeps them, each value written back by its `to_string`. The result depends
/// on the text alone and is named, not described.
#[verifier::external_body]
pub(crate) fn read_object(text: &str) -> (res: Result<Option<Vec<(String, String)>>, String>)
    ensures
        match res {
            Ok(Some(members)) => object_members(text@) == Ok::<
                Option<Seq<(Seq<char>, Seq<char>)>>,
                Seq<char>,
            >(Some(pair_texts(members@))),
            Ok(None) => object_members(text@) == Ok::<
                Option<Seq<(Seq<char>, Seq<char>)>>,
                Seq<char>,
            >(None),
            Err(message) => object_members(text@) == Err::<
                Option<Seq<(Seq<char>, Seq<char>)>>,
                Seq<char>,
            >(message@),
        },
{
    let value: serde_json::Value = serde_json::from_str(text).map_err(|error| error.to_string())?;
    match value {
        serde_json::Value::Object(members) => Ok(
            Some(members.into_iter().map(|(key, value)| (key, value.to_string())).collect()),
        ),
        _ => Ok(None),
    }
}

/// `serde_json::from_str` reads a JSON object of strings into a `BTreeMap`. The result depends on
/// the text alone and is named, not described.
#[verifier::external_body]
pub(crate) fn read_string_members(text: &str) -> (res: Result<Vec<(String, String)>, String>)
    ensures
        match res {
            Ok(members) => string_members(text@) == Ok::<Seq<(Seq<char>, Seq<char>)>, Seq<char>>(
                pair_texts(members@),
            ),
            Err(message) => string_members(text@) == Err::<
                Seq<(Seq<char>, Seq<char>)>,
                Seq<char>,
            >(message@),
        },
{
    match serde_json::from_str::<std::collections::BTreeMap<String, String>>(text) {
        Ok(members) => Ok(members.into_iter().collect()),
        Err(error) => Err(error.to_string()),
    }
}

/// `serde_json::from_str` reads a JSON string. The result depends on the text alone and is named,
/// not described.
#[verifier::external_body]
pub(crate) fn read_string(text: &str) -> (res: Option<String>)
    ensures
        match res {
            Some(value) => string_value(text@) == Some(value@),
            None => string_value(text@) is None,
        },
{
    serde_json::from_str::<String>(text).ok()
}

/// `serde_json::from_str` reads a JSON list of strings. The result depends on the text alone and
/// is named, not described.
#[verifier::external_body]
pub(crate) fn read_string_list(text: &str) -> (res: Option<Vec<String>>)
    ensures
        match res {
            Some(list) => string_list(text@) == Some(strings::texts(list@)),
            None => string_list(text@) is None,
        },
{
    serde_json::from_str::<Vec<String>>(text).ok()
}

/// `serde_json::to_string` writes a list of strings as JSON. The text depends on the list alone
/// and is named, not described; where it is written, `serde_json::from_str` reads the same list
/// from it.
#[verifier::external_body]
pub(crate) fn write_string_list(list: &Vec<String>) -> (res: Option<String>)
    ensures
        match res {
            Some(text) => string_list_text(strings::texts(list@)) == Some(text@) && string_list(
                text@,
            ) == Some(strings::texts(list@)),
            None => string_list_text(strings::texts(list@)) is None,
        },
{
    serde_json::to_string(list).ok()
}

} // verus!
