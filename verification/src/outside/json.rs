//! Lists of texts as JSON, by `serde_json`.

use vstd::prelude::*;

use crate::fields;

verus! {

/// The texts that a JSON text lists, or what the error says where it is no
/// list of texts.
pub uninterp spec fn json_texts(text: Seq<char>) -> Result<Seq<Seq<char>>, Seq<char>>;

/// `serde_json::from_str` depends on the text alone.
#[verifier::external_body]
pub(crate) fn texts_from_json(text: &str) -> (list: Result<Vec<String>, String>)
    ensures
        match json_texts(text@) {
            Ok(expected) => list matches Ok(l) && fields::views(l@) == expected,
            Err(message) => list matches Err(m) && m@ == message,
        },
{
    serde_json::from_str(text).map_err(|error| error.to_string())
}

/// Whether a JSON text lists just the given texts.
pub open spec fn lists(text: Seq<char>, list: Seq<Seq<char>>) -> bool {
    json_texts(text) == Ok::<Seq<Seq<char>>, Seq<char>>(list)
}

/// The JSON text that lists some texts.
pub uninterp spec fn texts_json(list: Seq<Seq<char>>) -> Seq<char>;

/// `serde_json::to_string` depends on the texts alone. It fails only where a
/// type's own code refuses or a map has keys that are no texts, which a list
/// of texts does not; and `serde_json::from_str` reads back what it wrote.
#[verifier::external_body]
pub(crate) fn texts_to_json(list: &Vec<String>) -> (text: Result<String, String>)
    ensures
        text is Ok,
        text matches Ok(t) ==> t@ == texts_json(fields::views(list@)) && lists(
            t@,
            fields::views(list@),
        ),
{
    serde_json::to_string(list).map_err(|error| error.to_string())
}

} // verus!
