//! What the edge answers by itself: a status and a JSON object.

use vstd::prelude::*;

verus! {

/// The text that `serde_json` gives an object whose values are strings.
pub uninterp spec fn json_strings(fields: Seq<(Seq<char>, Seq<char>)>) -> Seq<char>;

/// The text that `serde_json` gives an object whose values are truth values.
pub uninterp spec fn json_flags(fields: Seq<(Seq<char>, bool)>) -> Seq<char>;

/// Pairs of strings by what they say.
pub open spec fn pairs_said(fields: Seq<(String, String)>) -> Seq<(Seq<char>, Seq<char>)> {
    fields.map_values(|field: (String, String)| (field.0@, field.1@))
}

/// Flags by what they say.
pub open spec fn flags_said(fields: Seq<(String, bool)>) -> Seq<(Seq<char>, bool)> {
    fields.map_values(|field: (String, bool)| (field.0@, field.1))
}

/// `serde_json::Value` collected from pairs of strings, and its `to_string`.
#[verifier::external_body]
fn strings_text(fields: Vec<(String, String)>) -> (text: String)
    ensures
        text@ == json_strings(pairs_said(fields@)),
{
    fields.into_iter().collect::<serde_json::Value>().to_string()
}

/// `serde_json::Value` collected from named truth values, and its `to_string`.
#[verifier::external_body]
fn flags_text(fields: Vec<(String, bool)>) -> (text: String)
    ensures
        text@ == json_flags(flags_said(fields@)),
{
    fields.into_iter().collect::<serde_json::Value>().to_string()
}

/// A reply: its status and its JSON body.
pub struct Reply {
    pub status: u16,
    pub body: String,
}

/// A reply whose object has string values.
pub fn json(status: u16, fields: Vec<(String, String)>) -> (reply: Reply)
    ensures
        reply.status == status,
        reply.body@ == json_strings(pairs_said(fields@)),
{
    Reply { status, body: strings_text(fields) }
}

/// The body of a refusal in words.
pub open spec fn refusal(message: Seq<char>) -> Seq<char> {
    json_strings(seq![("error"@, message)])
}

/// A refusal in words.
pub fn fail(status: u16, message: &str) -> (reply: Reply)
    ensures
        reply.body@ == refusal(message@),
        reply.status == status,
        reply.body@ == json_strings(seq![("error"@, message@)]),
{
    let mut fields: Vec<(String, String)> = Vec::new();
    fields.push(("error".to_owned(), message.to_owned()));
    assert(pairs_said(fields@) =~= seq![("error"@, message@)]);
    json(status, fields)
}

/// The bridge could not be reached, or did not answer.
pub fn bad_gateway(error: &str) -> (reply: Reply)
    ensures
        reply.status == 502,
        reply.body@ == json_strings(seq![("error"@, error@)]),
{
    fail(502, error)
}

/// The proxy is up.
pub fn health() -> (reply: Reply)
    ensures
        reply.status == 200,
        reply.body@ == json_flags(seq![("ok"@, true)]),
{
    let mut fields: Vec<(String, bool)> = Vec::new();
    fields.push(("ok".to_owned(), true));
    assert(flags_said(fields@) =~= seq![("ok"@, true)]);
    Reply { status: 200, body: flags_text(fields) }
}

/// A refusal says its reason whole, as the one field `error` of its object.
pub proof fn law_refusals_say_their_reason(message: Seq<char>)
    ensures
        refusal(message) == json_strings(seq![(seq!['e', 'r', 'r', 'o', 'r'], message)]),
{
    reveal_strlit("error");
    assert("error"@ =~= seq!['e', 'r', 'r', 'o', 'r']);
}

} // verus!
