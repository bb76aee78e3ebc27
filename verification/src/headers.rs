//! HTTP header maps of the `http` crate, and what each of their operations does
//! to the fields they hold.

use hyper::header::{HeaderMap, HeaderName, HeaderValue};
use vstd::prelude::*;

verus! {

/// `hyper::header::HeaderMap`: header fields by name.
#[verifier::external_type_specification]
#[verifier::external_body]
#[verifier::reject_recursive_types(T)]
pub struct ExHeaderMap<T>(HeaderMap<T>);

/// `hyper::header::HeaderValue`: the value of one field.
#[verifier::external_type_specification]
#[verifier::external_body]
pub struct ExHeaderValue(HeaderValue);

/// The values that each field name has, in the order in which they were added.
/// Names are in lower case; a name without a value is not there.
pub uninterp spec fn fields(headers: HeaderMap<HeaderValue>) -> Map<Seq<char>, Seq<Seq<u8>>>;

/// A field by its name and its value.
pub type Field = (String, Vec<u8>);

/// What a field says.
pub open spec fn said(field: Field) -> (Seq<char>, Seq<u8>) {
    (field.0@, field.1@)
}

/// What a list of fields says.
pub open spec fn all_said(list: Seq<Field>) -> Seq<(Seq<char>, Seq<u8>)> {
    list.map_values(|field: Field| said(field))
}

/// The values that a name has.
pub open spec fn values(map: Map<Seq<char>, Seq<Seq<u8>>>, name: Seq<char>) -> Seq<Seq<u8>> {
    if map.contains_key(name) {
        map[name]
    } else {
        Seq::empty()
    }
}

/// A list of fields, collected by name.
pub open spec fn collected(list: Seq<(Seq<char>, Seq<u8>)>) -> Map<Seq<char>, Seq<Seq<u8>>>
    decreases list.len(),
{
    if list.len() == 0 {
        Map::empty()
    } else {
        let before = collected(list.drop_last());
        let (name, value) = list.last();
        before.insert(name, values(before, name).push(value))
    }
}

/// Whether a name is written as header maps keep it: lower-case letters and
/// hyphens.
pub open spec fn lower_name(name: Seq<char>) -> bool {
    name.len() > 0 && forall|i: int|
        0 <= i < name.len() ==> ('a' <= (#[trigger] name[i]) <= 'z' || name[i] == '-')
}

/// `HeaderMap::remove`: no value of the name stays.
#[verifier::external_body]
pub(crate) fn remove_field(headers: &mut HeaderMap<HeaderValue>, name: &str)
    requires
        lower_name(name@),
    ensures
        fields(*final(headers)) == fields(*old(headers)).remove(name@),
        fields(*final(headers)).dom().finite(),
{
    headers.remove(name);
}

/// `HeaderMap::get`: the first value of the name, if it has one.
#[verifier::external_body]
pub(crate) fn first_value(headers: &HeaderMap<HeaderValue>, name: &str) -> (value: Option<Vec<u8>>)
    requires
        lower_name(name@),
    ensures
        match value {
            Some(bytes) => values(fields(*headers), name@).len() > 0 && values(
                fields(*headers),
                name@,
            )[0] == bytes@,
            None => values(fields(*headers), name@).len() == 0,
        },
{
    headers.get(name).map(|value| value.as_bytes().to_vec())
}

/// Most names that a header map takes a further one beside, for certain.
pub const MAX_NAMES: usize = 6553;

/// Most bytes that a field name has.
pub const MAX_NAME: usize = 65535;

/// `HeaderMap::insert` of a value made with `HeaderValue::from_static`: the name
/// has this value, and no other. It panics on a name that is not in lower case
/// or is over `MAX_NAME` bytes, on a value with a character that is not visible
/// ASCII, and on a map that has no room for one more name.
#[verifier::external_body]
pub(crate) fn set_field(
    headers: &mut HeaderMap<HeaderValue>,
    name: &'static str,
    value: &'static str,
)
    requires
        lower_name(name@),
        name@.len() <= MAX_NAME,
        forall|i: int| 0 <= i < value@.len() ==> ' ' <= (#[trigger] value@[i]) <= '~',
        fields(*old(headers)).len() <= MAX_NAMES,
    ensures
        fields(*final(headers)) == fields(*old(headers)).insert(
            name@,
            seq![vstd::utf8::encode_utf8(value@)],
        ),
{
    headers.insert(HeaderName::from_static(name), HeaderValue::from_static(value));
}

/// `HeaderMap::keys_len`: how many names the map has.
#[verifier::external_body]
pub(crate) fn count_names(headers: &HeaderMap<HeaderValue>) -> (n: usize)
    ensures
        n == fields(*headers).len(),
{
    headers.keys_len()
}

/// `HeaderMap::iter`: every value of every name, those of one name in the order
/// in which they were added. The order of the names is not told.
#[verifier::external_body]
pub(crate) fn list_fields(headers: &HeaderMap<HeaderValue>) -> (list: Vec<Field>)
    ensures
        collected(all_said(list@)) == fields(*headers),
{
    headers
        .iter()
        .map(|(name, value)| (name.as_str().to_owned(), value.as_bytes().to_vec()))
        .collect()
}

/// A list of fields is collected by name, each name with its values in the order
/// of the list: a field joins the values of its own name, behind them, and leaves
/// every other name as it was.
pub proof fn law_fields_are_collected_in_order(
    list: Seq<(Seq<char>, Seq<u8>)>,
    name: Seq<char>,
    value: Seq<u8>,
    other: Seq<char>,
)
    requires
        other != name,
    ensures
        ({
            let before = collected(list);
            let after = collected(list.push((name, value)));
            &&& after.contains_key(name)
            &&& before.contains_key(name) ==> after[name] == before[name].push(value)
            &&& !before.contains_key(name) ==> after[name] == seq![value]
            &&& after.contains_key(other) <==> before.contains_key(other)
            &&& before.contains_key(other) ==> after[other] == before[other]
        }),
        collected(Seq::empty()) == Map::<Seq<char>, Seq<Seq<u8>>>::empty(),
{
    assert(list.push((name, value)).drop_last() =~= list);
    assert(Seq::<Seq<u8>>::empty().push(value) =~= seq![value]);
}

/// What a list of fields says is each field's name and value, one for one.
pub proof fn law_fields_say_what_they_hold(list: Seq<Field>, i: int)
    requires
        0 <= i < list.len(),
    ensures
        all_said(list).len() == list.len(),
        all_said(list)[i].0 == list[i].0@,
        all_said(list)[i].1 == list[i].1@,
{
}

} // verus!
