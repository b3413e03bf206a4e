//! JSON text, read one level deep.
//!
//! Only the string members of objects matter here, so an object is kept as the
//! list of its members, each with its text where it is a string.

use crate::text::same_text;
use vstd::prelude::*;

verus! {

/// The members of an object. A member that is no string has no text.
pub type Members = Vec<(String, Option<String>)>;

/// The members of an object by their names.
pub type Object = Map<Seq<char>, Option<Seq<char>>>;

/// The text of a member.
pub open spec fn member_text(text: Option<String>) -> Option<Seq<char>> {
    match text {
        Some(s) => Some(s@),
        None => None,
    }
}

/// The object that a list of members stands for. Of members with the same name
/// the first counts.
pub open spec fn object_of(members: Seq<(String, Option<String>)>) -> Object
    decreases members.len(),
{
    if members.len() == 0 {
        Map::empty()
    } else {
        object_of(members.drop_first()).insert(members[0].0@, member_text(members[0].1))
    }
}

/// The object that an optional list of members stands for.
pub open spec fn optional_object(value: Option<Members>) -> Option<Object> {
    match value {
        Some(members) => Some(object_of(members@)),
        None => None,
    }
}

/// The objects that a list of values stands for.
pub open spec fn objects_of(values: Seq<Option<Members>>) -> Seq<Option<Object>> {
    Seq::new(values.len(), |i: int| optional_object(values[i]))
}

/// What JSON text holds: nothing where it is not valid, and of a valid value
/// its members where it is an object.
pub uninterp spec fn json_value(text: Seq<char>) -> Option<Option<Object>>;

/// What the text of a JSON array holds, element by element: nothing where it
/// is not a valid array.
pub uninterp spec fn json_array(text: Seq<char>) -> Option<Seq<Option<Object>>>;

/// Reads JSON text with `serde_json::from_str` into a `serde_json::Value` and
/// lists the members of an object, with the text of those that are strings.
/// What counts as valid, and what a member's text is, is left to that crate.
#[verifier::external_body]
pub(crate) fn parse_value(text: &str) -> (value: Option<Option<Members>>)
    ensures
        value is Some <==> json_value(text@) is Some,
        value matches Some(v) ==> optional_object(v) == json_value(text@)->0,
{
    let value: serde_json::Value = serde_json::from_str(text).ok()?;
    Some(
        value.as_object().map(
            |object|
                object.iter().map(
                    |(name, member)| (name.clone(), member.as_str().map(str::to_owned)),
                ).collect(),
        ),
    )
}

/// Reads JSON text with `serde_json::from_str` into a list of
/// `serde_json::Value` and lists for each element that is an object its members,
/// with the text of those that are strings. What counts as valid, and what a
/// member's text is, is left to that crate.
#[verifier::external_body]
pub(crate) fn parse_array(text: &str) -> (values: Option<Vec<Option<Members>>>)
    ensures
        values is Some <==> json_array(text@) is Some,
        values matches Some(v) ==> objects_of(v@) == json_array(text@)->0,
{
    let values: Vec<serde_json::Value> = serde_json::from_str(text).ok()?;
    Some(
        values.iter().map(
            |value|
                value.as_object().map(
                    |object|
                        object.iter().map(
                            |(name, member)| (name.clone(), member.as_str().map(str::to_owned)),
                        ).collect(),
                ),
        ).collect(),
    )
}

/// The text of the member `name`, where the value is an object with such a
/// member and that is a string.
pub open spec fn string_member(value: Option<Object>, name: Seq<char>) -> Option<Seq<char>> {
    match value {
        Some(object) => if object.contains_key(name) {
            object[name]
        } else {
            None
        },
        None => None,
    }
}

/// The text of the member `name`, where the value is an object with such a
/// member and that is a string.
pub fn get_str<'a>(value: &'a Option<Members>, name: &str) -> (text: Option<&'a String>)
    ensures
        text is Some <==> string_member(optional_object(*value), name@) is Some,
        text matches Some(t) ==> t@ == string_member(optional_object(*value), name@)->0,
{
    match value {
        Some(members) => {
            let mut i: usize = 0;
            assert(members@.skip(0) =~= members@);
            while i < members.len()
                invariant
                    *value == Some(*members),
                    i <= members@.len(),
                    string_member(Some(object_of(members@)), name@) == string_member(
                        Some(object_of(members@.skip(i as int))),
                        name@,
                    ),
                decreases members@.len() - i,
            {
                proof {
                    let rest = members@.skip(i as int);
                    assert(rest[0] == members@[i as int]);
                    assert(rest.drop_first() =~= members@.skip(i + 1));
                }
                let member = &members[i];
                if same_text(member.0.as_str(), name) {
                    return match &member.1 {
                        Some(text) => Some(text),
                        None => None,
                    };
                }
                i = i + 1;
            }
            None
        },
        None => None,
    }
}

} // verus!
