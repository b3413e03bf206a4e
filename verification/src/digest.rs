//! What is printed after a digest was posted.

use crate::json::{json_value, optional_object, parse_value, Members, Object};
use vstd::prelude::*;

verus! {

/// How a relay's response to a posted digest is printed.
#[derive(Clone, Copy, Debug, PartialEq, Eq, Structural)]
pub enum DigestOutput {
    /// As an object that holds the response as text, and the number of agents.
    Wrapped,
    /// As it is.
    Unchanged,
    /// With the number of agents added to its members.
    Extended,
}

/// How a response is printed: an object is extended, any other JSON value is
/// left alone, and what is no JSON is wrapped.
pub open spec fn output_for(response: Option<Option<Object>>) -> DigestOutput {
    match response {
        Some(Some(_)) => DigestOutput::Extended,
        Some(None) => DigestOutput::Unchanged,
        None => DigestOutput::Wrapped,
    }
}

/// How a response that was read is printed.
pub fn output_of(response: &Option<Option<Members>>) -> (output: DigestOutput)
    ensures
        output == output_for(
            match *response {
                Some(value) => Some(optional_object(value)),
                None => None,
            },
        ),
{
    match response {
        Some(Some(_)) => DigestOutput::Extended,
        Some(None) => DigestOutput::Unchanged,
        None => DigestOutput::Wrapped,
    }
}

/// How a relay's response is printed.
pub fn digest_output(response: &str) -> (output: DigestOutput)
    ensures
        output == output_for(json_value(response@)),
        output is Wrapped <==> json_value(response@) is None,
        output is Extended <==> json_value(response@) is Some && json_value(response@)->0 is Some,
{
    let value = parse_value(response);
    output_of(&value)
}

/// A response is extended exactly where it is a JSON object, unchanged exactly
/// where it is another JSON value, and wrapped exactly where it is no JSON.
pub proof fn law_only_objects_are_extended(response: Seq<char>)
    ensures
        output_for(json_value(response)) is Extended <==> json_value(response) is Some
            && json_value(response)->0 is Some,
        output_for(json_value(response)) is Unchanged <==> json_value(response) is Some
            && json_value(response)->0 is None,
        output_for(json_value(response)) is Wrapped <==> json_value(response) is None,
{
}

} // verus!
