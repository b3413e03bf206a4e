//! What the names that are read out of profiles are.

use crate::display::{trimmed, white_space};
use crate::display_laws::{is_core_of, law_trimming_takes_only_white_space};
use crate::json::{json_value, object_of, string_member, Object};
use crate::profile::{event_views, events_in, name_in, names_of, with_profile, ProfileEvent};
use vstd::prelude::*;

verus! {

/// Whether a JSON value is an object with a member of this name that is a string.
pub open spec fn has_text(value: Option<Object>, member: Seq<char>) -> bool {
    value is Some && value->0.contains_key(member) && value->0[member] is Some
}

/// Whether a name is the text without the white space at its ends. Where the text
/// has none there, that is the text itself.
pub open spec fn is_name_from(name: Seq<char>, text: Seq<char>) -> bool {
    &&& is_core_of(name, text)
    &&& text.len() > 0 && !white_space(text[0]) && !white_space(text[text.len() - 1]) ==> name
        == text
}

/// The name in a profile is the whole text of its display name, or, where that is
/// missing or no string, of its name; only white space at the ends is left out.
/// Without either it is empty.
pub proof fn law_profile_name_is_the_text(profile: Option<Object>)
    ensures
        has_text(profile, "display_name"@) ==> is_name_from(
            name_in(profile),
            profile->0["display_name"@]->0,
        ),
        !has_text(profile, "display_name"@) && has_text(profile, "name"@) ==> is_name_from(
            name_in(profile),
            profile->0["name"@]->0,
        ),
        !has_text(profile, "display_name"@) && !has_text(profile, "name"@) ==> name_in(
            profile,
        ).len() == 0,
{
    if has_text(profile, "display_name"@) {
        law_trimming_takes_only_white_space(profile->0["display_name"@]->0);
    } else if has_text(profile, "name"@) {
        law_trimming_takes_only_white_space(profile->0["name"@]->0);
    } else {
        assert(trimmed(Seq::<char>::empty()) == Seq::<char>::empty());
    }
}

/// Of the members of an object the first with a name counts, with its own text;
/// there is none where no member has that name or the first that has it is no
/// string.
pub proof fn law_first_member_counts(members: Seq<(String, Option<String>)>, name: Seq<char>)
    ensures
        forall|at: int|
            0 <= at < members.len() && (#[trigger] members[at]).0@ == name && (forall|j: int|
                0 <= j < at ==> (#[trigger] members[j]).0@ != name) ==> {
                let text = string_member(Some(object_of(members)), name);
                &&& text is Some <==> members[at].1 is Some
                &&& text is Some ==> text->0 == members[at].1->0@
            },
        (forall|j: int| 0 <= j < members.len() ==> (#[trigger] members[j]).0@ != name)
            ==> string_member(Some(object_of(members)), name) is None,
    decreases members.len(),
{
    if members.len() > 0 {
        let rest = members.drop_first();
        law_first_member_counts(rest, name);
        let text = string_member(Some(object_of(members)), name);
        if members[0].0@ != name {
            assert(text == string_member(Some(object_of(rest)), name));
            assert forall|at: int|
                0 <= at < members.len() && (#[trigger] members[at]).0@ == name && (forall|j: int|
                    0 <= j < at ==> (#[trigger] members[j]).0@ != name) implies {
                &&& text is Some <==> members[at].1 is Some
                &&& text is Some ==> text->0 == members[at].1->0@
            } by {
                assert(rest[at - 1] == members[at]);
                assert forall|j: int| 0 <= j < at - 1 implies (#[trigger] rest[j]).0@ != name by {
                    assert(rest[j] == members[j + 1]);
                }
            }
            if forall|j: int| 0 <= j < members.len() ==> (#[trigger] members[j]).0@ != name {
                assert forall|j: int| 0 <= j < rest.len() implies (#[trigger] rest[j]).0@
                    != name by {
                    assert(rest[j] == members[j + 1]);
                }
            }
        }
    }
}

/// Whether an event holds a profile that names the agent who published it.
pub open spec fn names_agent(event: ProfileEvent, agent: Seq<char>) -> bool {
    &&& event.pubkey@ == agent
    &&& json_value(event.content@) is Some
    &&& name_in(json_value(event.content@)->0).len() > 0
}

/// An agent has a name exactly where one of its profiles names it, and the name is
/// that of the last profile that does.
pub proof fn law_last_naming_profile_counts(events: Seq<ProfileEvent>, agent: Seq<char>)
    ensures
        names_of(event_views(events)).contains_key(agent) <==> exists|k: int|
            0 <= k < events.len() && names_agent(#[trigger] events[k], agent),
        forall|k: int|
            0 <= k < events.len() && names_agent(#[trigger] events[k], agent) && (forall|j: int|
                k < j < events.len() ==> !names_agent(#[trigger] events[j], agent)) ==> names_of(
                event_views(events),
            )[agent] == name_in(json_value(events[k].content@)->0),
    decreases events.len(),
{
    if events.len() > 0 {
        let rest = events.drop_last();
        let last = events[events.len() - 1];
        let views = event_views(events);
        law_last_naming_profile_counts(rest, agent);
        assert(views.drop_last() =~= event_views(rest));
        assert(views.last() == (last.pubkey@, last.content@));
        let before = names_of(event_views(rest));
        let after = names_of(views);
        assert(after == with_profile(before, last.pubkey@, json_value(last.content@)));
        if names_agent(last, agent) {
            assert(after.contains_key(agent));
        } else {
            assert(after.contains_key(agent) <==> before.contains_key(agent));
            if before.contains_key(agent) {
                let k = choose|k: int|
                    0 <= k < rest.len() && names_agent(#[trigger] rest[k], agent);
                assert(names_agent(events[k], agent));
            }
            assert forall|k: int|
                0 <= k < events.len() && names_agent(#[trigger] events[k], agent) && (forall|j: int|
                    k < j < events.len() ==> !names_agent(
                        #[trigger] events[j],
                        agent,
                    )) implies before.contains_key(agent) && after[agent] == name_in(
                json_value(events[k].content@)->0,
            ) by {
                assert(rest[k] == events[k]);
                assert forall|j: int| k < j < rest.len() implies !names_agent(
                    #[trigger] rest[j],
                    agent,
                ) by {
                    assert(rest[j] == events[j]);
                }
            }
            assert forall|k: int| 0 <= k < events.len() && names_agent(
                #[trigger] events[k],
                agent,
            ) implies before.contains_key(agent) by {
                assert(rest[k] == events[k]);
            }
        }
    }
}

/// A value of a response is a profile event exactly where it has a pubkey, with
/// the content that it has or else none; and the events of two responses, one
/// behind the other, are those of the first and then those of the second.
pub proof fn law_every_value_with_a_pubkey_is_read(
    a: Seq<Option<Object>>,
    b: Seq<Option<Object>>,
    value: Option<Object>,
)
    ensures
        events_in(a + b) == events_in(a) + events_in(b),
        has_text(value, "pubkey"@) ==> events_in(seq![value]).len() == 1 && events_in(
            seq![value],
        )[0].0 == value->0["pubkey"@]->0,
        has_text(value, "pubkey"@) && has_text(value, "content"@) ==> events_in(seq![value])[0].1
            == value->0["content"@]->0,
        has_text(value, "pubkey"@) && !has_text(value, "content"@) ==> events_in(
            seq![value],
        )[0].1.len() == 0,
        !has_text(value, "pubkey"@) ==> events_in(seq![value]).len() == 0,
    decreases b.len(),
{
    assert(seq![value].drop_last() =~= Seq::empty());
    reveal_with_fuel(events_in, 2);
    if b.len() == 0 {
        assert(a + b =~= a);
        assert(events_in(a) + events_in(b) =~= events_in(a));
    } else {
        let rest = b.drop_last();
        law_every_value_with_a_pubkey_is_read(a, rest, value);
        assert((a + b).drop_last() =~= a + rest);
        assert((a + b).last() == b.last());
        assert(events_in(a + b) =~= events_in(a) + events_in(b));
    }
}

} // verus!
