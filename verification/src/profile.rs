//! Display names out of the profiles that agents publish.

use crate::display::{trim_text, trimmed};
use crate::json::{
    get_str, json_array, json_value, objects_of, optional_object, parse_array, parse_value,
    string_member, Members, Object,
};
use crate::names::Names;
use crate::profile_laws::{has_text, is_name_from, law_profile_name_is_the_text};
use vstd::prelude::*;

verus! {

/// The name in a profile: the display name, or else the name, without white
/// space at its ends. Empty where the profile names nobody.
pub open spec fn name_in(profile: Option<Object>) -> Seq<char> {
    trimmed(
        match string_member(profile, "display_name"@) {
            Some(name) => name,
            None => match string_member(profile, "name"@) {
                Some(name) => name,
                None => Seq::empty(),
            },
        },
    )
}

/// The name in a profile, empty where it names nobody.
pub fn profile_name(profile: &Option<Members>) -> (name: String)
    ensures
        name@ == name_in(optional_object(*profile)),
        has_text(optional_object(*profile), "display_name"@) ==> is_name_from(
            name@,
            optional_object(*profile)->0["display_name"@]->0,
        ),
        !has_text(optional_object(*profile), "display_name"@) && has_text(
            optional_object(*profile),
            "name"@,
        ) ==> is_name_from(name@, optional_object(*profile)->0["name"@]->0),
{
    proof {
        law_profile_name_is_the_text(optional_object(*profile));
    }
    match get_str(profile, "display_name") {
        Some(name) => trim_text(name.as_str()),
        None => match get_str(profile, "name") {
            Some(name) => trim_text(name.as_str()),
            None => {
                let name = String::new();
                assert(trimmed(Seq::<char>::empty()) == Seq::<char>::empty());
                name
            },
        },
    }
}

/// The names after one more profile. Content that is no JSON, and a profile
/// that names nobody, change nothing.
pub open spec fn with_profile(
    names: Map<Seq<char>, Seq<char>>,
    pubkey: Seq<char>,
    profile: Option<Option<Object>>,
) -> Map<Seq<char>, Seq<char>> {
    match profile {
        Some(value) => if name_in(value).len() == 0 {
            names
        } else {
            names.insert(pubkey, name_in(value))
        },
        None => names,
    }
}

/// Takes the name out of a profile that was read.
pub fn add_profile(names: &mut Names, pubkey: &String, profile: &Option<Option<Members>>)
    ensures
        final(names)@ == with_profile(
            old(names)@,
            pubkey@,
            match *profile {
                Some(value) => Some(optional_object(value)),
                None => None,
            },
        ),
{
    match profile {
        Some(value) => {
            let name = profile_name(value);
            if !name.as_str().is_empty() {
                names.insert(pubkey.clone(), name);
            }
        },
        None => {},
    }
}

/// A profile event: who published it, and its content.
#[derive(Clone, Debug)]
pub struct ProfileEvent {
    pub pubkey: String,
    pub content: String,
}

/// The views of profile events.
pub open spec fn event_views(events: Seq<ProfileEvent>) -> Seq<(Seq<char>, Seq<char>)> {
    Seq::new(events.len(), |i: int| (events[i].pubkey@, events[i].content@))
}

/// The names in profile events, in their order: a later profile of the same
/// agent replaces an earlier name.
pub open spec fn names_of(events: Seq<(Seq<char>, Seq<char>)>) -> Map<Seq<char>, Seq<char>>
    decreases events.len(),
{
    if events.len() == 0 {
        Map::empty()
    } else {
        with_profile(names_of(events.drop_last()), events.last().0, json_value(events.last().1))
    }
}

/// The names in profile events.
pub fn names_from_profiles(events: &Vec<ProfileEvent>) -> (names: Names)
    ensures
        names@ == names_of(event_views(events@)),
{
    let ghost views = event_views(events@);
    let mut names = Names::new();
    let mut i: usize = 0;
    assert(views.take(0) =~= Seq::empty());
    while i < events.len()
        invariant
            views == event_views(events@),
            i <= events@.len(),
            names@ == names_of(views.take(i as int)),
        decreases events@.len() - i,
    {
        proof {
            assert(views.take(i + 1).drop_last() =~= views.take(i as int));
            assert(views.take(i + 1).last() == views[i as int]);
        }
        let profile = parse_value(events[i].content.as_str());
        add_profile(&mut names, &events[i].pubkey, &profile);
        i = i + 1;
    }
    assert(views.take(events@.len() as int) =~= views);
    names
}

/// The profile events among JSON values: those with a pubkey. Missing content
/// counts as empty.
pub open spec fn events_in(values: Seq<Option<Object>>) -> Seq<(Seq<char>, Seq<char>)>
    decreases values.len(),
{
    if values.len() == 0 {
        Seq::empty()
    } else {
        let rest = events_in(values.drop_last());
        match string_member(values.last(), "pubkey"@) {
            Some(pubkey) => rest.push(
                (
                    pubkey,
                    match string_member(values.last(), "content"@) {
                        Some(content) => content,
                        None => Seq::empty(),
                    },
                ),
            ),
            None => rest,
        }
    }
}

/// The profile events among JSON values: those with a pubkey. Missing content
/// counts as empty.
pub fn profile_events(values: &Vec<Option<Members>>) -> (events: Vec<ProfileEvent>)
    ensures
        event_views(events@) == events_in(objects_of(values@)),
{
    let ghost objects = objects_of(values@);
    let mut events: Vec<ProfileEvent> = Vec::new();
    let mut i: usize = 0;
    assert(objects.take(0) =~= Seq::empty());
    assert(event_views(events@) =~= Seq::empty());
    while i < values.len()
        invariant
            objects == objects_of(values@),
            i <= values@.len(),
            event_views(events@) == events_in(objects.take(i as int)),
        decreases values@.len() - i,
    {
        let ghost before = event_views(events@);
        proof {
            assert(objects.take(i + 1).drop_last() =~= objects.take(i as int));
            assert(objects.take(i + 1).last() == objects[i as int]);
        }
        match get_str(&values[i], "pubkey") {
            Some(pubkey) => {
                let content: String = match get_str(&values[i], "content") {
                    Some(content) => content.clone(),
                    None => String::new(),
                };
                let ghost added = (pubkey@, content@);
                events.push(ProfileEvent { pubkey: pubkey.clone(), content });
                assert(event_views(events@) =~= before.push(added));
            },
            None => {},
        }
        i = i + 1;
    }
    assert(objects.take(values@.len() as int) =~= objects);
    events
}

/// The names in the response of a relay: a JSON array of profile events. A
/// response that is none names nobody.
pub fn names_from_response(response: &str) -> (names: Names)
    ensures
        names@ == match json_array(response@) {
            Some(values) => names_of(events_in(values)),
            None => Map::<Seq<char>, Seq<char>>::empty(),
        },
{
    match parse_array(response) {
        Some(values) => {
            let events = profile_events(&values);
            names_from_profiles(&events)
        },
        None => Names::new(),
    }
}

} // verus!
