//! Display names by agent pubkey.

use crate::text::same_text;
use vstd::prelude::*;

verus! {

/// The map that a list of pairs stands for.
spec fn map_of(pairs: Seq<(String, String)>) -> Map<Seq<char>, Seq<char>>
    decreases pairs.len(),
{
    if pairs.len() == 0 {
        Map::empty()
    } else {
        map_of(pairs.drop_last()).insert(pairs.last().0@, pairs.last().1@)
    }
}

/// Whether no pubkey occurs twice.
spec fn distinct_keys(pairs: Seq<(String, String)>) -> bool {
    forall|i: int, j: int|
        0 <= i < j < pairs.len() ==> (#[trigger] pairs[i]).0@ != (#[trigger] pairs[j]).0@
}

/// What the map holds, pair by pair.
proof fn lemma_map_of(pairs: Seq<(String, String)>)
    requires
        distinct_keys(pairs),
    ensures
        forall|i: int|
            0 <= i < pairs.len() ==> map_of(pairs).contains_key((#[trigger] pairs[i]).0@)
                && map_of(pairs)[pairs[i].0@] == pairs[i].1@,
        forall|key: Seq<char>| #[trigger]
            map_of(pairs).contains_key(key) ==> exists|i: int|
                0 <= i < pairs.len() && (#[trigger] pairs[i]).0@ == key,
    decreases pairs.len(),
{
    if pairs.len() > 0 {
        let rest = pairs.drop_last();
        assert forall|i: int, j: int| 0 <= i < j < rest.len() implies (#[trigger] rest[i]).0@ != (
        #[trigger] rest[j]).0@ by {
            assert(rest[i] == pairs[i] && rest[j] == pairs[j]);
        }
        lemma_map_of(rest);
        assert forall|i: int| 0 <= i < pairs.len() implies map_of(pairs).contains_key(
            (#[trigger] pairs[i]).0@,
        ) && map_of(pairs)[pairs[i].0@] == pairs[i].1@ by {
            if i < rest.len() {
                assert(rest[i] == pairs[i]);
                assert(pairs[i].0@ != pairs[pairs.len() - 1].0@);
            }
        }
        assert forall|key: Seq<char>| #[trigger]
            map_of(pairs).contains_key(key) implies exists|i: int|
            0 <= i < pairs.len() && (#[trigger] pairs[i]).0@ == key by {
            if key == pairs.last().0@ {
                assert(pairs[pairs.len() - 1].0@ == key);
            } else {
                assert(map_of(rest).contains_key(key));
                let i = choose|i: int| 0 <= i < rest.len() && (#[trigger] rest[i]).0@ == key;
                assert(pairs[i].0@ == key);
            }
        }
    }
}

/// Display names by agent pubkey. A pubkey has at most one name.
#[derive(Debug)]
pub struct Names {
    pairs: Vec<(String, String)>,
}

impl View for Names {
    type V = Map<Seq<char>, Seq<char>>;

    closed spec fn view(&self) -> Map<Seq<char>, Seq<char>> {
        map_of(self.pairs@)
    }
}

impl Names {
    #[verifier::type_invariant]
    spec fn one_name_each(self) -> bool {
        distinct_keys(self.pairs@)
    }

    /// No names.
    pub fn new() -> (names: Names)
        ensures
            names@ == Map::<Seq<char>, Seq<char>>::empty(),
    {
        Names { pairs: Vec::new() }
    }

    /// Where the name of a pubkey stands.
    fn find(&self, pubkey: &str) -> (at: Option<usize>)
        ensures
            at matches Some(i) ==> i < self.pairs@.len() && self.pairs@[i as int].0@ == pubkey@,
            at is None ==> !self@.contains_key(pubkey@),
    {
        proof {
            use_type_invariant(self);
            lemma_map_of(self.pairs@);
        }
        let mut i: usize = 0;
        while i < self.pairs.len()
            invariant
                i <= self.pairs@.len(),
                forall|j: int| 0 <= j < i ==> (#[trigger] self.pairs@[j]).0@ != pubkey@,
            decreases self.pairs@.len() - i,
        {
            if same_text(self.pairs[i].0.as_str(), pubkey) {
                return Some(i);
            }
            i = i + 1;
        }
        None
    }

    /// The name of a pubkey, if there is one.
    pub fn get(&self, pubkey: &str) -> (name: Option<&String>)
        ensures
            name is Some <==> self@.contains_key(pubkey@),
            name matches Some(n) ==> n@ == self@[pubkey@],
    {
        proof {
            use_type_invariant(self);
            lemma_map_of(self.pairs@);
        }
        match self.find(pubkey) {
            Some(i) => Some(&self.pairs[i].1),
            None => None,
        }
    }

    /// Names a pubkey. A name that it had before is replaced.
    pub fn insert(&mut self, pubkey: String, name: String)
        ensures
            final(self)@ == old(self)@.insert(pubkey@, name@),
    {
        proof {
            use_type_invariant(&*self);
            lemma_map_of(self.pairs@);
        }
        let at: Option<usize> = self.find(pubkey.as_str());
        let ghost before = self.pairs@;
        let ghost pair = (pubkey, name);
        let mut pairs: Vec<(String, String)> = Vec::new();
        std::mem::swap(&mut pairs, &mut self.pairs);
        match at {
            Some(i) => {
                pairs[i] = (pubkey, name);
                proof {
                    assert(pairs@ =~= before.update(i as int, pair));
                    assert(distinct_keys(pairs@));
                    lemma_map_of(pairs@);
                    assert(map_of(pairs@) =~= map_of(before).insert(pubkey@, name@)) by {
                        assert forall|key: Seq<char>|
                            #![trigger map_of(pairs@).contains_key(key)]
                            map_of(pairs@).contains_key(key) <==> map_of(before).insert(
                                pubkey@,
                                name@,
                            ).contains_key(key) by {
                            if map_of(pairs@).contains_key(key) {
                                let j = choose|j: int|
                                    0 <= j < pairs@.len() && (#[trigger] pairs@[j]).0@ == key;
                                assert(before[j].0@ == key);
                            }
                            if map_of(before).contains_key(key) {
                                let j = choose|j: int|
                                    0 <= j < before.len() && (#[trigger] before[j]).0@ == key;
                                assert(pairs@[j].0@ == key);
                            }
                            assert(pairs@[i as int].0@ == pubkey@);
                        }
                        assert forall|key: Seq<char>|
                            #![trigger map_of(pairs@)[key]]
                            map_of(pairs@).contains_key(key) implies map_of(pairs@)[key] == map_of(
                            before,
                        ).insert(pubkey@, name@)[key] by {
                            let j = choose|j: int|
                                0 <= j < pairs@.len() && (#[trigger] pairs@[j]).0@ == key;
                            if j != i {
                                assert(before[j] == pairs@[j]);
                                if i < j {
                                    assert(before[i as int].0@ != before[j].0@);
                                } else {
                                    assert(before[j].0@ != before[i as int].0@);
                                }
                            }
                        }
                    }
                }
            },
            None => {
                pairs.push((pubkey, name));
                proof {
                    assert(pairs@.drop_last() =~= before);
                    assert forall|i: int, j: int| 0 <= i < j < pairs@.len() implies (
                    #[trigger] pairs@[i]).0@ != (#[trigger] pairs@[j]).0@ by {
                        if j == before.len() {
                            assert(map_of(before).contains_key(before[i].0@));
                        }
                    }
                }
            },
        }
        self.pairs = pairs;
    }
}

} // verus!
