//! Where each channel left off, kept across restarts.
//!
//! A process that starts afresh resumes each channel from the newest time that
//! it has processed. Replay includes that second, so the ids of events processed
//! last are kept too: what is replayed can be told apart from what is new.

use crate::tally::texts;
use crate::watermark_laws::{
    is_known_as, law_load_gives_back_what_was_saved, law_load_keeps_every_channel,
};
use std::collections::HashMap;
use vstd::prelude::*;
use vstd::std_specs::iter::IteratorSpec;

verus! {

broadcast use vstd::std_specs::hash::group_hash_axioms;

/// How many recent event ids are kept for each channel.
pub const RECENT_IDS_PER_CHANNEL: usize = 64;

/// Where one channel left off.
#[derive(Debug)]
pub struct ChannelWatermark {
    /// The newest time that was processed for this channel, in seconds.
    pub last_seen: u64,
    /// The ids of the events processed last, newest last.
    pub recent_ids: Vec<String>,
}

/// Where one channel left off, by the characters of the ids.
#[verifier::ext_equal]
pub struct WatermarkView {
    pub last_seen: u64,
    pub recent_ids: Seq<Seq<char>>,
}

impl View for ChannelWatermark {
    type V = WatermarkView;

    open spec fn view(&self) -> WatermarkView {
        WatermarkView { last_seen: self.last_seen, recent_ids: texts(self.recent_ids@) }
    }
}

/// A channel of which nothing was processed.
pub open spec fn untouched() -> WatermarkView {
    WatermarkView { last_seen: 0, recent_ids: Seq::empty() }
}

/// The newest ids, as many as are kept.
pub open spec fn newest(ids: Seq<Seq<char>>) -> Seq<Seq<char>> {
    if ids.len() > RECENT_IDS_PER_CHANNEL {
        ids.skip(ids.len() - RECENT_IDS_PER_CHANNEL)
    } else {
        ids
    }
}

/// A channel after an event was processed. The time only moves forward; an id
/// that is known already changes nothing else.
pub open spec fn recorded(mark: WatermarkView, created_at: u64, id: Seq<char>) -> WatermarkView {
    WatermarkView {
        last_seen: if created_at > mark.last_seen {
            created_at
        } else {
            mark.last_seen
        },
        recent_ids: if mark.recent_ids.contains(id) {
            mark.recent_ids
        } else {
            newest(mark.recent_ids.push(id))
        },
    }
}

/// What is known of each channel.
pub type StoreView = Map<u128, WatermarkView>;

/// What is known of one channel.
pub open spec fn mark_of(store: StoreView, channel: u128) -> WatermarkView {
    if store.contains_key(channel) {
        store[channel]
    } else {
        untouched()
    }
}

/// The store after an event of a channel was processed.
pub open spec fn store_recorded(
    store: StoreView,
    channel: u128,
    created_at: u64,
    id: Seq<char>,
) -> StoreView {
    store.insert(channel, recorded(mark_of(store, channel), created_at, id))
}

/// From when a channel is resumed. A time of zero is no point to resume from.
pub open spec fn resume_point(store: StoreView, channel: u128) -> Option<u64> {
    if mark_of(store, channel).last_seen > 0 {
        Some(mark_of(store, channel).last_seen)
    } else {
        None
    }
}

/// Whether `order` lists the channels of the store, each once.
pub open spec fn lists_channels(store: StoreView, order: Seq<u128>) -> bool {
    &&& order.no_duplicates()
    &&& forall|channel: u128| store.contains_key(channel) <==> #[trigger] order.contains(channel)
}

/// The kept ids of the listed channels, channel by channel.
pub open spec fn ids_of(store: StoreView, order: Seq<u128>) -> Seq<Seq<char>>
    decreases order.len(),
{
    if order.len() == 0 {
        Seq::empty()
    } else {
        ids_of(store, order.drop_last()) + store[order.last()].recent_ids
    }
}

/// A store from a list of channels. Of entries of the same channel the last
/// counts.
pub open spec fn restored(channels: Seq<(u128, ChannelWatermark)>) -> StoreView
    decreases channels.len(),
{
    if channels.len() == 0 {
        Map::empty()
    } else {
        restored(channels.drop_last()).insert(channels.last().0, channels.last().1@)
    }
}

/// Whether the list holds each channel of the store once, as it is.
pub open spec fn is_snapshot(store: StoreView, channels: Seq<(u128, ChannelWatermark)>) -> bool {
    &&& forall|i: int, j: int|
        0 <= i < j < channels.len() ==> (#[trigger] channels[i]).0 != (#[trigger] channels[j]).0
    &&& forall|i: int|
        0 <= i < channels.len() ==> store.contains_key((#[trigger] channels[i]).0)
            && store[channels[i].0] == channels[i].1@
    &&& forall|channel: u128| #[trigger]
        store.contains_key(channel) ==> exists|i: int|
            0 <= i < channels.len() && (#[trigger] channels[i]).0 == channel
}

/// What was found on disk.
#[derive(Debug)]
pub enum StoredState {
    /// There is no file.
    Missing,
    /// There is a file, but it cannot be read.
    Unreadable,
    /// The file was read, but what it holds is no store.
    Corrupt,
    /// The channels that the file holds.
    Channels(Vec<(u128, ChannelWatermark)>),
}

/// What there is to say about the state that was found.
#[derive(Clone, Copy, Debug, PartialEq, Eq, Structural)]
pub enum LoadNotice {
    FirstRun,
    CouldNotRead,
    NotParsed,
    Resumed,
}

/// The store that a process starts with.
#[derive(Debug)]
pub struct Loaded {
    pub store: WatermarkStore,
    pub notice: LoadNotice,
}

/// What a process knows that starts with the state that was found.
pub open spec fn stored_view(found: StoredState) -> StoreView {
    match found {
        StoredState::Channels(channels) => restored(channels@),
        _ => Map::empty(),
    }
}

/// What there is to say about the state that was found.
pub open spec fn notice_for(found: StoredState) -> LoadNotice {
    match found {
        StoredState::Missing => LoadNotice::FirstRun,
        StoredState::Unreadable => LoadNotice::CouldNotRead,
        StoredState::Corrupt => LoadNotice::NotParsed,
        StoredState::Channels(_) => LoadNotice::Resumed,
    }
}

/// Where the channels of one agent left off. A channel is known by the number
/// of its UUID.
#[derive(Debug)]
pub struct WatermarkStore {
    channels: HashMap<u128, ChannelWatermark>,
}

impl View for WatermarkStore {
    type V = StoreView;

    closed spec fn view(&self) -> StoreView {
        self.channels@.map_values(|mark: ChannelWatermark| mark@)
    }
}

impl Default for WatermarkStore {
    /// A store that knows of no channel.
    fn default() -> (store: Self)
        ensures
            store@ == Map::<u128, WatermarkView>::empty(),
    {
        let store = WatermarkStore { channels: HashMap::new() };
        assert(store@ =~= Map::<u128, WatermarkView>::empty());
        store
    }
}

/// Whether an id is among those kept.
fn is_known(ids: &Vec<String>, id: &String) -> (known: bool)
    ensures
        known == texts(ids@).contains(id@),
{
    let mut i: usize = 0;
    while i < ids.len()
        invariant
            i <= ids@.len(),
            forall|j: int| 0 <= j < i ==> (#[trigger] ids@[j])@ != id@,
        decreases ids@.len() - i,
    {
        if ids[i] == *id {
            assert(texts(ids@)[i as int] == id@);
            return true;
        }
        i = i + 1;
    }
    assert forall|j: int| 0 <= j < texts(ids@).len() implies texts(ids@)[j] != id@ by {
        assert(ids@[j]@ != id@);
    }
    false
}

/// A copy of ids.
fn copy_ids(ids: &Vec<String>) -> (copy: Vec<String>)
    ensures
        texts(copy@) == texts(ids@),
{
    let mut copy: Vec<String> = Vec::new();
    let mut i: usize = 0;
    while i < ids.len()
        invariant
            i <= ids@.len(),
            copy@.len() == i,
            forall|j: int| 0 <= j < i ==> (#[trigger] copy@[j])@ == ids@[j]@,
        decreases ids@.len() - i,
    {
        copy.push(ids[i].clone());
        i = i + 1;
    }
    assert(texts(copy@) =~= texts(ids@));
    copy
}

/// Appends copies of ids.
fn push_ids(out: &mut Vec<String>, ids: &Vec<String>)
    ensures
        texts(final(out)@) == texts(old(out)@) + texts(ids@),
{
    let mut copy = copy_ids(ids);
    let ghost copied = copy@;
    out.append(&mut copy);
    assert(texts(out@) =~= texts(old(out)@) + texts(copied));
}

/// Records an event with one channel.
fn record_in(mark: ChannelWatermark, created_at: u64, event_id: &str) -> (next: ChannelWatermark)
    ensures
        next@ == recorded(mark@, created_at, event_id@),
{
    let last_seen: u64 = if created_at > mark.last_seen {
        created_at
    } else {
        mark.last_seen
    };
    let mut recent_ids = mark.recent_ids;
    let id = event_id.to_owned();
    if !is_known(&recent_ids, &id) {
        let ghost before = texts(recent_ids@);
        recent_ids.push(id);
        proof {
            assert(texts(recent_ids@) =~= before.push(event_id@));
        }
        if recent_ids.len() > RECENT_IDS_PER_CHANNEL {
            let ghost all = recent_ids@;
            let excess: usize = recent_ids.len() - RECENT_IDS_PER_CHANNEL;
            recent_ids = recent_ids.split_off(excess);
            proof {
                assert(texts(recent_ids@) =~= texts(all).skip(excess as int));
            }
        }
    }
    ChannelWatermark { last_seen, recent_ids }
}

impl WatermarkStore {
    /// Records a processed event. The resume point of its channel only moves
    /// forward, so events that arrive out of order cannot rewind it.
    pub fn record(&mut self, channel_id: u128, created_at: u64, event_id: &str)
        ensures
            final(self)@ == store_recorded(old(self)@, channel_id, created_at, event_id@),
    {
        let mark: ChannelWatermark = match self.channels.remove(&channel_id) {
            Some(mark) => mark,
            None => ChannelWatermark { last_seen: 0, recent_ids: Vec::new() },
        };
        proof {
            assert(texts(Seq::<String>::empty()) =~= Seq::empty());
            assert(mark@ =~= mark_of(old(self)@, channel_id));
        }
        let next = record_in(mark, created_at, event_id);
        self.channels.insert(channel_id, next);
        assert(self@ =~= store_recorded(old(self)@, channel_id, created_at, event_id@));
    }

    /// From when a channel is resumed, if it is.
    pub fn since(&self, channel_id: u128) -> (since: Option<u64>)
        ensures
            since == resume_point(self@, channel_id),
    {
        match self.channels.get(&channel_id) {
            Some(mark) => if mark.last_seen > 0 {
                Some(mark.last_seen)
            } else {
                None
            },
            None => None,
        }
    }

    /// Every kept event id, channel by channel. The order of the channels is
    /// not determined.
    pub fn all_recent_ids(&self) -> (ids: Vec<String>)
        ensures
            exists|order: Seq<u128>| #[trigger]
                lists_channels(self@, order) && texts(ids@) == ids_of(self@, order),
    {
        let mut ids: Vec<String> = Vec::new();
        let ghost mut order: Seq<u128> = Seq::empty();
        assert(texts(ids@) =~= ids_of(self@, order));
        let ghost pairs = vstd::std_specs::hash::spec_hash_map_iter(&self.channels).remaining();
        for pair in it: self.channels.iter()
            invariant
                it.seq() == pairs,
                pairs == vstd::std_specs::hash::spec_hash_map_iter(&self.channels).remaining(),
                pairs.no_duplicates(),
                order.len() == it.index(),
                forall|i: int| 0 <= i < order.len() ==> #[trigger] order[i] == *it.seq()[i].0,
                texts(ids@) == ids_of(self@, order),
        {
            proof {
                assert(self.channels@.contains_key(*pair.0));
                assert(order.push(*pair.0).drop_last() =~= order);
            }
            push_ids(&mut ids, &pair.1.recent_ids);
            proof {
                order = order.push(*pair.0);
            }
        }
        proof {
            let m = self.channels@;
            assert forall|i: int, j: int|
                0 <= i < order.len() && 0 <= j < order.len() && i != j implies order[i]
                != order[j] by {
                if order[i] == order[j] {
                    assert(m[*pairs[i].0] == *pairs[i].1);
                    assert(m[*pairs[j].0] == *pairs[j].1);
                    assert(pairs[i] == pairs[j]);
                }
            }
            assert forall|channel: u128|
                self@.contains_key(channel) <==> #[trigger] order.contains(channel) by {
                if m.contains_key(channel) {
                    assert(pairs.contains((&channel, &m[channel])));
                    let i = choose|i: int|
                        0 <= i < pairs.len() && pairs[i] == (&channel, &m[channel]);
                    assert(order[i] == channel);
                }
                if order.contains(channel) {
                    let i = choose|i: int| 0 <= i < order.len() && order[i] == channel;
                    assert(m.contains_key(*pairs[i].0));
                }
            }
            assert(lists_channels(self@, order));
        }
        ids
    }

    /// Drops what is known of a channel.
    pub fn forget(&mut self, channel_id: u128)
        ensures
            final(self)@ == old(self)@.remove(channel_id),
    {
        self.channels.remove(&channel_id);
        assert(self@ =~= old(self)@.remove(channel_id));
    }

    /// What is known of each channel, to be written down. The order of the
    /// channels is not determined.
    pub fn channels(&self) -> (channels: Vec<(u128, ChannelWatermark)>)
        ensures
            is_snapshot(self@, channels@),
    {
        let mut channels: Vec<(u128, ChannelWatermark)> = Vec::new();
        let ghost pairs = vstd::std_specs::hash::spec_hash_map_iter(&self.channels).remaining();
        for pair in it: self.channels.iter()
            invariant
                it.seq() == pairs,
                pairs == vstd::std_specs::hash::spec_hash_map_iter(&self.channels).remaining(),
                pairs.no_duplicates(),
                channels@.len() == it.index(),
                forall|i: int|
                    0 <= i < channels@.len() ==> (#[trigger] channels@[i]).0 == *pairs[i].0
                        && channels@[i].1@ == pairs[i].1@,
        {
            let recent_ids = copy_ids(&pair.1.recent_ids);
            let copy = ChannelWatermark { last_seen: pair.1.last_seen, recent_ids };
            assert(copy@ =~= pair.1@);
            channels.push((*pair.0, copy));
        }
        proof {
            let m = self.channels@;
            assert forall|i: int, j: int| 0 <= i < j < channels@.len() implies (
            #[trigger] channels@[i]).0 != (#[trigger] channels@[j]).0 by {
                if channels@[i].0 == channels@[j].0 {
                    assert(m[*pairs[i].0] == *pairs[i].1);
                    assert(m[*pairs[j].0] == *pairs[j].1);
                    assert(pairs[i] == pairs[j]);
                }
            }
            assert forall|i: int| 0 <= i < channels@.len() implies self@.contains_key(
                (#[trigger] channels@[i]).0,
            ) && self@[channels@[i].0] == channels@[i].1@ by {
                assert(m.contains_key(*pairs[i].0));
                assert(m[*pairs[i].0] == *pairs[i].1);
            }
            assert forall|channel: u128| #[trigger] self@.contains_key(channel) implies exists|
                i: int,
            |
                0 <= i < channels@.len() && (#[trigger] channels@[i]).0 == channel by {
                assert(m.contains_key(channel));
                assert(pairs.contains((&channel, &m[channel])));
                let i = choose|i: int|
                    0 <= i < pairs.len() && pairs[i] == (&channel, &m[channel]);
                assert(channels@[i].0 == channel);
            }
        }
        channels
    }

    /// A store from what was written down.
    pub fn from_channels(channels: Vec<(u128, ChannelWatermark)>) -> (store: WatermarkStore)
        ensures
            store@ == restored(channels@),
    {
        let ghost all = channels@;
        let mut store = WatermarkStore { channels: HashMap::new() };
        assert(store@ =~= restored(all.take(0)));
        for pair in it: channels.into_iter()
            invariant
                it.seq() == all,
                store@ == restored(all.take(it.index() as int)),
        {
            let ghost before = store@;
            proof {
                assert(all.take(it.index() + 1).drop_last() =~= all.take(it.index() as int));
                assert(all.take(it.index() + 1).last() == pair);
            }
            store.channels.insert(pair.0, pair.1);
            assert(store@ =~= before.insert(pair.0, pair.1@));
        }
        assert(all.take(all.len() as int) =~= all);
        store
    }

    /// The store that a process starts with, from what was found on disk.
    ///
    /// A missing file is a first run, and neither a file that cannot be read nor
    /// a corrupt one keeps an agent from starting: it starts from now. Which of
    /// them it was is told apart, because an agent that reads the wrong place
    /// would otherwise look like one that runs for the first time.
    pub fn load(found: StoredState) -> (loaded: Loaded)
        ensures
            loaded.store@ == stored_view(found),
            loaded.notice == notice_for(found),
            found matches StoredState::Channels(channels) ==> forall|store: StoreView| #[trigger]
                is_snapshot(store, channels@) ==> loaded.store@ == store,
            found matches StoredState::Channels(channels) ==> forall|i: int|
                0 <= i < channels@.len() && (forall|j: int|
                    i < j < channels@.len() ==> (#[trigger] channels@[j]).0 != channels@[i].0)
                    ==> is_known_as(loaded.store@, #[trigger] channels@[i]),
            !(found is Channels) ==> loaded.store@.is_empty(),
    {
        proof {
            if found is Channels {
                let channels = found->Channels_0;
                law_load_keeps_every_channel(channels);
                assert forall|store: StoreView| #[trigger] is_snapshot(
                    store,
                    channels@,
                ) implies stored_view(found) == store by {
                    law_load_gives_back_what_was_saved(store, channels);
                }
            }
        }
        match found {
            StoredState::Missing => Loaded {
                store: WatermarkStore::default(),
                notice: LoadNotice::FirstRun,
            },
            StoredState::Unreadable => Loaded {
                store: WatermarkStore::default(),
                notice: LoadNotice::CouldNotRead,
            },
            StoredState::Corrupt => Loaded {
                store: WatermarkStore::default(),
                notice: LoadNotice::NotParsed,
            },
            StoredState::Channels(channels) => Loaded {
                store: WatermarkStore::from_channels(channels),
                notice: LoadNotice::Resumed,
            },
        }
    }

    /// Whether nothing is known of any channel.
    pub fn is_empty(&self) -> (empty: bool)
        ensures
            empty == self@.is_empty(),
    {
        let empty = self.channels.is_empty();
        empty
    }
}

} // verus!
