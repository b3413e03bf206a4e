//! What holds of watermarks, whatever events come and whenever a process
//! restarts.

use crate::watermark::{
    ids_of, is_snapshot, lists_channels, mark_of, newest, notice_for, recorded, restored,
    resume_point, store_recorded, stored_view, untouched, ChannelWatermark, StoreView, StoredState,
    WatermarkView, RECENT_IDS_PER_CHANNEL,
};
use vstd::prelude::*;

verus! {

/// A processed event of one channel.
pub struct Processed {
    pub created_at: u64,
    pub id: Seq<char>,
}

/// A channel after several events were processed.
pub open spec fn run(mark: WatermarkView, events: Seq<Processed>) -> WatermarkView
    decreases events.len(),
{
    if events.len() == 0 {
        mark
    } else {
        recorded(run(mark, events.drop_last()), events.last().created_at, events.last().id)
    }
}

/// The resume point of no channel moves backwards, and that of the event's own
/// channel does not stay behind the event.
pub proof fn law_last_seen_never_moves_backwards(
    store: StoreView,
    channel: u128,
    created_at: u64,
    id: Seq<char>,
    any: u128,
)
    ensures
        mark_of(store_recorded(store, channel, created_at, id), any).last_seen >= mark_of(
            store,
            any,
        ).last_seen,
        mark_of(store_recorded(store, channel, created_at, id), channel).last_seen >= created_at,
{
}

/// Recording an event leaves all other channels as they were.
pub proof fn law_other_channels_unchanged(
    store: StoreView,
    channel: u128,
    created_at: u64,
    id: Seq<char>,
    other: u128,
)
    requires
        other != channel,
    ensures
        ({
            let after = store_recorded(store, channel, created_at, id);
            &&& after.contains_key(other) <==> store.contains_key(other)
            &&& store.contains_key(other) ==> after[other] == store[other]
        }),
{
}

/// The newest ids of a list with one more end with that one.
proof fn lemma_newest_last(ids: Seq<Seq<char>>, id: Seq<char>)
    ensures
        newest(ids.push(id)).contains(id),
{
    let kept = newest(ids.push(id));
    assert(kept[kept.len() - 1] == id);
}

/// The id of a recorded event is kept.
pub proof fn law_recorded_event_is_known(mark: WatermarkView, created_at: u64, id: Seq<char>)
    ensures
        recorded(mark, created_at, id).recent_ids.contains(id),
{
    lemma_newest_last(mark.recent_ids, id);
}

/// Recording the same event twice is recording it once.
pub proof fn law_record_is_idempotent(mark: WatermarkView, created_at: u64, id: Seq<char>)
    ensures
        recorded(recorded(mark, created_at, id), created_at, id) == recorded(mark, created_at, id),
{
    law_recorded_event_is_known(mark, created_at, id);
}

/// Whether a channel keeps no more ids than it should, and none twice.
pub open spec fn is_tidy(mark: WatermarkView) -> bool {
    mark.recent_ids.len() <= RECENT_IDS_PER_CHANNEL && mark.recent_ids.no_duplicates()
}

/// A tidy channel stays tidy.
pub proof fn law_record_keeps_ids_bounded(mark: WatermarkView, created_at: u64, id: Seq<char>)
    requires
        is_tidy(mark),
    ensures
        is_tidy(recorded(mark, created_at, id)),
{
    let ids = mark.recent_ids;
    if !ids.contains(id) {
        let all = ids.push(id);
        assert forall|i: int, j: int|
            0 <= i < all.len() && 0 <= j < all.len() && i != j implies all[i] != all[j] by {
            if i == ids.len() {
                assert(ids.contains(ids[j]));
            }
            if j == ids.len() {
                assert(ids.contains(ids[i]));
            }
        }
        let kept = newest(all);
        assert forall|i: int, j: int|
            0 <= i < kept.len() && 0 <= j < kept.len() && i != j implies kept[i] != kept[j] by {
            let gap = all.len() - kept.len();
            assert(kept[i] == all[i + gap] && kept[j] == all[j + gap]);
        }
    }
}

/// A channel that starts untouched is tidy after any events.
pub proof fn law_ids_stay_bounded(events: Seq<Processed>)
    ensures
        is_tidy(run(untouched(), events)),
    decreases events.len(),
{
    if events.len() > 0 {
        law_ids_stay_bounded(events.drop_last());
        law_record_keeps_ids_bounded(
            run(untouched(), events.drop_last()),
            events.last().created_at,
            events.last().id,
        );
    }
}

/// The resume point is the newest time of all events, in whatever order they
/// came: no event is newer, and it is the time of one of them or the time that
/// was there before.
pub proof fn law_last_seen_is_the_newest(mark: WatermarkView, events: Seq<Processed>)
    ensures
        run(mark, events).last_seen >= mark.last_seen,
        forall|i: int|
            0 <= i < events.len() ==> run(mark, events).last_seen >= (
            #[trigger] events[i]).created_at,
        run(mark, events).last_seen == mark.last_seen || exists|i: int|
            0 <= i < events.len() && (#[trigger] events[i]).created_at == run(
                mark,
                events,
            ).last_seen,
    decreases events.len(),
{
    if events.len() > 0 {
        let rest = events.drop_last();
        law_last_seen_is_the_newest(mark, rest);
        let seen = run(mark, events).last_seen;
        assert forall|i: int| 0 <= i < events.len() implies seen >= (
        #[trigger] events[i]).created_at by {
            if i < rest.len() {
                assert(rest[i] == events[i]);
            }
        }
        if seen == run(mark, rest).last_seen {
            if seen != mark.last_seen {
                let i = choose|i: int|
                    0 <= i < rest.len() && (#[trigger] rest[i]).created_at == seen;
                assert(events[i].created_at == seen);
            }
        } else {
            assert(events[events.len() - 1].created_at == seen);
        }
    }
}

/// The ids of events.
pub open spec fn event_ids(events: Seq<Processed>) -> Seq<Seq<char>> {
    Seq::new(events.len(), |i: int| events[i].id)
}

/// Dropping the oldest before or after another one comes is the same.
proof fn lemma_newest_push(ids: Seq<Seq<char>>, id: Seq<char>)
    ensures
        newest(newest(ids).push(id)) == newest(ids.push(id)),
{
    assert(newest(newest(ids).push(id)) =~= newest(ids.push(id)));
}

/// Of events with different ids the newest ids are kept, in order, and the
/// oldest are dropped first.
pub proof fn law_newest_ids_are_kept(events: Seq<Processed>)
    requires
        event_ids(events).no_duplicates(),
    ensures
        run(untouched(), events).recent_ids == newest(event_ids(events)),
    decreases events.len(),
{
    let ids = event_ids(events);
    if events.len() == 0 {
        assert(ids =~= Seq::empty());
    } else {
        let rest = events.drop_last();
        let id = events.last().id;
        assert(event_ids(rest) =~= ids.drop_last());
        assert forall|i: int, j: int|
            0 <= i < event_ids(rest).len() && 0 <= j < event_ids(rest).len() && i
                != j implies event_ids(rest)[i] != event_ids(rest)[j] by {
            assert(ids[i] != ids[j]);
        }
        law_newest_ids_are_kept(rest);
        let kept = newest(event_ids(rest));
        assert(ids =~= event_ids(rest).push(id));
        assert forall|i: int| 0 <= i < kept.len() implies kept[i] != id by {
            let gap = event_ids(rest).len() - kept.len();
            assert(kept[i] == ids[i + gap]);
            assert(ids[ids.len() - 1] == id);
        }
        lemma_newest_push(event_ids(rest), id);
    }
}

/// All kept ids are found, whatever the order of the channels.
pub proof fn law_all_kept_ids_are_listed(store: StoreView, order: Seq<u128>, id: Seq<char>)
    requires
        lists_channels(store, order),
    ensures
        ids_of(store, order).contains(id) <==> exists|channel: u128|
            store.contains_key(channel) && (#[trigger] store[channel]).recent_ids.contains(id),
{
    lemma_ids_of(store, order, id);
    if exists|i: int|
        0 <= i < order.len() && store[#[trigger] order[i]].recent_ids.contains(id) {
        let i = choose|i: int|
            0 <= i < order.len() && store[#[trigger] order[i]].recent_ids.contains(id);
        assert(order.contains(order[i]));
        assert(store.contains_key(order[i]) && store[order[i]].recent_ids.contains(id));
    }
    if exists|channel: u128|
        store.contains_key(channel) && (#[trigger] store[channel]).recent_ids.contains(id) {
        let channel = choose|channel: u128|
            store.contains_key(channel) && (#[trigger] store[channel]).recent_ids.contains(id);
        assert(order.contains(channel));
        let i = choose|i: int| 0 <= i < order.len() && order[i] == channel;
        assert(store[order[i]].recent_ids.contains(id));
    }
}

/// An id is listed exactly where one of the listed channels keeps it.
proof fn lemma_ids_of(store: StoreView, order: Seq<u128>, id: Seq<char>)
    ensures
        ids_of(store, order).contains(id) <==> exists|i: int|
            0 <= i < order.len() && store[#[trigger] order[i]].recent_ids.contains(id),
    decreases order.len(),
{
    if order.len() > 0 {
        let rest = order.drop_last();
        lemma_ids_of(store, rest, id);
        let head = ids_of(store, rest);
        let tail = store[order.last()].recent_ids;
        let all = ids_of(store, order);
        if all.contains(id) {
            let k = choose|k: int| 0 <= k < all.len() && all[k] == id;
            if k < head.len() {
                assert(head[k] == id);
                let i = choose|i: int|
                    0 <= i < rest.len() && store[#[trigger] rest[i]].recent_ids.contains(id);
                assert(order[i] == rest[i]);
            } else {
                assert(tail[k - head.len()] == id);
                assert(store[order[order.len() - 1]].recent_ids.contains(id));
            }
        }
        if exists|i: int|
            0 <= i < order.len() && store[#[trigger] order[i]].recent_ids.contains(id) {
            let i = choose|i: int|
                0 <= i < order.len() && store[#[trigger] order[i]].recent_ids.contains(id);
            if i < rest.len() {
                assert(rest[i] == order[i]);
                let k = choose|k: int| 0 <= k < head.len() && head[k] == id;
                assert(all[k] == id);
            } else {
                let k = choose|k: int| 0 <= k < tail.len() && tail[k] == id;
                assert(all[head.len() + k] == id);
            }
        }
    }
}

/// What a list of different channels restores, entry by entry.
proof fn lemma_restored(channels: Seq<(u128, ChannelWatermark)>)
    requires
        forall|i: int, j: int|
            0 <= i < j < channels.len() ==> (#[trigger] channels[i]).0 != (
            #[trigger] channels[j]).0,
    ensures
        forall|i: int|
            0 <= i < channels.len() ==> restored(channels).contains_key((#[trigger] channels[i]).0)
                && restored(channels)[channels[i].0] == channels[i].1@,
        forall|channel: u128| #[trigger]
            restored(channels).contains_key(channel) ==> exists|i: int|
                0 <= i < channels.len() && (#[trigger] channels[i]).0 == channel,
    decreases channels.len(),
{
    if channels.len() > 0 {
        let rest = channels.drop_last();
        assert forall|i: int, j: int| 0 <= i < j < rest.len() implies (#[trigger] rest[i]).0 != (
        #[trigger] rest[j]).0 by {
            assert(rest[i] == channels[i] && rest[j] == channels[j]);
        }
        lemma_restored(rest);
        assert forall|i: int| 0 <= i < channels.len() implies restored(channels).contains_key(
            (#[trigger] channels[i]).0,
        ) && restored(channels)[channels[i].0] == channels[i].1@ by {
            if i < rest.len() {
                assert(rest[i] == channels[i]);
                assert(channels[i].0 != channels[channels.len() - 1].0);
            }
        }
        assert forall|channel: u128| #[trigger]
            restored(channels).contains_key(channel) implies exists|i: int|
            0 <= i < channels.len() && (#[trigger] channels[i]).0 == channel by {
            if channel == channels.last().0 {
                assert(channels[channels.len() - 1].0 == channel);
            } else {
                assert(restored(rest).contains_key(channel));
                let i = choose|i: int| 0 <= i < rest.len() && (#[trigger] rest[i]).0 == channel;
                assert(channels[i].0 == channel);
            }
        }
    }
}

/// What was written down of a store restores that store.
pub proof fn law_store_round_trips(store: StoreView, channels: Seq<(u128, ChannelWatermark)>)
    requires
        is_snapshot(store, channels),
    ensures
        restored(channels) == store,
{
    lemma_restored(channels);
    assert forall|channel: u128|
        #![trigger store.contains_key(channel)]
        restored(channels).contains_key(channel) <==> store.contains_key(channel) by {
        if store.contains_key(channel) {
            let i = choose|i: int|
                0 <= i < channels.len() && (#[trigger] channels[i]).0 == channel;
            assert(restored(channels).contains_key(channels[i].0));
        }
        if restored(channels).contains_key(channel) {
            let i = choose|i: int|
                0 <= i < channels.len() && (#[trigger] channels[i]).0 == channel;
            assert(store.contains_key(channels[i].0));
        }
    }
    assert forall|channel: u128| store.contains_key(channel) implies #[trigger] restored(
        channels,
    )[channel] == store[channel] by {
        let i = choose|i: int| 0 <= i < channels.len() && (#[trigger] channels[i]).0 == channel;
        assert(restored(channels)[channels[i].0] == channels[i].1@);
    }
    assert(restored(channels) =~= store);
}

/// A process that finds what was written down of a store starts with that store:
/// with every channel, and with nothing else.
pub proof fn law_load_gives_back_what_was_saved(
    store: StoreView,
    saved: Vec<(u128, ChannelWatermark)>,
)
    requires
        is_snapshot(store, saved@),
    ensures
        stored_view(StoredState::Channels(saved)) == store,
{
    law_store_round_trips(store, saved@);
}

/// Whether a channel is known as an entry says: with its time and its ids, in
/// their order.
pub open spec fn is_known_as(store: StoreView, entry: (u128, ChannelWatermark)) -> bool {
    &&& store.contains_key(entry.0)
    &&& store[entry.0].last_seen == entry.1.last_seen
    &&& store[entry.0].recent_ids.len() == entry.1.recent_ids@.len()
    &&& forall|k: int|
        0 <= k < entry.1.recent_ids@.len() ==> #[trigger] store[entry.0].recent_ids[k]
            == entry.1.recent_ids@[k]@
}

/// A process that finds channels knows each of them by its last entry, with its
/// time and all its ids, and knows no other channel.
pub proof fn law_load_keeps_every_channel(found: Vec<(u128, ChannelWatermark)>)
    ensures
        forall|i: int|
            0 <= i < found@.len() && (forall|j: int|
                i < j < found@.len() ==> (#[trigger] found@[j]).0 != found@[i].0) ==> is_known_as(
                stored_view(StoredState::Channels(found)),
                #[trigger] found@[i],
            ),
        forall|channel: u128| #[trigger]
            stored_view(StoredState::Channels(found)).contains_key(channel) ==> exists|i: int|
                0 <= i < found@.len() && (#[trigger] found@[i]).0 == channel,
{
    lemma_restored_entries(found@);
}

/// What entries restore, channel by channel.
proof fn lemma_restored_entries(channels: Seq<(u128, ChannelWatermark)>)
    ensures
        forall|i: int|
            0 <= i < channels.len() && (forall|j: int|
                i < j < channels.len() ==> (#[trigger] channels[j]).0 != channels[i].0)
                ==> is_known_as(restored(channels), #[trigger] channels[i]),
        forall|channel: u128| #[trigger]
            restored(channels).contains_key(channel) ==> exists|i: int|
                0 <= i < channels.len() && (#[trigger] channels[i]).0 == channel,
    decreases channels.len(),
{
    if channels.len() > 0 {
        let rest = channels.drop_last();
        let last = channels[channels.len() - 1];
        lemma_restored_entries(rest);
        assert(is_known_as(restored(channels), last));
        assert forall|i: int|
            0 <= i < channels.len() && (forall|j: int|
                i < j < channels.len() ==> (#[trigger] channels[j]).0
                    != channels[i].0) implies is_known_as(
            restored(channels),
            #[trigger] channels[i],
        ) by {
            if i < rest.len() {
                assert(last.0 != channels[i].0);
                assert forall|j: int| i < j < rest.len() implies (#[trigger] rest[j]).0
                    != rest[i].0 by {
                    assert(rest[j] == channels[j]);
                }
                assert(is_known_as(restored(rest), rest[i]));
                assert(restored(channels)[rest[i].0] == restored(rest)[rest[i].0]);
            }
        }
        assert forall|channel: u128| #[trigger]
            restored(channels).contains_key(channel) implies exists|i: int|
            0 <= i < channels.len() && (#[trigger] channels[i]).0 == channel by {
            if channel == last.0 {
                assert(channels[channels.len() - 1].0 == channel);
            } else {
                assert(restored(rest).contains_key(channel));
                let i = choose|i: int| 0 <= i < rest.len() && (#[trigger] rest[i]).0 == channel;
                assert(channels[i].0 == channel);
            }
        }
    }
}

/// What is written down of a store holds every channel once, with its time and
/// all its ids in their order.
pub proof fn law_every_channel_is_written_down(
    store: StoreView,
    channels: Seq<(u128, ChannelWatermark)>,
)
    requires
        is_snapshot(store, channels),
    ensures
        forall|i: int, j: int|
            0 <= i < j < channels.len() ==> (#[trigger] channels[i]).0 != (
            #[trigger] channels[j]).0,
        forall|i: int| 0 <= i < channels.len() ==> is_known_as(store, #[trigger] channels[i]),
        forall|channel: u128| #[trigger]
            store.contains_key(channel) ==> exists|i: int|
                0 <= i < channels.len() && (#[trigger] channels[i]).0 == channel,
{
    assert forall|i: int| 0 <= i < channels.len() implies is_known_as(
        store,
        #[trigger] channels[i],
    ) by {
        assert(store[channels[i].0] == channels[i].1@);
    }
}

/// Which notice a process gives is told by what it found.
pub proof fn law_notice_tells_what_was_found(found: StoredState)
    ensures
        notice_for(found) is FirstRun <==> found is Missing,
        notice_for(found) is CouldNotRead <==> found is Unreadable,
        notice_for(found) is NotParsed <==> found is Corrupt,
        notice_for(found) is Resumed <==> found is Channels,
{
}

/// Recording an event moves the time to that of the event where that is newer, and
/// else leaves it. An id that is kept already changes nothing; another one comes
/// behind those that are kept, of which the oldest makes room where there are
/// sixty-four.
pub proof fn law_record_spelled_out(mark: WatermarkView, created_at: u64, id: Seq<char>)
    ensures
        ({
            let after = recorded(mark, created_at, id);
            &&& after.last_seen >= mark.last_seen && after.last_seen >= created_at
            &&& after.last_seen == mark.last_seen || after.last_seen == created_at
            &&& mark.recent_ids.contains(id) ==> after.recent_ids == mark.recent_ids
            &&& !mark.recent_ids.contains(id) && mark.recent_ids.len() < 64 ==> after.recent_ids
                == mark.recent_ids.push(id)
            &&& !mark.recent_ids.contains(id) && mark.recent_ids.len() >= 64 ==> {
                &&& after.recent_ids.len() == 64
                &&& after.recent_ids[63] == id
                &&& forall|i: int|
                    0 <= i < 63 ==> #[trigger] after.recent_ids[i] == mark.recent_ids[i
                        + mark.recent_ids.len() - 63]
            }
        }),
{
}

/// A channel of which nothing was recorded before is recorded from nothing, and
/// any other from what the store knows of it. The store knows it afterwards.
pub proof fn law_record_goes_to_its_channel(
    store: StoreView,
    channel: u128,
    created_at: u64,
    id: Seq<char>,
)
    ensures
        ({
            let after = store_recorded(store, channel, created_at, id);
            &&& after.contains_key(channel)
            &&& store.contains_key(channel) ==> after[channel] == recorded(
                store[channel],
                created_at,
                id,
            )
            &&& !store.contains_key(channel) ==> after[channel].last_seen == created_at
                && after[channel].recent_ids == seq![id]
        }),
{
    if !store.contains_key(channel) {
        assert(!untouched().recent_ids.contains(id));
        assert(untouched().recent_ids.push(id) =~= seq![id]);
    }
}

/// A channel is resumed exactly where the store knows it with a time other than
/// zero, and from that time.
pub proof fn law_resume_point_is_the_time_kept(store: StoreView, channel: u128)
    ensures
        resume_point(store, channel) is Some <==> store.contains_key(channel)
            && store[channel].last_seen > 0,
        resume_point(store, channel) is Some ==> resume_point(store, channel)->0
            == store[channel].last_seen,
{
}

/// The kept ids are listed channel by channel, those of each channel in their
/// order.
pub proof fn law_ids_are_listed_by_channel(
    store: StoreView,
    a: Seq<u128>,
    b: Seq<u128>,
    channel: u128,
)
    ensures
        ids_of(store, a + b) == ids_of(store, a) + ids_of(store, b),
        ids_of(store, seq![channel]) == store[channel].recent_ids,
    decreases b.len(),
{
    assert(seq![channel].drop_last() =~= Seq::empty());
    reveal_with_fuel(ids_of, 2);
    assert(ids_of(store, seq![channel]) =~= store[channel].recent_ids);
    if b.len() == 0 {
        assert(a + b =~= a);
        assert(ids_of(store, a) + ids_of(store, b) =~= ids_of(store, a));
    } else {
        law_ids_are_listed_by_channel(store, a, b.drop_last(), channel);
        assert((a + b).drop_last() =~= a + b.drop_last());
        assert((a + b).last() == b.last());
        assert(ids_of(store, a + b) =~= ids_of(store, a) + ids_of(store, b));
    }
}

/// An event that was processed before a restart is known after it, to a process
/// that loads what was written down: its channel resumes at the event or later,
/// its id is among those that replay is checked against, and processing it again
/// would change nothing.
pub proof fn law_processed_event_survives_restart(
    store: StoreView,
    channel: u128,
    created_at: u64,
    id: Seq<char>,
    saved: Vec<(u128, ChannelWatermark)>,
    order: Seq<u128>,
)
    requires
        is_snapshot(store_recorded(store, channel, created_at, id), saved@),
        lists_channels(stored_view(StoredState::Channels(saved)), order),
    ensures
        ({
            let loaded = stored_view(StoredState::Channels(saved));
            &&& loaded.contains_key(channel)
            &&& loaded[channel].last_seen >= created_at
            &&& created_at > 0 ==> resume_point(loaded, channel) is Some
            &&& resume_point(loaded, channel) matches Some(since) ==> since >= created_at
            &&& ids_of(loaded, order).contains(id)
            &&& store_recorded(loaded, channel, created_at, id) == loaded
        }),
{
    let after = store_recorded(store, channel, created_at, id);
    law_load_gives_back_what_was_saved(after, saved);
    law_recorded_event_is_known(mark_of(store, channel), created_at, id);
    assert(after.contains_key(channel) && after[channel].recent_ids.contains(id));
    law_all_kept_ids_are_listed(after, order, id);
    law_record_is_idempotent(mark_of(store, channel), created_at, id);
    assert(store_recorded(after, channel, created_at, id) =~= after);
}

/// A restart changes nothing of what is known of any channel: neither from when
/// it is resumed nor which ids are kept.
pub proof fn law_restart_changes_no_channel(
    store: StoreView,
    saved: Vec<(u128, ChannelWatermark)>,
    channel: u128,
)
    requires
        is_snapshot(store, saved@),
    ensures
        ({
            let loaded = stored_view(StoredState::Channels(saved));
            &&& loaded.contains_key(channel) <==> store.contains_key(channel)
            &&& store.contains_key(channel) ==> loaded[channel].last_seen
                == store[channel].last_seen && loaded[channel].recent_ids
                == store[channel].recent_ids
        }),
{
    law_load_gives_back_what_was_saved(store, saved);
}

/// A process that finds no usable file starts from now in every channel and
/// knows of no event.
pub proof fn law_unusable_file_is_a_fresh_start(found: StoredState, channel: u128)
    requires
        !(found is Channels),
    ensures
        stored_view(found).is_empty(),
        resume_point(stored_view(found), channel) is None,
{
}

/// An event without a time gives an untouched channel no point to resume from.
pub proof fn law_zero_is_no_resume_point(store: StoreView, channel: u128, id: Seq<char>)
    requires
        mark_of(store, channel).last_seen == 0,
    ensures
        resume_point(store_recorded(store, channel, 0, id), channel) is None,
{
}

/// Of a forgotten channel nothing is known, and the others stay as they were.
pub proof fn law_forgotten_channel(store: StoreView, channel: u128, other: u128)
    ensures
        mark_of(store.remove(channel), channel) == untouched(),
        resume_point(store.remove(channel), channel) is None,
        other != channel ==> mark_of(store.remove(channel), other) == mark_of(store, other),
{
}

/// What happens to a store.
pub enum StoreEvent {
    /// An event of a channel was processed.
    Recorded { channel: u128, created_at: u64, id: Seq<char> },
    /// A channel was forgotten.
    Forgotten { channel: u128 },
}

/// The store after one thing happened to it.
pub open spec fn store_after(store: StoreView, event: StoreEvent) -> StoreView {
    match event {
        StoreEvent::Recorded { channel, created_at, id } => store_recorded(
            store,
            channel,
            created_at,
            id,
        ),
        StoreEvent::Forgotten { channel } => store.remove(channel),
    }
}

/// The store after several things happened to it.
pub open spec fn store_run(store: StoreView, events: Seq<StoreEvent>) -> StoreView
    decreases events.len(),
{
    if events.len() == 0 {
        store
    } else {
        store_after(store_run(store, events.drop_last()), events.last())
    }
}

/// Whether every channel of the store is tidy and keeps at least one id.
pub open spec fn is_tidy_store(store: StoreView) -> bool {
    forall|channel: u128| #[trigger]
        store.contains_key(channel) ==> is_tidy(store[channel]) && store[channel].recent_ids.len()
            >= 1
}

/// A tidy store stays tidy, whatever is recorded and forgotten.
pub proof fn law_tidy_store_stays_tidy(store: StoreView, events: Seq<StoreEvent>)
    requires
        is_tidy_store(store),
    ensures
        is_tidy_store(store_run(store, events)),
    decreases events.len(),
{
    if events.len() > 0 {
        let before = store_run(store, events.drop_last());
        let after = store_run(store, events);
        law_tidy_store_stays_tidy(store, events.drop_last());
        assert forall|any: u128| #[trigger] after.contains_key(any) implies is_tidy(after[any])
            && after[any].recent_ids.len() >= 1 by {
            match events.last() {
                StoreEvent::Recorded { channel, created_at, id } => {
                    if any == channel {
                        if before.contains_key(channel) {
                            assert(is_tidy(before[channel]));
                        }
                        assert(is_tidy(mark_of(before, channel)));
                        law_record_keeps_ids_bounded(mark_of(before, channel), created_at, id);
                        law_recorded_event_is_known(mark_of(before, channel), created_at, id);
                        assert(after[any].recent_ids.contains(id));
                    } else {
                        assert(before.contains_key(any));
                    }
                },
                StoreEvent::Forgotten { .. } => {
                    assert(before.contains_key(any));
                },
            }
        }
    }
}

/// Whatever is recorded and forgotten, every channel of a store that began
/// empty keeps at least one id, no more than the limit, and none twice.
pub proof fn law_store_keeps_bounded_ids(events: Seq<StoreEvent>, channel: u128)
    requires
        store_run(Map::empty(), events).contains_key(channel),
    ensures
        ({
            let ids = store_run(Map::empty(), events)[channel].recent_ids;
            1 <= ids.len() <= RECENT_IDS_PER_CHANNEL && ids.no_duplicates()
        }),
{
    law_tidy_store_stays_tidy(Map::empty(), events);
}

} // verus!
