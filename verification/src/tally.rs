//! Folding turn metrics into one tally per agent.
//!
//! A payload carries the counts of its own turn and the counts of its session
//! so far. Adding up the former would lose every turn whose own counts are
//! unknown or whose event never arrived; the latter hold those tokens anyway.
//! So a session counts once, by the session counts on its final turn, and an
//! agent's tally is the sum over its sessions. A turn without a session id cannot
//! be grouped with anything, so it is a session of its own.

use crate::accounting::{accounts_for, law_tally_accounts_for_entries};
use crate::metric::{borrowed_views, entry_views, EntryView, MetricEntry, TokenCounts, Usd};
use crate::text::{
    lemma_text_lt_irreflexive, lemma_text_lt_total, lemma_text_lt_transitive, text_less, text_lt,
};
use vstd::prelude::*;

verus! {

/// The totals of one agent, before its costs are added up.
#[derive(Clone, Debug)]
pub struct AgentTally {
    /// Hex pubkey of the agent these totals belong to.
    pub agent_pubkey: String,
    /// Turns whose payload was read.
    pub turns: u64,
    /// Distinct sessions behind these totals.
    pub sessions: u64,
    /// Input tokens, including the cache figures below.
    pub input_tokens: u64,
    /// Output tokens.
    pub output_tokens: u64,
    /// Cache-read tokens, a part of `input_tokens`.
    pub cache_read_tokens: u64,
    /// Cache-write tokens, a part of `input_tokens`.
    pub cache_write_tokens: u64,
    /// The costs whose sum is the agent's cost.
    pub costs: Vec<Usd>,
    /// Turns of this agent whose payload could not be read. Their tokens are
    /// missing from the totals above.
    pub undecryptable_turns: u64,
}

/// An agent's tally, with numbers for what is counted.
#[verifier::ext_equal]
pub struct TallyView {
    pub agent: Seq<char>,
    pub turns: nat,
    pub sessions: nat,
    pub input_tokens: nat,
    pub output_tokens: nat,
    pub cache_read_tokens: nat,
    pub cache_write_tokens: nat,
    pub costs: Seq<Usd>,
    pub undecryptable_turns: nat,
}

impl View for AgentTally {
    type V = TallyView;

    open spec fn view(&self) -> TallyView {
        TallyView {
            agent: self.agent_pubkey@,
            turns: self.turns as nat,
            sessions: self.sessions as nat,
            input_tokens: self.input_tokens as nat,
            output_tokens: self.output_tokens as nat,
            cache_read_tokens: self.cache_read_tokens as nat,
            cache_write_tokens: self.cache_write_tokens as nat,
            costs: self.costs@,
            undecryptable_turns: self.undecryptable_turns as nat,
        }
    }
}

/// The four token columns.
pub enum Column {
    Input,
    Output,
    CacheRead,
    CacheWrite,
}

/// A count that was not reported adds nothing.
pub open spec fn known(count: Option<u64>) -> nat {
    match count {
        Some(n) => n as nat,
        None => 0,
    }
}

/// What `counts` adds to a column.
pub open spec fn column(counts: TokenCounts, col: Column) -> nat {
    match col {
        Column::Input => known(counts.input_tokens),
        Column::Output => known(counts.output_tokens),
        Column::CacheRead => known(counts.cache_read_tokens),
        Column::CacheWrite => known(counts.cache_write_tokens),
    }
}

/// The sum of a column.
pub open spec fn column_sum(counts: Seq<TokenCounts>, col: Column) -> nat
    decreases counts.len(),
{
    if counts.len() == 0 {
        0
    } else {
        column_sum(counts.drop_last(), col) + column(counts.last(), col)
    }
}

/// A sum kept within 64 bits: what does not fit stops at the largest number.
pub open spec fn capped(sum: nat) -> nat {
    if sum <= u64::MAX {
        sum
    } else {
        u64::MAX as nat
    }
}

/// The costs that were reported.
pub open spec fn reported_costs(counts: Seq<TokenCounts>) -> Seq<Usd>
    decreases counts.len(),
{
    if counts.len() == 0 {
        Seq::empty()
    } else {
        let rest = reported_costs(counts.drop_last());
        match counts.last().cost_usd {
            Some(usd) => rest.push(usd),
            None => rest,
        }
    }
}

/// The entries of one agent, in their order.
pub open spec fn of_agent(entries: Seq<EntryView>, agent: Seq<char>) -> Seq<EntryView>
    decreases entries.len(),
{
    if entries.len() == 0 {
        Seq::empty()
    } else {
        let rest = of_agent(entries.drop_last(), agent);
        if entries.last().agent == agent {
            rest.push(entries.last())
        } else {
            rest
        }
    }
}

/// Whether the entry is a readable turn with a session id.
pub open spec fn has_session(entry: EntryView) -> bool {
    entry.turn is Some && entry.turn->0.session_id is Some
}

/// The session id of an entry that has one.
pub open spec fn session_of(entry: EntryView) -> Seq<char> {
    entry.turn->0.session_id->0
}

/// Whether the entry is a readable turn of the session with the id `key`.
pub open spec fn in_session(entry: EntryView, key: Seq<char>) -> bool {
    has_session(entry) && session_of(entry) == key
}

/// Whether the entry is a readable turn without a session id.
pub open spec fn is_orphan(entry: EntryView) -> bool {
    entry.turn is Some && entry.turn->0.session_id is None
}

/// The readable turns without a session id, in their order.
pub open spec fn orphans(entries: Seq<EntryView>) -> Seq<EntryView>
    decreases entries.len(),
{
    if entries.len() == 0 {
        Seq::empty()
    } else {
        let rest = orphans(entries.drop_last());
        if is_orphan(entries.last()) {
            rest.push(entries.last())
        } else {
            rest
        }
    }
}

/// The readable turns of the session with the id `key`, in their order.
pub open spec fn session_turns(entries: Seq<EntryView>, key: Seq<char>) -> Seq<EntryView>
    decreases entries.len(),
{
    if entries.len() == 0 {
        Seq::empty()
    } else {
        let rest = session_turns(entries.drop_last(), key);
        if in_session(entries.last(), key) {
            rest.push(entries.last())
        } else {
            rest
        }
    }
}

/// The session ids that occur, in the order of their first turn.
pub open spec fn session_keys(entries: Seq<EntryView>) -> Seq<Seq<char>>
    decreases entries.len(),
{
    if entries.len() == 0 {
        Seq::empty()
    } else {
        let rest = session_keys(entries.drop_last());
        let last = entries.last();
        if has_session(last) && !rest.contains(session_of(last)) {
            rest.push(session_of(last))
        } else {
            rest
        }
    }
}

/// How many entries are readable turns.
pub open spec fn readable(entries: Seq<EntryView>) -> nat
    decreases entries.len(),
{
    if entries.len() == 0 {
        0
    } else {
        readable(entries.drop_last()) + if entries.last().turn is Some {
            1nat
        } else {
            0nat
        }
    }
}

/// The place of a turn in its session. A turn without a sequence number counts
/// as number zero.
pub open spec fn turn_number(entry: EntryView) -> nat {
    known(entry.turn->0.turn_seq)
}

/// Whether `a` is the later turn: by sequence number, then by time.
pub open spec fn later(a: EntryView, b: EntryView) -> bool {
    turn_number(a) > turn_number(b) || turn_number(a) == turn_number(b) && a.created_at
        > b.created_at
}

/// The final turn of a session. Where two turns are equally late, the one that
/// comes last in the input is taken.
pub open spec fn final_turn(turns: Seq<EntryView>) -> EntryView
    decreases turns.len(),
{
    if turns.len() <= 1 {
        turns[0]
    } else {
        let best = final_turn(turns.drop_last());
        if later(best, turns.last()) {
            best
        } else {
            turns.last()
        }
    }
}

/// The turns' own counts, where they have any.
pub open spec fn own_counts(turns: Seq<EntryView>) -> Seq<TokenCounts>
    decreases turns.len(),
{
    if turns.len() == 0 {
        Seq::empty()
    } else {
        let rest = own_counts(turns.drop_last());
        match turns.last().turn->0.turn {
            Some(counts) => rest.push(counts),
            None => rest,
        }
    }
}

/// What a session adds to its agent's tally: the session counts of its final
/// turn, or, where that turn has none, the own counts of all its turns.
pub open spec fn session_counts(turns: Seq<EntryView>) -> Seq<TokenCounts> {
    match final_turn(turns).turn->0.cumulative {
        Some(counts) => seq![counts],
        None => own_counts(turns),
    }
}

/// What turns add that are a session of their own each, one after the other.
pub open spec fn orphans_counts(turns: Seq<EntryView>) -> Seq<TokenCounts>
    decreases turns.len(),
{
    if turns.len() == 0 {
        Seq::empty()
    } else {
        orphans_counts(turns.drop_last()) + session_counts(seq![turns.last()])
    }
}

/// What the given sessions add, one after the other.
pub open spec fn sessions_counts(entries: Seq<EntryView>, keys: Seq<Seq<char>>) -> Seq<TokenCounts>
    decreases keys.len(),
{
    if keys.len() == 0 {
        Seq::empty()
    } else {
        sessions_counts(entries, keys.drop_last()) + session_counts(
            session_turns(entries, keys.last()),
        )
    }
}

/// What all sessions of an agent add: those with an id, and the turns without
/// one. `entries` are the agent's own.
pub open spec fn agent_counts(entries: Seq<EntryView>) -> Seq<TokenCounts> {
    sessions_counts(entries, session_keys(entries)) + orphans_counts(orphans(entries))
}

/// The tally of an agent. `entries` are the agent's own.
pub open spec fn agent_tally(agent: Seq<char>, entries: Seq<EntryView>) -> TallyView {
    let counts = agent_counts(entries);
    TallyView {
        agent,
        turns: readable(entries),
        sessions: session_keys(entries).len() + orphans(entries).len(),
        input_tokens: capped(column_sum(counts, Column::Input)),
        output_tokens: capped(column_sum(counts, Column::Output)),
        cache_read_tokens: capped(column_sum(counts, Column::CacheRead)),
        cache_write_tokens: capped(column_sum(counts, Column::CacheWrite)),
        costs: reported_costs(counts),
        undecryptable_turns: (entries.len() - readable(entries)) as nat,
    }
}

/// Whether an agent has a tally.
pub open spec fn has_row(rows: Seq<TallyView>, agent: Seq<char>) -> bool {
    exists|i: int| 0 <= i < rows.len() && (#[trigger] rows[i]).agent == agent
}

/// Whether `rows` holds one tally for each agent that occurs in `entries`, and
/// for no other, in the order of their pubkeys.
pub open spec fn is_tally(entries: Seq<EntryView>, rows: Seq<TallyView>) -> bool {
    &&& forall|i: int, j: int|
        0 <= i < j < rows.len() ==> text_lt(#[trigger] rows[i].agent, #[trigger] rows[j].agent)
    &&& forall|i: int|
        0 <= i < rows.len() ==> of_agent(entries, #[trigger] rows[i].agent).len() > 0
    &&& forall|i: int|
        0 <= i < rows.len() ==> #[trigger] rows[i] == agent_tally(
            rows[i].agent,
            of_agent(entries, rows[i].agent),
        )
    &&& forall|k: int| 0 <= k < entries.len() ==> has_row(rows, (#[trigger] entries[k]).agent)
}

/// The views of a sequence of tallies.
pub open spec fn tally_views(rows: Seq<AgentTally>) -> Seq<TallyView> {
    Seq::new(rows.len(), |i: int| rows[i]@)
}

/// A tally after more counts were added to it.
pub open spec fn plus_counts(out: TallyView, counts: Seq<TokenCounts>) -> TallyView {
    TallyView {
        input_tokens: capped(out.input_tokens + column_sum(counts, Column::Input)),
        output_tokens: capped(out.output_tokens + column_sum(counts, Column::Output)),
        cache_read_tokens: capped(out.cache_read_tokens + column_sum(counts, Column::CacheRead)),
        cache_write_tokens: capped(out.cache_write_tokens + column_sum(counts, Column::CacheWrite)),
        costs: out.costs + reported_costs(counts),
        ..out
    }
}

/// The sum of a column over two lists is the sum of both sums.
pub proof fn lemma_column_sum_add(a: Seq<TokenCounts>, b: Seq<TokenCounts>, col: Column)
    ensures
        column_sum(a + b, col) == column_sum(a, col) + column_sum(b, col),
    decreases b.len(),
{
    if b.len() == 0 {
        assert(a + b =~= a);
    } else {
        assert((a + b).drop_last() =~= a + b.drop_last());
        lemma_column_sum_add(a, b.drop_last(), col);
    }
}

/// The reported costs of two lists are those of the one, then of the other.
pub proof fn lemma_reported_costs_add(a: Seq<TokenCounts>, b: Seq<TokenCounts>)
    ensures
        reported_costs(a + b) == reported_costs(a) + reported_costs(b),
    decreases b.len(),
{
    if b.len() == 0 {
        assert(a + b =~= a);
        assert(reported_costs(a) + reported_costs(b) =~= reported_costs(a));
    } else {
        assert((a + b).drop_last() =~= a + b.drop_last());
        lemma_reported_costs_add(a, b.drop_last());
        assert(reported_costs(a + b) =~= reported_costs(a) + reported_costs(b));
    }
}

/// Adding two lists one after the other is adding both at once.
proof fn lemma_plus_counts_add(out: TallyView, a: Seq<TokenCounts>, b: Seq<TokenCounts>)
    ensures
        plus_counts(plus_counts(out, a), b) == plus_counts(out, a + b),
{
    lemma_column_sum_add(a, b, Column::Input);
    lemma_column_sum_add(a, b, Column::Output);
    lemma_column_sum_add(a, b, Column::CacheRead);
    lemma_column_sum_add(a, b, Column::CacheWrite);
    lemma_reported_costs_add(a, b);
    assert(plus_counts(plus_counts(out, a), b) =~= plus_counts(out, a + b));
}

/// A column of one list element.
proof fn lemma_one(counts: TokenCounts)
    ensures
        forall|col: Column|
            #![trigger column_sum(seq![counts], col)]
            column_sum(seq![counts], col) == column(counts, col),
        reported_costs(seq![counts]) == match counts.cost_usd {
            Some(usd) => seq![usd],
            None => Seq::empty(),
        },
{
    reveal_with_fuel(column_sum, 2);
    reveal_with_fuel(reported_costs, 2);
    assert(seq![counts].drop_last() =~= Seq::<TokenCounts>::empty());
}

/// A sum plus a count that may be unknown, kept within 64 bits.
fn add_known(sum: u64, count: Option<u64>) -> (total: u64)
    ensures
        total == capped(sum as nat + known(count)),
{
    match count {
        Some(n) => sum.saturating_add(n),
        None => sum,
    }
}

/// Adds one set of counts to `out`.
pub fn add_counts(out: &mut AgentTally, counts: &TokenCounts)
    ensures
        final(out)@ == plus_counts(old(out)@, seq![*counts]),
{
    proof {
        lemma_one(*counts);
    }
    out.input_tokens = add_known(out.input_tokens, counts.input_tokens);
    out.output_tokens = add_known(out.output_tokens, counts.output_tokens);
    out.cache_read_tokens = add_known(out.cache_read_tokens, counts.cache_read_tokens);
    out.cache_write_tokens = add_known(out.cache_write_tokens, counts.cache_write_tokens);
    match counts.cost_usd {
        Some(usd) => {
            out.costs.push(usd);
        },
        None => {},
    }
    assert(out@ =~= plus_counts(old(out)@, seq![*counts]));
}

/// The sequence number of a turn, zero where it has none.
fn number_of(entry: &MetricEntry) -> (number: u64)
    requires
        entry@.turn is Some,
    ensures
        number == turn_number(entry@),
{
    match &entry.payload {
        Some(payload) => match payload.turn_seq {
            Some(n) => n,
            None => 0,
        },
        None => 0,
    }
}

/// The session counts on the final turn of a session.
fn final_cumulative(turns: &Vec<&MetricEntry>) -> (counts: Option<TokenCounts>)
    requires
        turns@.len() > 0,
        forall|i: int| 0 <= i < turns@.len() ==> (#[trigger] turns@[i])@.turn is Some,
    ensures
        counts == final_turn(borrowed_views(turns@)).turn->0.cumulative,
{
    let ghost views = borrowed_views(turns@);
    let mut best: usize = 0;
    let mut i: usize = 1;
    assert(views.take(1)[0] == views[0]);
    while i < turns.len()
        invariant
            views == borrowed_views(turns@),
            forall|i: int| 0 <= i < turns@.len() ==> (#[trigger] turns@[i])@.turn is Some,
            best < i <= turns@.len(),
            views[best as int] == final_turn(views.take(i as int)),
        decreases turns@.len() - i,
    {
        let x = turns[best];
        let y = turns[i];
        let best_number: u64 = number_of(x);
        let number: u64 = number_of(y);
        proof {
            assert(views.take(i + 1).drop_last() =~= views.take(i as int));
            assert(views.take(i + 1).last() == y@);
        }
        if !(best_number > number || best_number == number && x.created_at > y.created_at) {
            best = i;
        }
        i = i + 1;
    }
    assert(views.take(turns@.len() as int) =~= views);
    match &turns[best].payload {
        Some(payload) => payload.cumulative,
        None => None,
    }
}

/// Adds what one session counts for to `out`.
fn accumulate_session(out: &mut AgentTally, turns: &Vec<&MetricEntry>)
    requires
        turns@.len() > 0,
        forall|i: int| 0 <= i < turns@.len() ==> (#[trigger] turns@[i])@.turn is Some,
    ensures
        final(out)@ == plus_counts(old(out)@, session_counts(borrowed_views(turns@))),
{
    match final_cumulative(turns) {
        Some(counts) => {
            add_counts(out, &counts);
        },
        None => {
            let ghost views = borrowed_views(turns@);
            let ghost before = out@;
            let mut i: usize = 0;
            assert(plus_counts(before, Seq::empty()) =~= before);
            assert(views.take(0) =~= Seq::empty());
            while i < turns.len()
                invariant
                    views == borrowed_views(turns@),
                    forall|i: int| 0 <= i < turns@.len() ==> (#[trigger] turns@[i])@.turn is Some,
                    i <= turns@.len(),
                    out@ == plus_counts(before, own_counts(views.take(i as int))),
                decreases turns@.len() - i,
            {
                let entry = turns[i];
                proof {
                    assert(views.take(i + 1).drop_last() =~= views.take(i as int));
                    assert(views.take(i + 1).last() == entry@);
                }
                match &entry.payload {
                    Some(payload) => match &payload.turn {
                        Some(counts) => {
                            proof {
                                let done = own_counts(views.take(i as int));
                                lemma_plus_counts_add(before, done, seq![*counts]);
                                assert(done + seq![*counts] =~= done.push(*counts));
                            }
                            add_counts(out, counts);
                        },
                        None => {},
                    },
                    None => {},
                }
                i = i + 1;
            }
            assert(views.take(turns@.len() as int) =~= views);
        },
    }
}

/// The characters of each string.
pub open spec fn texts(strings: Seq<String>) -> Seq<Seq<char>> {
    Seq::new(strings.len(), |i: int| strings[i]@)
}

/// The position of `key` in `keys`, if it is there.
fn position_of(keys: &Vec<String>, key: &String) -> (at: Option<usize>)
    ensures
        at matches Some(i) ==> i < keys@.len() && keys@[i as int]@ == key@,
        at is None ==> !texts(keys@).contains(key@),
{
    let mut i: usize = 0;
    while i < keys.len()
        invariant
            i <= keys@.len(),
            forall|j: int| 0 <= j < i ==> (#[trigger] keys@[j])@ != key@,
        decreases keys@.len() - i,
    {
        if keys[i] == *key {
            return Some(i);
        }
        i = i + 1;
    }
    assert forall|j: int| 0 <= j < texts(keys@).len() implies texts(keys@)[j] != key@ by {
        assert(keys@[j]@ != key@);
    }
    None
}

/// No entry of a session that does not occur.
proof fn lemma_no_turns(entries: Seq<EntryView>, key: Seq<char>)
    requires
        !session_keys(entries).contains(key),
    ensures
        session_turns(entries, key).len() == 0,
    decreases entries.len(),
{
    if entries.len() > 0 {
        let rest = session_keys(entries.drop_last());
        let last = entries.last();
        if has_session(last) && !rest.contains(session_of(last)) {
            assert(session_keys(entries).last() == session_of(last));
            assert forall|i: int| 0 <= i < rest.len() implies rest[i] != key by {
                assert(session_keys(entries)[i] == rest[i]);
            }
        }
        lemma_no_turns(entries.drop_last(), key);
    }
}

/// The sessions of one agent: their keys in the order of first turns, and
/// beside each key the readable turns of that session.
struct Sessions<'a> {
    keys: Vec<String>,
    turns: Vec<Vec<&'a MetricEntry>>,
}

/// Whether `sessions` are those of `entries`.
spec fn are_sessions(
    keys: Seq<String>,
    turns: Seq<Vec<&MetricEntry>>,
    entries: Seq<EntryView>,
) -> bool {
    &&& texts(keys) == session_keys(entries)
    &&& turns.len() == keys.len()
    &&& forall|j: int|
        0 <= j < turns.len() ==> borrowed_views((#[trigger] turns[j])@) == session_turns(
            entries,
            keys[j]@,
        )
    &&& forall|j: int| 0 <= j < turns.len() ==> (#[trigger] turns[j])@.len() > 0
    &&& forall|j: int, i: int|
        0 <= j < turns.len() && 0 <= i < turns[j]@.len() ==> (#[trigger] turns[j]@[i])@.turn is Some
}

/// Puts a readable turn with the turns of its session, whose key is `key`.
fn add_turn<'a>(
    sessions: &mut Sessions<'a>,
    entry: &'a MetricEntry,
    key: String,
    Ghost(entries): Ghost<Seq<EntryView>>,
)
    requires
        are_sessions(old(sessions).keys@, old(sessions).turns@, entries),
        in_session(entry@, key@),
    ensures
        are_sessions(final(sessions).keys@, final(sessions).turns@, entries.push(entry@)),
{
    let ghost next = entries.push(entry@);
    proof {
        assert(next.drop_last() =~= entries);
    }
    match position_of(&sessions.keys, &key) {
        Some(at) => {
            sessions.turns[at].push(entry);
            proof {
                assert(texts(sessions.keys@)[at as int] == key@);
                assert(session_keys(entries).contains(key@));
                let turns = sessions.turns@;
                assert forall|j: int| 0 <= j < turns.len() implies borrowed_views(
                    (#[trigger] turns[j])@,
                ) == session_turns(next, sessions.keys@[j]@) by {
                    if j == at {
                        assert(borrowed_views(turns[j]@) =~= borrowed_views(
                            old(sessions).turns@[j]@,
                        ).push(entry@));
                    } else {
                        assert(texts(sessions.keys@)[j] != texts(sessions.keys@)[at as int]) by {
                            lemma_keys_distinct(entries);
                        }
                        assert(turns[j] == old(sessions).turns@[j]);
                    }
                }
            }
        },
        None => {
            let mut first: Vec<&'a MetricEntry> = Vec::new();
            first.push(entry);
            sessions.turns.push(first);
            sessions.keys.push(key);
            proof {
                lemma_no_turns(entries, key@);
                assert(texts(sessions.keys@) =~= session_keys(next));
                let turns = sessions.turns@;
                assert forall|j: int| 0 <= j < turns.len() implies borrowed_views(
                    (#[trigger] turns[j])@,
                ) == session_turns(next, sessions.keys@[j]@) by {
                    if j == turns.len() - 1 {
                        assert(session_turns(entries, key@) =~= Seq::empty());
                        assert(borrowed_views(turns[j]@) =~= seq![entry@]);
                        assert(session_turns(next, key@) =~= seq![entry@]);
                    } else {
                        assert(texts(old(sessions).keys@)[j] == sessions.keys@[j]@);
                        assert(turns[j] == old(sessions).turns@[j]);
                    }
                }
            }
        },
    }
}

/// A session occurs once in the list of sessions.
proof fn lemma_keys_distinct(entries: Seq<EntryView>)
    ensures
        session_keys(entries).no_duplicates(),
    decreases entries.len(),
{
    if entries.len() > 0 {
        lemma_keys_distinct(entries.drop_last());
    }
}

/// The tally of one agent from the agent's own entries.
#[verifier::spinoff_prover]
fn tally_agent(agent: &String, entries: &Vec<&MetricEntry>) -> (out: AgentTally)
    ensures
        out@ == agent_tally(agent@, borrowed_views(entries@)),
{
    let ghost views = borrowed_views(entries@);
    let mut sessions = Sessions { keys: Vec::new(), turns: Vec::new() };
    let mut alone: Vec<&MetricEntry> = Vec::new();
    let mut turns: u64 = 0;
    let mut undecryptable_turns: u64 = 0;
    let mut i: usize = 0;
    assert(texts(sessions.keys@) =~= session_keys(views.take(0)));
    assert(borrowed_views(alone@) =~= orphans(views.take(0)));
    while i < entries.len()
        invariant
            views == borrowed_views(entries@),
            i <= entries@.len(),
            are_sessions(sessions.keys@, sessions.turns@, views.take(i as int)),
            borrowed_views(alone@) == orphans(views.take(i as int)),
            sessions.keys@.len() + alone@.len() <= i,
            turns == readable(views.take(i as int)),
            turns + undecryptable_turns == i,
        decreases entries@.len() - i,
    {
        let entry = entries[i];
        let ghost done = views.take(i as int);
        proof {
            assert(views.take(i + 1) =~= done.push(entry@));
            assert(views.take(i + 1).drop_last() =~= done);
        }
        match &entry.payload {
            None => {
                proof {
                    lemma_no_session(done, entry@);
                }
                undecryptable_turns = undecryptable_turns + 1;
            },
            Some(payload) => {
                match &payload.session_id {
                    Some(id) => {
                        let ghost before = texts(sessions.keys@);
                        add_turn(&mut sessions, entry, id.clone(), Ghost(done));
                        assert(texts(sessions.keys@).len() <= before.len() + 1);
                    },
                    None => {
                        proof {
                            lemma_no_session(done, entry@);
                        }
                        let ghost before = borrowed_views(alone@);
                        alone.push(entry);
                        assert(borrowed_views(alone@) =~= before.push(entry@));
                    },
                }
                turns = turns + 1;
            },
        }
        i = i + 1;
    }
    assert(views.take(entries@.len() as int) =~= views);
    let mut out = AgentTally {
        agent_pubkey: agent.clone(),
        turns,
        sessions: (sessions.keys.len() + alone.len()) as u64,
        input_tokens: 0,
        output_tokens: 0,
        cache_read_tokens: 0,
        cache_write_tokens: 0,
        costs: Vec::new(),
        undecryptable_turns,
    };
    let ghost start = out@;
    proof {
        assert(texts(sessions.keys@).len() == session_keys(views).len());
        assert(borrowed_views(alone@).len() == orphans(views).len());
        assert(start.sessions == session_keys(views).len() + orphans(views).len());
    }
    add_sessions(&mut out, &sessions, Ghost(views));
    proof {
        lemma_all_orphans(views);
        assert forall|i: int| 0 <= i < alone@.len() implies (
        #[trigger] alone@[i])@.turn is Some by {
            assert(borrowed_views(alone@)[i] == orphans(views)[i]);
            assert(is_orphan(orphans(views)[i]));
        }
    }
    add_orphans(&mut out, &alone);
    proof {
        lemma_plus_counts_add(
            start,
            sessions_counts(views, session_keys(views)),
            orphans_counts(orphans(views)),
        );
        assert(out@ =~= agent_tally(agent@, views));
    }
    out
}

/// Adds what the sessions with an id count for to `out`.
fn add_sessions(out: &mut AgentTally, sessions: &Sessions<'_>, Ghost(views): Ghost<Seq<EntryView>>)
    requires
        are_sessions(sessions.keys@, sessions.turns@, views),
    ensures
        final(out)@ == plus_counts(old(out)@, sessions_counts(views, session_keys(views))),
{
    let ghost start = out@;
    let ghost keys = texts(sessions.keys@);
    let mut j: usize = 0;
    assert(keys.take(0) =~= Seq::empty());
    assert(plus_counts(start, Seq::empty()) =~= start);
    while j < sessions.turns.len()
        invariant
            are_sessions(sessions.keys@, sessions.turns@, views),
            keys == texts(sessions.keys@),
            j <= sessions.turns@.len(),
            out@ == plus_counts(start, sessions_counts(views, keys.take(j as int))),
        decreases sessions.turns@.len() - j,
    {
        proof {
            assert(keys.take(j + 1).drop_last() =~= keys.take(j as int));
            assert(keys.take(j + 1).last() == sessions.keys@[j as int]@);
            lemma_plus_counts_add(
                start,
                sessions_counts(views, keys.take(j as int)),
                session_counts(session_turns(views, sessions.keys@[j as int]@)),
            );
            let group = sessions.turns@[j as int];
            assert forall|i: int| 0 <= i < group@.len() implies (
            #[trigger] group@[i])@.turn is Some by {
                assert(sessions.turns@[j as int]@[i]@.turn is Some);
            }
        }
        accumulate_session(out, &sessions.turns[j]);
        j = j + 1;
    }
    assert(keys.take(keys.len() as int) =~= keys);
}

/// Adds what turns count for that are a session of their own each to `out`.
fn add_orphans(out: &mut AgentTally, alone: &Vec<&MetricEntry>)
    requires
        forall|i: int| 0 <= i < alone@.len() ==> (#[trigger] alone@[i])@.turn is Some,
    ensures
        final(out)@ == plus_counts(old(out)@, orphans_counts(borrowed_views(alone@))),
{
    let ghost start = out@;
    let ghost views = borrowed_views(alone@);
    let mut j: usize = 0;
    assert(views.take(0) =~= Seq::empty());
    assert(plus_counts(start, Seq::empty()) =~= start);
    while j < alone.len()
        invariant
            views == borrowed_views(alone@),
            forall|i: int| 0 <= i < alone@.len() ==> (#[trigger] alone@[i])@.turn is Some,
            j <= alone@.len(),
            out@ == plus_counts(start, orphans_counts(views.take(j as int))),
        decreases alone@.len() - j,
    {
        let mut session: Vec<&MetricEntry> = Vec::new();
        session.push(alone[j]);
        proof {
            assert(views.take(j + 1).drop_last() =~= views.take(j as int));
            assert(views.take(j + 1).last() == views[j as int]);
            assert(borrowed_views(session@) =~= seq![views[j as int]]);
            lemma_plus_counts_add(
                start,
                orphans_counts(views.take(j as int)),
                session_counts(seq![views[j as int]]),
            );
        }
        accumulate_session(out, &session);
        j = j + 1;
    }
    assert(views.take(alone@.len() as int) =~= views);
}

/// An entry without a session id changes no session that has one.
proof fn lemma_no_session(entries: Seq<EntryView>, entry: EntryView)
    requires
        !has_session(entry),
    ensures
        session_keys(entries.push(entry)) == session_keys(entries),
        forall|key: Seq<char>|
            #![trigger session_turns(entries.push(entry), key)]
            session_turns(entries.push(entry), key) == session_turns(entries, key),
{
    assert(entries.push(entry).drop_last() =~= entries);
}

/// All orphans are orphans.
proof fn lemma_all_orphans(entries: Seq<EntryView>)
    ensures
        forall|i: int|
            0 <= i < orphans(entries).len() ==> is_orphan(#[trigger] orphans(entries)[i]),
    decreases entries.len(),
{
    if entries.len() > 0 {
        let rest = orphans(entries.drop_last());
        lemma_all_orphans(entries.drop_last());
        assert forall|i: int| 0 <= i < orphans(entries).len() implies is_orphan(
            #[trigger] orphans(entries)[i],
        ) by {
            if i < rest.len() {
                assert(is_orphan(rest[i]));
            }
        }
    }
}

/// No entry of an agent that does not occur.
proof fn lemma_of_agent_absent(entries: Seq<EntryView>, agent: Seq<char>)
    requires
        forall|k: int| 0 <= k < entries.len() ==> (#[trigger] entries[k]).agent != agent,
    ensures
        of_agent(entries, agent).len() == 0,
    decreases entries.len(),
{
    if entries.len() > 0 {
        assert forall|k: int| 0 <= k < entries.drop_last().len() implies (
        #[trigger] entries.drop_last()[k]).agent != agent by {
            assert(entries[k].agent != agent);
        }
        assert(entries[entries.len() - 1].agent != agent);
        lemma_of_agent_absent(entries.drop_last(), agent);
    }
}

/// The agents that occur, in the order of their pubkeys, and beside each agent
/// its entries.
struct Agents<'a> {
    pubkeys: Vec<String>,
    entries: Vec<Vec<&'a MetricEntry>>,
}

/// Whether these are the agents of `views` with their entries.
spec fn are_agents(
    pubkeys: Seq<String>,
    entries: Seq<Vec<&MetricEntry>>,
    views: Seq<EntryView>,
) -> bool {
    &&& entries.len() == pubkeys.len()
    &&& forall|i: int, j: int|
        0 <= i < j < pubkeys.len() ==> text_lt((#[trigger] pubkeys[i])@, (#[trigger] pubkeys[j])@)
    &&& forall|i: int|
        0 <= i < entries.len() ==> borrowed_views((#[trigger] entries[i])@) == of_agent(
            views,
            pubkeys[i]@,
        )
    &&& forall|i: int| 0 <= i < entries.len() ==> (#[trigger] entries[i])@.len() > 0
    &&& forall|k: int| 0 <= k < views.len() ==> is_listed(pubkeys, (#[trigger] views[k]).agent)
}

/// Whether an agent is among the pubkeys.
spec fn is_listed(pubkeys: Seq<String>, agent: Seq<char>) -> bool {
    exists|i: int| 0 <= i < pubkeys.len() && (#[trigger] pubkeys[i])@ == agent
}

/// Where an agent stands among sorted pubkeys: the number of pubkeys before it.
fn place_of(pubkeys: &Vec<String>, agent: &String) -> (at: usize)
    requires
        forall|i: int, j: int|
            0 <= i < j < pubkeys@.len() ==> text_lt(
                (#[trigger] pubkeys@[i])@,
                (#[trigger] pubkeys@[j])@,
            ),
    ensures
        at <= pubkeys@.len(),
        forall|i: int| 0 <= i < at ==> text_lt((#[trigger] pubkeys@[i])@, agent@),
        forall|i: int| at <= i < pubkeys@.len() ==> !text_lt((#[trigger] pubkeys@[i])@, agent@),
{
    let mut at: usize = 0;
    while at < pubkeys.len() && text_less(pubkeys[at].as_str(), agent.as_str())
        invariant
            at <= pubkeys@.len(),
            forall|i: int| 0 <= i < at ==> text_lt((#[trigger] pubkeys@[i])@, agent@),
        decreases pubkeys@.len() - at,
    {
        at = at + 1;
    }
    proof {
        assert forall|i: int| at <= i < pubkeys@.len() implies !text_lt(
            (#[trigger] pubkeys@[i])@,
            agent@,
        ) by {
            if i > at && text_lt(pubkeys@[i]@, agent@) {
                lemma_text_lt_transitive(pubkeys@[at as int]@, pubkeys@[i]@, agent@);
            }
        }
    }
    at
}

/// Puts `entry` with the entries of its agent.
fn add_entry<'a>(
    agents: &mut Agents<'a>,
    entry: &'a MetricEntry,
    Ghost(views): Ghost<Seq<EntryView>>,
)
    requires
        are_agents(old(agents).pubkeys@, old(agents).entries@, views),
    ensures
        are_agents(final(agents).pubkeys@, final(agents).entries@, views.push(entry@)),
{
    let ghost next = views.push(entry@);
    let ghost agent = entry@.agent;
    proof {
        assert(next.drop_last() =~= views);
        assert(next.last() == entry@);
    }
    let at: usize = place_of(&agents.pubkeys, &entry.agent_pubkey);
    if at < agents.pubkeys.len() && agents.pubkeys[at] == entry.agent_pubkey {
        agents.entries[at].push(entry);
        proof {
            let before = old(agents).entries@;
            let after = agents.entries@;
            assert forall|i: int| 0 <= i < after.len() implies borrowed_views(
                (#[trigger] after[i])@,
            ) == of_agent(next, agents.pubkeys@[i]@) by {
                if i == at {
                    assert(borrowed_views(after[i]@) =~= borrowed_views(before[i]@).push(entry@));
                } else {
                    if agents.pubkeys@[i]@ == agent {
                        lemma_text_lt_irreflexive(agent);
                    }
                    assert(after[i] == before[i]);
                }
            }
            assert forall|k: int| 0 <= k < next.len() implies is_listed(
                agents.pubkeys@,
                (#[trigger] next[k]).agent,
            ) by {
                if k < views.len() {
                    assert(is_listed(agents.pubkeys@, views[k].agent));
                } else {
                    assert(agents.pubkeys@[at as int]@ == next[k].agent);
                }
            }
        }
    } else {
        let mut first: Vec<&'a MetricEntry> = Vec::new();
        first.push(entry);
        let ghost added = first;
        proof {
            assert forall|k: int| 0 <= k < views.len() implies (#[trigger] views[k]).agent
                != agent by {
                if views[k].agent == agent {
                    assert(is_listed(agents.pubkeys@, views[k].agent));
                    let i = choose|i: int|
                        0 <= i < agents.pubkeys@.len() && (#[trigger] agents.pubkeys@[i])@
                            == agent;
                    lemma_text_lt_irreflexive(agent);
                    if i > at {
                        assert(text_lt(agents.pubkeys@[at as int]@, agents.pubkeys@[i]@));
                    }
                }
            }
            lemma_of_agent_absent(views, agent);
        }
        agents.entries.insert(at, first);
        agents.pubkeys.insert(at, entry.agent_pubkey.clone());
        proof {
            let keys = old(agents).pubkeys@;
            let new_keys = agents.pubkeys@;
            let before = old(agents).entries@;
            let after = agents.entries@;
            keys.insert_ensures(at as int, new_keys[at as int]);
            before.insert_ensures(at as int, added);
            assert(new_keys[at as int]@ == agent);
            assert forall|i: int, j: int| 0 <= i < j < new_keys.len() implies text_lt(
                (#[trigger] new_keys[i])@,
                (#[trigger] new_keys[j])@,
            ) by {
                if i == at {
                    lemma_text_lt_total(agent, keys[j - 1]@);
                    assert(!text_lt(keys[j - 1]@, agent));
                    if agent == keys[j - 1]@ {
                        assert(at < keys.len());
                        if j - 1 > at {
                            assert(text_lt(keys[at as int]@, keys[j - 1]@));
                        }
                    }
                } else if j == at {
                    assert(new_keys[i] == keys[i]);
                } else {
                    let i0 = if i < at { i } else { i - 1 };
                    let j0 = if j < at { j } else { j - 1 };
                    assert(new_keys[i] == keys[i0] && new_keys[j] == keys[j0]);
                }
            }
            assert forall|i: int| 0 <= i < after.len() implies borrowed_views(
                (#[trigger] after[i])@,
            ) == of_agent(next, new_keys[i]@) by {
                if i == at {
                    assert(of_agent(views, agent) =~= Seq::empty());
                    assert(borrowed_views(after[i]@) =~= seq![entry@]);
                    assert(of_agent(next, agent) =~= seq![entry@]);
                } else {
                    let i0 = if i < at { i } else { i - 1 };
                    assert(after[i] == before[i0] && new_keys[i] == keys[i0]);
                    assert(new_keys[i]@ != agent) by {
                        lemma_text_lt_irreflexive(agent);
                        if i < at {
                            assert(text_lt(new_keys[i]@, new_keys[at as int]@));
                        } else {
                            assert(text_lt(new_keys[at as int]@, new_keys[i]@));
                        }
                    }
                }
            }
            assert forall|i: int| 0 <= i < after.len() implies (#[trigger] after[i])@.len() > 0 by {
                if i != at {
                    let i0 = if i < at { i } else { i - 1 };
                    assert(after[i] == before[i0]);
                }
            }
            assert forall|k: int| 0 <= k < next.len() implies is_listed(
                new_keys,
                (#[trigger] next[k]).agent,
            ) by {
                if k < views.len() {
                    assert(next[k] == views[k]);
                    assert(is_listed(keys, views[k].agent));
                    let i0 = choose|i: int|
                        0 <= i < keys.len() && (#[trigger] keys[i])@ == views[k].agent;
                    let i = if i0 < at { i0 } else { i0 + 1 };
                    assert(new_keys[i] == keys[i0]);
                } else {
                    assert(new_keys[at as int]@ == next[k].agent);
                }
            }
        }
    }
}

/// Folds metric entries into one tally per agent, in the order of the agents'
/// pubkeys. An agent none of whose turns can be read has a tally too.
#[verifier::spinoff_prover]
pub fn tally(entries: &Vec<MetricEntry>) -> (rows: Vec<AgentTally>)
    ensures
        is_tally(entry_views(entries@), tally_views(rows@)),
        forall|i: int| 0 <= i < rows@.len() ==> accounts_for(entries@, #[trigger] rows@[i]),
{
    let ghost views = entry_views(entries@);
    let mut agents = Agents { pubkeys: Vec::new(), entries: Vec::new() };
    let mut k: usize = 0;
    while k < entries.len()
        invariant
            views == entry_views(entries@),
            k <= entries@.len(),
            are_agents(agents.pubkeys@, agents.entries@, views.take(k as int)),
        decreases entries@.len() - k,
    {
        proof {
            assert(views.take(k + 1) =~= views.take(k as int).push(entries@[k as int]@));
        }
        add_entry(&mut agents, &entries[k], Ghost(views.take(k as int)));
        k = k + 1;
    }
    assert(views.take(entries@.len() as int) =~= views);
    let mut rows: Vec<AgentTally> = Vec::new();
    let mut i: usize = 0;
    while i < agents.pubkeys.len()
        invariant
            are_agents(agents.pubkeys@, agents.entries@, views),
            i <= agents.pubkeys@.len(),
            rows@.len() == i,
            forall|j: int|
                0 <= j < i ==> (#[trigger] rows@[j])@ == agent_tally(
                    agents.pubkeys@[j]@,
                    of_agent(views, agents.pubkeys@[j]@),
                ),
        decreases agents.pubkeys@.len() - i,
    {
        let row = tally_agent(&agents.pubkeys[i], &agents.entries[i]);
        rows.push(row);
        i = i + 1;
    }
    proof {
        let out = tally_views(rows@);
        let keys = agents.pubkeys@;
        assert forall|i: int| 0 <= i < out.len() implies (#[trigger] out[i]).agent
            == keys[i]@ by {
            assert(rows@[i]@ == agent_tally(keys[i]@, of_agent(views, keys[i]@)));
        }
        assert forall|i: int| 0 <= i < out.len() implies of_agent(
            views,
            (#[trigger] out[i]).agent,
        ).len() > 0 by {
            assert(agents.entries@[i]@.len() > 0);
            assert(borrowed_views(agents.entries@[i]@) == of_agent(views, keys[i]@));
        }
        assert forall|i: int| 0 <= i < out.len() implies #[trigger] out[i] == agent_tally(
            out[i].agent,
            of_agent(views, out[i].agent),
        ) by {
            assert(rows@[i]@ == agent_tally(keys[i]@, of_agent(views, keys[i]@)));
        }
        assert forall|k: int| 0 <= k < views.len() implies has_row(
            out,
            (#[trigger] views[k]).agent,
        ) by {
            assert(is_listed(keys, views[k].agent));
            let i = choose|i: int| 0 <= i < keys.len() && (#[trigger] keys[i])@ == views[k].agent;
            assert(out[i].agent == keys[i]@);
        }
        assert forall|i: int, j: int| 0 <= i < j < out.len() implies text_lt(
            #[trigger] out[i].agent,
            #[trigger] out[j].agent,
        ) by {
            assert(text_lt(keys[i]@, keys[j]@));
        }
        assert forall|i: int| 0 <= i < rows@.len() implies accounts_for(
            entries@,
            #[trigger] rows@[i],
        ) by {
            law_tally_accounts_for_entries(entries@, rows@, i);
        }
    }
    rows
}

} // verus!
