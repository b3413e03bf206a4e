//! The turn metrics that agents publish, as the accounting reads them.

use vstd::prelude::*;

verus! {

/// The bit pattern of positive infinity, the largest amount there is.
pub const INFINITE_USD: u64 = 0x7ff0_0000_0000_0000;

/// The bit pattern of a negative zero.
pub const NEGATIVE_ZERO_USD: u64 = 0x8000_0000_0000_0000;

/// An amount of US dollars that is not negative.
///
/// The amount is carried as the bit pattern of an IEEE-754 double. For
/// amounts that are not negative the bit patterns, read as integers, are
/// ordered as the amounts are, so amounts can be compared here; adding and
/// printing them is left to the caller.
#[derive(Clone, Copy, Debug, PartialEq, Eq, Structural)]
pub struct Usd {
    bits: u64,
}

impl View for Usd {
    type V = u64;

    closed spec fn view(&self) -> u64 {
        self.bits
    }
}

impl Usd {
    #[verifier::type_invariant]
    spec fn not_negative(self) -> bool {
        self.bits <= INFINITE_USD
    }

    /// The amount with this bit pattern. There is none for a negative amount,
    /// a negative zero or a pattern that is no number.
    pub fn from_bits(bits: u64) -> (amount: Option<Usd>)
        ensures
            amount is Some <==> bits <= INFINITE_USD,
            amount is Some <==> bits <= 0x7ff0_0000_0000_0000,
            amount matches Some(usd) ==> usd@ == bits,
    {
        if bits <= INFINITE_USD {
            Some(Usd { bits })
        } else {
            None
        }
    }

    /// A reported cost from its bit pattern. Negative and non-finite costs are
    /// not accepted; a negative zero counts as zero.
    pub fn reported(bits: u64) -> (amount: Option<Usd>)
        ensures
            amount is Some <==> bits < INFINITE_USD || bits == NEGATIVE_ZERO_USD,
            amount is Some <==> bits < 0x7ff0_0000_0000_0000 || bits == 0x8000_0000_0000_0000,
            bits < 0x7ff0_0000_0000_0000 ==> amount is Some && amount->0@ == bits,
            bits == 0x8000_0000_0000_0000 ==> amount is Some && amount->0@ == 0,
            amount matches Some(usd) ==> usd@ == if bits == NEGATIVE_ZERO_USD {
                0
            } else {
                bits
            },
    {
        if bits == NEGATIVE_ZERO_USD {
            Some(Usd { bits: 0 })
        } else if bits < INFINITE_USD {
            Some(Usd { bits })
        } else {
            None
        }
    }

    /// No dollars.
    pub fn zero() -> (amount: Usd)
        ensures
            amount@ == 0,
    {
        Usd { bits: 0 }
    }

    /// The bit pattern of this amount.
    pub fn bits(&self) -> (bits: u64)
        ensures
            bits == self@,
            bits <= INFINITE_USD,
    {
        proof {
            use_type_invariant(self);
        }
        self.bits
    }
}

/// The amounts are bounded by the pattern of positive infinity, and the one
/// pattern beyond it that is accepted as a cost is that of a negative zero.
pub proof fn law_limits_of_amounts()
    ensures
        INFINITE_USD == 0x7ff0_0000_0000_0000,
        NEGATIVE_ZERO_USD == 0x8000_0000_0000_0000,
        INFINITE_USD < NEGATIVE_ZERO_USD,
{
}

/// Token counts and cost, of one turn or of a session so far. A count that the
/// provider did not report is `None`.
#[derive(Clone, Copy, Debug)]
pub struct TokenCounts {
    pub input_tokens: Option<u64>,
    pub output_tokens: Option<u64>,
    pub total_tokens: Option<u64>,
    pub cost_usd: Option<Usd>,
    pub cache_read_tokens: Option<u64>,
    pub cache_write_tokens: Option<u64>,
}

/// What an agent reports about one turn.
#[derive(Clone, Debug)]
pub struct AgentTurnMetricPayload {
    pub harness: String,
    pub model: Option<String>,
    pub channel_id: Option<String>,
    pub session_id: Option<String>,
    pub turn_id: Option<String>,
    pub turn_seq: Option<u64>,
    pub timestamp: String,
    pub turn: Option<TokenCounts>,
    pub cumulative: Option<TokenCounts>,
    pub delta_reliable: bool,
    pub stop_reason: Option<String>,
}

/// One turn metric event, with its payload if that could be read.
///
/// The agent is named outside the encrypted payload, so an event that cannot
/// be read still belongs to an agent.
#[derive(Clone, Debug)]
pub struct MetricEntry {
    /// Hex pubkey of the agent that produced the turn.
    pub agent_pubkey: String,
    /// When the event was created, in seconds. Breaks ties of `turn_seq`.
    pub created_at: u64,
    /// `None` when the event could not be decrypted or was not valid.
    pub payload: Option<AgentTurnMetricPayload>,
}

/// The part of a payload that the accounting reads.
pub struct TurnView {
    pub session_id: Option<Seq<char>>,
    pub turn_id: Option<Seq<char>>,
    pub turn_seq: Option<u64>,
    pub turn: Option<TokenCounts>,
    pub cumulative: Option<TokenCounts>,
}

/// The part of a metric entry that the accounting reads.
pub struct EntryView {
    pub agent: Seq<char>,
    pub created_at: u64,
    pub turn: Option<TurnView>,
}

/// The characters of an optional string.
pub open spec fn text_option(text: Option<String>) -> Option<Seq<char>> {
    match text {
        Some(s) => Some(s@),
        None => None,
    }
}

impl View for AgentTurnMetricPayload {
    type V = TurnView;

    open spec fn view(&self) -> TurnView {
        TurnView {
            session_id: text_option(self.session_id),
            turn_id: text_option(self.turn_id),
            turn_seq: self.turn_seq,
            turn: self.turn,
            cumulative: self.cumulative,
        }
    }
}

impl View for MetricEntry {
    type V = EntryView;

    open spec fn view(&self) -> EntryView {
        EntryView {
            agent: self.agent_pubkey@,
            created_at: self.created_at,
            turn: match self.payload {
                Some(payload) => Some(payload@),
                None => None,
            },
        }
    }
}

/// The views of a sequence of entries.
pub open spec fn entry_views(entries: Seq<MetricEntry>) -> Seq<EntryView> {
    Seq::new(entries.len(), |i: int| entries[i]@)
}

/// The views of a sequence of borrowed entries.
pub open spec fn borrowed_views(entries: Seq<&MetricEntry>) -> Seq<EntryView> {
    Seq::new(entries.len(), |i: int| entries[i]@)
}

} // verus!
