//! The rows of the usage panel.

use crate::metric::Usd;
use crate::names::Names;
use crate::rollup::AgentRollup;
use vstd::prelude::*;

verus! {

/// One agent's row in the usage panel.
#[derive(Clone, Debug)]
pub struct AgentUsageRow {
    pub agent_pubkey: String,
    /// The profile's display name where one is published.
    pub agent_name: Option<String>,
    pub turns: u64,
    pub sessions: u64,
    pub input_tokens: u64,
    pub output_tokens: u64,
    pub cache_read_tokens: u64,
    pub cache_write_tokens: u64,
    pub cost_usd: Usd,
    /// Turns that could not be decrypted. Where there are any, the totals are
    /// a floor.
    pub undecryptable_turns: u64,
}

/// The whole panel.
#[derive(Clone, Debug)]
pub struct AgentUsageReport {
    pub rows: Vec<AgentUsageRow>,
    /// When this was read, in seconds.
    pub generated_at: u64,
}

/// Whether a row shows the totals of an agent, under its name if it has one.
pub open spec fn shows(
    row: AgentUsageRow,
    rollup: AgentRollup,
    names: Map<Seq<char>, Seq<char>>,
) -> bool {
    &&& row.agent_pubkey@ == rollup.agent_pubkey@
    &&& row.agent_name is Some <==> names.contains_key(rollup.agent_pubkey@)
    &&& row.agent_name matches Some(name) ==> name@ == names[rollup.agent_pubkey@]
    &&& row.turns == rollup.turns
    &&& row.sessions == rollup.sessions
    &&& row.input_tokens == rollup.input_tokens
    &&& row.output_tokens == rollup.output_tokens
    &&& row.cache_read_tokens == rollup.cache_read_tokens
    &&& row.cache_write_tokens == rollup.cache_write_tokens
    &&& row.cost_usd == rollup.cost_usd
    &&& row.undecryptable_turns == rollup.undecryptable_turns
}

/// A row of the panel has the pubkey and every figure of its agent's totals, and
/// the agent's name exactly where one is known.
pub proof fn law_panel_row_has_every_figure(
    row: AgentUsageRow,
    rollup: AgentRollup,
    names: Map<Seq<char>, Seq<char>>,
)
    requires
        shows(row, rollup, names),
    ensures
        row.agent_pubkey@ == rollup.agent_pubkey@,
        row.turns == rollup.turns,
        row.sessions == rollup.sessions,
        row.input_tokens == rollup.input_tokens,
        row.output_tokens == rollup.output_tokens,
        row.cache_read_tokens == rollup.cache_read_tokens,
        row.cache_write_tokens == rollup.cache_write_tokens,
        row.cost_usd == rollup.cost_usd,
        row.undecryptable_turns == rollup.undecryptable_turns,
        names.contains_key(rollup.agent_pubkey@) ==> row.agent_name is Some
            && row.agent_name->0@ == names[rollup.agent_pubkey@],
        !names.contains_key(rollup.agent_pubkey@) ==> row.agent_name is None,
{
}

/// Builds the usage report: one row for each agent, in the order of the
/// rollups.
pub fn agent_usage_rollup(
    rollups: &Vec<AgentRollup>,
    names: &Names,
    generated_at: u64,
) -> (report: AgentUsageReport)
    ensures
        report.rows@.len() == rollups@.len(),
        forall|i: int|
            0 <= i < rollups@.len() ==> shows(#[trigger] report.rows@[i], rollups@[i], names@),
        forall|i: int|
            0 <= i < rollups@.len() ==> {
                let row = #[trigger] report.rows@[i];
                &&& row.agent_pubkey@ == rollups@[i].agent_pubkey@
                &&& row.turns == rollups@[i].turns
                &&& row.sessions == rollups@[i].sessions
                &&& row.input_tokens == rollups@[i].input_tokens
                &&& row.output_tokens == rollups@[i].output_tokens
                &&& row.cache_read_tokens == rollups@[i].cache_read_tokens
                &&& row.cache_write_tokens == rollups@[i].cache_write_tokens
                &&& row.cost_usd == rollups@[i].cost_usd
                &&& row.undecryptable_turns == rollups@[i].undecryptable_turns
            },
        report.generated_at == generated_at,
{
    let mut rows: Vec<AgentUsageRow> = Vec::new();
    let mut i: usize = 0;
    while i < rollups.len()
        invariant
            i <= rollups@.len(),
            rows@.len() == i,
            forall|j: int| 0 <= j < i ==> shows(#[trigger] rows@[j], rollups@[j], names@),
        decreases rollups@.len() - i,
    {
        let r = &rollups[i];
        let agent_name: Option<String> = match names.get(r.agent_pubkey.as_str()) {
            Some(name) => Some(name.clone()),
            None => None,
        };
        rows.push(
            AgentUsageRow {
                agent_pubkey: r.agent_pubkey.clone(),
                agent_name,
                turns: r.turns,
                sessions: r.sessions,
                input_tokens: r.input_tokens,
                output_tokens: r.output_tokens,
                cache_read_tokens: r.cache_read_tokens,
                cache_write_tokens: r.cache_write_tokens,
                cost_usd: r.cost_usd,
                undecryptable_turns: r.undecryptable_turns,
            },
        );
        i = i + 1;
    }
    AgentUsageReport { rows, generated_at }
}

} // verus!
