//! The usage table in Markdown.

use crate::display::{cell_name, first_chars, grouped, sanitize_name, short_pubkey, thousands};
use crate::names::Names;
use crate::rollup::{AgentRollup, RollupView};
use crate::table_laws::{
    called, law_agents_are_called_by_name, law_usage_text_spelled_out, lines_for, notes,
    totals_line,
};
use vstd::prelude::*;

verus! {

/// The figures that are added up over all agents.
pub enum Figure {
    Turns,
    Sessions,
    Input,
    Output,
    CacheRead,
    CacheWrite,
    Undecryptable,
}

/// A figure of one agent.
pub open spec fn figure(row: RollupView, fig: Figure) -> nat {
    match fig {
        Figure::Turns => row.turns as nat,
        Figure::Sessions => row.sessions as nat,
        Figure::Input => row.input_tokens as nat,
        Figure::Output => row.output_tokens as nat,
        Figure::CacheRead => row.cache_read_tokens as nat,
        Figure::CacheWrite => row.cache_write_tokens as nat,
        Figure::Undecryptable => row.undecryptable_turns as nat,
    }
}

/// The sum of a figure over all agents.
pub open spec fn total(rows: Seq<RollupView>, fig: Figure) -> nat
    decreases rows.len(),
{
    if rows.len() == 0 {
        0
    } else {
        total(rows.drop_last(), fig) + figure(rows.last(), fig)
    }
}

/// The totals of rows that come with their costs in writing.
pub open spec fn row_views(rows: Seq<(AgentRollup, String)>) -> Seq<RollupView> {
    Seq::new(rows.len(), |i: int| rows[i].0@)
}

/// Whether every total fits in 64 bits.
pub open spec fn totals_fit_in(rows: Seq<RollupView>) -> bool {
    &&& total(rows, Figure::Turns) <= u64::MAX
    &&& total(rows, Figure::Sessions) <= u64::MAX
    &&& total(rows, Figure::Input) <= u64::MAX
    &&& total(rows, Figure::Output) <= u64::MAX
    &&& total(rows, Figure::CacheRead) <= u64::MAX
    &&& total(rows, Figure::CacheWrite) <= u64::MAX
    &&& total(rows, Figure::Undecryptable) <= u64::MAX
}

/// A beginning of the rows does not add up to more than all rows.
proof fn lemma_total_take(rows: Seq<RollupView>, n: int, fig: Figure)
    requires
        0 <= n <= rows.len(),
    ensures
        total(rows.take(n), fig) <= total(rows, fig),
    decreases rows.len(),
{
    if n < rows.len() {
        lemma_total_take(rows.drop_last(), n, fig);
        assert(rows.drop_last().take(n) =~= rows.take(n));
    } else {
        assert(rows.take(n) =~= rows);
    }
}

/// The totals over all agents.
struct Totals {
    turns: u64,
    sessions: u64,
    input_tokens: u64,
    output_tokens: u64,
    cache_read_tokens: u64,
    cache_write_tokens: u64,
    undecryptable_turns: u64,
}

/// Whether these are the totals of the rows.
spec fn are_totals(t: Totals, rows: Seq<RollupView>) -> bool {
    &&& t.turns == total(rows, Figure::Turns)
    &&& t.sessions == total(rows, Figure::Sessions)
    &&& t.input_tokens == total(rows, Figure::Input)
    &&& t.output_tokens == total(rows, Figure::Output)
    &&& t.cache_read_tokens == total(rows, Figure::CacheRead)
    &&& t.cache_write_tokens == total(rows, Figure::CacheWrite)
    &&& t.undecryptable_turns == total(rows, Figure::Undecryptable)
}

/// Totals with one more row, where they fit.
fn plus_row(t: &Totals, row: &AgentRollup) -> (sum: Option<Totals>)
    ensures
        sum is Some <==> {
            &&& t.turns + row.turns <= u64::MAX
            &&& t.sessions + row.sessions <= u64::MAX
            &&& t.input_tokens + row.input_tokens <= u64::MAX
            &&& t.output_tokens + row.output_tokens <= u64::MAX
            &&& t.cache_read_tokens + row.cache_read_tokens <= u64::MAX
            &&& t.cache_write_tokens + row.cache_write_tokens <= u64::MAX
            &&& t.undecryptable_turns + row.undecryptable_turns <= u64::MAX
        },
        sum matches Some(s) ==> {
            &&& s.turns == t.turns + row.turns
            &&& s.sessions == t.sessions + row.sessions
            &&& s.input_tokens == t.input_tokens + row.input_tokens
            &&& s.output_tokens == t.output_tokens + row.output_tokens
            &&& s.cache_read_tokens == t.cache_read_tokens + row.cache_read_tokens
            &&& s.cache_write_tokens == t.cache_write_tokens + row.cache_write_tokens
            &&& s.undecryptable_turns == t.undecryptable_turns + row.undecryptable_turns
        },
{
    let turns: u64 = t.turns.checked_add(row.turns)?;
    let sessions: u64 = t.sessions.checked_add(row.sessions)?;
    let input_tokens: u64 = t.input_tokens.checked_add(row.input_tokens)?;
    let output_tokens: u64 = t.output_tokens.checked_add(row.output_tokens)?;
    let cache_read_tokens: u64 = t.cache_read_tokens.checked_add(row.cache_read_tokens)?;
    let cache_write_tokens: u64 = t.cache_write_tokens.checked_add(row.cache_write_tokens)?;
    let undecryptable_turns: u64 = t.undecryptable_turns.checked_add(row.undecryptable_turns)?;
    Some(
        Totals {
            turns,
            sessions,
            input_tokens,
            output_tokens,
            cache_read_tokens,
            cache_write_tokens,
            undecryptable_turns,
        },
    )
}

/// The totals of the rows, where they fit.
fn add_up(rows: &Vec<(AgentRollup, String)>) -> (sum: Option<Totals>)
    ensures
        sum is Some <==> totals_fit_in(row_views(rows@)),
        sum matches Some(t) ==> are_totals(t, row_views(rows@)),
{
    let ghost views = row_views(rows@);
    let mut sum = Totals {
        turns: 0,
        sessions: 0,
        input_tokens: 0,
        output_tokens: 0,
        cache_read_tokens: 0,
        cache_write_tokens: 0,
        undecryptable_turns: 0,
    };
    let mut i: usize = 0;
    while i < rows.len()
        invariant
            views == row_views(rows@),
            i <= rows@.len(),
            are_totals(sum, views.take(i as int)),
        decreases rows@.len() - i,
    {
        proof {
            assert(views.take(i + 1).drop_last() =~= views.take(i as int));
            assert(views.take(i + 1).last() == rows@[i as int].0@);
            lemma_total_take(views, i + 1, Figure::Turns);
            lemma_total_take(views, i + 1, Figure::Sessions);
            lemma_total_take(views, i + 1, Figure::Input);
            lemma_total_take(views, i + 1, Figure::Output);
            lemma_total_take(views, i + 1, Figure::CacheRead);
            lemma_total_take(views, i + 1, Figure::CacheWrite);
            lemma_total_take(views, i + 1, Figure::Undecryptable);
        }
        match plus_row(&sum, &rows[i].0) {
            Some(next) => {
                sum = next;
            },
            None => {
                return None;
            },
        }
        i = i + 1;
    }
    assert(views.take(rows@.len() as int) =~= views);
    Some(sum)
}

/// Whether every total fits in 64 bits, as rendering the table needs.
pub fn totals_fit(rows: &Vec<(AgentRollup, String)>) -> (fit: bool)
    ensures
        fit == totals_fit_in(row_views(rows@)),
{
    match add_up(rows) {
        Some(_) => true,
        None => false,
    }
}

/// The cells of a table row behind one another, between pipes.
pub open spec fn cells_text(cells: Seq<Seq<char>>) -> Seq<char>
    decreases cells.len(),
{
    if cells.len() == 0 {
        "|"@
    } else {
        cells_text(cells.drop_last()) + " "@ + cells.last() + " |"@
    }
}

/// A table row.
pub open spec fn row_line(cells: Seq<Seq<char>>) -> Seq<char> {
    cells_text(cells) + "\n"@
}

/// Appends a cell to a table row.
fn push_cell(
    line: &mut String,
    cell: &str,
    Ghost(cells): Ghost<Seq<Seq<char>>>,
    Ghost(at): Ghost<int>,
)
    requires
        0 <= at < cells.len(),
        cells[at] == cell@,
        old(line)@ == cells_text(cells.take(at)),
    ensures
        final(line)@ == cells_text(cells.take(at + 1)),
{
    line.append(" ");
    line.append(cell);
    line.append(" |");
    assert(cells.take(at + 1).drop_last() =~= cells.take(at));
}

/// How an agent is called in the table: by its profile's name, or, where it has
/// none that is more than white space, by the beginning of its pubkey.
pub open spec fn shown_name(names: Map<Seq<char>, Seq<char>>, agent: Seq<char>) -> Seq<char> {
    if names.contains_key(agent) && cell_name(names[agent]).len() > 0 {
        cell_name(names[agent])
    } else {
        first_chars(agent, 8)
    }
}

/// How an agent is called in the table.
pub fn display_name(names: &Names, agent: &str) -> (name: String)
    ensures
        name@ == shown_name(names@, agent@),
        name@ == called(names@, agent@),
{
    proof {
        law_agents_are_called_by_name(names@, agent@);
    }
    match names.get(agent) {
        Some(profile_name) => {
            let name = sanitize_name(profile_name.as_str());
            if name.as_str().is_empty() {
                short_pubkey(agent)
            } else {
                name
            }
        },
        None => short_pubkey(agent),
    }
}

/// The cells of an agent's row.
pub open spec fn agent_cells(
    row: RollupView,
    name: Seq<char>,
    cost: Seq<char>,
) -> Seq<Seq<char>> {
    seq![
        name,
        grouped(row.turns as nat),
        grouped(row.input_tokens as nat),
        grouped(row.output_tokens as nat),
        grouped(row.cache_read_tokens as nat),
        grouped(row.cache_write_tokens as nat),
        "$"@ + cost,
    ]
}

/// The rows of the agents.
pub open spec fn agent_lines(
    rows: Seq<(AgentRollup, String)>,
    names: Map<Seq<char>, Seq<char>>,
) -> Seq<char>
    decreases rows.len(),
{
    if rows.len() == 0 {
        Seq::empty()
    } else {
        let row = rows.last().0@;
        agent_lines(rows.drop_last(), names) + row_line(
            agent_cells(row, shown_name(names, row.agent), rows.last().1@),
        )
    }
}

/// Text in bold.
pub open spec fn bold(text: Seq<char>) -> Seq<char> {
    "**"@ + text + "**"@
}

/// The cells of the last row, which holds the totals.
pub open spec fn total_cells(rows: Seq<RollupView>, cost: Seq<char>) -> Seq<Seq<char>> {
    seq![
        "**Total**"@,
        bold(grouped(total(rows, Figure::Turns))),
        bold(grouped(total(rows, Figure::Input))),
        bold(grouped(total(rows, Figure::Output))),
        bold(grouped(total(rows, Figure::CacheRead))),
        bold(grouped(total(rows, Figure::CacheWrite))),
        bold("$"@ + cost),
    ]
}

/// The title above the table.
pub open spec fn title(generated_at: Seq<char>) -> Seq<char> {
    "**Agent usage — cumulative, as of "@ + generated_at + "**\n\n"@
}

/// What is said where there is nothing to show.
pub open spec fn nothing_found() -> Seq<char> {
    "No agent turn metrics found. Either no turns have been recorded yet, or turn-usage capture is not live on the fleet.\n"@
}

/// The names of the columns.
pub open spec fn header_line() -> Seq<char> {
    "| Agent | Turns | Input | Output | Cache read | Cache write | Cost (USD) |\n"@
}

/// The line between the names of the columns and the rows.
pub open spec fn separator_line() -> Seq<char> {
    "|---|--:|--:|--:|--:|--:|--:|\n"@
}

/// The note below the table.
pub open spec fn sessions_note(sessions: nat) -> Seq<char> {
    "\nInput is cache-inclusive: cache-read and cache-write tokens are subsets of it, broken out because they bill at different rates. "@
        + grouped(sessions) + " sessions.\n"@
}

/// The warning where turns could not be read.
pub open spec fn unread_warning(turns: nat) -> Seq<char> {
    if turns > 0 {
        "\n⚠\u{fe0f} "@ + grouped(turns)
            + " turn(s) could not be decrypted and are excluded from the totals above — the figures are a floor, not a complete count.\n"@
    } else {
        Seq::empty()
    }
}

/// The table: names of the columns, agents, totals.
pub open spec fn table(
    rows: Seq<(AgentRollup, String)>,
    names: Map<Seq<char>, Seq<char>>,
    total_cost: Seq<char>,
) -> Seq<char> {
    header_line() + separator_line() + agent_lines(rows, names) + row_line(
        total_cells(row_views(rows), total_cost),
    )
}

/// The whole usage text.
pub open spec fn usage_text(
    rows: Seq<(AgentRollup, String)>,
    names: Map<Seq<char>, Seq<char>>,
    generated_at: Seq<char>,
    total_cost: Seq<char>,
) -> Seq<char> {
    if rows.len() == 0 {
        title(generated_at) + nothing_found()
    } else {
        title(generated_at) + table(rows, names, total_cost) + sessions_note(
            total(row_views(rows), Figure::Sessions),
        ) + unread_warning(total(row_views(rows), Figure::Undecryptable))
    }
}

/// Appends an agent's row.
fn push_agent_line(out: &mut String, row: &AgentRollup, cost: &str, names: &Names)
    ensures
        final(out)@ == old(out)@ + row_line(
            agent_cells(row@, shown_name(names@, row@.agent), cost@),
        ),
{
    let name = display_name(names, row.agent_pubkey.as_str());
    let turns = thousands(row.turns);
    let input = thousands(row.input_tokens);
    let output = thousands(row.output_tokens);
    let cache_read = thousands(row.cache_read_tokens);
    let cache_write = thousands(row.cache_write_tokens);
    let mut dollars = "$".to_owned();
    dollars.append(cost);
    let ghost cells = agent_cells(row@, shown_name(names@, row@.agent), cost@);
    let mut line = "|".to_owned();
    assert(cells.take(0) =~= Seq::empty());
    push_cell(&mut line, name.as_str(), Ghost(cells), Ghost(0int));
    push_cell(&mut line, turns.as_str(), Ghost(cells), Ghost(1int));
    push_cell(&mut line, input.as_str(), Ghost(cells), Ghost(2int));
    push_cell(&mut line, output.as_str(), Ghost(cells), Ghost(3int));
    push_cell(&mut line, cache_read.as_str(), Ghost(cells), Ghost(4int));
    push_cell(&mut line, cache_write.as_str(), Ghost(cells), Ghost(5int));
    push_cell(&mut line, dollars.as_str(), Ghost(cells), Ghost(6int));
    assert(cells.take(7) =~= cells);
    line.append("\n");
    out.append(line.as_str());
}

/// Appends text in bold as a cell.
fn push_bold_cell(
    line: &mut String,
    text: &str,
    Ghost(cells): Ghost<Seq<Seq<char>>>,
    Ghost(at): Ghost<int>,
)
    requires
        0 <= at < cells.len(),
        cells[at] == bold(text@),
        old(line)@ == cells_text(cells.take(at)),
    ensures
        final(line)@ == cells_text(cells.take(at + 1)),
{
    let mut cell = "**".to_owned();
    cell.append(text);
    cell.append("**");
    push_cell(line, cell.as_str(), Ghost(cells), Ghost(at));
}

/// Appends the row of the totals.
fn push_total_line(
    out: &mut String,
    sum: &Totals,
    cost: &str,
    Ghost(rows): Ghost<Seq<RollupView>>,
)
    requires
        are_totals(*sum, rows),
    ensures
        final(out)@ == old(out)@ + row_line(total_cells(rows, cost@)),
{
    let turns = thousands(sum.turns);
    let input = thousands(sum.input_tokens);
    let output = thousands(sum.output_tokens);
    let cache_read = thousands(sum.cache_read_tokens);
    let cache_write = thousands(sum.cache_write_tokens);
    let mut dollars = "$".to_owned();
    dollars.append(cost);
    let ghost cells = total_cells(rows, cost@);
    let mut line = "|".to_owned();
    assert(cells.take(0) =~= Seq::empty());
    push_cell(&mut line, "**Total**", Ghost(cells), Ghost(0int));
    push_bold_cell(&mut line, turns.as_str(), Ghost(cells), Ghost(1int));
    push_bold_cell(&mut line, input.as_str(), Ghost(cells), Ghost(2int));
    push_bold_cell(&mut line, output.as_str(), Ghost(cells), Ghost(3int));
    push_bold_cell(&mut line, cache_read.as_str(), Ghost(cells), Ghost(4int));
    push_bold_cell(&mut line, cache_write.as_str(), Ghost(cells), Ghost(5int));
    push_bold_cell(&mut line, dollars.as_str(), Ghost(cells), Ghost(6int));
    assert(cells.take(7) =~= cells);
    line.append("\n");
    out.append(line.as_str());
}

/// Renders the rollups as a Markdown table. Each comes with its cost in
/// writing, and so does the total.
pub fn render_markdown(
    rows: &Vec<(AgentRollup, String)>,
    names: &Names,
    generated_at: &str,
    total_cost: &str,
) -> (text: String)
    requires
        totals_fit_in(row_views(rows@)),
    ensures
        text@ == usage_text(rows@, names@, generated_at@, total_cost@),
        rows@.len() > 0 ==> text@ == ("**Agent usage — cumulative, as of "@ + generated_at@
            + "**\n\n"@) + (
        "| Agent | Turns | Input | Output | Cache read | Cache write | Cost (USD) |\n"@
            + "|---|--:|--:|--:|--:|--:|--:|\n"@ + lines_for(rows@, names@).flatten() + (totals_line(
            rows@,
            total_cost@,
        ) + "\n"@)) + notes(rows@),
{
    proof {
        law_usage_text_spelled_out(rows@, names@, generated_at@, total_cost@);
    }
    let mut out = "**Agent usage — cumulative, as of ".to_owned();
    out.append(generated_at);
    out.append("**\n\n");
    if rows.len() == 0 {
        out.append(
            "No agent turn metrics found. Either no turns have been recorded yet, or turn-usage capture is not live on the fleet.\n",
        );
        return out;
    }
    let mut lines = String::new();
    lines.append("| Agent | Turns | Input | Output | Cache read | Cache write | Cost (USD) |\n");
    lines.append("|---|--:|--:|--:|--:|--:|--:|\n");
    let ghost head = header_line() + separator_line();
    proof {
        assert(lines@ =~= head);
        assert(lines@ =~= head + agent_lines(rows@.take(0), names@));
    }
    let mut i: usize = 0;
    while i < rows.len()
        invariant
            i <= rows@.len(),
            lines@ == head + agent_lines(rows@.take(i as int), names@),
        decreases rows@.len() - i,
    {
        proof {
            assert(rows@.take(i + 1).drop_last() =~= rows@.take(i as int));
            assert(rows@.take(i + 1).last() == rows@[i as int]);
        }
        push_agent_line(&mut lines, &rows[i].0, rows[i].1.as_str(), names);
        proof {
            assert(lines@ =~= head + agent_lines(rows@.take(i + 1), names@));
        }
        i = i + 1;
    }
    assert(rows@.take(rows@.len() as int) =~= rows@);
    match add_up(rows) {
        Some(sum) => {
            push_total_line(&mut lines, &sum, total_cost, Ghost(row_views(rows@)));
            out.append(lines.as_str());
            let mut note = "\nInput is cache-inclusive: cache-read and cache-write tokens are subsets of it, broken out because they bill at different rates. ".to_owned();
            note.append(thousands(sum.sessions).as_str());
            note.append(" sessions.\n");
            out.append(note.as_str());
            if sum.undecryptable_turns > 0 {
                let mut warning = "\n⚠\u{fe0f} ".to_owned();
                warning.append(thousands(sum.undecryptable_turns).as_str());
                warning.append(
                    " turn(s) could not be decrypted and are excluded from the totals above — the figures are a floor, not a complete count.\n",
                );
                out.append(warning.as_str());
            } else {
                assert(out@ + Seq::<char>::empty() =~= out@);
            }
        },
        None => {},
    }
    out
}

} // verus!
