//! What each line of the usage text says, by the figures of the rollups.

use crate::accounting::sum_to;
use crate::display::{cell_name, first_chars, grouped, law_cell_name_blank, white_space};
use crate::markdown::{
    agent_lines, cells_text, figure, header_line, row_line, row_views,
    separator_line, sessions_note, shown_name, title, total, total_cells, totals_fit_in,
    unread_warning, usage_text, Figure,
};
use crate::markdown_laws::{
    agent_row, agent_rows, lemma_concat_groups, lemma_usage_lines, lines_of, parts_on_one_line,
    title_line, usage_lines,
};
use crate::rollup::AgentRollup;
use vstd::prelude::*;

verus! {

/// A table row with seven cells.
pub open spec fn seven_cells(
    a: Seq<char>,
    b: Seq<char>,
    c: Seq<char>,
    d: Seq<char>,
    e: Seq<char>,
    f: Seq<char>,
    g: Seq<char>,
) -> Seq<char> {
    "| "@ + a + " | "@ + b + " | "@ + c + " | "@ + d + " | "@ + e + " | "@ + f + " | "@ + g + " |"@
}

/// What an agent is called: the name from its profile as it fits in a cell, where
/// that is more than white space, and else the first eight characters of its
/// pubkey.
pub open spec fn called(names: Map<Seq<char>, Seq<char>>, pubkey: Seq<char>) -> Seq<char> {
    if names.contains_key(pubkey) && exists|i: int|
        0 <= i < names[pubkey].len() && !white_space(#[trigger] names[pubkey][i]) {
        cell_name(names[pubkey])
    } else if pubkey.len() > 8 {
        pubkey.subrange(0, 8)
    } else {
        pubkey
    }
}

/// The line of an agent: its name, turns, input tokens, output tokens, cache-read
/// tokens, cache-write tokens and cost.
pub open spec fn agent_line(
    row: AgentRollup,
    cost: Seq<char>,
    names: Map<Seq<char>, Seq<char>>,
) -> Seq<char> {
    seven_cells(
        called(names, row.agent_pubkey@),
        grouped(row.turns as nat),
        grouped(row.input_tokens as nat),
        grouped(row.output_tokens as nat),
        grouped(row.cache_read_tokens as nat),
        grouped(row.cache_write_tokens as nat),
        "$"@ + cost,
    )
}

/// The sum of a figure over the agents.
pub open spec fn sum_of(
    rows: Seq<(AgentRollup, String)>,
    figure_in: spec_fn(AgentRollup) -> u64,
) -> nat {
    sum_to(rows.len() as int, |i: int| figure_in(rows[i].0) as nat)
}

/// A number of the totals, in bold.
pub open spec fn bold_number(n: nat) -> Seq<char> {
    "**"@ + grouped(n) + "**"@
}

/// The line of the totals: over all agents, in the same columns.
pub open spec fn totals_line(
    rows: Seq<(AgentRollup, String)>,
    total_cost: Seq<char>,
) -> Seq<char> {
    seven_cells(
        "**Total**"@,
        bold_number(sum_of(rows, |r: AgentRollup| r.turns)),
        bold_number(sum_of(rows, |r: AgentRollup| r.input_tokens)),
        bold_number(sum_of(rows, |r: AgentRollup| r.output_tokens)),
        bold_number(sum_of(rows, |r: AgentRollup| r.cache_read_tokens)),
        bold_number(sum_of(rows, |r: AgentRollup| r.cache_write_tokens)),
        "**"@ + ("$"@ + total_cost) + "**"@,
    )
}

/// What follows the table: the note with the number of sessions and, where turns
/// could not be read, the warning with their number.
pub open spec fn notes(rows: Seq<(AgentRollup, String)>) -> Seq<char> {
    let sessions = sum_of(rows, |r: AgentRollup| r.sessions);
    let unread = sum_of(rows, |r: AgentRollup| r.undecryptable_turns);
    let note =
        "\nInput is cache-inclusive: cache-read and cache-write tokens are subsets of it, broken out because they bill at different rates. "@
        + grouped(sessions) + " sessions.\n"@;
    if unread > 0 {
        note + ("\n⚠\u{fe0f} "@ + grouped(unread)
            + " turn(s) could not be decrypted and are excluded from the totals above — the figures are a floor, not a complete count.\n"@)
    } else {
        note
    }
}

/// The total of a figure is its sum over the agents.
proof fn lemma_total_is_sum(
    rows: Seq<(AgentRollup, String)>,
    n: int,
    fig: Figure,
    f: spec_fn(int) -> nat,
)
    requires
        0 <= n <= rows.len(),
        forall|i: int| #[trigger] f(i) == figure(rows[i].0@, fig),
    ensures
        total(row_views(rows).take(n), fig) == sum_to(n, f),
    decreases n,
{
    let views = row_views(rows);
    if n > 0 {
        lemma_total_is_sum(rows, n - 1, fig, f);
        assert(views.take(n).drop_last() =~= views.take(n - 1));
        assert(views.take(n).last() == rows[n - 1].0@);
        assert(f(n - 1) == figure(rows[n - 1].0@, fig));
    }
}

/// The total of a figure is its sum over all agents.
proof fn lemma_total_is_sum_of(
    rows: Seq<(AgentRollup, String)>,
    fig: Figure,
    figure_in: spec_fn(AgentRollup) -> u64,
)
    requires
        forall|r: AgentRollup| figure(#[trigger] r.view(), fig) == figure_in(r) as nat,
    ensures
        total(row_views(rows), fig) == sum_of(rows, figure_in),
{
    let n = rows.len() as int;
    let f = |i: int| figure_in(rows[i].0) as nat;
    assert forall|i: int| #[trigger] f(i) == figure(rows[i].0@, fig) by {
        let r = rows[i].0;
        assert(figure(r.view(), fig) == figure_in(r) as nat);
    }
    lemma_total_is_sum(rows, n, fig, f);
    assert(row_views(rows).take(n) =~= row_views(rows));
}

/// All totals are sums over the agents.
proof fn lemma_totals(rows: Seq<(AgentRollup, String)>)
    ensures
        total(row_views(rows), Figure::Turns) == sum_of(rows, |r: AgentRollup| r.turns),
        total(row_views(rows), Figure::Sessions) == sum_of(rows, |r: AgentRollup| r.sessions),
        total(row_views(rows), Figure::Input) == sum_of(rows, |r: AgentRollup| r.input_tokens),
        total(row_views(rows), Figure::Output) == sum_of(rows, |r: AgentRollup| r.output_tokens),
        total(row_views(rows), Figure::CacheRead) == sum_of(
            rows,
            |r: AgentRollup| r.cache_read_tokens,
        ),
        total(row_views(rows), Figure::CacheWrite) == sum_of(
            rows,
            |r: AgentRollup| r.cache_write_tokens,
        ),
        total(row_views(rows), Figure::Undecryptable) == sum_of(
            rows,
            |r: AgentRollup| r.undecryptable_turns,
        ),
{
    lemma_total_is_sum_of(rows, Figure::Turns, |r: AgentRollup| r.turns);
    lemma_total_is_sum_of(rows, Figure::Sessions, |r: AgentRollup| r.sessions);
    lemma_total_is_sum_of(rows, Figure::Input, |r: AgentRollup| r.input_tokens);
    lemma_total_is_sum_of(rows, Figure::Output, |r: AgentRollup| r.output_tokens);
    lemma_total_is_sum_of(rows, Figure::CacheRead, |r: AgentRollup| r.cache_read_tokens);
    lemma_total_is_sum_of(rows, Figure::CacheWrite, |r: AgentRollup| r.cache_write_tokens);
    lemma_total_is_sum_of(rows, Figure::Undecryptable, |r: AgentRollup| r.undecryptable_turns);
}

/// Rendering needs that each sum over the agents fits in 64 bits, and nothing
/// else.
pub proof fn law_totals_fit_where_sums_do(rows: Seq<(AgentRollup, String)>)
    ensures
        totals_fit_in(row_views(rows)) <==> {
            &&& sum_of(rows, |r: AgentRollup| r.turns) <= 0xffff_ffff_ffff_ffff
            &&& sum_of(rows, |r: AgentRollup| r.sessions) <= 0xffff_ffff_ffff_ffff
            &&& sum_of(rows, |r: AgentRollup| r.input_tokens) <= 0xffff_ffff_ffff_ffff
            &&& sum_of(rows, |r: AgentRollup| r.output_tokens) <= 0xffff_ffff_ffff_ffff
            &&& sum_of(rows, |r: AgentRollup| r.cache_read_tokens) <= 0xffff_ffff_ffff_ffff
            &&& sum_of(rows, |r: AgentRollup| r.cache_write_tokens) <= 0xffff_ffff_ffff_ffff
            &&& sum_of(rows, |r: AgentRollup| r.undecryptable_turns) <= 0xffff_ffff_ffff_ffff
        },
{
    lemma_totals(rows);
}

/// One more cell behind a row.
proof fn lemma_one_more_cell(cells: Seq<Seq<char>>, before: Seq<char>)
    requires
        cells.len() > 0,
        cells_text(cells.drop_last()) == before + " |"@,
    ensures
        cells_text(cells) == before + " | "@ + cells.last() + " |"@,
{
    reveal_strlit(" ");
    reveal_strlit(" |");
    reveal_strlit(" | ");
    assert(" |"@ + " "@ =~= " | "@);
    lemma_concat_groups(before, " |"@, " "@);
}

/// Seven cells, written out.
proof fn lemma_seven_cells(
    a: Seq<char>,
    b: Seq<char>,
    c: Seq<char>,
    d: Seq<char>,
    e: Seq<char>,
    f: Seq<char>,
    g: Seq<char>,
)
    ensures
        cells_text(seq![a, b, c, d, e, f, g]) == seven_cells(a, b, c, d, e, f, g),
{
    let cells = seq![a, b, c, d, e, f, g];
    let s1 = "| "@ + a;
    let s2 = s1 + " | "@ + b;
    let s3 = s2 + " | "@ + c;
    let s4 = s3 + " | "@ + d;
    let s5 = s4 + " | "@ + e;
    let s6 = s5 + " | "@ + f;
    assert(cells_text(cells.take(1)) == s1 + " |"@) by {
        reveal_strlit("|");
        reveal_strlit(" ");
        reveal_strlit("| ");
        assert(cells.take(1).drop_last() =~= Seq::empty());
        assert(cells_text(Seq::empty()) == "|"@);
        assert("|"@ + " "@ =~= "| "@);
    }
    assert(cells.take(2).drop_last() =~= cells.take(1));
    assert(cells.take(3).drop_last() =~= cells.take(2));
    assert(cells.take(4).drop_last() =~= cells.take(3));
    assert(cells.take(5).drop_last() =~= cells.take(4));
    assert(cells.take(6).drop_last() =~= cells.take(5));
    assert(cells.drop_last() =~= cells.take(6));
    lemma_one_more_cell(cells.take(2), s1);
    lemma_one_more_cell(cells.take(3), s2);
    lemma_one_more_cell(cells.take(4), s3);
    lemma_one_more_cell(cells.take(5), s4);
    lemma_one_more_cell(cells.take(6), s5);
    lemma_one_more_cell(cells, s6);
}

/// An agent is called in the table by its profile's name as it fits in a cell,
/// where that is more than white space, and else by the first eight characters of
/// its pubkey.
pub proof fn law_agents_are_called_by_name(
    names: Map<Seq<char>, Seq<char>>,
    pubkey: Seq<char>,
)
    ensures
        shown_name(names, pubkey) == called(names, pubkey),
{
    if names.contains_key(pubkey) {
        law_cell_name_blank(names[pubkey]);
    }
    if pubkey.len() > 8 {
        assert(first_chars(pubkey, 8) =~= pubkey.subrange(0, 8));
    }
}

/// An agent's row, written out.
proof fn lemma_agent_line(
    row: (AgentRollup, String),
    names: Map<Seq<char>, Seq<char>>,
)
    ensures
        agent_row(row, names) == agent_line(row.0, row.1@, names),
{
    let r = row.0;
    law_agents_are_called_by_name(names, r.agent_pubkey@);
    lemma_seven_cells(
        called(names, r.agent_pubkey@),
        grouped(r.turns as nat),
        grouped(r.input_tokens as nat),
        grouped(r.output_tokens as nat),
        grouped(r.cache_read_tokens as nat),
        grouped(r.cache_write_tokens as nat),
        "$"@ + row.1@,
    );
}

/// The totals' row, written out.
proof fn lemma_totals_line(rows: Seq<(AgentRollup, String)>, total_cost: Seq<char>)
    ensures
        cells_text(total_cells(row_views(rows), total_cost)) == totals_line(rows, total_cost),
{
    lemma_totals(rows);
    lemma_seven_cells(
        "**Total**"@,
        bold_number(sum_of(rows, |r: AgentRollup| r.turns)),
        bold_number(sum_of(rows, |r: AgentRollup| r.input_tokens)),
        bold_number(sum_of(rows, |r: AgentRollup| r.output_tokens)),
        bold_number(sum_of(rows, |r: AgentRollup| r.cache_read_tokens)),
        bold_number(sum_of(rows, |r: AgentRollup| r.cache_write_tokens)),
        "**"@ + ("$"@ + total_cost) + "**"@,
    );
}

/// The lines of the agents, each with its break.
pub open spec fn lines_for(
    rows: Seq<(AgentRollup, String)>,
    names: Map<Seq<char>, Seq<char>>,
) -> Seq<Seq<char>> {
    Seq::new(rows.len(), |i: int| agent_line(rows[i].0, rows[i].1@, names) + "\n"@)
}

/// The agents' rows are their lines behind one another.
proof fn lemma_lines_for(rows: Seq<(AgentRollup, String)>, names: Map<Seq<char>, Seq<char>>)
    ensures
        agent_lines(rows, names) == lines_for(rows, names).flatten(),
    decreases rows.len(),
{
    let lines = lines_for(rows, names);
    if rows.len() > 0 {
        let rest = rows.drop_last();
        lemma_lines_for(rest, names);
        lemma_agent_line(rows.last(), names);
        assert(lines.drop_last() =~= lines_for(rest, names));
        assert(lines.last() == agent_line(rows.last().0, rows.last().1@, names) + "\n"@);
        lines.lemma_flatten_and_flatten_alt_are_equivalent();
        lines.drop_last().lemma_flatten_and_flatten_alt_are_equivalent();
    } else {
        assert(agent_lines(rows, names) =~= lines.flatten());
    }
}

/// The usage text is its title, the names of the columns, the line below them, the
/// line of each agent in the order of the rollups, the line of the totals, and the
/// notes. Without rollups an explanation stands in place of the table.
pub proof fn law_usage_text_spelled_out(
    rows: Seq<(AgentRollup, String)>,
    names: Map<Seq<char>, Seq<char>>,
    generated_at: Seq<char>,
    total_cost: Seq<char>,
)
    ensures
        rows.len() == 0 ==> usage_text(rows, names, generated_at, total_cost) == (
        "**Agent usage — cumulative, as of "@ + generated_at + "**\n\n"@)
            + "No agent turn metrics found. Either no turns have been recorded yet, or turn-usage capture is not live on the fleet.\n"@,
        rows.len() > 0 ==> usage_text(rows, names, generated_at, total_cost) == (
        "**Agent usage — cumulative, as of "@ + generated_at + "**\n\n"@) + (
        "| Agent | Turns | Input | Output | Cache read | Cache write | Cost (USD) |\n"@
            + "|---|--:|--:|--:|--:|--:|--:|\n"@ + lines_for(rows, names).flatten() + (totals_line(
            rows,
            total_cost,
        ) + "\n"@)) + notes(rows),
{
    if rows.len() > 0 {
        lemma_lines_for(rows, names);
        lemma_totals_line(rows, total_cost);
        lemma_totals(rows);
        let views = row_views(rows);
        let above = title(generated_at) + (header_line() + separator_line() + agent_lines(
            rows,
            names,
        ) + row_line(total_cells(views, total_cost)));
        let note = sessions_note(total(views, Figure::Sessions));
        let warning = unread_warning(total(views, Figure::Undecryptable));
        lemma_concat_groups(above, note, warning);
        if total(views, Figure::Undecryptable) == 0 {
            assert(note + warning =~= note);
        }
        assert(notes(rows) == note + warning);
    }
}

/// Line by line, the usage text is its title, an empty line, the names of the
/// columns, the line below them, and for each agent, in the order of the rollups,
/// a line with that agent's own figures under those names; then comes a line with
/// the sums over all agents. Pubkeys, the time and the costs are written on one
/// line each.
pub proof fn law_lines_show_the_figures(
    rows: Seq<(AgentRollup, String)>,
    names: Map<Seq<char>, Seq<char>>,
    generated_at: Seq<char>,
    total_cost: Seq<char>,
)
    requires
        rows.len() > 0,
        parts_on_one_line(rows, generated_at, total_cost),
    ensures
        ({
            let lines = lines_of(usage_text(rows, names, generated_at, total_cost));
            &&& lines.len() > 4 + rows.len()
            &&& lines[0] == "**Agent usage — cumulative, as of "@ + generated_at + "**"@
            &&& lines[1].len() == 0
            &&& lines[2]
                == "| Agent | Turns | Input | Output | Cache read | Cache write | Cost (USD) |"@
            &&& lines[3] == "|---|--:|--:|--:|--:|--:|--:|"@
            &&& forall|i: int|
                #![trigger rows[i]]
                0 <= i < rows.len() ==> lines[4 + i] == "| "@ + called(
                    names,
                    rows[i].0.agent_pubkey@,
                ) + " | "@ + grouped(rows[i].0.turns as nat) + " | "@ + grouped(
                    rows[i].0.input_tokens as nat,
                ) + " | "@ + grouped(rows[i].0.output_tokens as nat) + " | "@ + grouped(
                    rows[i].0.cache_read_tokens as nat,
                ) + " | "@ + grouped(rows[i].0.cache_write_tokens as nat) + " | "@ + ("$"@
                    + rows[i].1@) + " |"@
            &&& lines[rows.len() as int + 4] == totals_line(rows, total_cost)
        }),
{
    let lines = lines_of(usage_text(rows, names, generated_at, total_cost));
    lemma_usage_lines(rows, names, generated_at, total_cost);
    assert(lines == usage_lines(rows, names, generated_at, total_cost));
    assert(lines[0] == title_line(generated_at));
    assert(lines[2] =~= "| Agent | Turns | Input | Output | Cache read | Cache write | Cost (USD) |"@)
        by {
        reveal_strlit(
            "| Agent | Turns | Input | Output | Cache read | Cache write | Cost (USD) |\n",
        );
        reveal_strlit("| Agent | Turns | Input | Output | Cache read | Cache write | Cost (USD) |");
        assert(lines[2] == header_line().drop_last());
    }
    assert(lines[3] =~= "|---|--:|--:|--:|--:|--:|--:|"@) by {
        reveal_strlit("|---|--:|--:|--:|--:|--:|--:|\n");
        reveal_strlit("|---|--:|--:|--:|--:|--:|--:|");
        assert(lines[3] == separator_line().drop_last());
    }
    assert forall|i: int| #![trigger rows[i]] 0 <= i < rows.len() implies lines[4 + i]
        == agent_line(rows[i].0, rows[i].1@, names) by {
        assert(lines[4 + i] == agent_rows(rows, names)[i]);
        lemma_agent_line(rows[i], names);
    }
    lemma_totals_line(rows, total_cost);
    assert(lines[rows.len() as int + 4] == cells_text(total_cells(row_views(rows), total_cost)));
}

} // verus!
