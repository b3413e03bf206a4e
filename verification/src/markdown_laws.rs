//! What holds of the usage table, whatever names agents give themselves.

use crate::display::{
    cell_name, grouped, law_cell_name_safe, lemma_grouped_chars,
    pipes_escaped, white_space,
};
use crate::markdown::{
    agent_cells, agent_lines, bold, cells_text, header_line, nothing_found, row_line, row_views,
    separator_line, sessions_note, shown_name, table, title, total, total_cells, unread_warning,
    usage_text, Figure,
};
use crate::rollup::{AgentRollup, RollupView};
use vstd::prelude::*;

verus! {

/// Whether the text has no line break.
pub open spec fn one_line(s: Seq<char>) -> bool {
    !s.contains('\n')
}

/// How many lines of the text start with a pipe.
pub open spec fn pipe_lines(s: Seq<char>) -> nat
    decreases s.len(),
{
    if s.len() == 0 {
        0
    } else {
        pipe_lines(s.drop_last()) + if s.last() == '|' && (s.len() == 1 || s[s.len() - 2] == '\n') {
            1nat
        } else {
            0nat
        }
    }
}

/// Lines that follow full lines.
proof fn lemma_pipe_lines_concat(a: Seq<char>, b: Seq<char>)
    requires
        a.len() == 0 || a.last() == '\n',
    ensures
        pipe_lines(a + b) == pipe_lines(a) + pipe_lines(b),
    decreases b.len(),
{
    if b.len() == 0 {
        assert(a + b =~= a);
    } else {
        lemma_pipe_lines_concat(a, b.drop_last());
        assert((a + b).drop_last() =~= a + b.drop_last());
        if b.len() > 1 {
            assert((a + b)[(a + b).len() - 2] == b[b.len() - 2]);
        } else if a.len() > 0 {
            assert((a + b)[(a + b).len() - 2] == a.last());
        }
    }
}

/// A single line starts with a pipe or does not.
proof fn lemma_pipe_lines_one_line(s: Seq<char>)
    requires
        s.len() > 0,
        one_line(s),
    ensures
        pipe_lines(s) == if s[0] == '|' {
            1nat
        } else {
            0nat
        },
    decreases s.len(),
{
    if s.len() == 1 {
        assert(s.drop_last() =~= Seq::empty());
        assert(pipe_lines(s.drop_last()) == 0);
    } else {
        let rest = s.drop_last();
        assert forall|i: int| 0 <= i < rest.len() implies rest[i] != '\n' by {
            assert(s.contains(s[i]));
        }
        lemma_pipe_lines_one_line(rest);
        assert(s.contains(s[s.len() - 2]));
    }
}

/// The break that ends a line does not start with a pipe.
proof fn lemma_pipe_lines_ended(s: Seq<char>, end: Seq<char>)
    requires
        s.len() > 0,
        one_line(s),
        end == "\n"@,
    ensures
        pipe_lines(s + end) == if s[0] == '|' {
            1nat
        } else {
            0nat
        },
{
    reveal_strlit("\n");
    lemma_pipe_lines_one_line(s);
    assert((s + end).drop_last() =~= s);
}

/// Text without pipes has no line that starts with one.
proof fn lemma_pipe_lines_none(s: Seq<char>)
    requires
        forall|i: int| 0 <= i < s.len() ==> #[trigger] s[i] != '|',
    ensures
        pipe_lines(s) == 0,
    decreases s.len(),
{
    if s.len() > 0 {
        let rest = s.drop_last();
        assert forall|i: int| 0 <= i < rest.len() implies #[trigger] rest[i] != '|' by {
            assert(rest[i] == s[i]);
        }
        lemma_pipe_lines_none(rest);
        assert(s[s.len() - 1] != '|');
    }
}

/// One line behind another, without a break, is one line.
proof fn lemma_one_line_concat(a: Seq<char>, b: Seq<char>)
    requires
        one_line(a),
        one_line(b),
    ensures
        one_line(a + b),
{
    assert forall|i: int| 0 <= i < (a + b).len() implies (a + b)[i] != '\n' by {
        if i < a.len() {
            assert(a.contains(a[i]));
        } else {
            assert(b.contains(b[i - a.len()]));
        }
    }
}

/// A grouped number is one line.
proof fn lemma_grouped_one_line(n: nat)
    ensures
        one_line(grouped(n)),
{
    lemma_grouped_chars(n);
}

/// A name in the table is one line.
proof fn lemma_shown_name_one_line(names: Map<Seq<char>, Seq<char>>, agent: Seq<char>)
    requires
        one_line(agent),
    ensures
        one_line(shown_name(names, agent)),
{
    let name = shown_name(names, agent);
    if names.contains_key(agent) && cell_name(names[agent]).len() > 0 {
        law_cell_name_safe(names[agent]);
        assert forall|i: int| 0 <= i < name.len() implies name[i] != '\n' by {
            assert(white_space('\n'));
        }
    } else {
        assert forall|i: int| 0 <= i < name.len() implies name[i] != '\n' by {
            assert(agent.contains(agent[i]));
        }
    }
}

/// A row's cells are one line that starts with a pipe.
proof fn lemma_cells_one_line(cells: Seq<Seq<char>>)
    requires
        forall|i: int| 0 <= i < cells.len() ==> one_line(#[trigger] cells[i]),
    ensures
        one_line(cells_text(cells)),
        cells_text(cells).len() > 0,
        cells_text(cells)[0] == '|',
    decreases cells.len(),
{
    reveal_strlit("|");
    reveal_strlit(" ");
    reveal_strlit(" |");
    if cells.len() > 0 {
        let rest = cells.drop_last();
        assert forall|i: int| 0 <= i < rest.len() implies one_line(#[trigger] rest[i]) by {
            assert(rest[i] == cells[i]);
        }
        lemma_cells_one_line(rest);
        assert(one_line(cells[cells.len() - 1]));
        let head = cells_text(rest);
        lemma_one_line_concat(head, " "@);
        lemma_one_line_concat(head + " "@, cells.last());
        lemma_one_line_concat(head + " "@ + cells.last(), " |"@);
        assert(cells_text(cells)[0] == head[0]);
    }
}

/// A table row is one line that starts with a pipe.
proof fn lemma_row_line(cells: Seq<Seq<char>>)
    requires
        forall|i: int| 0 <= i < cells.len() ==> one_line(#[trigger] cells[i]),
    ensures
        pipe_lines(row_line(cells)) == 1,
        row_line(cells).len() > 0,
        row_line(cells).last() == '\n',
{
    reveal_strlit("\n");
    lemma_cells_one_line(cells);
    lemma_pipe_lines_ended(cells_text(cells), "\n"@);
}

/// The cells of an agent's row are one line each.
proof fn lemma_agent_cells(row: RollupView, name: Seq<char>, cost: Seq<char>)
    requires
        one_line(name),
        one_line(cost),
    ensures
        forall|i: int|
            0 <= i < agent_cells(row, name, cost).len() ==> one_line(
                #[trigger] agent_cells(row, name, cost)[i],
            ),
{
    reveal_strlit("$");
    lemma_grouped_one_line(row.turns as nat);
    lemma_grouped_one_line(row.input_tokens as nat);
    lemma_grouped_one_line(row.output_tokens as nat);
    lemma_grouped_one_line(row.cache_read_tokens as nat);
    lemma_grouped_one_line(row.cache_write_tokens as nat);
    lemma_one_line_concat("$"@, cost);
}

/// Bold text is one line where the text is.
proof fn lemma_bold_one_line(text: Seq<char>)
    requires
        one_line(text),
    ensures
        one_line(bold(text)),
{
    reveal_strlit("**");
    lemma_one_line_concat("**"@, text);
    lemma_one_line_concat("**"@ + text, "**"@);
}

/// The cells of the totals are one line each.
proof fn lemma_total_cells(rows: Seq<RollupView>, cost: Seq<char>)
    requires
        one_line(cost),
    ensures
        forall|i: int|
            0 <= i < total_cells(rows, cost).len() ==> one_line(
                #[trigger] total_cells(rows, cost)[i],
            ),
{
    reveal_strlit("$");
    reveal_strlit("**Total**");
    lemma_grouped_one_line(total(rows, Figure::Turns));
    lemma_grouped_one_line(total(rows, Figure::Input));
    lemma_grouped_one_line(total(rows, Figure::Output));
    lemma_grouped_one_line(total(rows, Figure::CacheRead));
    lemma_grouped_one_line(total(rows, Figure::CacheWrite));
    lemma_one_line_concat("$"@, cost);
    lemma_bold_one_line(grouped(total(rows, Figure::Turns)));
    lemma_bold_one_line(grouped(total(rows, Figure::Input)));
    lemma_bold_one_line(grouped(total(rows, Figure::Output)));
    lemma_bold_one_line(grouped(total(rows, Figure::CacheRead)));
    lemma_bold_one_line(grouped(total(rows, Figure::CacheWrite)));
    lemma_bold_one_line("$"@ + cost);
}

/// Each agent has one line.
proof fn lemma_agent_lines(rows: Seq<(AgentRollup, String)>, names: Map<Seq<char>, Seq<char>>)
    requires
        forall|i: int|
            0 <= i < rows.len() ==> one_line((#[trigger] rows[i]).0@.agent) && one_line(rows[i].1@),
    ensures
        pipe_lines(agent_lines(rows, names)) == rows.len(),
        rows.len() > 0 ==> agent_lines(rows, names).len() > 0 && agent_lines(rows, names).last()
            == '\n',
    decreases rows.len(),
{
    if rows.len() > 0 {
        let rest = rows.drop_last();
        assert forall|i: int| 0 <= i < rest.len() implies one_line((#[trigger] rest[i]).0@.agent)
            && one_line(rest[i].1@) by {
            assert(rest[i] == rows[i]);
        }
        lemma_agent_lines(rest, names);
        let last = rows[rows.len() - 1];
        let row = last.0@;
        lemma_shown_name_one_line(names, row.agent);
        lemma_agent_cells(row, shown_name(names, row.agent), last.1@);
        let line = row_line(agent_cells(row, shown_name(names, row.agent), last.1@));
        lemma_row_line(agent_cells(row, shown_name(names, row.agent), last.1@));
        if rest.len() == 0 {
            assert(agent_lines(rest, names) =~= Seq::empty());
        }
        lemma_pipe_lines_concat(agent_lines(rest, names), line);
    }
}

/// The table has one line for each agent and three more: the names of the
/// columns, the line below them, and the totals.
proof fn lemma_table(
    rows: Seq<(AgentRollup, String)>,
    names: Map<Seq<char>, Seq<char>>,
    total_cost: Seq<char>,
)
    requires
        rows.len() > 0,
        one_line(total_cost),
        forall|i: int|
            0 <= i < rows.len() ==> one_line((#[trigger] rows[i]).0@.agent) && one_line(rows[i].1@),
    ensures
        pipe_lines(table(rows, names, total_cost)) == rows.len() + 3,
        table(rows, names, total_cost).len() > 0,
        table(rows, names, total_cost).last() == '\n',
{
    reveal_strlit("\n");
    reveal_strlit("| Agent | Turns | Input | Output | Cache read | Cache write | Cost (USD) |\n");
    reveal_strlit("|---|--:|--:|--:|--:|--:|--:|\n");
    let h = header_line();
    let s = separator_line();
    assert(h =~= h.drop_last() + "\n"@);
    assert(one_line(h.drop_last()));
    lemma_pipe_lines_ended(h.drop_last(), "\n"@);
    assert(s =~= s.drop_last() + "\n"@);
    assert(one_line(s.drop_last()));
    lemma_pipe_lines_ended(s.drop_last(), "\n"@);
    lemma_agent_lines(rows, names);
    let agents = agent_lines(rows, names);
    let cells = total_cells(row_views(rows), total_cost);
    lemma_total_cells(row_views(rows), total_cost);
    lemma_row_line(cells);
    lemma_pipe_lines_concat(h, s);
    lemma_pipe_lines_concat(h + s, agents);
    lemma_pipe_lines_concat(h + s + agents, row_line(cells));
}

/// The title has no line that starts with a pipe.
proof fn lemma_title(generated_at: Seq<char>)
    requires
        one_line(generated_at),
    ensures
        pipe_lines(title(generated_at)) == 0,
        title(generated_at).len() > 0,
        title(generated_at).last() == '\n',
{
    reveal_strlit("\n");
    reveal_strlit("**Agent usage — cumulative, as of ");
    reveal_strlit("**\n\n");
    let before = "**Agent usage — cumulative, as of "@;
    let stars = seq!['*', '*'];
    assert(one_line(before));
    assert(one_line(stars));
    lemma_one_line_concat(before, generated_at);
    lemma_one_line_concat(before + generated_at, stars);
    let line = before + generated_at + stars;
    assert(line[0] == '*');
    lemma_pipe_lines_ended(line, "\n"@);
    lemma_pipe_lines_none("\n"@);
    lemma_pipe_lines_concat(line + "\n"@, "\n"@);
    assert(title(generated_at) =~= line + "\n"@ + "\n"@);
}

/// The note has no pipes.
proof fn lemma_sessions_note(sessions: nat)
    ensures
        pipe_lines(sessions_note(sessions)) == 0,
        sessions_note(sessions).len() > 0,
        sessions_note(sessions).last() == '\n',
{
    reveal_strlit(
        "\nInput is cache-inclusive: cache-read and cache-write tokens are subsets of it, broken out because they bill at different rates. ",
    );
    reveal_strlit(" sessions.\n");
    lemma_grouped_chars(sessions);
    lemma_pipe_lines_none(sessions_note(sessions));
}

/// The warning has no pipes.
proof fn lemma_unread_warning(turns: nat)
    ensures
        pipe_lines(unread_warning(turns)) == 0,
{
    reveal_strlit("\n⚠\u{fe0f} ");
    reveal_strlit(
        " turn(s) could not be decrypted and are excluded from the totals above — the figures are a floor, not a complete count.\n",
    );
    lemma_grouped_chars(turns);
    lemma_pipe_lines_none(unread_warning(turns));
}

/// Whatever the agents call themselves, the table keeps its shape: one line
/// starting with a pipe for each agent, and three more. Pubkeys, the time and
/// the costs are written on one line each.
pub proof fn law_names_cannot_break_the_table(
    rows: Seq<(AgentRollup, String)>,
    names: Map<Seq<char>, Seq<char>>,
    generated_at: Seq<char>,
    total_cost: Seq<char>,
)
    requires
        rows.len() > 0,
        one_line(generated_at),
        one_line(total_cost),
        forall|i: int|
            0 <= i < rows.len() ==> one_line((#[trigger] rows[i]).0@.agent) && one_line(rows[i].1@),
    ensures
        pipe_lines(usage_text(rows, names, generated_at, total_cost)) == rows.len() + 3,
{
    let top = title(generated_at);
    let t = table(rows, names, total_cost);
    let note = sessions_note(total(row_views(rows), Figure::Sessions));
    let warning = unread_warning(total(row_views(rows), Figure::Undecryptable));
    lemma_title(generated_at);
    lemma_table(rows, names, total_cost);
    lemma_sessions_note(total(row_views(rows), Figure::Sessions));
    lemma_unread_warning(total(row_views(rows), Figure::Undecryptable));
    lemma_pipe_lines_concat(top, t);
    lemma_pipe_lines_concat(top + t, note);
    lemma_pipe_lines_concat(top + t + note, warning);
}

/// Without rollups there is an explanation and no table.
pub proof fn law_nothing_found_has_no_table(
    names: Map<Seq<char>, Seq<char>>,
    generated_at: Seq<char>,
    total_cost: Seq<char>,
)
    requires
        one_line(generated_at),
    ensures
        pipe_lines(usage_text(Seq::empty(), names, generated_at, total_cost)) == 0,
{
    reveal_strlit(
        "No agent turn metrics found. Either no turns have been recorded yet, or turn-usage capture is not live on the fleet.\n",
    );
    lemma_title(generated_at);
    lemma_pipe_lines_none(nothing_found());
    lemma_pipe_lines_concat(title(generated_at), nothing_found());
}

/// How many pipes of the text have no backslash before them.
pub open spec fn bare_pipes(s: Seq<char>) -> nat
    decreases s.len(),
{
    if s.len() == 0 {
        0
    } else {
        bare_pipes(s.drop_last()) + if s.last() == '|' && (s.len() == 1 || s[s.len() - 2] != '\\') {
            1nat
        } else {
            0nat
        }
    }
}

/// Text that follows other text, with no backslash taking effect on it.
proof fn lemma_bare_pipes_concat(a: Seq<char>, b: Seq<char>)
    requires
        b.len() > 0 ==> b[0] != '|' || a.len() == 0 || a.last() != '\\',
    ensures
        bare_pipes(a + b) == bare_pipes(a) + bare_pipes(b),
    decreases b.len(),
{
    if b.len() == 0 {
        assert(a + b =~= a);
    } else {
        let rest = b.drop_last();
        if rest.len() > 0 {
            assert(rest[0] == b[0]);
        }
        lemma_bare_pipes_concat(a, rest);
        assert((a + b).drop_last() =~= a + rest);
        if b.len() > 1 {
            assert((a + b)[(a + b).len() - 2] == b[b.len() - 2]);
        } else if a.len() > 0 {
            assert((a + b)[(a + b).len() - 2] == a.last());
        }
    }
}

/// Text whose pipes are all escaped has no bare ones.
proof fn lemma_bare_pipes_escaped(s: Seq<char>)
    requires
        pipes_escaped(s),
    ensures
        bare_pipes(s) == 0,
    decreases s.len(),
{
    if s.len() > 0 {
        let rest = s.drop_last();
        assert forall|i: int| 0 <= i < rest.len() && #[trigger] rest[i] == '|' implies i > 0
            && rest[i - 1] == '\\' by {
            assert(rest[i] == s[i]);
            assert(rest[i - 1] == s[i - 1]);
        }
        lemma_bare_pipes_escaped(rest);
        if s.last() == '|' {
            assert(s[s.len() - 1] == '|');
        }
    }
}

/// A row has one pipe more than cells, where the cells have none of their own.
proof fn lemma_bare_pipes_cells(cells: Seq<Seq<char>>)
    requires
        forall|i: int| 0 <= i < cells.len() ==> pipes_escaped(#[trigger] cells[i]),
    ensures
        bare_pipes(cells_text(cells)) == cells.len() + 1,
        cells_text(cells).len() > 0,
        cells_text(cells).last() == '|',
    decreases cells.len(),
{
    reveal_strlit("|");
    reveal_strlit(" ");
    reveal_strlit(" |");
    reveal_with_fuel(bare_pipes, 3);
    if cells.len() == 0 {
        assert("|"@.drop_last() =~= Seq::empty());
    } else {
        let rest = cells.drop_last();
        assert forall|i: int| 0 <= i < rest.len() implies pipes_escaped(#[trigger] rest[i]) by {
            assert(rest[i] == cells[i]);
        }
        lemma_bare_pipes_cells(rest);
        let head = cells_text(rest);
        let cell = cells[cells.len() - 1];
        assert(pipes_escaped(cell));
        lemma_bare_pipes_escaped(cell);
        assert(" "@.drop_last() =~= Seq::empty());
        assert(" |"@.drop_last() =~= " "@);
        assert(bare_pipes(" "@) == 0);
        assert(bare_pipes(" |"@) == 1);
        lemma_bare_pipes_concat(head, " "@);
        lemma_bare_pipes_concat(head + " "@, cell);
        lemma_bare_pipes_concat(head + " "@ + cell, " |"@);
    }
}

/// Whatever an agent calls itself, its row has seven cells: a name can neither
/// end its cell nor open another one. The pubkey and the cost are written
/// without pipes.
pub proof fn law_names_cannot_add_cells(
    row: RollupView,
    names: Map<Seq<char>, Seq<char>>,
    cost: Seq<char>,
)
    requires
        !row.agent.contains('|'),
        !cost.contains('|'),
    ensures
        bare_pipes(row_line(agent_cells(row, shown_name(names, row.agent), cost))) == 8,
{
    let cells = agent_cells(row, shown_name(names, row.agent), cost);
    reveal_strlit("\n");
    lemma_agent_row_pipes(row, names, cost);
    lemma_bare_pipes_escaped("\n"@);
    lemma_bare_pipes_concat(cells_text(cells), "\n"@);
}

/// An agent's row has eight pipes of its own.
proof fn lemma_agent_row_pipes(
    row: RollupView,
    names: Map<Seq<char>, Seq<char>>,
    cost: Seq<char>,
)
    requires
        !row.agent.contains('|'),
        !cost.contains('|'),
    ensures
        bare_pipes(cells_text(agent_cells(row, shown_name(names, row.agent), cost))) == 8,
{
    let name = shown_name(names, row.agent);
    let cells = agent_cells(row, name, cost);
    if names.contains_key(row.agent) && cell_name(names[row.agent]).len() > 0 {
        law_cell_name_safe(names[row.agent]);
    } else {
        assert forall|i: int| 0 <= i < name.len() && #[trigger] name[i] == '|' implies i > 0
            && name[i - 1] == '\\' by {
            assert(row.agent.contains(row.agent[i]));
        }
    }
    reveal_strlit("$");
    lemma_grouped_chars(row.turns as nat);
    lemma_grouped_chars(row.input_tokens as nat);
    lemma_grouped_chars(row.output_tokens as nat);
    lemma_grouped_chars(row.cache_read_tokens as nat);
    lemma_grouped_chars(row.cache_write_tokens as nat);
    let dollars = "$"@ + cost;
    assert forall|i: int| 0 <= i < dollars.len() && #[trigger] dollars[i] == '|' implies i > 0
        && dollars[i - 1] == '\\' by {
        assert(cost.contains(cost[i - 1]));
    }
    lemma_bare_pipes_cells(cells);
}

/// The lines of a text: what stands between its line breaks, before the first
/// and behind the last.
pub open spec fn lines_of(s: Seq<char>) -> Seq<Seq<char>>
    decreases s.len(),
{
    if s.len() == 0 {
        seq![Seq::empty()]
    } else {
        let rest = lines_of(s.drop_last());
        if s.last() == '\n' {
            rest.push(Seq::empty())
        } else {
            rest.drop_last().push(rest.last().push(s.last()))
        }
    }
}

/// There is at least one line.
proof fn lemma_lines_not_empty(s: Seq<char>)
    ensures
        lines_of(s).len() > 0,
    decreases s.len(),
{
    if s.len() > 0 {
        lemma_lines_not_empty(s.drop_last());
    }
}

/// Text without breaks is one line.
proof fn lemma_lines_one(s: Seq<char>)
    requires
        one_line(s),
    ensures
        lines_of(s) == seq![s],
    decreases s.len(),
{
    if s.len() == 0 {
        assert(s =~= Seq::empty());
    } else {
        let rest = s.drop_last();
        assert forall|i: int| 0 <= i < rest.len() implies rest[i] != '\n' by {
            assert(s.contains(s[i]));
        }
        lemma_lines_one(rest);
        assert(s.contains(s[s.len() - 1]));
        assert(lines_of(s) =~= seq![s]) by {
            assert(rest.push(s.last()) =~= s);
        }
    }
}

/// The last line of a text goes on with the first line of what follows.
proof fn lemma_lines_concat(a: Seq<char>, b: Seq<char>)
    requires
        lines_of(a).last().len() == 0,
    ensures
        lines_of(a + b) == lines_of(a).drop_last() + lines_of(b),
    decreases b.len(),
{
    lemma_lines_not_empty(a);
    if b.len() == 0 {
        assert(a + b =~= a);
        assert(lines_of(a).last() =~= Seq::empty());
        assert(lines_of(a) =~= lines_of(a).drop_last() + lines_of(b));
    } else {
        let rest = b.drop_last();
        lemma_lines_concat(a, rest);
        lemma_lines_not_empty(rest);
        assert((a + b).drop_last() =~= a + rest);
        assert(lines_of(a + b) =~= lines_of(a).drop_last() + lines_of(b));
    }
}

/// A full line is that line and an empty one behind its break.
proof fn lemma_lines_ended(s: Seq<char>)
    requires
        one_line(s),
    ensures
        lines_of(s + "\n"@) == seq![s, Seq::empty()],
{
    reveal_strlit("\n");
    lemma_lines_one(s);
    assert((s + "\n"@).drop_last() =~= s);
    assert(lines_of(s + "\n"@) =~= seq![s, Seq::empty()]);
}

/// A full line before other text is the first of the lines.
proof fn lemma_lines_first(s: Seq<char>, rest: Seq<char>)
    requires
        one_line(s),
    ensures
        lines_of(s + "\n"@ + rest) == seq![s] + lines_of(rest),
{
    lemma_lines_ended(s);
    lemma_lines_concat(s + "\n"@, rest);
    assert(seq![s, Seq::<char>::empty()].drop_last() =~= seq![s]);
}

/// The row of an agent without its break.
pub open spec fn agent_row(
    row: (AgentRollup, String),
    names: Map<Seq<char>, Seq<char>>,
) -> Seq<char> {
    cells_text(agent_cells(row.0@, shown_name(names, row.0@.agent), row.1@))
}

/// The rows of the agents without their breaks.
pub open spec fn agent_rows(
    rows: Seq<(AgentRollup, String)>,
    names: Map<Seq<char>, Seq<char>>,
) -> Seq<Seq<char>> {
    Seq::new(rows.len(), |i: int| agent_row(rows[i], names))
}

/// Whether the parts of the table that are not names are one line each.
pub open spec fn parts_on_one_line(
    rows: Seq<(AgentRollup, String)>,
    generated_at: Seq<char>,
    total_cost: Seq<char>,
) -> bool {
    &&& one_line(generated_at)
    &&& one_line(total_cost)
    &&& forall|i: int|
        0 <= i < rows.len() ==> one_line((#[trigger] rows[i]).0@.agent) && one_line(rows[i].1@)
}

/// The lines of the agents' rows before other text.
proof fn lemma_agent_lines_of(
    rows: Seq<(AgentRollup, String)>,
    names: Map<Seq<char>, Seq<char>>,
    rest: Seq<char>,
)
    requires
        forall|i: int|
            0 <= i < rows.len() ==> one_line((#[trigger] rows[i]).0@.agent) && one_line(rows[i].1@),
    ensures
        lines_of(agent_lines(rows, names) + rest) == agent_rows(rows, names) + lines_of(rest),
    decreases rows.len(),
{
    if rows.len() == 0 {
        assert(agent_lines(rows, names) + rest =~= rest);
        assert(agent_rows(rows, names) + lines_of(rest) =~= lines_of(rest));
    } else {
        let init = rows.drop_last();
        assert forall|i: int| 0 <= i < init.len() implies one_line((#[trigger] init[i]).0@.agent)
            && one_line(init[i].1@) by {
            assert(init[i] == rows[i]);
        }
        let last = rows[rows.len() - 1];
        let cells = agent_cells(last.0@, shown_name(names, last.0@.agent), last.1@);
        lemma_shown_name_one_line(names, last.0@.agent);
        lemma_agent_cells(last.0@, shown_name(names, last.0@.agent), last.1@);
        lemma_cells_one_line(cells);
        lemma_lines_first(cells_text(cells), rest);
        lemma_agent_lines_of(init, names, row_line(cells) + rest);
        assert(agent_lines(rows, names) + rest =~= agent_lines(init, names) + (row_line(cells)
            + rest));
        assert(agent_rows(rows, names) =~= agent_rows(init, names).push(cells_text(cells)));
        assert(agent_rows(init, names) + (seq![cells_text(cells)] + lines_of(rest))
            =~= agent_rows(rows, names) + lines_of(rest));
    }
}

/// The line of the title.
pub open spec fn title_line(generated_at: Seq<char>) -> Seq<char> {
    "**Agent usage — cumulative, as of "@ + generated_at + "**"@
}

/// What follows the table.
pub open spec fn below_the_table(rows: Seq<RollupView>) -> Seq<char> {
    sessions_note(total(rows, Figure::Sessions)) + unread_warning(
        total(rows, Figure::Undecryptable),
    )
}

/// The lines of the usage text: the title, an empty line, the names of the
/// columns, the line below them, one row for each agent, the totals, and what
/// follows the table.
pub open spec fn usage_lines(
    rows: Seq<(AgentRollup, String)>,
    names: Map<Seq<char>, Seq<char>>,
    generated_at: Seq<char>,
    total_cost: Seq<char>,
) -> Seq<Seq<char>> {
    seq![
        title_line(generated_at),
        Seq::empty(),
        header_line().drop_last(),
        separator_line().drop_last(),
    ] + agent_rows(rows, names) + seq![cells_text(total_cells(row_views(rows), total_cost))]
        + lines_of(below_the_table(row_views(rows)))
}

/// Texts behind one another, grouped in one way or another.
pub proof fn lemma_concat_groups(a: Seq<char>, b: Seq<char>, c: Seq<char>)
    ensures
        a + b + c == a + (b + c),
{
    assert(a + b + c =~= a + (b + c));
}

/// The title and the two lines above the agents' rows, line by line.
proof fn lemma_lines_above(generated_at: Seq<char>)
    requires
        one_line(generated_at),
    ensures
        title(generated_at) == title_line(generated_at) + "\n"@ + "\n"@,
        one_line(title_line(generated_at)),
        header_line() == header_line().drop_last() + "\n"@,
        one_line(header_line().drop_last()),
        separator_line() == separator_line().drop_last() + "\n"@,
        one_line(separator_line().drop_last()),
{
    reveal_strlit("\n");
    reveal_strlit("**");
    reveal_strlit("**\n\n");
    reveal_strlit("**Agent usage — cumulative, as of ");
    reveal_strlit("| Agent | Turns | Input | Output | Cache read | Cache write | Cost (USD) |\n");
    reveal_strlit("|---|--:|--:|--:|--:|--:|--:|\n");
    let before = "**Agent usage — cumulative, as of "@;
    assert(one_line(before));
    assert(one_line("**"@));
    lemma_one_line_concat(before, generated_at);
    lemma_one_line_concat(before + generated_at, "**"@);
    assert("**\n\n"@ =~= "**"@ + "\n"@ + "\n"@);
    assert(title(generated_at) =~= title_line(generated_at) + "\n"@ + "\n"@);
    assert(header_line() =~= header_line().drop_last() + "\n"@);
    assert(one_line(header_line().drop_last()));
    assert(separator_line() =~= separator_line().drop_last() + "\n"@);
    assert(one_line(separator_line().drop_last()));
}

/// The lines of the usage text are these, whatever the agents call themselves.
pub proof fn lemma_usage_lines(
    rows: Seq<(AgentRollup, String)>,
    names: Map<Seq<char>, Seq<char>>,
    generated_at: Seq<char>,
    total_cost: Seq<char>,
)
    requires
        rows.len() > 0,
        parts_on_one_line(rows, generated_at, total_cost),
    ensures
        lines_of(usage_text(rows, names, generated_at, total_cost)) == usage_lines(
            rows,
            names,
            generated_at,
            total_cost,
        ),
{
    let br = "\n"@;
    let line = title_line(generated_at);
    let h = header_line().drop_last();
    let s = separator_line().drop_last();
    let agents = agent_lines(rows, names);
    let cells = total_cells(row_views(rows), total_cost);
    let t = cells_text(cells);
    let note = sessions_note(total(row_views(rows), Figure::Sessions));
    let warning = unread_warning(total(row_views(rows), Figure::Undecryptable));
    let below = below_the_table(row_views(rows));
    let none = Seq::<char>::empty();
    lemma_lines_above(generated_at);
    lemma_total_cells(row_views(rows), total_cost);
    lemma_cells_one_line(cells);
    let r4 = t + br + below;
    let r3 = agents + r4;
    let r2 = s + br + r3;
    let r1 = h + br + r2;
    let r0 = none + br + r1;
    lemma_lines_first(t, below);
    lemma_agent_lines_of(rows, names, r4);
    lemma_lines_first(s, r3);
    lemma_lines_first(h, r2);
    lemma_lines_first(none, r1);
    lemma_lines_first(line, r0);
    let top = title(generated_at);
    let tab = table(rows, names, total_cost);
    let above = header_line() + separator_line();
    lemma_concat_groups(top + tab, note, warning);
    lemma_concat_groups(top, tab, below);
    lemma_concat_groups(above + agents, row_line(cells), below);
    lemma_concat_groups(above, agents, r4);
    lemma_concat_groups(header_line(), separator_line(), r3);
    lemma_concat_groups(line + br, br, r1);
    assert(none + br =~= br);
    let text = usage_text(rows, names, generated_at, total_cost);
    assert(text == line + br + r0);
    assert(lines_of(text) =~= usage_lines(rows, names, generated_at, total_cost));
}

/// The cells of a row behind the first one.
pub open spec fn later_cells_text(cells: Seq<Seq<char>>) -> Seq<char>
    decreases cells.len(),
{
    if cells.len() <= 1 {
        " |"@
    } else {
        later_cells_text(cells.drop_last()) + " "@ + cells.last() + " |"@
    }
}

/// A row is a pipe, the first cell, and the cells behind it.
proof fn lemma_first_cell(cells: Seq<Seq<char>>)
    requires
        cells.len() > 0,
    ensures
        cells_text(cells) == "| "@ + cells[0] + later_cells_text(cells),
    decreases cells.len(),
{
    reveal_strlit("| ");
    reveal_strlit("|");
    reveal_strlit(" ");
    let rest = cells.drop_last();
    if cells.len() == 1 {
        assert(rest =~= Seq::empty());
        assert("|"@ + " "@ =~= "| "@);
        assert(cells_text(rest) == "|"@);
    } else {
        lemma_first_cell(rest);
        let head = "| "@ + cells[0];
        let tail = later_cells_text(rest);
        assert(cells_text(cells) == head + tail + " "@ + cells.last() + " |"@);
        lemma_concat_groups(head, tail, " "@);
        lemma_concat_groups(head, tail + " "@, cells.last());
        lemma_concat_groups(head, tail + " "@ + cells.last(), " |"@);
    }
}

/// The cells behind the first one do not depend on it.
proof fn lemma_later_cells(a: Seq<Seq<char>>, b: Seq<Seq<char>>)
    requires
        a.len() == b.len(),
        forall|i: int| 1 <= i < a.len() ==> #[trigger] a[i] == b[i],
    ensures
        later_cells_text(a) == later_cells_text(b),
    decreases a.len(),
{
    if a.len() > 1 {
        let ra = a.drop_last();
        let rb = b.drop_last();
        assert forall|i: int| 1 <= i < ra.len() implies #[trigger] ra[i] == rb[i] by {
            assert(a[i] == b[i]);
        }
        lemma_later_cells(ra, rb);
        assert(a[a.len() - 1] == b[b.len() - 1]);
    }
}

/// An agent's row behind the name.
pub open spec fn behind_the_name(row: (AgentRollup, String)) -> Seq<char> {
    later_cells_text(agent_cells(row.0@, Seq::empty(), row.1@))
}

/// A row is a pipe, the name, and what stands behind it.
proof fn lemma_agent_row(row: (AgentRollup, String), names: Map<Seq<char>, Seq<char>>)
    ensures
        agent_row(row, names) == "| "@ + shown_name(names, row.0@.agent) + behind_the_name(row),
{
    let cells = agent_cells(row.0@, shown_name(names, row.0@.agent), row.1@);
    lemma_first_cell(cells);
    lemma_later_cells(cells, agent_cells(row.0@, Seq::empty(), row.1@));
}

/// What the agents call themselves changes nothing in the usage text but the
/// first cells of their rows: there are as many lines, an agent's row is the
/// same behind the name, and all other lines are the same. Pubkeys, the time
/// and the costs are written on one line each.
pub proof fn law_names_change_only_first_cells(
    rows: Seq<(AgentRollup, String)>,
    names_a: Map<Seq<char>, Seq<char>>,
    names_b: Map<Seq<char>, Seq<char>>,
    generated_at: Seq<char>,
    total_cost: Seq<char>,
)
    requires
        rows.len() > 0,
        parts_on_one_line(rows, generated_at, total_cost),
    ensures
        ({
            let a = lines_of(usage_text(rows, names_a, generated_at, total_cost));
            let b = lines_of(usage_text(rows, names_b, generated_at, total_cost));
            &&& a.len() == b.len()
            &&& a.len() > 4 + rows.len()
            &&& forall|j: int|
                0 <= j < a.len() && !(4 <= j < 4 + rows.len()) ==> #[trigger] a[j] == b[j]
            &&& forall|i: int|
                #![trigger rows[i]]
                0 <= i < rows.len() ==> {
                    &&& a[4 + i] == "| "@ + shown_name(names_a, rows[i].0@.agent)
                        + behind_the_name(rows[i])
                    &&& b[4 + i] == "| "@ + shown_name(names_b, rows[i].0@.agent)
                        + behind_the_name(rows[i])
                }
        }),
{
    lemma_usage_lines(rows, names_a, generated_at, total_cost);
    lemma_usage_lines(rows, names_b, generated_at, total_cost);
    let a = lines_of(usage_text(rows, names_a, generated_at, total_cost));
    let b = lines_of(usage_text(rows, names_b, generated_at, total_cost));
    assert forall|i: int| #![trigger rows[i]] 0 <= i < rows.len() implies {
        &&& a[4 + i] == "| "@ + shown_name(names_a, rows[i].0@.agent) + behind_the_name(rows[i])
        &&& b[4 + i] == "| "@ + shown_name(names_b, rows[i].0@.agent) + behind_the_name(rows[i])
    } by {
        lemma_agent_row(rows[i], names_a);
        lemma_agent_row(rows[i], names_b);
        assert(a[4 + i] == agent_rows(rows, names_a)[i]);
        assert(b[4 + i] == agent_rows(rows, names_b)[i]);
    }
}

/// The names of the columns stand in seven cells.
proof fn lemma_header_pipes()
    ensures
        bare_pipes(header_line().drop_last()) == 8,
{
    reveal_strlit("| Agent | Turns | Input | Output | Cache read | Cache write | Cost (USD) |\n");
    reveal_strlit("|");
    reveal_strlit(" ");
    reveal_strlit(" |");
    let parts = seq![
        seq!['A', 'g', 'e', 'n', 't'],
        seq!['T', 'u', 'r', 'n', 's'],
        seq!['I', 'n', 'p', 'u', 't'],
        seq!['O', 'u', 't', 'p', 'u', 't'],
        seq!['C', 'a', 'c', 'h', 'e', ' ', 'r', 'e', 'a', 'd'],
        seq!['C', 'a', 'c', 'h', 'e', ' ', 'w', 'r', 'i', 't', 'e'],
        seq!['C', 'o', 's', 't', ' ', '(', 'U', 'S', 'D', ')'],
    ];
    lemma_bare_pipes_cells(parts);
    reveal_with_fuel(cells_text, 8);
    assert(parts.drop_last() =~= parts.take(6));
    assert(parts.take(6).drop_last() =~= parts.take(5));
    assert(parts.take(5).drop_last() =~= parts.take(4));
    assert(parts.take(4).drop_last() =~= parts.take(3));
    assert(parts.take(3).drop_last() =~= parts.take(2));
    assert(parts.take(2).drop_last() =~= parts.take(1));
    assert(parts.take(1).drop_last() =~= parts.take(0));
    assert(parts.take(0) =~= Seq::empty());
    assert(header_line().drop_last() =~= cells_text(parts));
}

/// The line below the names of the columns has seven cells.
proof fn lemma_separator_pipes()
    ensures
        bare_pipes(separator_line().drop_last()) == 8,
{
    reveal_strlit("|---|--:|--:|--:|--:|--:|--:|\n");
    reveal_with_fuel(bare_pipes, 5);
    let p = seq!['|'];
    let l = seq!['-', '-', '-', '|'];
    let r = seq!['-', '-', ':', '|'];
    assert(p.drop_last() =~= Seq::empty());
    assert(bare_pipes(p) == 1);
    let l3 = seq!['-', '-', '-'];
    let l2 = seq!['-', '-'];
    let l1 = seq!['-'];
    let r3 = seq!['-', '-', ':'];
    assert(l1.drop_last() =~= Seq::empty());
    assert(l2.drop_last() =~= l1);
    assert(l3.drop_last() =~= l2);
    assert(l.drop_last() =~= l3);
    assert(r3.drop_last() =~= l2);
    assert(r.drop_last() =~= r3);
    assert(bare_pipes(l) == 1);
    assert(bare_pipes(r) == 1);
    let s1 = p + l;
    let s2 = s1 + r;
    let s3 = s2 + r;
    let s4 = s3 + r;
    let s5 = s4 + r;
    let s6 = s5 + r;
    let s7 = s6 + r;
    lemma_bare_pipes_concat(p, l);
    lemma_bare_pipes_concat(s1, r);
    lemma_bare_pipes_concat(s2, r);
    lemma_bare_pipes_concat(s3, r);
    lemma_bare_pipes_concat(s4, r);
    lemma_bare_pipes_concat(s5, r);
    lemma_bare_pipes_concat(s6, r);
    assert(separator_line().drop_last() =~= s7);
}

/// Bold text without pipes has none.
proof fn lemma_bold_escaped(text: Seq<char>)
    requires
        !text.contains('|'),
    ensures
        pipes_escaped(bold(text)),
{
    reveal_strlit("**");
    assert forall|i: int| 0 <= i < bold(text).len() implies #[trigger] bold(text)[i] != '|' by {
        if 2 <= i < 2 + text.len() {
            assert(text.contains(text[i - 2]));
        }
    }
}

/// The totals stand in seven cells.
proof fn lemma_total_pipes(rows: Seq<RollupView>, cost: Seq<char>)
    requires
        !cost.contains('|'),
    ensures
        bare_pipes(cells_text(total_cells(rows, cost))) == 8,
{
    reveal_strlit("**Total**");
    reveal_strlit("$");
    let cells = total_cells(rows, cost);
    lemma_grouped_chars(total(rows, Figure::Turns));
    lemma_grouped_chars(total(rows, Figure::Input));
    lemma_grouped_chars(total(rows, Figure::Output));
    lemma_grouped_chars(total(rows, Figure::CacheRead));
    lemma_grouped_chars(total(rows, Figure::CacheWrite));
    lemma_bold_escaped(grouped(total(rows, Figure::Turns)));
    lemma_bold_escaped(grouped(total(rows, Figure::Input)));
    lemma_bold_escaped(grouped(total(rows, Figure::Output)));
    lemma_bold_escaped(grouped(total(rows, Figure::CacheRead)));
    lemma_bold_escaped(grouped(total(rows, Figure::CacheWrite)));
    let dollars = "$"@ + cost;
    assert forall|i: int| 0 <= i < dollars.len() implies dollars[i] != '|' by {
        if i > 0 {
            assert(cost.contains(cost[i - 1]));
        }
    }
    lemma_bold_escaped(dollars);
    lemma_bare_pipes_cells(cells);
}

/// Lines of text without pipes have none.
proof fn lemma_lines_without_pipes(s: Seq<char>)
    requires
        forall|i: int| 0 <= i < s.len() ==> #[trigger] s[i] != '|',
    ensures
        forall|j: int, i: int|
            0 <= j < lines_of(s).len() && 0 <= i < lines_of(s)[j].len() ==> #[trigger] lines_of(
                s,
            )[j][i] != '|',
    decreases s.len(),
{
    if s.len() > 0 {
        let rest = s.drop_last();
        assert forall|i: int| 0 <= i < rest.len() implies #[trigger] rest[i] != '|' by {
            assert(rest[i] == s[i]);
        }
        lemma_lines_without_pipes(rest);
        lemma_lines_not_empty(rest);
        assert(s[s.len() - 1] != '|');
        let before = lines_of(rest);
        let all = lines_of(s);
        assert forall|j: int, i: int| 0 <= j < all.len() && 0 <= i < all[j].len() implies #[trigger]
            all[j][i] != '|' by {
            if s.last() == '\n' {
                if j < before.len() {
                    assert(all[j] == before[j]);
                    assert(before[j][i] != '|');
                }
            } else if j < before.len() - 1 {
                assert(all[j] == before[j]);
                assert(before[j][i] != '|');
            } else if i < before[j].len() {
                assert(before[j][i] != '|');
            }
        }
    }
}

/// What follows the table has no pipes.
proof fn lemma_below_without_pipes(rows: Seq<RollupView>)
    ensures
        forall|i: int|
            0 <= i < below_the_table(rows).len() ==> #[trigger] below_the_table(rows)[i] != '|',
{
    reveal_strlit(
        "\nInput is cache-inclusive: cache-read and cache-write tokens are subsets of it, broken out because they bill at different rates. ",
    );
    reveal_strlit(" sessions.\n");
    reveal_strlit("\n⚠\u{fe0f} ");
    reveal_strlit(
        " turn(s) could not be decrypted and are excluded from the totals above — the figures are a floor, not a complete count.\n",
    );
    let note = sessions_note(total(rows, Figure::Sessions));
    let warning = unread_warning(total(rows, Figure::Undecryptable));
    lemma_grouped_chars(total(rows, Figure::Sessions));
    lemma_grouped_chars(total(rows, Figure::Undecryptable));
    assert forall|i: int| 0 <= i < note.len() implies #[trigger] note[i] != '|' by {}
    assert forall|i: int| 0 <= i < warning.len() implies #[trigger] warning[i] != '|' by {}
    assert forall|i: int| 0 <= i < below_the_table(rows).len() implies #[trigger] below_the_table(
        rows,
    )[i] != '|' by {
        if i < note.len() {
            assert(below_the_table(rows)[i] == note[i]);
        } else {
            assert(below_the_table(rows)[i] == warning[i - note.len()]);
        }
    }
}

/// Every line of the usage text that starts with a pipe has seven cells, that
/// is eight pipes without a backslash before them: the names of the columns, the
/// line below them, each agent's row and the totals. Pubkeys, the time and the
/// costs are written on one line each, and pubkeys and costs without pipes.
pub proof fn law_table_lines_have_seven_cells(
    rows: Seq<(AgentRollup, String)>,
    names: Map<Seq<char>, Seq<char>>,
    generated_at: Seq<char>,
    total_cost: Seq<char>,
)
    requires
        rows.len() > 0,
        parts_on_one_line(rows, generated_at, total_cost),
        !total_cost.contains('|'),
        forall|i: int|
            0 <= i < rows.len() ==> !(#[trigger] rows[i]).0@.agent.contains('|')
                && !rows[i].1@.contains('|'),
    ensures
        ({
            let lines = lines_of(usage_text(rows, names, generated_at, total_cost));
            &&& lines.len() > 4 + rows.len()
            &&& forall|j: int|
                0 <= j < lines.len() ==> {
                    if 2 <= j <= 4 + rows.len() {
                        bare_pipes(#[trigger] lines[j]) == 8 && lines[j].len() > 0 && lines[j][0]
                            == '|'
                    } else {
                        lines[j].len() == 0 || lines[j][0] != '|'
                    }
                }
        }),
{
    reveal_strlit("**Agent usage — cumulative, as of ");
    reveal_strlit("| Agent | Turns | Input | Output | Cache read | Cache write | Cost (USD) |\n");
    reveal_strlit("|---|--:|--:|--:|--:|--:|--:|\n");
    reveal_strlit("\n");
    lemma_usage_lines(rows, names, generated_at, total_cost);
    let lines = lines_of(usage_text(rows, names, generated_at, total_cost));
    let n = rows.len() as int;
    let views = row_views(rows);
    let below = lines_of(below_the_table(views));
    lemma_header_pipes();
    lemma_separator_pipes();
    lemma_total_pipes(views, total_cost);
    lemma_total_cells(views, total_cost);
    lemma_cells_one_line(total_cells(views, total_cost));
    lemma_below_without_pipes(views);
    lemma_lines_without_pipes(below_the_table(views));
    lemma_lines_not_empty(below_the_table(views));
    assert forall|j: int| 0 <= j < lines.len() implies {
        if 2 <= j <= 4 + n {
            bare_pipes(#[trigger] lines[j]) == 8 && lines[j].len() > 0 && lines[j][0] == '|'
        } else {
            lines[j].len() == 0 || lines[j][0] != '|'
        }
    } by {
        if j == 0 {
            assert(lines[0] == title_line(generated_at));
            assert(lines[0][0] == '*');
        } else if j == 2 {
            assert(lines[2] == header_line().drop_last());
        } else if j == 3 {
            assert(lines[3] == separator_line().drop_last());
        } else if 4 <= j < 4 + n {
            let row = rows[j - 4];
            assert(lines[j] == agent_rows(rows, names)[j - 4]);
            let cells = agent_cells(row.0@, shown_name(names, row.0@.agent), row.1@);
            lemma_agent_row_pipes(row.0@, names, row.1@);
            lemma_shown_name_one_line(names, row.0@.agent);
            lemma_agent_cells(row.0@, shown_name(names, row.0@.agent), row.1@);
            lemma_cells_one_line(cells);
        } else if j == 4 + n {
            assert(lines[j] == cells_text(total_cells(views, total_cost)));
        } else if j > 4 + n {
            assert(lines[j] == below[j - 5 - n]);
            if lines[j].len() > 0 {
                assert(below[j - 5 - n][0] != '|');
            }
        }
    }
}

} // verus!
