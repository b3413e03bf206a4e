//! What numbers, pubkeys and names become in a table cell, character by
//! character.

use crate::display::{
    cell_chars, cell_name, cell_text, first_chars, grouped, law_grouping_by_threes,
    law_grouping_keeps_digits, lemma_grouped_chars, trimmed, white_space,
};
use crate::text::{law_decimal_reads_back, number_in};
use vstd::prelude::*;

verus! {

/// A grouped number reads back as the number where its commas are left out.
/// Counted from the right every fourth character is a comma, and every other one
/// a digit; the first is no zero, but where the number is zero.
pub proof fn law_thousands_read_back(n: nat)
    ensures
        number_in(grouped(n).filter(|c: char| c != ',')) == n,
        grouped(n).len() > 0,
        grouped(n)[0] == '0' ==> n == 0 && grouped(n).len() == 1,
        forall|k: int|
            0 <= k < grouped(n).len() ==> {
                let c = #[trigger] grouped(n)[grouped(n).len() - 1 - k];
                if k % 4 == 3 {
                    c == ','
                } else {
                    '0' as int <= c as int <= '9' as int
                }
            },
    decreases n,
{
    law_grouping_keeps_digits(n);
    law_decimal_reads_back(n);
    law_grouping_by_threes(n);
    lemma_grouped_chars(n);
    let all = grouped(n);
    assert forall|k: int| 0 <= k < all.len() implies {
        let c = #[trigger] all[all.len() - 1 - k];
        if k % 4 == 3 {
            c == ','
        } else {
            '0' as int <= c as int <= '9' as int
        }
    } by {
        assert(all[all.len() - 1 - k] == ',' <==> k % 4 == 3);
    }
    if n >= 1000 {
        law_thousands_read_back(n / 1000);
        assert(all[0] == grouped(n / 1000)[0]);
    }
}

/// A shortened pubkey is its first eight characters, or all where there are no
/// more.
pub proof fn law_short_pubkey_is_a_prefix(hex: Seq<char>)
    ensures
        hex.len() <= 8 ==> first_chars(hex, 8) == hex,
        hex.len() > 8 ==> first_chars(hex, 8).len() == 8,
        forall|i: int|
            0 <= i < first_chars(hex, 8).len() ==> #[trigger] first_chars(hex, 8)[i] == hex[i],
{
}

/// Whether `part` is `text` without white space at its ends: what stands before
/// it and behind it in the text is white space, and it neither begins nor ends
/// with any.
pub open spec fn is_core_of(part: Seq<char>, text: Seq<char>) -> bool {
    exists|from: int, to: int| is_core_at(part, text, from, to)
}

/// Whether `part` is the text between two places, with nothing but white space
/// outside of them and none just inside.
pub open spec fn is_core_at(part: Seq<char>, text: Seq<char>, from: int, to: int) -> bool {
    &&& 0 <= from <= to <= text.len()
    &&& part == text.subrange(from, to)
    &&& forall|i: int|
        0 <= i < text.len() && !(from <= i < to) ==> white_space(#[trigger] text[i])
    &&& from < to ==> !white_space(text[from]) && !white_space(text[to - 1])
}

/// Trimming takes white space away at both ends of a text, all of it, and
/// nothing else. A text that neither begins nor ends with white space is
/// unchanged.
pub proof fn law_trimming_takes_only_white_space(text: Seq<char>)
    ensures
        is_core_of(trimmed(text), text),
        text.len() > 0 && !white_space(text[0]) && !white_space(text[text.len() - 1]) ==> trimmed(
            text,
        ) == text,
{
    let at = lemma_trimmed_places(text);
    assert(is_core_at(trimmed(text), text, at.0, at.1));
}

/// The places between which the trimmed text stands.
proof fn lemma_trimmed_places(text: Seq<char>) -> (at: (int, int))
    ensures
        is_core_at(trimmed(text), text, at.0, at.1),
    decreases text.len(),
{
    if text.len() == 0 {
        assert(text.subrange(0, 0) =~= text);
        (0, 0)
    } else if white_space(text[0]) {
        let rest = text.drop_first();
        let at = lemma_trimmed_places(rest);
        assert(rest.subrange(at.0, at.1) =~= text.subrange(at.0 + 1, at.1 + 1));
        assert forall|i: int|
            0 <= i < text.len() && !(at.0 + 1 <= i < at.1 + 1) implies white_space(
            #[trigger] text[i],
        ) by {
            if i > 0 {
                assert(white_space(rest[i - 1]));
            }
        }
        (at.0 + 1, at.1 + 1)
    } else if white_space(text.last()) {
        let rest = text.drop_last();
        let at = lemma_trimmed_places(rest);
        assert(rest.subrange(at.0, at.1) =~= text.subrange(at.0, at.1));
        assert forall|i: int| 0 <= i < text.len() && !(at.0 <= i < at.1) implies white_space(
            #[trigger] text[i],
        ) by {
            if i < text.len() - 1 {
                assert(white_space(rest[i]));
            }
        }
        at
    } else {
        assert(text.subrange(0, text.len() as int) =~= text);
        (0, text.len() as int)
    }
}

/// How many of the first `n` characters are pipes.
pub open spec fn pipes_among(name: Seq<char>, n: int) -> nat
    decreases n,
{
    if n <= 0 {
        0
    } else {
        pipes_among(name, n - 1) + if name[n - 1] == '|' {
            1nat
        } else {
            0nat
        }
    }
}

/// Where the character at `i` of a name stands in the escaped name: each pipe up
/// to it takes one place more.
pub open spec fn escaped_place(name: Seq<char>, i: int) -> int {
    i + pipes_among(name, i + 1)
}

/// Whether `full` is the name with a space for each character that is white
/// space, a backslash before each pipe, and every other character as it is.
pub open spec fn is_escaped_name(full: Seq<char>, name: Seq<char>) -> bool {
    &&& full.len() == name.len() + pipes_among(name, name.len() as int)
    &&& forall|i: int|
        0 <= i < name.len() ==> {
            let at = #[trigger] escaped_place(name, i);
            &&& 0 <= at < full.len()
            &&& full[at] == if white_space(name[i]) {
                ' '
            } else {
                name[i]
            }
            &&& name[i] == '|' ==> at > 0 && full[at - 1] == '\\'
        }
}

/// Counting pipes looks at no more than the characters counted.
proof fn lemma_pipes_among(a: Seq<char>, b: Seq<char>, n: int)
    requires
        0 <= n <= a.len(),
        n <= b.len(),
        forall|i: int| 0 <= i < n ==> a[i] == b[i],
    ensures
        pipes_among(a, n) == pipes_among(b, n),
    decreases n,
{
    if n > 0 {
        lemma_pipes_among(a, b, n - 1);
    }
}

/// Escaping writes each character at its place.
proof fn lemma_escaped_name(name: Seq<char>)
    ensures
        is_escaped_name(cell_text(name), name),
    decreases name.len(),
{
    if name.len() > 0 {
        let init = name.drop_last();
        let full = cell_text(name);
        let rest = cell_text(init);
        lemma_escaped_name(init);
        lemma_pipes_among(init, name, init.len() as int);
        assert(full == rest + cell_chars(name.last()));
        assert forall|i: int| 0 <= i < name.len() implies {
            let at = #[trigger] escaped_place(name, i);
            &&& 0 <= at < full.len()
            &&& full[at] == if white_space(name[i]) {
                ' '
            } else {
                name[i]
            }
            &&& name[i] == '|' ==> at > 0 && full[at - 1] == '\\'
        } by {
            if i < init.len() {
                lemma_pipes_among(init, name, i + 1);
                assert(escaped_place(init, i) == escaped_place(name, i));
                assert(init[i] == name[i]);
            }
        }
    }
}

/// A name's cell is the escaped name without spaces at its ends where that has at
/// most forty characters, and else its first thirty-nine and an ellipsis. The
/// escaped name and the places of its ends are handed back.
pub proof fn law_cell_name_spelled_out(name: Seq<char>) -> (parts: (Seq<char>, int, int))
    ensures
        is_escaped_name(parts.0, name),
        0 <= parts.1 <= parts.2 <= parts.0.len(),
        forall|j: int|
            0 <= j < parts.0.len() && !(parts.1 <= j < parts.2) ==> #[trigger] parts.0[j] == ' ',
        parts.1 < parts.2 ==> parts.0[parts.1] != ' ' && parts.0[parts.2 - 1] != ' ',
        parts.2 - parts.1 <= 40 ==> cell_name(name) == parts.0.subrange(parts.1, parts.2),
        parts.2 - parts.1 > 40 ==> cell_name(name) == parts.0.subrange(
            parts.1,
            parts.1 + 39,
        ).push('…'),
{
    let full = cell_text(name);
    lemma_escaped_name(name);
    let at = lemma_trimmed_places(full);
    lemma_white_is_space(name);
    let part = full.subrange(at.0, at.1);
    assert(part == trimmed(full));
    if at.1 - at.0 > 40 {
        assert(part.take(39) =~= full.subrange(at.0, at.0 + 39));
    }
    (full, at.0, at.1)
}

/// The only white space in an escaped name is spaces.
proof fn lemma_white_is_space(name: Seq<char>)
    ensures
        forall|j: int|
            0 <= j < cell_text(name).len() && white_space(#[trigger] cell_text(name)[j])
                ==> cell_text(name)[j] == ' ',
    decreases name.len(),
{
    if name.len() > 0 {
        lemma_white_is_space(name.drop_last());
        let rest = cell_text(name.drop_last());
        let full = cell_text(name);
        assert forall|j: int| 0 <= j < full.len() && white_space(#[trigger] full[j]) implies full[j]
            == ' ' by {
            if j < rest.len() {
                assert(full[j] == rest[j]);
            } else {
                assert(full[j] == cell_chars(name.last())[j - rest.len()]);
            }
        }
    }
}

/// A name of at most forty characters without pipes, whose only white space is
/// spaces between other characters, is its own cell.
pub proof fn law_plain_name_is_its_cell(name: Seq<char>)
    requires
        0 < name.len() <= 40,
        !white_space(name[0]),
        !white_space(name[name.len() - 1]),
        forall|i: int| 0 <= i < name.len() ==> #[trigger] name[i] != '|',
        forall|i: int| 0 <= i < name.len() && white_space(#[trigger] name[i]) ==> name[i] == ' ',
    ensures
        cell_name(name) == name,
{
    let parts = law_cell_name_spelled_out(name);
    lemma_no_pipes_among(name, name.len() as int);
    assert forall|i: int| 0 <= i < name.len() implies #[trigger] parts.0[i] == name[i] by {
        lemma_no_pipes_among(name, i + 1);
        assert(escaped_place(name, i) == i);
    }
    assert(parts.0 =~= name);
    assert(name[0] != ' ' && name[name.len() - 1] != ' ');
    assert(parts.1 == 0) by {
        if parts.1 > 0 {
            assert(parts.0[0] == ' ');
        }
    }
    assert(parts.2 == name.len()) by {
        if parts.2 < name.len() {
            assert(parts.0[name.len() - 1] == ' ');
        }
    }
    assert(parts.0.subrange(0, name.len() as int) =~= name);
}

/// Where there are no pipes, none are counted.
proof fn lemma_no_pipes_among(name: Seq<char>, n: int)
    requires
        0 <= n <= name.len(),
        forall|i: int| 0 <= i < name.len() ==> #[trigger] name[i] != '|',
    ensures
        pipes_among(name, n) == 0,
    decreases n,
{
    if n > 0 {
        lemma_no_pipes_among(name, n - 1);
    }
}

} // verus!
