//! Numbers, pubkeys and names as they are shown in a table cell.

use crate::display_laws::{is_core_of, law_trimming_takes_only_white_space};
use crate::text::{
    chars_of, decimal, digit, digit_char, is_digit, lemma_decimal_digits, push_chars, push_decimal,
};
use vstd::prelude::*;

verus! {

/// The characters with Unicode's `White_Space` property.
pub open spec fn white_space(c: char) -> bool {
    let code = c as int;
    ||| 0x9 <= code <= 0xd
    ||| code == 0x20
    ||| code == 0x85
    ||| code == 0xa0
    ||| code == 0x1680
    ||| 0x2000 <= code <= 0x200a
    ||| code == 0x2028
    ||| code == 0x2029
    ||| code == 0x202f
    ||| code == 0x205f
    ||| code == 0x3000
}

/// `char::is_whitespace` tells whether a character has Unicode's `White_Space`
/// property.
pub assume_specification[ char::is_whitespace ](c: char) -> (white: bool)
    ensures
        white == white_space(c),
;

/// Three digits of a number below a thousand.
pub open spec fn three_digits(n: nat) -> Seq<char> {
    seq![digit(n / 100), digit(n / 10 % 10), digit(n % 10)]
}

/// `n` in decimal with a comma before each group of three digits.
pub open spec fn grouped(n: nat) -> Seq<char>
    decreases n,
{
    if n < 1000 {
        decimal(n)
    } else {
        grouped(n / 1000) + seq![','] + three_digits(n % 1000)
    }
}

/// Appends `n` with its digits grouped to `out`.
fn push_grouped(out: &mut String, n: u64)
    ensures
        final(out)@ == old(out)@ + grouped(n as nat),
    decreases n,
{
    if n < 1000 {
        push_decimal(out, n);
    } else {
        push_grouped(out, n / 1000);
        let m: u64 = n % 1000;
        out.push(',');
        out.push(digit_char(m / 100));
        out.push(digit_char(m / 10 % 10));
        out.push(digit_char(m % 10));
        assert(out@ =~= old(out)@ + grouped(n as nat));
    }
}

/// Formats an integer with thousands separators.
pub fn thousands(n: u64) -> (text: String)
    ensures
        text@ == grouped(n as nat),
{
    let mut text = String::new();
    push_grouped(&mut text, n);
    assert(text@ =~= grouped(n as nat));
    text
}

/// The last three digits of a number stand behind those of its thousands.
proof fn lemma_decimal_thousands(n: nat)
    requires
        n >= 1000,
    ensures
        decimal(n) == decimal(n / 1000) + three_digits(n % 1000),
{
    let a = n / 10;
    let b = n / 100;
    assert(a / 10 == b);
    assert(b / 10 == n / 1000);
    assert(n % 10 == n % 1000 % 10);
    assert(a % 10 == n % 1000 / 10 % 10);
    assert(b % 10 == n % 1000 / 100);
    assert(decimal(n) == decimal(a).push(digit(n % 10)));
    assert(decimal(a) == decimal(b).push(digit(a % 10)));
    assert(decimal(b) == decimal(n / 1000).push(digit(b % 10)));
    assert(decimal(n) =~= decimal(n / 1000) + three_digits(n % 1000));
}

/// A comma is not a digit: digits without commas are the same digits.
proof fn lemma_digits_without_commas(s: Seq<char>)
    requires
        forall|i: int| 0 <= i < s.len() ==> is_digit(#[trigger] s[i]),
    ensures
        s.filter(|c: char| c != ',') == s,
    decreases s.len(),
{
    reveal(Seq::filter);
    if s.len() > 0 {
        let rest = s.drop_last();
        assert forall|i: int| 0 <= i < rest.len() implies is_digit(#[trigger] rest[i]) by {
            assert(rest[i] == s[i]);
        }
        lemma_digits_without_commas(rest);
        assert(is_digit(s[s.len() - 1]));
        assert(s =~= rest.push(s.last()));
    } else {
        assert(s.filter(|c: char| c != ',') =~= s);
    }
}

/// Without its commas a grouped number is the number in decimal.
pub proof fn law_grouping_keeps_digits(n: nat)
    ensures
        grouped(n).filter(|c: char| c != ',') == decimal(n),
    decreases n,
{
    let keep = |c: char| c != ',';
    lemma_decimal_digits(n);
    if n < 1000 {
        lemma_digits_without_commas(decimal(n));
    } else {
        law_grouping_keeps_digits(n / 1000);
        lemma_decimal_thousands(n);
        let tail = three_digits(n % 1000);
        assert(seq![','].filter(keep) =~= Seq::empty()) by {
            reveal_with_fuel(Seq::filter, 2);
            assert(seq![','].drop_last() =~= Seq::empty());
        }
        assert forall|i: int| 0 <= i < tail.len() implies is_digit(#[trigger] tail[i]) by {
            assert(decimal(n)[decimal(n / 1000).len() + i] == tail[i]);
        }
        lemma_digits_without_commas(tail);
        Seq::filter_distributes_over_add(grouped(n / 1000), seq![','], keep);
        Seq::filter_distributes_over_add(grouped(n / 1000) + seq![','], tail, keep);
        assert(grouped(n).filter(keep) =~= decimal(n));
    }
}

/// Commas separate groups of three digits counted from the right, and a number
/// starts with a digit.
pub proof fn law_grouping_by_threes(n: nat)
    ensures
        is_digit(grouped(n)[0]),
        forall|k: int|
            0 <= k < grouped(n).len() ==> (#[trigger] grouped(n)[grouped(n).len() - 1 - k] == ','
                <==> k % 4 == 3),
    decreases n,
{
    lemma_decimal_digits(n);
    let all = grouped(n);
    if n < 1000 {
        reveal_with_fuel(decimal, 3);
        assert forall|k: int| 0 <= k < all.len() implies (#[trigger] all[all.len() - 1 - k] == ','
            <==> k % 4 == 3) by {
            assert(is_digit(decimal(n)[all.len() - 1 - k]));
        }
        assert(is_digit(decimal(n)[0]));
    } else {
        let head = grouped(n / 1000);
        let tail = three_digits(n % 1000);
        law_grouping_by_threes(n / 1000);
        lemma_decimal_thousands(n);
        lemma_grouped_not_empty(n / 1000);
        assert(all[0] == head[0]);
        assert forall|k: int| 0 <= k < all.len() implies (#[trigger] all[all.len() - 1 - k] == ','
            <==> k % 4 == 3) by {
            if k < 3 {
                assert(all[all.len() - 1 - k] == tail[2 - k]);
                assert(decimal(n)[decimal(n / 1000).len() + 2 - k] == tail[2 - k]);
            } else if k > 3 {
                assert(all[all.len() - 1 - k] == head[head.len() - 1 - (k - 4)]);
            }
        }
    }
}

/// A grouped number is made of digits and commas.
pub proof fn lemma_grouped_chars(n: nat)
    ensures
        forall|i: int|
            0 <= i < grouped(n).len() ==> is_digit(#[trigger] grouped(n)[i]) || grouped(n)[i]
                == ',',
    decreases n,
{
    lemma_decimal_digits(n);
    if n >= 1000 {
        let all = grouped(n);
        let head = grouped(n / 1000);
        let tail = three_digits(n % 1000);
        lemma_grouped_chars(n / 1000);
        lemma_decimal_thousands(n);
        assert forall|i: int| 0 <= i < all.len() implies is_digit(#[trigger] all[i]) || all[i]
            == ',' by {
            if i < head.len() {
                assert(all[i] == head[i]);
            } else if i > head.len() {
                let k = i - head.len() - 1;
                assert(all[i] == tail[k]);
                assert(decimal(n)[decimal(n / 1000).len() + k] == tail[k]);
            }
        }
    }
}

/// A grouped number has at least one character.
proof fn lemma_grouped_not_empty(n: nat)
    ensures
        grouped(n).len() > 0,
{
    lemma_decimal_digits(n);
}

/// The first `n` characters, or all where there are fewer.
pub open spec fn first_chars(s: Seq<char>, n: nat) -> Seq<char> {
    if s.len() <= n {
        s
    } else {
        s.take(n as int)
    }
}

/// Shortens a hex pubkey for display when no profile name is known.
pub fn short_pubkey(hex: &str) -> (short: String)
    ensures
        short@ == first_chars(hex@, 8),
        hex@.len() <= 8 ==> short@ == hex@,
        hex@.len() > 8 ==> short@ == hex@.subrange(0, 8),
{
    let chars = chars_of(hex);
    let mut short = String::new();
    let to: usize = if chars.len() <= 8 {
        chars.len()
    } else {
        8
    };
    push_chars(&mut short, &chars, 0, to);
    assert(short@ =~= first_chars(hex@, 8));
    short
}

/// The text without white space at its beginning and end.
pub open spec fn trimmed(s: Seq<char>) -> Seq<char>
    decreases s.len(),
{
    if s.len() == 0 {
        s
    } else if white_space(s[0]) {
        trimmed(s.drop_first())
    } else if white_space(s.last()) {
        trimmed(s.drop_last())
    } else {
        s
    }
}

/// Whether a character is white space.
fn is_white(c: char) -> (white: bool)
    ensures
        white == white_space(c),
{
    c.is_whitespace()
}

/// The text without white space at its beginning and end.
pub fn trim_text(s: &str) -> (text: String)
    ensures
        text@ == trimmed(s@),
        is_core_of(text@, s@),
{
    proof {
        law_trimming_takes_only_white_space(s@);
    }
    let chars = chars_of(s);
    let mut from: usize = 0;
    let mut to: usize = chars.len();
    assert(chars@.subrange(0, to as int) =~= chars@);
    while from < to && is_white(chars[from])
        invariant
            from <= to == chars@.len(),
            trimmed(chars@) == trimmed(chars@.subrange(from as int, to as int)),
        decreases to - from,
    {
        proof {
            let part = chars@.subrange(from as int, to as int);
            assert(part[0] == chars@[from as int]);
            assert(part.drop_first() =~= chars@.subrange(from + 1, to as int));
        }
        from = from + 1;
    }
    while from < to && is_white(chars[to - 1])
        invariant
            from <= to <= chars@.len(),
            from < to ==> !white_space(chars@[from as int]),
            trimmed(chars@) == trimmed(chars@.subrange(from as int, to as int)),
        decreases to - from,
    {
        proof {
            let part = chars@.subrange(from as int, to as int);
            assert(part[0] == chars@[from as int]);
            assert(part.last() == chars@[to - 1]);
            assert(part.drop_last() =~= chars@.subrange(from as int, to - 1));
        }
        to = to - 1;
    }
    let mut text = String::new();
    push_chars(&mut text, &chars, from, to);
    proof {
        let part = chars@.subrange(from as int, to as int);
        if from < to {
            assert(part[0] == chars@[from as int]);
            assert(part.last() == chars@[to - 1]);
        }
        assert(text@ =~= part);
    }
    text
}

/// What a character of a name becomes in a table cell: white space becomes a
/// space, and a pipe is escaped.
pub open spec fn cell_chars(c: char) -> Seq<char> {
    if white_space(c) {
        seq![' ']
    } else if c == '|' {
        seq!['\\', '|']
    } else {
        seq![c]
    }
}

/// A name with its white space flattened and its pipes escaped.
pub open spec fn cell_text(name: Seq<char>) -> Seq<char>
    decreases name.len(),
{
    if name.len() == 0 {
        Seq::empty()
    } else {
        cell_text(name.drop_last()) + cell_chars(name.last())
    }
}

/// At most forty characters; where there are more, thirty-nine and an ellipsis.
pub open spec fn shortened(s: Seq<char>) -> Seq<char> {
    if s.len() > 40 {
        s.take(39).push('…')
    } else {
        s
    }
}

/// A profile name as it is shown in a table cell.
pub open spec fn cell_name(name: Seq<char>) -> Seq<char> {
    shortened(trimmed(cell_text(name)))
}

/// Makes a profile display name safe to drop into a Markdown table cell.
///
/// Each agent writes its own profile. A pipe in a name would split the row into
/// more columns, and a newline would end the table early. So white space is
/// flattened, pipes are escaped, and the length is limited.
pub fn sanitize_name(name: &str) -> (cell: String)
    ensures
        cell@ == cell_name(name@),
{
    let chars = chars_of(name);
    let mut text = String::new();
    let mut i: usize = 0;
    assert(chars@.take(0) =~= Seq::empty());
    while i < chars.len()
        invariant
            i <= chars@.len(),
            text@ == cell_text(chars@.take(i as int)),
        decreases chars@.len() - i,
    {
        let ghost before = text@;
        let c: char = chars[i];
        if is_white(c) {
            text.push(' ');
        } else if c == '|' {
            text.push('\\');
            text.push('|');
        } else {
            text.push(c);
        }
        proof {
            assert(text@ =~= before + cell_chars(c));
            assert(chars@.take(i + 1).drop_last() =~= chars@.take(i as int));
        }
        i = i + 1;
    }
    assert(chars@.take(chars@.len() as int) =~= name@);
    let trimmed_text = trim_text(text.as_str());
    let kept = chars_of(trimmed_text.as_str());
    if kept.len() > 40 {
        let mut cell = String::new();
        push_chars(&mut cell, &kept, 0, 39);
        cell.push('…');
        assert(cell@ =~= cell_name(name@));
        cell
    } else {
        trimmed_text
    }
}

/// Whether the text has no white space but spaces.
pub open spec fn is_flat(s: Seq<char>) -> bool {
    forall|i: int| 0 <= i < s.len() && white_space(#[trigger] s[i]) ==> s[i] == ' '
}

/// Whether a backslash stands before every pipe.
pub open spec fn pipes_escaped(s: Seq<char>) -> bool {
    forall|i: int| 0 <= i < s.len() && #[trigger] s[i] == '|' ==> i > 0 && s[i - 1] == '\\'
}

/// Flattening and escaping leave nothing that breaks a cell.
proof fn lemma_cell_text_safe(name: Seq<char>)
    ensures
        is_flat(cell_text(name)),
        pipes_escaped(cell_text(name)),
    decreases name.len(),
{
    if name.len() > 0 {
        lemma_cell_text_safe(name.drop_last());
        let rest = cell_text(name.drop_last());
        let all = cell_text(name);
        let added = cell_chars(name.last());
        assert forall|i: int| 0 <= i < all.len() && white_space(#[trigger] all[i]) implies all[i]
            == ' ' by {
            if i < rest.len() {
                assert(all[i] == rest[i]);
            } else {
                assert(all[i] == added[i - rest.len()]);
            }
        }
        assert forall|i: int| 0 <= i < all.len() && #[trigger] all[i] == '|' implies i > 0
            && all[i - 1] == '\\' by {
            if i < rest.len() {
                assert(all[i] == rest[i]);
                assert(all[i - 1] == rest[i - 1]);
            } else {
                assert(all[i] == added[i - rest.len()]);
                assert(all[i - 1] == added[i - rest.len() - 1]);
            }
        }
    }
}

/// Trimming keeps a cell's text safe, and leaves no white space at the ends.
proof fn lemma_trimmed_safe(s: Seq<char>)
    requires
        is_flat(s),
        pipes_escaped(s),
    ensures
        is_flat(trimmed(s)),
        pipes_escaped(trimmed(s)),
        trimmed(s).len() > 0 ==> !white_space(trimmed(s)[0]) && !white_space(trimmed(s).last()),
    decreases s.len(),
{
    if s.len() > 0 {
        if white_space(s[0]) {
            let rest = s.drop_first();
            assert forall|i: int| 0 <= i < rest.len() && white_space(
                #[trigger] rest[i],
            ) implies rest[i] == ' ' by {
                assert(rest[i] == s[i + 1]);
            }
            assert forall|i: int| 0 <= i < rest.len() && #[trigger] rest[i] == '|' implies i > 0
                && rest[i - 1] == '\\' by {
                assert(rest[i] == s[i + 1]);
                assert(s[i] == '\\');
                if i > 0 {
                    assert(rest[i - 1] == s[i]);
                }
            }
            lemma_trimmed_safe(rest);
        } else if white_space(s.last()) {
            let rest = s.drop_last();
            assert forall|i: int| 0 <= i < rest.len() && white_space(
                #[trigger] rest[i],
            ) implies rest[i] == ' ' by {
                assert(rest[i] == s[i]);
            }
            assert forall|i: int| 0 <= i < rest.len() && #[trigger] rest[i] == '|' implies i > 0
                && rest[i - 1] == '\\' by {
                assert(rest[i] == s[i]);
                assert(rest[i - 1] == s[i - 1]);
            }
            lemma_trimmed_safe(rest);
        }
    }
}

/// Whatever the name, its cell has at most forty characters, no white space
/// but spaces and none at its ends, and a backslash before every pipe.
pub proof fn law_cell_name_safe(name: Seq<char>)
    ensures
        cell_name(name).len() <= 40,
        is_flat(cell_name(name)),
        pipes_escaped(cell_name(name)),
        cell_name(name).len() > 0 ==> !white_space(cell_name(name)[0]) && !white_space(
            cell_name(name).last(),
        ),
{
    lemma_cell_text_safe(name);
    lemma_trimmed_safe(cell_text(name));
    let long = trimmed(cell_text(name));
    let cell = cell_name(name);
    if long.len() > 40 {
        assert forall|i: int| 0 <= i < cell.len() && white_space(#[trigger] cell[i]) implies cell[i]
            == ' ' by {
            if i < 39 {
                assert(cell[i] == long[i]);
            }
        }
        assert forall|i: int| 0 <= i < cell.len() && #[trigger] cell[i] == '|' implies i > 0
            && cell[i - 1] == '\\' by {
            assert(cell[i] == long[i]);
            assert(cell[i - 1] == long[i - 1]);
        }
        assert(cell[0] == long[0]);
    }
}

/// A name has a cell exactly where it is more than white space.
pub proof fn law_cell_name_blank(name: Seq<char>)
    ensures
        cell_name(name).len() == 0 <==> forall|i: int|
            0 <= i < name.len() ==> white_space(#[trigger] name[i]),
{
    lemma_cell_text_blank(name);
    lemma_trimmed_blank(cell_text(name));
}

/// Escaping makes white space of white space alone.
proof fn lemma_cell_text_blank(name: Seq<char>)
    ensures
        (forall|i: int| 0 <= i < name.len() ==> white_space(#[trigger] name[i])) <==> forall|i: int|
            0 <= i < cell_text(name).len() ==> white_space(#[trigger] cell_text(name)[i]),
    decreases name.len(),
{
    if name.len() > 0 {
        let init = name.drop_last();
        lemma_cell_text_blank(init);
        let rest = cell_text(init);
        let all = cell_text(name);
        let added = cell_chars(name.last());
        if forall|i: int| 0 <= i < name.len() ==> white_space(#[trigger] name[i]) {
            assert forall|i: int| 0 <= i < init.len() implies white_space(#[trigger] init[i]) by {
                assert(init[i] == name[i]);
            }
            assert(white_space(name[name.len() - 1]));
            assert forall|i: int| 0 <= i < all.len() implies white_space(#[trigger] all[i]) by {
                if i < rest.len() {
                    assert(all[i] == rest[i]);
                } else {
                    assert(all[i] == added[i - rest.len()]);
                }
            }
        }
        if forall|i: int| 0 <= i < all.len() ==> white_space(#[trigger] all[i]) {
            assert forall|i: int| 0 <= i < rest.len() implies white_space(#[trigger] rest[i]) by {
                assert(all[i] == rest[i]);
            }
            assert(all[rest.len() as int] == added[0]);
            assert forall|i: int| 0 <= i < name.len() implies white_space(#[trigger] name[i]) by {
                if i < init.len() {
                    assert(init[i] == name[i]);
                }
            }
        }
    }
}

/// Trimming leaves nothing exactly where there is nothing but white space.
proof fn lemma_trimmed_blank(s: Seq<char>)
    ensures
        trimmed(s).len() == 0 <==> forall|i: int|
            0 <= i < s.len() ==> white_space(#[trigger] s[i]),
    decreases s.len(),
{
    if s.len() > 0 {
        if white_space(s[0]) {
            let rest = s.drop_first();
            lemma_trimmed_blank(rest);
            if forall|i: int| 0 <= i < rest.len() ==> white_space(#[trigger] rest[i]) {
                assert forall|i: int| 0 <= i < s.len() implies white_space(#[trigger] s[i]) by {
                    if i > 0 {
                        assert(rest[i - 1] == s[i]);
                    }
                }
            }
            if forall|i: int| 0 <= i < s.len() ==> white_space(#[trigger] s[i]) {
                assert forall|i: int| 0 <= i < rest.len() implies white_space(
                    #[trigger] rest[i],
                ) by {
                    assert(rest[i] == s[i + 1]);
                }
            }
        } else if white_space(s.last()) {
            let rest = s.drop_last();
            lemma_trimmed_blank(rest);
            assert(rest[0] == s[0]);
        }
    }
}

} // verus!
