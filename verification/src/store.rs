//! The repertoire and the settings as text, for keeping on disk.
//!
//! A text is a list of parts, each followed by its separator. The repertoire
//! is a list of rows that end in a line feed, one for each tally; a row is
//! the number of games in decimal and then the moves of the line, each
//! followed by a blank. The settings are rows too: the place of the
//! repertoire, and then the accounts. Only ASCII is written and read.

use crate::corpus::Tally;
use crate::graph::tallied;
use vstd::prelude::*;

verus! {

/// The parts of a list, each followed by the separator.
pub open spec fn terminated(parts: Seq<Seq<char>>, sep: char) -> Seq<char>
    decreases parts.len(),
{
    if parts.len() == 0 {
        Seq::empty()
    } else {
        terminated(parts.drop_last(), sep) + parts.last().push(sep)
    }
}

/// A text cut at its separators: the parts that a separator followed, and
/// what came after the last separator.
pub struct Cut {
    pub parts: Seq<Seq<char>>,
    pub rest: Seq<char>,
}

/// The text cut at every separator.
pub open spec fn cut(text: Seq<char>, sep: char) -> Cut
    decreases text.len(),
{
    if text.len() == 0 {
        Cut { parts: Seq::empty(), rest: Seq::empty() }
    } else if text.last() == sep {
        Cut {
            parts: cut(text.drop_last(), sep).parts.push(cut(text.drop_last(), sep).rest),
            rest: Seq::empty(),
        }
    } else {
        Cut {
            parts: cut(text.drop_last(), sep).parts,
            rest: cut(text.drop_last(), sep).rest.push(text.last()),
        }
    }
}

/// The parts of a text in which a separator follows every part; a text that
/// goes on after its last separator has none.
pub open spec fn split(text: Seq<char>, sep: char) -> Option<Seq<Seq<char>>> {
    if cut(text, sep).rest.len() == 0 {
        Some(cut(text, sep).parts)
    } else {
        None
    }
}

/// The text holds no separator.
pub open spec fn free_of(text: Seq<char>, sep: char) -> bool {
    forall|j: int| 0 <= j < text.len() ==> text[j] != sep
}

/// The text holds only ASCII, and neither a blank nor a line feed.
pub open spec fn is_word(text: Seq<char>) -> bool {
    forall|i: int|
        0 <= i < text.len() ==> '\0' <= (#[trigger] text[i]) <= '\u{7f}' && text[i] != ' '
            && text[i] != '\n'
}

/// The text holds only ASCII, and no line feed.
pub open spec fn is_row(text: Seq<char>) -> bool {
    forall|i: int|
        0 <= i < text.len() ==> '\0' <= (#[trigger] text[i]) <= '\u{7f}' && text[i] != '\n'
}

/// The text of a digit.
pub open spec fn digit_text(digit: nat) -> Seq<char> {
    if digit == 0 {
        "0"@
    } else if digit == 1 {
        "1"@
    } else if digit == 2 {
        "2"@
    } else if digit == 3 {
        "3"@
    } else if digit == 4 {
        "4"@
    } else if digit == 5 {
        "5"@
    } else if digit == 6 {
        "6"@
    } else if digit == 7 {
        "7"@
    } else if digit == 8 {
        "8"@
    } else {
        "9"@
    }
}

/// The digit that a character stands for, if it is one.
pub open spec fn digit_of(c: char) -> Option<nat> {
    if '0' <= c && c <= '9' {
        Some((c as nat - '0' as nat) as nat)
    } else {
        None
    }
}

/// A number in decimal, without leading zeros.
pub open spec fn decimal(n: nat) -> Seq<char>
    decreases n,
{
    if n < 10 {
        digit_text(n)
    } else {
        decimal(n / 10) + digit_text(n % 10)
    }
}

/// The number that a text of digits stands for, if it is one that 64 bits
/// hold. No text that holds anything but digits stands for a number, nor
/// does the empty text.
pub open spec fn number(text: Seq<char>) -> Option<u64>
    decreases text.len(),
{
    if text.len() == 0 {
        None
    } else {
        match digit_of(text.last()) {
            None => None,
            Some(digit) => if text.len() == 1 {
                Some(digit as u64)
            } else {
                match number(text.drop_last()) {
                    Some(front) => if front * 10 + digit <= u64::MAX {
                        Some((front * 10 + digit) as u64)
                    } else {
                        None
                    },
                    None => None,
                }
            },
        }
    }
}

/// A tally as a row: the number of games, then the moves.
pub open spec fn row_of(tally: Tally) -> Seq<char> {
    terminated(seq![decimal(tally.games)] + tally.line, ' ')
}

/// The tally that a row stands for, if it stands for one.
pub open spec fn tally_of(row: Seq<char>) -> Option<Tally> {
    match split(row, ' ') {
        Some(fields) => if fields.len() > 0 && number(fields[0]) is Some {
            Some(Tally { line: fields.skip(1), games: number(fields[0])->0 as nat })
        } else {
            None
        },
        None => None,
    }
}

/// The tallies as rows.
pub open spec fn rows_of(tallies: Seq<Tally>) -> Seq<Seq<char>> {
    Seq::new(tallies.len(), |i: int| row_of(tallies[i]))
}

/// The tallies that rows stand for, if every row stands for one.
pub open spec fn tallies_of(rows: Seq<Seq<char>>) -> Option<Seq<Tally>> {
    if forall|i: int| 0 <= i < rows.len() ==> tally_of(#[trigger] rows[i]) is Some {
        Some(Seq::new(rows.len(), |i: int| tally_of(rows[i])->0))
    } else {
        None
    }
}

/// The repertoire as text: a row for every tally.
pub open spec fn repertoire_text(tallies: Seq<Tally>) -> Seq<char> {
    terminated(rows_of(tallies), '\n')
}

/// The tallies that a text stands for, if it stands for any: it is ASCII,
/// every row ends in a line feed, and every row stands for a tally.
pub open spec fn repertoire_of(text: Seq<char>) -> Option<Seq<Tally>> {
    if !vstd::utf8::is_ascii_chars(text) {
        None
    } else {
        match split(text, '\n') {
            Some(rows) => tallies_of(rows),
            None => None,
        }
    }
}

/// Tallies that can be kept as text: every move is a word, and no tally
/// holds more games than 64 bits count.
pub open spec fn keepable(tallies: Seq<Tally>) -> bool {
    forall|i: int|
        0 <= i < tallies.len() ==> (#[trigger] tallies[i]).games <= u64::MAX && forall|j: int|
            0 <= j < tallies[i].line.len() ==> is_word(#[trigger] tallies[i].line[j])
}

/// Cutting goes on over a tail that holds no separator: the tail joins what
/// came after the last separator.
pub proof fn lemma_cut_tail(text: Seq<char>, tail: Seq<char>, sep: char)
    requires
        free_of(tail, sep),
    ensures
        cut(text + tail, sep) == (Cut {
            parts: cut(text, sep).parts,
            rest: cut(text, sep).rest + tail,
        }),
    decreases tail.len(),
{
    if tail.len() == 0 {
        assert(text + tail =~= text);
        assert(cut(text, sep).rest + tail =~= cut(text, sep).rest);
    } else {
        assert((text + tail).drop_last() =~= text + tail.drop_last());
        assert((text + tail).last() == tail.last());
        lemma_cut_tail(text, tail.drop_last(), sep);
        assert((cut(text, sep).rest + tail.drop_last()).push(tail.last()) =~= cut(text, sep).rest
            + tail);
    }
}

/// A list of parts that hold no separator is read back from its text, part
/// for part.
pub proof fn lemma_split_terminated(parts: Seq<Seq<char>>, sep: char)
    requires
        forall|i: int| 0 <= i < parts.len() ==> free_of(#[trigger] parts[i], sep),
    ensures
        cut(terminated(parts, sep), sep) == (Cut { parts: parts, rest: Seq::empty() }),
        split(terminated(parts, sep), sep) == Some(parts),
    decreases parts.len(),
{
    if parts.len() > 0 {
        let front = parts.drop_last();
        let last = parts.last();
        let before = terminated(front, sep);
        assert forall|i: int| 0 <= i < front.len() implies free_of(#[trigger] front[i], sep) by {
            assert(front[i] == parts[i]);
        }
        lemma_split_terminated(front, sep);
        assert(free_of(parts[parts.len() - 1], sep));
        lemma_cut_tail(before, last, sep);
        let whole = terminated(parts, sep);
        assert(whole =~= (before + last).push(sep));
        assert(whole.drop_last() =~= before + last);
        assert(whole.last() == sep);
        assert(Seq::<char>::empty() + last =~= last);
        assert(cut(whole.drop_last(), sep).parts == front);
        assert(cut(whole.drop_last(), sep).rest == last);
        assert(front.push(last) =~= parts);
        assert(cut(whole, sep).parts == parts);
    } else {
        assert(parts =~= Seq::<Seq<char>>::empty());
    }
}

/// What the text of a digit is: one character, which stands for the digit.
pub proof fn lemma_digit_text(digit: nat)
    requires
        digit < 10,
    ensures
        digit_text(digit).len() == 1,
        digit_of(digit_text(digit)[0]) == Some(digit),
        is_word(digit_text(digit)),
{
    reveal_strlit("0");
    reveal_strlit("1");
    reveal_strlit("2");
    reveal_strlit("3");
    reveal_strlit("4");
    reveal_strlit("5");
    reveal_strlit("6");
    reveal_strlit("7");
    reveal_strlit("8");
    reveal_strlit("9");
}

/// A number that 64 bits hold is read back from its decimal text, which is
/// a word.
pub proof fn lemma_number_decimal(n: nat)
    requires
        n <= u64::MAX,
    ensures
        number(decimal(n)) == Some(n as u64),
        is_word(decimal(n)),
        decimal(n).len() > 0,
    decreases n,
{
    if n < 10 {
        lemma_digit_text(n);
    } else {
        lemma_number_decimal(n / 10);
        lemma_digit_text(n % 10);
        let text = decimal(n);
        assert(text.drop_last() =~= decimal(n / 10));
        assert(text.last() == digit_text(n % 10)[0]);
    }
}

/// A list of words makes a row.
pub proof fn lemma_words_make_row(parts: Seq<Seq<char>>)
    requires
        forall|i: int| 0 <= i < parts.len() ==> is_word(#[trigger] parts[i]),
    ensures
        is_row(terminated(parts, ' ')),
    decreases parts.len(),
{
    if parts.len() > 0 {
        let front = parts.drop_last();
        assert forall|i: int| 0 <= i < front.len() implies is_word(#[trigger] front[i]) by {
            assert(front[i] == parts[i]);
        }
        lemma_words_make_row(front);
        assert(is_word(parts[parts.len() - 1]));
    }
}

/// A list of rows makes an ASCII text.
pub proof fn lemma_rows_make_text(rows: Seq<Seq<char>>)
    requires
        forall|i: int| 0 <= i < rows.len() ==> is_row(#[trigger] rows[i]),
    ensures
        vstd::utf8::is_ascii_chars(terminated(rows, '\n')),
    decreases rows.len(),
{
    if rows.len() > 0 {
        let front = rows.drop_last();
        assert forall|i: int| 0 <= i < front.len() implies is_row(#[trigger] front[i]) by {
            assert(front[i] == rows[i]);
        }
        lemma_rows_make_text(front);
        let before = terminated(front, '\n');
        let last = rows[rows.len() - 1];
        let whole = terminated(rows, '\n');
        assert(is_row(last));
        assert(rows.last() == last);
        assert(whole =~= before + last.push('\n'));
        assert(vstd::utf8::is_ascii_chars(before));
        assert forall|i: int| 0 <= i < whole.len() implies '\0' <= #[trigger] whole[i]
            <= '\u{7f}' by {
            if i < before.len() {
                assert(whole[i] == before[i]);
                assert('\0' <= before[i] <= '\u{7f}');
            } else if i < before.len() + last.len() {
                assert(whole[i] == last[i - before.len()]);
                assert('\0' <= last[i - before.len()] <= '\u{7f}');
            } else {
                assert(whole[i] == '\n');
            }
        }
    }
}

/// A tally whose moves are words is read back from its row.
pub proof fn lemma_tally_round_trip(tally: Tally)
    requires
        tally.games <= u64::MAX,
        forall|j: int| 0 <= j < tally.line.len() ==> is_word(#[trigger] tally.line[j]),
    ensures
        tally_of(row_of(tally)) == Some(tally),
        is_row(row_of(tally)),
{
    let fields = seq![decimal(tally.games)] + tally.line;
    lemma_number_decimal(tally.games);
    assert forall|i: int| 0 <= i < fields.len() implies is_word(#[trigger] fields[i]) by {
        if i > 0 {
            assert(fields[i] == tally.line[i - 1]);
        }
    }
    assert forall|i: int| 0 <= i < fields.len() implies free_of(#[trigger] fields[i], ' ') by {
        assert(is_word(fields[i]));
    }
    lemma_split_terminated(fields, ' ');
    lemma_words_make_row(fields);
    assert(fields.skip(1) =~= tally.line);
}

/// Nothing is lost in the text: tallies that can be kept are read back from
/// their text as they were.
pub proof fn lemma_repertoire_round_trip(tallies: Seq<Tally>)
    requires
        keepable(tallies),
    ensures
        repertoire_of(repertoire_text(tallies)) == Some(tallies),
{
    let rows = rows_of(tallies);
    assert forall|i: int| 0 <= i < rows.len() implies is_row(#[trigger] rows[i]) && tally_of(
        rows[i],
    ) == Some(tallies[i]) by {
        assert(tallies[i].games <= u64::MAX);
        lemma_tally_round_trip(tallies[i]);
    }
    assert forall|i: int| 0 <= i < rows.len() implies free_of(#[trigger] rows[i], '\n') by {
        assert(is_row(rows[i]));
    }
    lemma_split_terminated(rows, '\n');
    lemma_rows_make_text(rows);
    assert(tallies_of(rows)->0 =~= tallies);
}

/// The text cut at every separator, if a separator ends it.
fn split_text(text: &str, sep: u8, Ghost(mark): Ghost<char>) -> (parts: Option<Vec<String>>)
    requires
        text.is_ascii(),
        '\0' <= mark <= '\u{7f}',
        mark as u8 == sep,
    ensures
        match split(text@, mark) {
            Some(found) => parts matches Some(list) && list.deep_view() =~= found && forall|k: int|
                0 <= k < list.len() ==> (#[trigger] list[k]).is_ascii(),
            None => parts is None,
        },
{
    let len = text.unicode_len();
    let mut parts: Vec<String> = Vec::new();
    let mut start: usize = 0;
    let mut i: usize = 0;
    while i < len
        invariant
            start <= i <= len,
            len == text@.len(),
            text.is_ascii(),
            '\0' <= mark <= '\u{7f}',
            mark as u8 == sep,
            parts.deep_view() =~= cut(text@.take(i as int), mark).parts,
            cut(text@.take(i as int), mark).rest =~= text@.subrange(start as int, i as int),
            forall|k: int| 0 <= k < parts.len() ==> (#[trigger] parts[k]).is_ascii(),
        decreases len - i,
    {
        let byte = text.get_ascii(i);
        proof {
            assert(text@.take(i + 1).drop_last() =~= text@.take(i as int));
            assert(text@.take(i + 1).last() == text@[i as int]);
            assert('\0' <= text@[i as int] <= '\u{7f}');
        }
        if byte == sep {
            let ghost before = parts.deep_view();
            let part = String::from_str(text.substring_ascii(start, i));
            parts.push(part);
            proof {
                assert(parts.deep_view() =~= before.push(text@.subrange(start as int, i as int)));
            }
            start = i + 1;
        }
        i += 1;
    }
    proof {
        assert(text@.take(len as int) =~= text@);
    }
    if start == len {
        Some(parts)
    } else {
        None
    }
}

/// Reads a number in decimal.
fn read_number(text: &str) -> (value: Option<u64>)
    requires
        text.is_ascii(),
    ensures
        value == number(text@),
{
    let len = text.unicode_len();
    if len == 0 {
        return None;
    }
    let mut value: u64 = 0;
    let mut good = true;
    let mut i: usize = 0;
    while i < len
        invariant
            i <= len,
            len == text@.len(),
            text.is_ascii(),
            i == 0 ==> good,
            i > 0 && good ==> number(text@.take(i as int)) == Some(value),
            i > 0 && !good ==> number(text@.take(i as int)) is None,
        decreases len - i,
    {
        let byte = text.get_ascii(i);
        proof {
            assert(text@.take(i + 1).drop_last() =~= text@.take(i as int));
            assert(text@.take(i + 1).last() == text@[i as int]);
            assert('\0' <= text@[i as int] <= '\u{7f}');
        }
        if good {
            if byte < 48 || byte > 57 {
                good = false;
            } else {
                let digit: u64 = (byte - 48) as u64;
                if i == 0 {
                    value = digit;
                } else if value > (u64::MAX - digit) / 10 {
                    good = false;
                } else {
                    value = value * 10 + digit;
                }
            }
        }
        i += 1;
    }
    proof {
        assert(text@.take(len as int) =~= text@);
    }
    if good {
        Some(value)
    } else {
        None
    }
}

/// The text of a digit.
fn digit_str(digit: u64) -> (text: &'static str)
    requires
        digit < 10,
    ensures
        text@ == digit_text(digit as nat),
{
    if digit == 0 {
        "0"
    } else if digit == 1 {
        "1"
    } else if digit == 2 {
        "2"
    } else if digit == 3 {
        "3"
    } else if digit == 4 {
        "4"
    } else if digit == 5 {
        "5"
    } else if digit == 6 {
        "6"
    } else if digit == 7 {
        "7"
    } else if digit == 8 {
        "8"
    } else {
        "9"
    }
}

/// Writes a number in decimal at the end of a text.
fn write_number(n: u64, out: &mut String)
    ensures
        final(out)@ =~= old(out)@ + decimal(n as nat),
    decreases n,
{
    if n >= 10 {
        write_number(n / 10, out);
    }
    out.append(digit_str(n % 10));
}

/// Writes the parts of a list at the end of a text, each followed by the
/// separator.
fn write_terminated(parts: &Vec<String>, sep: &str, Ghost(mark): Ghost<char>, out: &mut String)
    requires
        sep@ =~= seq![mark],
    ensures
        final(out)@ =~= old(out)@ + terminated(parts.deep_view(), mark),
{
    let ghost before = out@;
    let ghost list = parts.deep_view();
    let mut j: usize = 0;
    while j < parts.len()
        invariant
            j <= parts.len(),
            list == parts.deep_view(),
            sep@ =~= seq![mark],
            out@ =~= before + terminated(list.take(j as int), mark),
        decreases parts.len() - j,
    {
        proof {
            assert(list.take(j + 1).drop_last() =~= list.take(j as int));
            assert(list.take(j + 1).last() == parts[j as int]@);
        }
        out.append(parts[j].as_str());
        out.append(sep);
        j += 1;
    }
    proof {
        assert(list.take(j as int) =~= list);
    }
}

/// The repertoire as text, for keeping: a row for every tally, with the
/// number of games and then the moves. What is written is read back by
/// [`read_repertoire`] as it was, if every move is a word of ASCII: see
/// [`lemma_repertoire_round_trip`].
pub fn write_repertoire(lines: &Vec<(Vec<String>, u64)>) -> (text: String)
    ensures
        text@ =~= repertoire_text(tallied(lines@)),
{
    let ghost tallies = tallied(lines@);
    let ghost rows = rows_of(tallies);
    let mut text = String::new();
    let mut i: usize = 0;
    proof {
        reveal_strlit(" ");
        reveal_strlit("\n");
    }
    while i < lines.len()
        invariant
            i <= lines.len(),
            tallies == tallied(lines@),
            rows == rows_of(tallies),
            " "@ =~= seq![' '],
            "\n"@ =~= seq!['\n'],
            text@ =~= terminated(rows.take(i as int), '\n'),
        decreases lines.len() - i,
    {
        let ghost before = text@;
        let ghost tally = tallies[i as int];
        proof {
            assert(rows.take(i + 1).drop_last() =~= rows.take(i as int));
            assert(rows.take(i + 1).last() == row_of(tally));
            let fields = seq![decimal(tally.games)] + tally.line;
            assert(fields.drop_first() =~= tally.line);
            lemma_terminated_first(fields, ' ');
        }
        write_number(lines[i].1, &mut text);
        text.append(" ");
        write_terminated(&lines[i].0, " ", Ghost(' '), &mut text);
        proof {
            assert(text@ =~= before + row_of(tally));
        }
        text.append("\n");
        i += 1;
    }
    proof {
        assert(rows.take(i as int) =~= rows);
    }
    text
}

/// One tally from its row.
fn read_row(row: &str) -> (found: Option<(Vec<String>, u64)>)
    requires
        row.is_ascii(),
    ensures
        match tally_of(row@) {
            Some(tally) => found matches Some(pair) && pair.0.deep_view() =~= tally.line
                && pair.1 == tally.games,
            None => found is None,
        },
{
    let mut fields = match split_text(row, 32, Ghost(' ')) {
        Some(fields) => fields,
        None => {
            return None;
        },
    };
    if fields.len() == 0 {
        return None;
    }
    let games = match read_number(fields[0].as_str()) {
        Some(games) => games,
        None => {
            return None;
        },
    };
    let ghost all = fields.deep_view();
    let _ = fields.remove(0);
    proof {
        assert(fields.deep_view() =~= all.skip(1));
    }
    Some((fields, games))
}

/// The repertoire from its text, or nothing where the text is not one that
/// [`write_repertoire`] writes: where it is not ASCII, does not end its
/// last row, or has a row that does not start with a number of 64 bits.
pub fn read_repertoire(text: &str) -> (lines: Option<Vec<(Vec<String>, u64)>>)
    ensures
        match repertoire_of(text@) {
            Some(tallies) => lines matches Some(list) && tallied(list@) =~~= tallies,
            None => lines is None,
        },
{
    if !text.is_ascii() {
        return None;
    }
    let rows = match split_text(text, 10, Ghost('\n')) {
        Some(rows) => rows,
        None => {
            return None;
        },
    };
    let ghost texts = rows.deep_view();
    let mut lines: Vec<(Vec<String>, u64)> = Vec::new();
    let mut i: usize = 0;
    while i < rows.len()
        invariant
            i <= rows.len(),
            texts == rows.deep_view(),
            repertoire_of(text@) == tallies_of(texts),
            lines.len() == i,
            forall|k: int| 0 <= k < rows.len() ==> (#[trigger] rows[k]).is_ascii(),
            forall|k: int|
                0 <= k < i ==> tally_of(#[trigger] texts[k]) is Some && tallied(lines@)[k].line
                    =~= tally_of(texts[k])->0.line && tallied(lines@)[k].games == tally_of(
                    texts[k],
                )->0.games,
        decreases rows.len() - i,
    {
        assert(rows[i as int].is_ascii());
        assert(texts[i as int] == rows[i as int]@);
        match read_row(rows[i].as_str()) {
            Some(pair) => {
                lines.push(pair);
            },
            None => {
                proof {
                    assert(tally_of(texts[i as int]) is None);
                }
                return None;
            },
        }
        i += 1;
    }
    proof {
        assert forall|k: int| 0 <= k < texts.len() implies tally_of(#[trigger] texts[k]) is Some by {
        }
        let tallies = tallies_of(texts)->0;
        assert forall|k: int| 0 <= k < tallies.len() implies tallied(lines@)[k] == tallies[k] by {
            assert(tally_of(texts[k]) is Some);
        }
    }
    Some(lines)
}

/// A list that is not empty starts with its first part.
proof fn lemma_terminated_first(parts: Seq<Seq<char>>, sep: char)
    requires
        parts.len() > 0,
    ensures
        terminated(parts, sep) =~= parts.first().push(sep) + terminated(parts.drop_first(), sep),
    decreases parts.len(),
{
    if parts.len() == 1 {
        assert(parts.drop_last() =~= Seq::<Seq<char>>::empty());
        assert(parts.drop_first() =~= Seq::<Seq<char>>::empty());
    } else {
        lemma_terminated_first(parts.drop_last(), sep);
        assert(parts.drop_last().drop_first() =~= parts.drop_first().drop_last());
        assert(parts.drop_last().first() == parts.first());
        assert(parts.drop_first().last() == parts.last());
    }
}

/// What is kept of the settings: the place of the repertoire, if it has
/// one, and the accounts.
pub struct Kept {
    pub place: Option<Seq<char>>,
    pub accounts: Seq<Seq<char>>,
}

/// The row of the place: a plus sign and the place, or a minus sign where
/// there is none.
pub open spec fn place_row(place: Option<Seq<char>>) -> Seq<char> {
    match place {
        Some(path) => "+"@ + path,
        None => "-"@,
    }
}

/// The place that a row stands for, if the row stands for a place or for
/// none.
pub open spec fn place_of(row: Seq<char>) -> Option<Option<Seq<char>>> {
    if row.len() > 0 && row[0] == '+' {
        Some(Some(row.skip(1)))
    } else if row.len() == 1 && row[0] == '-' {
        Some(None)
    } else {
        None
    }
}

/// The settings as text: the row of the place, then a row for every
/// account.
pub open spec fn settings_text(kept: Kept) -> Seq<char> {
    terminated(seq![place_row(kept.place)] + kept.accounts, '\n')
}

/// The settings that a text stands for, if it stands for any: it is ASCII,
/// every row ends in a line feed, and the first row is that of a place.
pub open spec fn settings_of(text: Seq<char>) -> Option<Kept> {
    if !vstd::utf8::is_ascii_chars(text) {
        None
    } else {
        match split(text, '\n') {
            Some(rows) => if rows.len() > 0 && place_of(rows[0]) is Some {
                Some(Kept { place: place_of(rows[0])->0, accounts: rows.skip(1) })
            } else {
                None
            },
            None => None,
        }
    }
}

/// What a place and accounts of the program are to the text.
pub open spec fn kept_of(place: Option<String>, accounts: Seq<Seq<char>>) -> Kept {
    Kept {
        place: match place {
            Some(path) => Some(path@),
            None => None,
        },
        accounts: accounts,
    }
}

/// Nothing is lost in the text of the settings: a place and accounts that
/// are rows of ASCII are read back from their text as they were.
pub proof fn lemma_settings_round_trip(kept: Kept)
    requires
        kept.place matches Some(path) ==> is_row(path),
        forall|i: int| 0 <= i < kept.accounts.len() ==> is_row(#[trigger] kept.accounts[i]),
    ensures
        settings_of(settings_text(kept)) == Some(kept),
{
    reveal_strlit("+");
    reveal_strlit("-");
    let first = place_row(kept.place);
    let rows = seq![first] + kept.accounts;
    assert(is_row(first));
    assert forall|i: int| 0 <= i < rows.len() implies is_row(#[trigger] rows[i]) && free_of(
        rows[i],
        '\n',
    ) by {
        if i > 0 {
            assert(rows[i] == kept.accounts[i - 1]);
        }
        assert(is_row(rows[i]));
    }
    lemma_split_terminated(rows, '\n');
    lemma_rows_make_text(rows);
    assert(rows.skip(1) =~= kept.accounts);
    match kept.place {
        Some(path) => {
            assert(first.skip(1) =~= path);
        },
        None => {},
    }
}

/// The settings as text, for keeping. What is written is read back by
/// [`read_settings`] as it was, if the place and the accounts are ASCII
/// without line feeds: see [`lemma_settings_round_trip`].
pub fn write_settings(place: &Option<String>, accounts: &Vec<String>) -> (text: String)
    ensures
        text@ =~= settings_text(kept_of(*place, accounts.deep_view())),
{
    let mut text = String::new();
    proof {
        reveal_strlit("\n");
        let kept = kept_of(*place, accounts.deep_view());
        let rows = seq![place_row(kept.place)] + kept.accounts;
        assert(rows.drop_first() =~= kept.accounts);
        lemma_terminated_first(rows, '\n');
    }
    match place {
        Some(path) => {
            text.append("+");
            text.append(path.as_str());
        },
        None => {
            text.append("-");
        },
    }
    text.append("\n");
    write_terminated(accounts, "\n", Ghost('\n'), &mut text);
    text
}

/// The settings from their text: the place of the repertoire and the
/// accounts. Nothing is returned where the text is not one that
/// [`write_settings`] writes: where it is not ASCII, does not end its last
/// row, or does not start with the row of a place.
pub fn read_settings(text: &str) -> (found: Option<(Option<String>, Vec<String>)>)
    ensures
        match settings_of(text@) {
            Some(kept) => found matches Some(pair) && kept_of(pair.0, pair.1.deep_view()).place
                =~= kept.place && pair.1.deep_view() =~= kept.accounts,
            None => found is None,
        },
{
    if !text.is_ascii() {
        return None;
    }
    let mut rows = match split_text(text, 10, Ghost('\n')) {
        Some(rows) => rows,
        None => {
            return None;
        },
    };
    if rows.len() == 0 {
        return None;
    }
    let ghost all = rows.deep_view();
    assert(rows[0].is_ascii());
    let first = rows[0].as_str();
    let len = first.unicode_len();
    let place = if len > 0 && first.get_ascii(0) == 43 {
        Some(String::from_str(first.substring_ascii(1, len)))
    } else if len == 1 && first.get_ascii(0) == 45 {
        None
    } else {
        proof {
            assert('\0' <= first@[0] <= '\u{7f}' || len == 0);
        }
        return None;
    };
    proof {
        assert('\0' <= first@[0] <= '\u{7f}');
        assert(first@.subrange(1, len as int) =~= first@.skip(1));
    }
    let _ = rows.remove(0);
    proof {
        assert(rows.deep_view() =~= all.skip(1));
    }
    Some((place, rows))
}

} // verus!
