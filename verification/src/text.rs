//! Text: comparing it, joining it, and writing integers in it.

use vstd::prelude::*;
use vstd::std_specs::iter::IteratorSpec;

verus! {

/// Whether two texts hold the same characters.
pub fn same_text(a: &str, b: &str) -> (same: bool)
    ensures
        same == (a@ == b@),
{
    let mut left = a.chars();
    let mut right = b.chars();
    let ghost mut at: int = 0;
    assert(a@.skip(0) =~= a@);
    assert(b@.skip(0) =~= b@);
    loop
        invariant
            0 <= at <= a@.len(),
            at <= b@.len(),
            left.remaining() == a@.skip(at),
            right.remaining() == b@.skip(at),
            a@.take(at) == b@.take(at),
        decreases a@.len() - at,
    {
        let ghost l = left.remaining();
        let ghost r = right.remaining();
        let x = left.next();
        let y = right.next();
        match (x, y) {
            (Some(c), Some(d)) => {
                assert(c == a@[at]);
                assert(d == b@[at]);
                if c != d {
                    return false;
                }
                assert(a@.take(at + 1) =~= a@.take(at).push(c));
                assert(b@.take(at + 1) =~= b@.take(at).push(d));
                assert(l.drop_first() =~= a@.skip(at + 1));
                assert(r.drop_first() =~= b@.skip(at + 1));
                proof {
                    at = at + 1;
                }
            },
            (None, None) => {
                assert(a@.take(at) =~= a@);
                assert(b@.take(at) =~= b@);
                return true;
            },
            _ => {
                return false;
            },
        }
    }
}

/// One decimal digit.
pub open spec fn digit(n: int) -> Seq<char> {
    if n == 0 {
        "0"@
    } else if n == 1 {
        "1"@
    } else if n == 2 {
        "2"@
    } else if n == 3 {
        "3"@
    } else if n == 4 {
        "4"@
    } else if n == 5 {
        "5"@
    } else if n == 6 {
        "6"@
    } else if n == 7 {
        "7"@
    } else if n == 8 {
        "8"@
    } else {
        "9"@
    }
}

/// An integer in decimal.
pub open spec fn decimal(n: int) -> Seq<char>
    decreases (if n < 0 { 1 - n } else { n }),
{
    if n < 0 {
        "-"@ + decimal(-n)
    } else if n < 10 {
        digit(n)
    } else {
        decimal(n / 10) + digit(n % 10)
    }
}

fn write_digit(n: u64) -> (text: &'static str)
    requires
        n < 10,
    ensures
        text@ == digit(n as int),
{
    if n == 0 {
        "0"
    } else if n == 1 {
        "1"
    } else if n == 2 {
        "2"
    } else if n == 3 {
        "3"
    } else if n == 4 {
        "4"
    } else if n == 5 {
        "5"
    } else if n == 6 {
        "6"
    } else if n == 7 {
        "7"
    } else if n == 8 {
        "8"
    } else {
        "9"
    }
}

/// A natural number in decimal.
pub fn natural(n: u64) -> (text: String)
    ensures
        text@ == decimal(n as int),
    decreases n,
{
    let mut text = if n < 10 {
        String::new()
    } else {
        natural(n / 10)
    };
    text.append(write_digit(n % 10));
    assert(n < 10 ==> text@ =~= digit(n as int));
    text
}

/// An integer in decimal.
pub fn integer(n: i64) -> (text: String)
    ensures
        text@ == decimal(n as int),
{
    if n < 0 {
        let magnitude: u64 = (-(n + 1)) as u64 + 1;
        let mut text = "-".to_owned();
        text.append(natural(magnitude).as_str());
        text
    } else {
        natural(n as u64)
    }
}

/// The characters of a sequence of texts.
pub open spec fn contents(parts: Seq<String>) -> Seq<Seq<char>> {
    parts.map_values(|part: String| part@)
}

/// The parts one after another, the separator between each two.
pub open spec fn joined(parts: Seq<Seq<char>>, separator: Seq<char>) -> Seq<char>
    decreases parts.len(),
{
    if parts.len() == 0 {
        Seq::empty()
    } else if parts.len() == 1 {
        parts[0]
    } else {
        joined(parts.drop_last(), separator) + separator + parts.last()
    }
}

/// Joins the parts, the separator between each two.
pub fn join(parts: &Vec<String>, separator: &str) -> (text: String)
    ensures
        text@ == joined(contents(parts@), separator@),
{
    let mut text = String::new();
    let ghost all = contents(parts@);
    for i in 0..parts.len()
        invariant
            all == contents(parts@),
            text@ == joined(all.take(i as int), separator@),
    {
        if i > 0 {
            text.append(separator);
        }
        text.append(parts[i].as_str());
        proof {
            assert(all.take(i + 1).drop_last() =~= all.take(i as int));
            assert(all.take(i + 1).last() == parts@[i as int]@);
            if i == 0 {
                assert(text@ =~= parts@[0]@);
                assert(all.take(1)[0] == parts@[0]@);
            }
        }
    }
    assert(all.take(parts@.len() as int) =~= all);
    text
}

/// A text some number of times over.
pub open spec fn repeated(part: Seq<char>, count: int) -> Seq<char>
    decreases count,
{
    if count <= 0 {
        Seq::empty()
    } else {
        repeated(part, count - 1) + part
    }
}

pub fn repeat(part: &str, count: usize) -> (text: String)
    ensures
        text@ == repeated(part@, count as int),
{
    let mut text = String::new();
    for i in 0..count
        invariant
            text@ == repeated(part@, i as int),
    {
        text.append(part);
    }
    text
}

/// The characters of a text.
pub fn characters(source: &str) -> (list: Vec<char>)
    ensures
        list@ == source@,
{
    let mut iterator = source.chars();
    let mut list: Vec<char> = Vec::new();
    assert(source@.skip(0) =~= source@);
    loop
        invariant
            list@.len() <= source@.len(),
            iterator.remaining() == source@.skip(list@.len() as int),
            list@ == source@.take(list@.len() as int),
        ensures
            list@ == source@,
        decreases source@.len() - list@.len(),
    {
        let ghost left = iterator.remaining();
        let ghost at = list@.len() as int;
        match iterator.next() {
            None => {
                assert(source@.take(at) =~= source@);
                break ;
            },
            Some(c) => {
                assert(left.drop_first() =~= source@.skip(at + 1));
                assert(source@.take(at + 1) =~= source@.take(at).push(source@[at]));
                list.push(c);
            },
        }
    }
    list
}

/// Where the first line of a text ends: at its newline, or at the end.
pub open spec fn line_end(text: Seq<char>) -> int
    decreases text.len(),
{
    if text.len() == 0 || text[0] == '\n' {
        0
    } else {
        1 + line_end(text.skip(1))
    }
}

/// A line without the carriage return before its newline.
pub open spec fn without_return(line: Seq<char>) -> Seq<char> {
    if line.len() > 0 && line.last() == '\r' {
        line.drop_last()
    } else {
        line
    }
}

/// The lines of a text, without their endings. A newline at the end of the text
/// ends the last line rather than beginning another.
pub open spec fn lines_of(text: Seq<char>) -> Seq<Seq<char>>
    decreases text.len(),
{
    let end = line_end(text);
    if text.len() == 0 {
        Seq::empty()
    } else if end < 0 || end >= text.len() {
        seq![text]
    } else {
        seq![without_return(text.take(end))] + lines_of(text.skip(end + 1))
    }
}

proof fn line_end_is(text: Seq<char>, end: int)
    requires
        0 <= end <= text.len(),
        forall|i: int| 0 <= i < end ==> text[i] != '\n',
        end < text.len() ==> text[end] == '\n',
    ensures
        line_end(text) == end,
    decreases text.len(),
{
    if end > 0 {
        let rest = text.skip(1);
        assert forall|i: int| 0 <= i < end - 1 implies rest[i] != '\n' by {
            assert(rest[i] == text[i + 1]);
        }
        line_end_is(rest, end - 1);
    }
}

/// The lines of a text, without their endings.
pub fn lines(source: &str) -> (list: Vec<String>)
    ensures
        contents(list@) == lines_of(source@),
{
    let letters = characters(source);
    let length: usize = letters.len();
    let mut list: Vec<String> = Vec::new();
    let mut start: usize = 0;
    proof {
        assert(source@.skip(0) =~= source@);
        assert(contents(list@) + lines_of(source@) =~= lines_of(source@));
    }
    while start < length
        invariant
            letters@ == source@,
            length == source@.len(),
            start <= length,
            contents(list@) + lines_of(source@.skip(start as int)) == lines_of(source@),
        decreases length - start,
    {
        let mut end: usize = start;
        while end < length && letters[end] != '\n'
            invariant
                letters@ == source@,
                length == source@.len(),
                start <= end <= length,
                forall|i: int| start <= i < end ==> source@[i] != '\n',
            decreases length - end,
        {
            end = end + 1;
        }
        let ghost rest = source@.skip(start as int);
        let ghost before = list@;
        proof {
            assert forall|i: int| 0 <= i < end - start implies rest[i] != '\n' by {
                assert(rest[i] == source@[start + i]);
            }
            line_end_is(rest, end - start);
        }
        let stop: usize = if end < length && end > start && letters[end - 1] == '\r' {
            end - 1
        } else {
            end
        };
        let line = source.substring_char(start, stop).to_owned();
        list.push(line);
        proof {
            assert(contents(list@) =~= contents(before).push(line@));
            if end < length {
                assert(line@ =~= without_return(rest.take(end - start)));
                assert(rest.skip(end - start + 1) =~= source@.skip(end + 1));
                assert(contents(list@) + lines_of(source@.skip(end + 1)) =~= contents(before) + lines_of(rest));
            } else {
                assert(line@ =~= rest);
                assert(source@.skip(length as int) =~= Seq::empty());
                assert(contents(list@) + lines_of(source@.skip(length as int)) =~= contents(before) + lines_of(rest));
            }
        }
        start = if end < length {
            end + 1
        } else {
            length
        };
    }
    proof {
        assert(source@.skip(length as int) =~= Seq::empty());
        assert(contents(list@) =~= lines_of(source@));
    }
    list
}

/// A text as it is quoted for a reader, with what cannot be shown escaped.
pub uninterp spec fn quoted(text: Seq<char>) -> Seq<char>;

/// Formats with `{:?}`, which is how the standard library quotes a string. What
/// it gives is a function of the characters alone.
#[verifier::external_body]
pub(crate) fn quote(text: &str) -> (quotation: String)
    ensures
        quotation@ == quoted(text@),
{
    format!("{:?}", text)
}

pub(crate) fn copies(list: &Vec<String>) -> (copy: Vec<String>)
    ensures
        contents(copy@) == contents(list@),
{
    let mut copy: Vec<String> = Vec::new();
    for i in 0..list.len()
        invariant
            contents(copy@) =~= contents(list@).take(i as int),
    {
        let ghost before = copy@;
        let name = list[i].as_str().to_owned();
        copy.push(name);
        assert(contents(copy@) =~= contents(before).push(contents(list@)[i as int]));
    }
    assert(contents(copy@) =~= contents(list@));
    copy
}

/// The number that decimal digits spell.
pub open spec fn number_spelled(digits: Seq<char>) -> int
    decreases digits.len(),
{
    if digits.len() == 0 {
        0
    } else {
        10 * number_spelled(digits.drop_last()) + (digits.last() as int - '0' as int)
    }
}

/// A decimal reads back as its number: the digits of one that is not negative spell
/// it, with no zero in front of others; and one that is negative is a minus before
/// the digits of what it is below zero.
pub proof fn a_decimal_reads_back(n: int)
    requires
        n >= 0,
    ensures
        number_spelled(decimal(n)) == n,
        decimal(n).len() > 0,
        forall|i: int| 0 <= i < decimal(n).len() ==> '0' <= #[trigger] decimal(n)[i] <= '9',
        n > 0 ==> decimal(n)[0] != '0',
        n > 0 ==> decimal(-n) == seq!['-'] + decimal(n),
    decreases n,
{
    reveal_strlit("0");
    reveal_strlit("1");
    reveal_strlit("2");
    reveal_strlit("3");
    reveal_strlit("4");
    reveal_strlit("5");
    reveal_strlit("6");
    reveal_strlit("7");
    reveal_strlit("8");
    reveal_strlit("9");
    reveal_strlit("-");
    reveal_with_fuel(number_spelled, 2);
    assert("-"@ =~= seq!['-']);
    if n < 10 {
        let text = decimal(n);
        assert(text.len() == 1);
        assert(text.drop_last() =~= Seq::empty());
    } else {
        a_decimal_reads_back(n / 10);
        let before = decimal(n / 10);
        let text = decimal(n);
        let last = digit(n % 10);
        assert(last.len() == 1);
        assert(text.drop_last() =~= before);
        assert(text.last() == last[0]);
        assert(last[0] as int - '0' as int == n % 10);
        assert(text[0] == before[0]);
        assert forall|i: int| 0 <= i < text.len() implies '0' <= #[trigger] text[i] <= '9' by {
            if i < before.len() {
                assert(text[i] == before[i]);
            }
        }
    }
}

/// Lines with their newlines behind them.
pub open spec fn written_out(lines: Seq<Seq<char>>) -> Seq<char>
    decreases lines.len(),
{
    if lines.len() == 0 {
        Seq::empty()
    } else {
        lines[0] + seq!['\n'] + written_out(lines.skip(1))
    }
}

proof fn a_line_ends_at_a_newline(text: Seq<char>)
    ensures
        0 <= line_end(text) <= text.len(),
        line_end(text) < text.len() ==> text[line_end(text)] == '\n',
        forall|i: int| 0 <= i < line_end(text) ==> #[trigger] text[i] != '\n',
    decreases text.len(),
{
    if text.len() > 0 && text[0] != '\n' {
        let rest = text.skip(1);
        a_line_ends_at_a_newline(rest);
        assert forall|i: int| 0 <= i < line_end(text) implies #[trigger] text[i] != '\n' by {
            if i > 0 {
                assert(rest[i - 1] == text[i]);
            }
        }
    }
}

/// The lines are the text: none holds a newline, and of a text without carriage
/// returns they are, each with a newline behind it, the text itself, or the text with
/// the newline that it lacks at its end.
pub proof fn the_lines_are_the_text(text: Seq<char>)
    ensures
        forall|i: int, k: int|
            0 <= i < lines_of(text).len() && 0 <= k < lines_of(text)[i].len() ==> #[trigger] lines_of(text)[i][k] != '\n',
        !text.contains('\r') && (text.len() == 0 || text.last() == '\n') ==> written_out(lines_of(text)) == text,
        !text.contains('\r') && text.len() > 0 && text.last() != '\n' ==> written_out(lines_of(text)) == text.push('\n'),
    decreases text.len(),
{
    a_line_ends_at_a_newline(text);
    let end = line_end(text);
    let lines = lines_of(text);
    if text.len() == 0 {
    } else if end >= text.len() {
        assert(lines[0] == text);
        assert(lines.skip(1) =~= Seq::empty());
        assert(written_out(lines.skip(1)) =~= Seq::empty());
        assert(written_out(lines) =~= text.push('\n'));
        assert(text[text.len() - 1] == text.last());
    } else {
        let first = text.take(end);
        let rest = text.skip(end + 1);
        the_lines_are_the_text(rest);
        assert(lines.skip(1) =~= lines_of(rest));
        assert forall|i: int, k: int|
            0 <= i < lines.len() && 0 <= k < lines[i].len() implies #[trigger] lines[i][k] != '\n' by {
            if i == 0 {
                assert(lines[0][k] == text[k]);
            } else {
                assert(lines[i] == lines_of(rest)[i - 1]);
                assert(lines_of(rest)[i - 1][k] != '\n');
            }
        }
        if !text.contains('\r') {
            assert(!rest.contains('\r')) by {
                if rest.contains('\r') {
                    let k = choose|k: int| 0 <= k < rest.len() && rest[k] == '\r';
                    assert(text[k + end + 1] == '\r');
                }
            }
            assert(without_return(first) == first) by {
                if first.len() > 0 {
                    assert(text[end - 1] == first.last());
                }
            }
            assert(text =~= first + seq!['\n'] + rest);
            if rest.len() == 0 {
                assert(text.last() == text[end]);
            } else {
                assert(rest.last() == text.last());
            }
            if text.last() == '\n' {
                assert(written_out(lines) =~= text);
            } else {
                assert(written_out(lines) =~= text.push('\n'));
            }
        }
    }
}

} // verus!
