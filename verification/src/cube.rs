//! Reading `.cube` files.
//!
//! A `.cube` file is a text. A line that starts with `#` is a comment. Of
//! the other lines, one with the two tokens `LUT_3D_SIZE` and a number
//! declares the edge of the cube, and one with three tokens is a row of the
//! table, its red, green and blue channel as decimal fractions of one. Lines
//! of any other shape are passed over. Rows are listed with red varying
//! fastest, then green, then blue.

use crate::decimal::{channel_of_token, parse_channel, parse_size, size_of_token};
use crate::lut::{cube, is_cube_of};
use crate::text::{
    chars_of, is_whitespace, lemma_lines_concat, lemma_run_len, lemma_run_len_bounds,
    lemma_single_line, line_end, lines, next_token, range_equals, run_len, split_whitespace,
};
use vstd::string::StringExecFns;
use vstd::prelude::*;

verus! {

/// Why a `.cube` file could not be read.
#[derive(Debug, PartialEq, Eq)]
pub enum CubeFileError {
    /// No line declares the edge of the cube.
    MissingSizeDirective,
    /// The number of rows is not the cube of the declared edge.
    SizeMismatch,
    /// A token that should be a number is not one. Lines count from one.
    MalformedNumber { line: usize, token: String },
}

/// A [`CubeFileError`] as a mathematical value.
pub enum CubeFault {
    MissingSizeDirective,
    SizeMismatch,
    MalformedNumber { line: int, token: Seq<char> },
}

impl View for CubeFileError {
    type V = CubeFault;

    open spec fn view(&self) -> CubeFault {
        match self {
            CubeFileError::MissingSizeDirective => CubeFault::MissingSizeDirective,
            CubeFileError::SizeMismatch => CubeFault::SizeMismatch,
            CubeFileError::MalformedNumber { line, token } => CubeFault::MalformedNumber {
                line: *line as int,
                token: token@,
            },
        }
    }
}

/// What one line of a `.cube` file says.
pub enum Row {
    /// A comment, a blank line, or a line of a shape that is passed over.
    Skipped,
    /// The edge of the cube.
    Size(usize),
    /// One entry of the table.
    Color([u8; 3]),
    /// A line of a known shape with a token that is not a number.
    Malformed(Seq<char>),
}

/// The word that announces the edge of the cube.
pub open spec fn size_keyword() -> Seq<char> {
    seq!['L', 'U', 'T', '_', '3', 'D', '_', 'S', 'I', 'Z', 'E']
}

/// What a row of three tokens says: its colour, or the first of the tokens
/// that is not a number.
pub open spec fn color_row(red: Seq<char>, green: Seq<char>, blue: Seq<char>) -> Row {
    match channel_of_token(red) {
        None => Row::Malformed(red),
        Some(r) => match channel_of_token(green) {
            None => Row::Malformed(green),
            Some(g) => match channel_of_token(blue) {
                None => Row::Malformed(blue),
                Some(b) => Row::Color([r, g, b]),
            },
        },
    }
}

/// What a line says.
pub open spec fn row_of_line(line: Seq<char>) -> Row {
    let tokens = split_whitespace(line);
    if line.len() > 0 && line[0] == '#' {
        Row::Skipped
    } else if tokens.len() == 2 && tokens[0] == size_keyword() {
        match size_of_token(tokens[1]) {
            Some(size) => Row::Size(size),
            None => Row::Malformed(tokens[1]),
        }
    } else if tokens.len() == 3 {
        color_row(tokens[0], tokens[1], tokens[2])
    } else {
        Row::Skipped
    }
}

/// Number of lines before the first malformed one.
pub open spec fn first_malformed(lines: Seq<Seq<char>>) -> nat {
    run_len(lines, |line: Seq<char>| row_of_line(line) is Malformed)
}

/// The edge that the lines declare: the last declaration counts.
pub open spec fn declared_size(lines: Seq<Seq<char>>) -> Option<usize>
    decreases lines.len(),
{
    if lines.len() == 0 {
        None
    } else {
        match row_of_line(lines.last()) {
            Row::Size(size) => Some(size),
            _ => declared_size(lines.drop_last()),
        }
    }
}

/// The table that the lines spell out: their colours, in order.
pub open spec fn table_of(lines: Seq<Seq<char>>) -> Seq<[u8; 3]>
    decreases lines.len(),
{
    if lines.len() == 0 {
        Seq::empty()
    } else {
        match row_of_line(lines.last()) {
            Row::Color(color) => table_of(lines.drop_last()).push(color),
            _ => table_of(lines.drop_last()),
        }
    }
}

/// What a sequence of lines amounts to. The first malformed number fails
/// the whole; without one, the table is the colours in order and its edge
/// the declared one, provided that the two agree.
pub open spec fn parse_lines(lines: Seq<Seq<char>>) -> Result<(Seq<[u8; 3]>, usize), CubeFault> {
    let bad = first_malformed(lines) as int;
    if bad < lines.len() {
        Err(CubeFault::MalformedNumber { line: bad + 1, token: row_of_line(lines[bad])->Malformed_0 })
    } else {
        match declared_size(lines) {
            None => Err(CubeFault::MissingSizeDirective),
            Some(size) => if table_of(lines).len() == cube(size as int) {
                Ok((table_of(lines), size))
            } else {
                Err(CubeFault::SizeMismatch)
            },
        }
    }
}

/// What the text of a `.cube` file amounts to.
pub open spec fn parse_cube(text: Seq<char>) -> Result<(Seq<[u8; 3]>, usize), CubeFault> {
    parse_lines(lines(text))
}

/// Parses the text of a `.cube` file into its table and the edge of its
/// cube.
///
/// Lines are taken in order. Comments, blank lines and lines that are
/// neither a size declaration nor a row of three tokens are passed over. A
/// later size declaration replaces an earlier one. Each channel is scaled by
/// 255, rounded to the nearest integer and clamped to `0..=255`.
///
/// The first token that should be a number and is not one fails the file,
/// whatever follows it. Otherwise the file fails if no size was declared, or
/// if the number of rows is not the cube of the declared size.
pub fn parse_cube_file(cube_file: &str) -> (result: Result<(Vec<[u8; 3]>, usize), CubeFileError>)
    ensures
        (match result {
            Ok((table, size)) => parse_cube(cube_file@) == Ok::<_, CubeFault>((table@, size)),
            Err(error) => parse_cube(cube_file@) == Err::<(Seq<[u8; 3]>, usize), _>(error@),
        }),
        result matches Ok((table, size)) ==> table@.len() == cube(size as int),
{
    let text = chars_of(cube_file);
    let mut table: Vec<[u8; 3]> = Vec::new();
    let mut size: Option<usize> = None;
    let mut start: usize = 0;
    let mut line_count: usize = 0;
    let ghost all = lines(text@);
    let ghost done: Seq<Seq<char>> = Seq::empty();
    let ghost malformed = |line: Seq<char>| row_of_line(line) is Malformed;
    proof {
        assert(text@.skip(0) == text@);
        assert(done + all == all);
    }
    while start < text.len()
        invariant
            start <= text@.len(),
            text@ == cube_file@,
            all == lines(text@),
            all == done + lines(text@.skip(start as int)),
            line_count == done.len() <= start,
            malformed == |line: Seq<char>| row_of_line(line) is Malformed,
            forall|i: int| 0 <= i < done.len() ==> !malformed(#[trigger] done[i]),
            table@ == table_of(done),
            size == declared_size(done),
        decreases text@.len() - start,
    {
        let end = line_end(text.as_slice(), start);
        let ghost rest = text@.skip(start as int);
        let ghost line = text@.subrange(start as int, end as int);
        let next = if end < text.len() {
            end + 1
        } else {
            end
        };
        proof {
            assert(rest.take(end - start) == line);
            if end < text.len() {
                assert(rest.skip(end - start + 1) == text@.skip(next as int));
            } else {
                assert(rest == line);
                assert(text@.skip(next as int) == Seq::<char>::empty());
            }
            assert(lines(rest) == seq![line] + lines(text@.skip(next as int)));
            assert(all == done.push(line) + lines(text@.skip(next as int)));
            assert(done.push(line).drop_last() == done);
            assert(all[done.len() as int] == line);
        }
        match scan_line(text.as_slice(), start, end) {
            Scanned::Skipped => {},
            Scanned::Size(declared) => {
                size = Some(declared);
            },
            Scanned::Color(color) => {
                table.push(color);
            },
            Scanned::Malformed(from, to) => {
                proof {
                    assert forall|i: int| 0 <= i < done.len() implies !malformed(#[trigger] all[i]) by {
                        assert(all[i] == done[i]);
                    }
                    lemma_run_len(all, malformed, done.len() as int);
                }
                let token = String::from_str(cube_file.substring_char(from, to));
                return Err(CubeFileError::MalformedNumber { line: line_count + 1, token });
            },
        }
        proof {
            done = done.push(line);
        }
        start = next;
        line_count += 1;
    }
    proof {
        assert(text@.skip(start as int) == Seq::<char>::empty());
        assert(all == done);
        lemma_run_len(all, malformed, all.len() as int);
    }
    match size {
        None => Err(CubeFileError::MissingSizeDirective),
        Some(declared) => {
            if is_cube_of(table.len(), declared) {
                Ok((table, declared))
            } else {
                Err(CubeFileError::SizeMismatch)
            }
        },
    }
}

/// What a line says, with a malformed token given by where it stands.
enum Scanned {
    Skipped,
    Size(usize),
    Color([u8; 3]),
    Malformed(usize, usize),
}

impl Scanned {
    /// The row that a scanned line of `text` stands for.
    spec fn row(self, text: Seq<char>) -> Row {
        match self {
            Scanned::Skipped => Row::Skipped,
            Scanned::Size(size) => Row::Size(size),
            Scanned::Color(color) => Row::Color(color),
            Scanned::Malformed(from, to) => Row::Malformed(text.subrange(from as int, to as int)),
        }
    }
}

/// Reads the line in `start..end` of `text`.
fn scan_line(text: &[char], start: usize, end: usize) -> (row: Scanned)
    requires
        start <= end <= text@.len(),
    ensures
        row.row(text@) == row_of_line(text@.subrange(start as int, end as int)),
        row matches Scanned::Malformed(from, to) ==> from <= to <= text@.len(),
{
    let ghost line = text@.subrange(start as int, end as int);
    let ghost tokens = split_whitespace(line);
    if start < end && text[start] == '#' {
        assert(line[0] == text@[start as int]);
        return Scanned::Skipped;
    }
    proof {
        if start < end {
            assert(line[0] == text@[start as int]);
        }
    }
    let first = next_token(text, start, end);
    if first.0 == first.1 {
        return Scanned::Skipped;
    }
    let second = next_token(text, first.1, end);
    if second.0 == second.1 {
        assert(tokens.len() == 1);
        return Scanned::Skipped;
    }
    let third = next_token(text, second.1, end);
    if third.0 == third.1 {
        assert(tokens.len() == 2);
        assert(tokens[0] == text@.subrange(first.0 as int, first.1 as int));
        assert(tokens[1] == text@.subrange(second.0 as int, second.1 as int));
        let keyword = ['L', 'U', 'T', '_', '3', 'D', '_', 'S', 'I', 'Z', 'E'];
        assert(keyword@ == size_keyword());
        if !range_equals(text, first.0, first.1, &keyword) {
            return Scanned::Skipped;
        }
        return match parse_size(text, second.0, second.1) {
            Some(size) => Scanned::Size(size),
            None => Scanned::Malformed(second.0, second.1),
        };
    }
    let fourth = next_token(text, third.1, end);
    if fourth.0 != fourth.1 {
        assert(tokens.len() >= 4);
        return Scanned::Skipped;
    }
    assert(tokens.len() == 3);
    assert(tokens[0] == text@.subrange(first.0 as int, first.1 as int));
    assert(tokens[1] == text@.subrange(second.0 as int, second.1 as int));
    assert(tokens[2] == text@.subrange(third.0 as int, third.1 as int));
    scan_color(text, first, second, third)
}

/// Reads the three channels of a row.
fn scan_color(text: &[char], red: (usize, usize), green: (usize, usize), blue: (usize, usize)) -> (row:
    Scanned)
    requires
        red.0 <= red.1 <= text@.len(),
        green.0 <= green.1 <= text@.len(),
        blue.0 <= blue.1 <= text@.len(),
    ensures
        row.row(text@) == color_row(
            text@.subrange(red.0 as int, red.1 as int),
            text@.subrange(green.0 as int, green.1 as int),
            text@.subrange(blue.0 as int, blue.1 as int),
        ),
        row matches Scanned::Malformed(from, to) ==> from <= to <= text@.len(),
{
    let r = match parse_channel(text, red.0, red.1) {
        Some(r) => r,
        None => {
            return Scanned::Malformed(red.0, red.1);
        },
    };
    let g = match parse_channel(text, green.0, green.1) {
        Some(g) => g,
        None => {
            return Scanned::Malformed(green.0, green.1);
        },
    };
    let b = match parse_channel(text, blue.0, blue.1) {
        Some(b) => b,
        None => {
            return Scanned::Malformed(blue.0, blue.1);
        },
    };
    Scanned::Color([r, g, b])
}

/// Without a size declaration, and without a malformed number to fail on
/// first, a file fails for want of its size, whatever rows it holds.
pub proof fn lemma_size_is_required(text: Seq<char>)
    requires
        forall|i: int|
            0 <= i < lines(text).len() ==> !(row_of_line(#[trigger] lines(text)[i]) is Size)
                && !(row_of_line(lines(text)[i]) is Malformed),
    ensures
        parse_cube(text) == Err::<(Seq<[u8; 3]>, usize), _>(CubeFault::MissingSizeDirective),
{
    let all = lines(text);
    lemma_run_len(all, |line: Seq<char>| row_of_line(line) is Malformed, all.len() as int);
    lemma_no_size_declared(all);
}

/// Lines none of which declares a size declare none.
proof fn lemma_no_size_declared(lines: Seq<Seq<char>>)
    requires
        forall|i: int| 0 <= i < lines.len() ==> !(row_of_line(#[trigger] lines[i]) is Size),
    ensures
        declared_size(lines) is None,
    decreases lines.len(),
{
    if lines.len() > 0 {
        let shorter = lines.drop_last();
        assert forall|i: int| 0 <= i < shorter.len() implies !(row_of_line(
            #[trigger] shorter[i],
        ) is Size) by {
            assert(shorter[i] == lines[i]);
        }
        lemma_no_size_declared(shorter);
        assert(!(row_of_line(lines[lines.len() - 1]) is Size));
    }
}

/// A line that starts with `#`.
pub open spec fn is_comment(line: Seq<char>) -> bool {
    line.len() > 0 && line[0] == '#'
}

/// A line of nothing but whitespace.
pub open spec fn is_blank(line: Seq<char>) -> bool {
    forall|i: int| 0 <= i < line.len() ==> is_whitespace(#[trigger] line[i])
}

/// An outcome as it is reported when one more line stands after the first
/// `above` lines: a malformed number further down is found one line later.
pub open spec fn delayed(outcome: Result<(Seq<[u8; 3]>, usize), CubeFault>, above: int) -> Result<
    (Seq<[u8; 3]>, usize),
    CubeFault,
> {
    match outcome {
        Err(CubeFault::MalformedNumber { line, token }) => if line > above {
            Err(CubeFault::MalformedNumber { line: line + 1, token })
        } else {
            outcome
        },
        _ => outcome,
    }
}

/// Comments and blank lines may be put between any two lines of a file, or
/// taken out from there, as any line that is skipped may.
pub proof fn lemma_comments_and_blank_lines_change_nothing(
    before: Seq<char>,
    line: Seq<char>,
    after: Seq<char>,
)
    requires
        before.len() == 0 || before.last() == '\n',
        forall|i: int| 0 <= i < line.len() ==> #[trigger] line[i] != '\n',
        is_comment(line) || is_blank(line),
    ensures
        parse_cube(before + line.push('\n') + after) == delayed(
            parse_cube(before + after),
            lines(before).len() as int,
        ),
        parse_cube(before + after) is Ok ==> parse_cube(before + line.push('\n') + after)
            == parse_cube(before + after),
{
    if !is_comment(line) {
        lemma_blank_has_no_tokens(line);
    }
    lemma_skipped_line_changes_nothing(before, line, after);
}

/// A line that is skipped may be put between any two lines of a file, or
/// taken out from there: the table and its size stay what they were, and so
/// does a failure, but for the number of a line further down.
pub proof fn lemma_skipped_line_changes_nothing(
    before: Seq<char>,
    line: Seq<char>,
    after: Seq<char>,
)
    requires
        before.len() == 0 || before.last() == '\n',
        forall|i: int| 0 <= i < line.len() ==> #[trigger] line[i] != '\n',
        row_of_line(line) is Skipped,
    ensures
        parse_cube(before + line.push('\n') + after) == delayed(
            parse_cube(before + after),
            lines(before).len() as int,
        ),
{
    let ended = line.push('\n');
    let head = lines(before);
    let tail = lines(after);
    lemma_single_line(line);
    lemma_lines_concat(before, ended);
    assert((before + ended).last() == '\n');
    lemma_lines_concat(before + ended, after);
    lemma_lines_concat(before, after);
    assert(lines(before + ended + after) == head + seq![line] + tail);
    lemma_skipped_line_adds_nothing(head, line, tail);
    lemma_skipped_line_delays(head, line, tail);
}

/// A line that is skipped may also be put after the last line of a file
/// that ends in a line feed, or be taken away from there.
pub proof fn lemma_skipped_last_line_changes_nothing(before: Seq<char>, line: Seq<char>)
    requires
        before.len() == 0 || before.last() == '\n',
        forall|i: int| 0 <= i < line.len() ==> #[trigger] line[i] != '\n',
        row_of_line(line) is Skipped,
    ensures
        parse_cube(before + line) == parse_cube(before),
{
    if line.len() == 0 {
        assert(before + line == before);
    } else {
        let head = lines(before);
        let none = Seq::<Seq<char>>::empty();
        lemma_single_line(line);
        lemma_lines_concat(before, line);
        assert(head + seq![line] + none == head + seq![line]);
        assert(head + none == head);
        lemma_skipped_line_adds_nothing(head, line, none);
        lemma_skipped_line_delays(head, line, none);
        lemma_run_len_bounds(head, |line: Seq<char>| row_of_line(line) is Malformed);
    }
}

/// Whitespace alone holds no token.
pub proof fn lemma_blank_has_no_tokens(line: Seq<char>)
    requires
        is_blank(line),
    ensures
        split_whitespace(line) == Seq::<Seq<char>>::empty(),
    decreases line.len(),
{
    if line.len() > 0 {
        let rest = line.skip(1);
        assert forall|i: int| 0 <= i < rest.len() implies is_whitespace(#[trigger] rest[i]) by {
            assert(rest[i] == line[i + 1]);
        }
        lemma_blank_has_no_tokens(rest);
        assert(is_whitespace(line[0]));
    }
}

/// A skipped line adds nothing to the table and declares no size.
proof fn lemma_skipped_line_adds_nothing(head: Seq<Seq<char>>, line: Seq<char>, tail: Seq<Seq<char>>)
    requires
        row_of_line(line) is Skipped,
    ensures
        declared_size(head + seq![line] + tail) == declared_size(head + tail),
        table_of(head + seq![line] + tail) == table_of(head + tail),
    decreases tail.len(),
{
    let longer = head + seq![line] + tail;
    let shorter = head + tail;
    if tail.len() == 0 {
        assert(longer.drop_last() == head);
        assert(longer.last() == line);
        assert(shorter == head);
    } else {
        assert(longer.drop_last() == head + seq![line] + tail.drop_last());
        assert(longer.last() == tail.last());
        assert(shorter.drop_last() == head + tail.drop_last());
        assert(shorter.last() == tail.last());
        lemma_skipped_line_adds_nothing(head, line, tail.drop_last());
    }
}

/// A skipped line moves the first malformed line down by one if it stands
/// above it, and leaves it where it is otherwise.
proof fn lemma_skipped_line_delays(head: Seq<Seq<char>>, line: Seq<char>, tail: Seq<Seq<char>>)
    requires
        row_of_line(line) is Skipped,
    ensures
        first_malformed(head + tail) < head.len() ==> first_malformed(head + seq![line] + tail)
            == first_malformed(head + tail) && (head + seq![line] + tail)[first_malformed(
            head + tail,
        ) as int] == (head + tail)[first_malformed(head + tail) as int],
        first_malformed(head + tail) >= head.len() ==> first_malformed(head + seq![line] + tail)
            == first_malformed(head + tail) + 1,
        head.len() <= first_malformed(head + tail) < (head + tail).len() ==> (head + seq![line]
            + tail)[first_malformed(head + tail) as int + 1] == (head + tail)[first_malformed(
            head + tail,
        ) as int],
{
    let malformed = |line: Seq<char>| row_of_line(line) is Malformed;
    let longer = head + seq![line] + tail;
    let shorter = head + tail;
    let at = first_malformed(shorter) as int;
    lemma_run_len_bounds(shorter, malformed);
    if at < head.len() {
        assert forall|i: int| 0 <= i < at implies !malformed(#[trigger] longer[i]) by {
            assert(longer[i] == shorter[i]);
        }
        assert(longer[at] == shorter[at]);
        lemma_run_len(longer, malformed, at);
    } else {
        assert forall|i: int| 0 <= i < at + 1 implies !malformed(#[trigger] longer[i]) by {
            if i < head.len() {
                assert(longer[i] == shorter[i]);
            } else if i > head.len() {
                assert(longer[i] == shorter[i - 1]);
            } else {
                assert(longer[i] == line);
            }
        }
        if at < shorter.len() {
            assert(longer[at + 1] == shorter[at]);
        }
        lemma_run_len(longer, malformed, at + 1);
    }
}

} // verus!
