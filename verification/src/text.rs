//! Lines and whitespace-separated tokens of a text, over its characters.

use vstd::prelude::*;

verus! {

/// The characters with the Unicode property `White_Space`.
pub open spec fn is_whitespace(c: char) -> bool {
    let code = c as int;
    ||| 0x09 <= code <= 0x0D
    ||| code == 0x20
    ||| code == 0x85
    ||| code == 0xA0
    ||| code == 0x1680
    ||| 0x2000 <= code <= 0x200A
    ||| code == 0x2028
    ||| code == 0x2029
    ||| code == 0x202F
    ||| code == 0x205F
    ||| code == 0x3000
}

/// Length of the longest prefix of `text` that holds no item at which `stop`
/// is true.
pub open spec fn run_len<T>(text: Seq<T>, stop: spec_fn(T) -> bool) -> nat
    decreases text.len(),
{
    if text.len() == 0 || stop(text[0]) {
        0
    } else {
        1 + run_len(text.skip(1), stop)
    }
}

/// Number of characters before the first line feed, or the whole length
/// where there is none.
pub open spec fn line_len(text: Seq<char>) -> nat {
    run_len(text, |c: char| c == '\n')
}

/// The lines of a text. A line ends at a line feed, which is not part of it;
/// the last line needs none, and a text that ends in a line feed has no
/// empty line after it.
pub open spec fn lines(text: Seq<char>) -> Seq<Seq<char>>
    decreases text.len(),
{
    let n = line_len(text) as int;
    if text.len() == 0 {
        Seq::empty()
    } else if n >= text.len() {
        seq![text]
    } else {
        seq![text.take(n)] + lines(text.skip(n + 1))
    }
}

/// Length of the longest prefix without whitespace.
pub open spec fn token_len(text: Seq<char>) -> nat {
    run_len(text, |c: char| is_whitespace(c))
}

/// The maximal runs of characters other than whitespace, in order.
pub open spec fn split_whitespace(text: Seq<char>) -> Seq<Seq<char>>
    decreases text.len(),
{
    let n = token_len(text) as int;
    if text.len() == 0 {
        Seq::empty()
    } else if n == 0 {
        split_whitespace(text.skip(1))
    } else if n >= text.len() {
        seq![text]
    } else {
        seq![text.take(n)] + split_whitespace(text.skip(n))
    }
}

/// The characters of a string.
pub fn chars_of(text: &str) -> (chars: Vec<char>)
    ensures
        chars@ == text@,
{
    let mut chars: Vec<char> = Vec::new();
    for c in it: text.chars()
        invariant
            chars@ == it.seq().take(it.index() as int),
    {
        chars.push(c);
    }
    chars
}

/// Tells whether a character is whitespace.
pub fn char_is_whitespace(c: char) -> (yes: bool)
    ensures
        yes == is_whitespace(c),
{
    let code: u32 = c as u32;
    (0x09 <= code && code <= 0x0D) || code == 0x20 || code == 0x85 || code == 0xA0 || code
        == 0x1680 || (0x2000 <= code && code <= 0x200A) || code == 0x2028 || code == 0x2029 || code
        == 0x202F || code == 0x205F || code == 0x3000
}

/// Finds where the line that starts at `start` ends: at the next line feed,
/// or at the end of the text.
pub fn line_end(text: &[char], start: usize) -> (end: usize)
    requires
        start <= text@.len(),
    ensures
        start <= end <= text@.len(),
        end - start == line_len(text@.skip(start as int)),
{
    let mut end = start;
    while end < text.len() && text[end] != '\n'
        invariant
            start <= end <= text@.len(),
            forall|i: int| start <= i < end ==> text@[i] != '\n',
        decreases text@.len() - end,
    {
        end += 1;
    }
    proof {
        let rest = text@.skip(start as int);
        lemma_run_len(rest, |c: char| c == '\n', end - start);
    }
    end
}

/// Finds the first token at or after `from` in the part of `text` that ends
/// at `end`: where it starts and where it stops. Where only whitespace is
/// left, both bounds are `end`.
pub fn next_token(text: &[char], from: usize, end: usize) -> (bounds: (usize, usize))
    requires
        from <= end <= text@.len(),
    ensures
        from <= bounds.0 <= bounds.1 <= end,
        forall|i: int| from <= i < bounds.0 ==> is_whitespace(#[trigger] text@[i]),
        forall|i: int| bounds.0 <= i < bounds.1 ==> !is_whitespace(#[trigger] text@[i]),
        bounds.1 < end ==> is_whitespace(text@[bounds.1 as int]),
        bounds.0 == bounds.1 ==> bounds.0 == end && split_whitespace(
            text@.subrange(from as int, end as int),
        ) == Seq::<Seq<char>>::empty(),
        bounds.0 < bounds.1 ==> split_whitespace(text@.subrange(from as int, end as int)) == seq![
            text@.subrange(bounds.0 as int, bounds.1 as int),
        ] + split_whitespace(text@.subrange(bounds.1 as int, end as int)),
{
    let ghost stop = |c: char| is_whitespace(c);
    let mut first = from;
    while first < end && char_is_whitespace(text[first])
        invariant
            from <= first <= end <= text@.len(),
            forall|i: int| from <= i < first ==> is_whitespace(#[trigger] text@[i]),
            split_whitespace(text@.subrange(from as int, end as int)) == split_whitespace(
                text@.subrange(first as int, end as int),
            ),
        decreases end - first,
    {
        proof {
            let here = text@.subrange(first as int, end as int);
            assert(here[0] == text@[first as int]);
            assert(token_len(here) == 0);
            assert(here.skip(1) == text@.subrange(first + 1, end as int));
        }
        first += 1;
    }
    let mut last = first;
    while last < end && !char_is_whitespace(text[last])
        invariant
            first <= last <= end <= text@.len(),
            forall|i: int| first <= i < last ==> !is_whitespace(text@[i]),
        decreases end - last,
    {
        last += 1;
    }
    proof {
        let here = text@.subrange(first as int, end as int);
        assert forall|i: int| 0 <= i < last - first implies !stop(#[trigger] here[i]) by {
            assert(here[i] == text@[first + i]);
        }
        if last < end {
            assert(here[last - first] == text@[last as int]);
        }
        lemma_run_len(here, stop, last - first);
        assert(token_len(here) == last - first);
        if first < last {
            assert(here.take(last - first) == text@.subrange(first as int, last as int));
            assert(here.skip(last - first) == text@.subrange(last as int, end as int));
            if last == end {
                assert(here.take(last - first) == here);
                assert(split_whitespace(text@.subrange(last as int, end as int)) == Seq::<
                    Seq<char>,
                >::empty());
            }
        } else {
            assert(here.len() == 0);
        }
    }
    (first, last)
}

/// Tells whether the characters in `from..to` of `text` are those of `word`.
pub fn range_equals(text: &[char], from: usize, to: usize, word: &[char]) -> (yes: bool)
    requires
        from <= to <= text@.len(),
    ensures
        yes == (text@.subrange(from as int, to as int) == word@),
{
    let ghost here = text@.subrange(from as int, to as int);
    if to - from != word.len() {
        return false;
    }
    let mut k: usize = 0;
    while k < word.len()
        invariant
            k <= word@.len() == to - from,
            from <= to <= text@.len(),
            here == text@.subrange(from as int, to as int),
            forall|i: int| 0 <= i < k ==> #[trigger] here[i] == word@[i],
        decreases word@.len() - k,
    {
        assert(here[k as int] == text@[from + k]);
        if text[from + k] != word[k] {
            return false;
        }
        k += 1;
    }
    assert(here =~= word@);
    true
}

/// A run is as long as the position of the first item that stops it.
pub proof fn lemma_run_len<T>(text: Seq<T>, stop: spec_fn(T) -> bool, n: int)
    requires
        0 <= n <= text.len(),
        forall|i: int| 0 <= i < n ==> !stop(#[trigger] text[i]),
        n < text.len() ==> stop(text[n]),
    ensures
        run_len(text, stop) == n,
    decreases n,
{
    if n > 0 {
        let rest = text.skip(1);
        assert forall|i: int| 0 <= i < n - 1 implies !stop(#[trigger] rest[i]) by {
            assert(rest[i] == text[i + 1]);
        }
        lemma_run_len(rest, stop, n - 1);
    }
}

/// A run ends within the text, stops at nothing before its end, and is
/// followed by an item that stops it unless the text ends there.
pub proof fn lemma_run_len_bounds<T>(text: Seq<T>, stop: spec_fn(T) -> bool)
    ensures
        run_len(text, stop) <= text.len(),
        forall|i: int| 0 <= i < run_len(text, stop) ==> !stop(#[trigger] text[i]),
        run_len(text, stop) < text.len() ==> stop(text[run_len(text, stop) as int]),
    decreases text.len(),
{
    if text.len() > 0 && !stop(text[0]) {
        let rest = text.skip(1);
        lemma_run_len_bounds(rest, stop);
        assert forall|i: int| 0 <= i < run_len(text, stop) implies !stop(#[trigger] text[i]) by {
            if i > 0 {
                assert(text[i] == rest[i - 1]);
            }
        }
        let n = run_len(rest, stop) as int;
        if n < rest.len() {
            assert(text[n + 1] == rest[n]);
        }
    }
}

/// A text without line feeds is one line, with a line feed after it or
/// without.
pub proof fn lemma_single_line(line: Seq<char>)
    requires
        forall|i: int| 0 <= i < line.len() ==> #[trigger] line[i] != '\n',
    ensures
        lines(line.push('\n')) == seq![line],
        line.len() > 0 ==> lines(line) == seq![line],
{
    let stop = |c: char| c == '\n';
    let ended = line.push('\n');
    assert forall|i: int| 0 <= i < line.len() implies !stop(#[trigger] ended[i]) by {
        assert(ended[i] == line[i]);
    }
    lemma_run_len(ended, stop, line.len() as int);
    assert(ended.take(line.len() as int) == line);
    assert(ended.skip(line.len() as int + 1) == Seq::<char>::empty());
    assert(lines(Seq::<char>::empty()) == Seq::<Seq<char>>::empty());
    assert(lines(ended) == seq![line] + Seq::<Seq<char>>::empty());
    if line.len() > 0 {
        assert forall|i: int| 0 <= i < line.len() implies !stop(#[trigger] line[i]) by {}
        lemma_run_len(line, stop, line.len() as int);
    }
}

/// A text may be cut after any line feed: its lines are those of the part
/// before the cut, then those of the part after it.
pub proof fn lemma_lines_concat(first: Seq<char>, second: Seq<char>)
    requires
        first.len() == 0 || first.last() == '\n',
    ensures
        lines(first + second) == lines(first) + lines(second),
    decreases first.len(),
{
    if first.len() == 0 {
        assert(first + second == second);
        assert(lines(first) + lines(second) == lines(second));
    } else {
        let stop = |c: char| c == '\n';
        let whole = first + second;
        lemma_run_len_bounds(first, stop);
        let n = line_len(first) as int;
        assert(n < first.len()) by {
            if n >= first.len() {
                assert(!stop(first[first.len() - 1]));
            }
        }
        assert forall|i: int| 0 <= i < n implies !stop(#[trigger] whole[i]) by {
            assert(whole[i] == first[i]);
        }
        assert(whole[n] == first[n]);
        lemma_run_len(whole, stop, n);
        let rest = first.skip(n + 1);
        assert(whole.take(n) == first.take(n));
        assert(whole.skip(n + 1) == rest + second);
        if rest.len() > 0 {
            assert(rest.last() == first.last());
        }
        lemma_lines_concat(rest, second);
        assert(lines(whole) == seq![first.take(n)] + (lines(rest) + lines(second)));
        assert(lines(first) == seq![first.take(n)] + lines(rest));
    }
}

} // verus!
