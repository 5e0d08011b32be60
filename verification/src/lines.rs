//! The physical lines of a text. A line ends with its line feed; the last
//! line may lack one.

use vstd::prelude::*;
use vstd::string::*;
use crate::text::{lemma_suffix_start, lemma_suffix_start_unique, suffix_start};

verus! {

/// A line of a text: where it starts and how many characters it holds, its
/// line feed included.
#[derive(Clone, Copy, Debug, PartialEq, Eq, Structural)]
pub struct LineSpan {
    pub start: usize,
    pub len: usize,
}

/// The offset just past a line.
pub open spec fn line_end(line: LineSpan) -> int {
    line.start + line.len
}

/// Where the last line of a text that is not empty starts: behind the last
/// line feed that is not the text's last character.
pub open spec fn last_line_start(text: Seq<char>) -> int {
    suffix_start(text.drop_last(), '\n')
}

/// The lines of a text, first to last.
pub open spec fn lines_of(text: Seq<char>) -> Seq<LineSpan>
    decreases text.len(),
{
    if text.len() == 0 {
        Seq::empty()
    } else {
        proof {
            lemma_suffix_start(text.drop_last(), '\n');
        }
        let start = last_line_start(text);
        lines_of(text.take(start)).push(
            LineSpan { start: start as usize, len: (text.len() - start) as usize },
        )
    }
}

/// What it is to be the lines of a text: the lines are not empty, lie end
/// to end from offset 0 to the text's end, hold no line feed but as their
/// last character, and each but the last ends with one.
pub open spec fn is_line_split(text: Seq<char>, lines: Seq<LineSpan>) -> bool {
    &&& forall|i: int| 0 <= i < lines.len() ==> (#[trigger] lines[i]).len > 0
    &&& forall|i: int| 0 <= i < lines.len() ==> line_end(#[trigger] lines[i]) <= text.len()
    &&& lines.len() > 0 ==> lines[0].start == 0
    &&& forall|i: int, j: int|
        0 <= i && j == i + 1 && j < lines.len() ==> (#[trigger] lines[j]).start == line_end(
            #[trigger] lines[i],
        )
    &&& lines.len() > 0 ==> line_end(lines.last()) == text.len()
    &&& lines.len() == 0 ==> text.len() == 0
    &&& forall|i: int, p: int|
        #![trigger lines[i], text[p]]
        0 <= i < lines.len() && lines[i].start <= p < line_end(lines[i]) - 1 ==> text[p] != '\n'
    &&& forall|i: int|
        0 <= i < lines.len() - 1 ==> text[line_end(#[trigger] lines[i]) - 1] == '\n'
}

/// The lines of a prefix that ends where a line ends: those of the text
/// before that line, and the line.
pub proof fn lemma_lines_push(text: Seq<char>, start: int, end: int)
    requires
        0 <= start < end <= text.len(),
        start > 0 ==> text[start - 1] == '\n',
        forall|p: int| start <= p < end - 1 ==> text[p] != '\n',
    ensures
        lines_of(text.take(end)) == lines_of(text.take(start)).push(
            LineSpan { start: start as usize, len: (end - start) as usize },
        ),
{
    let head = text.take(end);
    assert(head.drop_last() == text.take(end - 1));
    lemma_suffix_start_unique(text.take(end - 1), '\n', start);
    assert(head.take(start) == text.take(start));
}

/// `lines_of` gives the lines of the text.
pub proof fn lemma_lines_of(text: Seq<char>)
    requires
        text.len() <= usize::MAX,
    ensures
        is_line_split(text, lines_of(text)),
    decreases text.len(),
{
    if text.len() > 0 {
        let body = text.drop_last();
        lemma_suffix_start(body, '\n');
        let start = last_line_start(text);
        let head = text.take(start);
        let prev = lines_of(head);
        let last = LineSpan { start: start as usize, len: (text.len() - start) as usize };
        let lines = prev.push(last);
        lemma_lines_of(head);
        assert(lines == lines_of(text));
        if start > 0 {
            assert(body[start - 1] == text[start - 1]);
            assert(prev.len() > 0);
        } else {
            assert(prev.len() == 0);
        }
        assert forall|i: int, j: int| 0 <= i && j == i + 1 && j < lines.len() implies (
        #[trigger] lines[j]).start == line_end(#[trigger] lines[i]) by {
            if j < prev.len() {
                assert(prev[j].start == line_end(prev[i]));
            } else {
                assert(lines[i] == prev.last());
            }
        }
        assert forall|i: int, p: int|
            #![trigger lines[i], text[p]]
            0 <= i < lines.len() && lines[i].start <= p < line_end(lines[i]) - 1 implies text[p]
            != '\n' by {
            if i < prev.len() {
                assert(line_end(prev[i]) <= head.len());
                assert(head[p] == text[p]);
            } else {
                assert(body[p] == text[p]);
            }
        }
        assert forall|i: int| 0 <= i < lines.len() - 1 implies text[line_end(
            #[trigger] lines[i],
        ) - 1] == '\n' by {
            assert(line_end(prev[i]) <= head.len());
            if i < prev.len() - 1 {
                assert(head[line_end(prev[i]) - 1] == text[line_end(prev[i]) - 1]);
            } else {
                assert(prev[i] == prev.last());
            }
        }
        assert forall|i: int| 0 <= i < lines.len() implies line_end(#[trigger] lines[i])
            <= text.len() by {
            if i < prev.len() {
                assert(line_end(prev[i]) <= head.len());
            }
        }
    }
}

/// A text has one split into lines only: what `lines_of` gives.
pub proof fn lemma_line_split_unique(text: Seq<char>, lines: Seq<LineSpan>)
    requires
        is_line_split(text, lines),
    ensures
        lines == lines_of(text),
    decreases text.len(),
{
    if text.len() == 0 {
        if lines.len() > 0 {
            assert(lines[0].len > 0 && line_end(lines[0]) <= 0);
        }
        assert(lines =~= Seq::<LineSpan>::empty());
    } else {
        let last = lines.last();
        let start = last.start as int;
        let head = text.take(start);
        let prev = lines.drop_last();
        assert(last == lines[lines.len() - 1]);
        assert(last.len > 0);
        if lines.len() > 1 {
            assert(lines[lines.len() - 1].start == line_end(lines[lines.len() - 2]));
            assert(text[line_end(lines[lines.len() - 2]) - 1] == '\n');
            assert(lines[lines.len() - 2].len > 0);
        }
        assert forall|p: int| start <= p < text.len() - 1 implies text[p] != '\n' by {
            assert(lines[lines.len() - 1].start <= p < line_end(lines[lines.len() - 1]) - 1);
        }
        lemma_lines_push(text, start, text.len() as int);
        assert(text.take(text.len() as int) == text);
        assert forall|i: int| 0 <= i < prev.len() implies line_end(#[trigger] prev[i])
            <= head.len() by {
            lemma_line_ends_ascend(text, lines, i, lines.len() - 2);
        }
        assert forall|i: int, j: int| 0 <= i && j == i + 1 && j < prev.len() implies (
        #[trigger] prev[j]).start == line_end(#[trigger] prev[i]) by {
            assert(lines[j].start == line_end(lines[i]));
        }
        assert forall|i: int, p: int|
            #![trigger prev[i], head[p]]
            0 <= i < prev.len() && prev[i].start <= p < line_end(prev[i]) - 1 implies head[p]
            != '\n' by {
            assert(line_end(prev[i]) <= head.len());
            assert(lines[i].start <= p < line_end(lines[i]) - 1);
            assert(text[p] != '\n');
        }
        assert forall|i: int| 0 <= i < prev.len() - 1 implies head[line_end(#[trigger] prev[i])
            - 1] == '\n' by {
            assert(line_end(prev[i]) <= head.len());
            assert(prev[i].len > 0);
            assert(text[line_end(lines[i]) - 1] == '\n');
        }
        if prev.len() > 0 {
            assert(prev[0] == lines[0]);
            assert(prev.last() == lines[lines.len() - 2]);
        }
        assert(is_line_split(head, prev));
        lemma_line_split_unique(head, prev);
        assert(lines =~= prev.push(last));
    }
}

/// In a split, a line ends no later than any line behind it.
proof fn lemma_line_ends_ascend(text: Seq<char>, lines: Seq<LineSpan>, i: int, j: int)
    requires
        is_line_split(text, lines),
        0 <= i <= j < lines.len(),
    ensures
        line_end(lines[i]) <= line_end(lines[j]),
    decreases j - i,
{
    if i < j {
        lemma_line_ends_ascend(text, lines, i + 1, j);
        assert(lines[i + 1].start == line_end(lines[i]));
    }
}

/// Splits a text into its lines.
pub fn line_spans(text: &str) -> (lines: Vec<LineSpan>)
    ensures
        lines@ == lines_of(text@),
        is_line_split(text@, lines@),
        text@.len() <= usize::MAX,
{
    let n: usize = text.unicode_len();
    let mut lines: Vec<LineSpan> = Vec::new();
    let mut start: usize = 0;
    let mut i: usize = 0;
    for c in it: text.chars()
        invariant
            it.seq() == text@,
            n == text@.len(),
            i == it.index(),
            start <= i <= n,
            start > 0 ==> text@[start - 1] == '\n',
            forall|p: int| start <= p < i ==> text@[p] != '\n',
            lines@ == lines_of(text@.take(start as int)),
    {
        i = i + 1;
        if c == '\n' {
            proof {
                lemma_lines_push(text@, start as int, i as int);
            }
            lines.push(LineSpan { start: start, len: i - start });
            start = i;
        }
    }
    if start < n {
        proof {
            lemma_lines_push(text@, start as int, n as int);
        }
        lines.push(LineSpan { start: start, len: n - start });
    }
    proof {
        assert(text@.take(n as int) == text@);
        lemma_lines_of(text@);
    }
    lines
}

} // verus!
