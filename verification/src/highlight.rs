//! Style runs: where on a text each token of a tokenizer's answer lies.
//!
//! A tokenizer works line by line and answers each line with tokens, each a
//! length and a style. The runs of a text place those tokens at running
//! offsets. A line whose tokens do not add up to the line's length is left
//! unstyled.

use vstd::prelude::*;
use crate::lines::{is_line_split, line_end, line_spans, lines_of, LineSpan};

verus! {

/// Visual attributes of a stretch of text: foreground colour as `0xRRGGBB`,
/// weight and slant.
#[derive(Clone, Copy, Debug, PartialEq, Eq, Structural)]
pub struct Style {
    pub color: u32,
    pub bold: bool,
    pub italic: bool,
}

/// One token of a line: how many characters it spans and how to show them.
#[derive(Clone, Copy, Debug, PartialEq, Eq, Structural)]
pub struct Token {
    pub len: usize,
    pub style: Style,
}

/// A stretch of the text shown in one style. Offsets and lengths count
/// characters, from the start of the text.
#[derive(Clone, Copy, Debug, PartialEq, Eq, Structural)]
pub struct StyleRun {
    pub start: usize,
    pub len: usize,
    pub color: u32,
    pub bold: bool,
    pub italic: bool,
}

impl StyleRun {
    pub open spec fn spec_style(self) -> Style {
        Style { color: self.color, bold: self.bold, italic: self.italic }
    }

    /// The offset just past the run.
    pub open spec fn end(self) -> int {
        self.start + self.len
    }

    pub fn style(&self) -> (s: Style)
        ensures
            s == self.spec_style(),
    {
        Style { color: self.color, bold: self.bold, italic: self.italic }
    }
}

/// The characters that a row of tokens spans.
pub open spec fn total_len(tokens: Seq<Token>) -> int
    decreases tokens.len(),
{
    if tokens.len() == 0 {
        0
    } else {
        total_len(tokens.drop_last()) + tokens.last().len
    }
}

/// The run of the `k`-th token of a row that starts at offset `start`.
pub open spec fn run_at(start: int, tokens: Seq<Token>, k: int) -> StyleRun {
    StyleRun {
        start: (start + total_len(tokens.take(k))) as usize,
        len: tokens[k].len,
        color: tokens[k].style.color,
        bold: tokens[k].style.bold,
        italic: tokens[k].style.italic,
    }
}

/// The runs of one line: one for each token where the tokens add up to the
/// line, none otherwise.
pub open spec fn line_runs(line: LineSpan, tokens: Seq<Token>) -> Seq<StyleRun> {
    if total_len(tokens) == line.len {
        Seq::new(tokens.len(), |k: int| run_at(line.start as int, tokens, k))
    } else {
        Seq::empty()
    }
}

/// The tokens of each line as sequences.
pub open spec fn token_rows(tokens: Seq<Vec<Token>>) -> Seq<Seq<Token>> {
    tokens.map_values(|row: Vec<Token>| row@)
}

/// The tokens of line `i`; none for a line that the tokenizer did not
/// answer.
pub open spec fn row_of(rows: Seq<Seq<Token>>, i: int) -> Seq<Token> {
    if 0 <= i < rows.len() {
        rows[i]
    } else {
        Seq::empty()
    }
}

/// The runs of the first `n` lines.
pub open spec fn runs_upto(lines: Seq<LineSpan>, rows: Seq<Seq<Token>>, n: nat) -> Seq<StyleRun>
    decreases n,
{
    if n == 0 {
        Seq::empty()
    } else {
        runs_upto(lines, rows, (n - 1) as nat) + line_runs(lines[n - 1], row_of(rows, n - 1))
    }
}

/// The runs of a text under the tokens given for its lines.
pub open spec fn text_runs(text: Seq<char>, rows: Seq<Seq<Token>>) -> Seq<StyleRun> {
    runs_upto(lines_of(text), rows, lines_of(text).len())
}

/// A row spans at least what any of its prefixes spans.
pub proof fn lemma_total_len_prefix(tokens: Seq<Token>, k: int)
    requires
        0 <= k <= tokens.len(),
    ensures
        0 <= total_len(tokens.take(k)) <= total_len(tokens),
        k < tokens.len() ==> total_len(tokens.take(k + 1)) == total_len(tokens.take(k))
            + tokens[k].len,
    decreases tokens.len() - k,
{
    if k < tokens.len() {
        assert(tokens.take(k + 1).drop_last() == tokens.take(k));
        lemma_total_len_prefix(tokens, k + 1);
    } else {
        assert(tokens.take(k) == tokens);
    }
    lemma_total_len_nonnegative(tokens.take(k));
}

proof fn lemma_total_len_nonnegative(tokens: Seq<Token>)
    ensures
        0 <= total_len(tokens),
    decreases tokens.len(),
{
    if tokens.len() > 0 {
        lemma_total_len_nonnegative(tokens.drop_last());
    }
}

/// The characters that a row spans, or `None` where the sum does not fit.
pub fn checked_total(tokens: &Vec<Token>) -> (r: Option<usize>)
    ensures
        match r {
            Some(t) => t == total_len(tokens@),
            None => total_len(tokens@) > usize::MAX,
        },
{
    let mut total: usize = 0;
    let mut k: usize = 0;
    while k < tokens.len()
        invariant
            k <= tokens.len(),
            total == total_len(tokens@.take(k as int)),
        decreases tokens.len() - k,
    {
        proof {
            lemma_total_len_prefix(tokens@, k as int);
            lemma_total_len_prefix(tokens@, k + 1);
        }
        match total.checked_add(tokens[k].len) {
            Some(t) => {
                total = t;
            },
            None => {
                return None;
            },
        }
        k = k + 1;
    }
    assert(tokens@.take(k as int) == tokens@);
    Some(total)
}

/// Appends the runs of one line to `runs`.
fn push_line_runs(runs: &mut Vec<StyleRun>, line: LineSpan, tokens: &Vec<Token>)
    requires
        line_end(line) <= usize::MAX,
    ensures
        final(runs)@ == old(runs)@ + line_runs(line, tokens@),
{
    let fits = match checked_total(tokens) {
        Some(t) => t == line.len,
        None => false,
    };
    if !fits {
        assert(runs@ == old(runs)@ + Seq::<StyleRun>::empty());
        return ;
    }
    let ghost target = line_runs(line, tokens@);
    let mut offset: usize = line.start;
    let mut k: usize = 0;
    while k < tokens.len()
        invariant
            k <= tokens.len(),
            total_len(tokens@) == line.len,
            line_end(line) <= usize::MAX,
            target == line_runs(line, tokens@),
            offset == line.start + total_len(tokens@.take(k as int)),
            runs@ == old(runs)@ + target.take(k as int),
        decreases tokens.len() - k,
    {
        proof {
            lemma_total_len_prefix(tokens@, k as int);
            lemma_total_len_prefix(tokens@, k + 1);
        }
        let token = tokens[k];
        runs.push(
            StyleRun {
                start: offset,
                len: token.len,
                color: token.style.color,
                bold: token.style.bold,
                italic: token.style.italic,
            },
        );
        proof {
            assert(target.take(k + 1) == target.take(k as int).push(target[k as int]));
            assert(runs@ == old(runs)@ + target.take(k + 1));
        }
        offset = offset + token.len;
        k = k + 1;
    }
    assert(target.take(k as int) == target);
}

/// Places the tokens of each line of `text` as style runs. `tokens[i]`
/// holds the tokens of line `i`.
pub fn place_runs(text: &str, tokens: &Vec<Vec<Token>>) -> (runs: Vec<StyleRun>)
    ensures
        runs@ == text_runs(text@, token_rows(tokens@)),
{
    let lines = line_spans(text);
    let ghost rows = token_rows(tokens@);
    let mut runs: Vec<StyleRun> = Vec::new();
    let mut i: usize = 0;
    while i < lines.len()
        invariant
            i <= lines.len(),
            lines@ == lines_of(text@),
            is_line_split(text@, lines@),
            text@.len() <= usize::MAX,
            rows == token_rows(tokens@),
            runs@ == runs_upto(lines@, rows, i as nat),
        decreases lines.len() - i,
    {
        let line = lines[i];
        assert(line_end(lines@[i as int]) <= text@.len());
        if i < tokens.len() {
            assert(row_of(rows, i as int) == tokens@[i as int]@);
            push_line_runs(&mut runs, line, &tokens[i]);
        } else {
            assert(line.len > 0);
            assert(line_runs(line, row_of(rows, i as int)) == Seq::<StyleRun>::empty());
            assert(runs@ + Seq::<StyleRun>::empty() == runs@);
        }
        i = i + 1;
    }
    runs
}

} // verus!
