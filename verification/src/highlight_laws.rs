//! What holds of the runs of every text, and of every pass of a
//! highlighter.

use vstd::prelude::*;
use crate::highlight::{
    lemma_total_len_prefix, line_runs, row_of, runs_upto, text_runs, total_len, Style, StyleRun,
    Token,
};
use crate::highlighter::{lemma_with_style, styles_of, with_styles, HighlighterView};
use crate::lines::{is_line_split, lemma_lines_of, line_end, lines_of, LineSpan};

verus! {

/// Runs that come in ascending order without overlap, all of them between
/// the offsets `from` and `to`.
pub open spec fn ordered_within(runs: Seq<StyleRun>, from: int, to: int) -> bool {
    &&& forall|k: int|
        0 <= k < runs.len() ==> from <= (#[trigger] runs[k]).start && runs[k].end() <= to
    &&& forall|j: int, k: int|
        0 <= j < k < runs.len() ==> (#[trigger] runs[j]).end() <= (#[trigger] runs[k]).start
}

/// Runs that lie end to end from offset `from` to offset `to`.
pub open spec fn chain(runs: Seq<StyleRun>, from: int, to: int) -> bool {
    &&& runs.len() == 0 ==> from == to
    &&& runs.len() > 0 ==> runs[0].start == from && runs.last().end() == to
    &&& forall|j: int, k: int|
        0 <= j && k == j + 1 && k < runs.len() ==> (#[trigger] runs[k]).start == (
        #[trigger] runs[j]).end()
}

/// Whether some run covers offset `p`.
pub open spec fn covered(runs: Seq<StyleRun>, p: int) -> bool {
    exists|k: int| 0 <= k < runs.len() && (#[trigger] runs[k]).start <= p < runs[k].end()
}

/// Whether the tokens of every line add up to the line.
pub open spec fn rows_fit(lines: Seq<LineSpan>, rows: Seq<Seq<Token>>) -> bool {
    forall|i: int| 0 <= i < lines.len() ==> total_len(#[trigger] row_of(rows, i)) == lines[i].len
}

/// Where the first `n` lines end.
pub open spec fn end_of_lines(lines: Seq<LineSpan>, n: nat) -> int {
    if n == 0 {
        0
    } else {
        line_end(lines[n - 1])
    }
}

proof fn lemma_line_runs(line: LineSpan, tokens: Seq<Token>)
    requires
        line_end(line) <= usize::MAX,
    ensures
        ordered_within(line_runs(line, tokens), line.start as int, line_end(line)),
        total_len(tokens) == line.len ==> chain(
            line_runs(line, tokens),
            line.start as int,
            line_end(line),
        ),
{
    let runs = line_runs(line, tokens);
    if total_len(tokens) == line.len {
        assert forall|k: int| 0 <= k < runs.len() implies (#[trigger] runs[k]).start == line.start
            + total_len(tokens.take(k)) && runs[k].end() == line.start + total_len(
            tokens.take(k + 1),
        ) && runs[k].end() <= line_end(line) by {
            lemma_total_len_prefix(tokens, k);
            lemma_total_len_prefix(tokens, k + 1);
        }
        assert forall|j: int, k: int| 0 <= j < k < runs.len() implies (#[trigger] runs[j]).end()
            <= (#[trigger] runs[k]).start by {
            lemma_total_len_prefix(tokens.take(k), j + 1);
            assert(tokens.take(k).take(j + 1) == tokens.take(j + 1));
        }
        if runs.len() > 0 {
            assert(tokens.take(0) =~= Seq::<Token>::empty());
            assert(tokens.take(tokens.len() as int) == tokens);
            assert(runs[0].start == line.start);
            assert(runs.last() == runs[runs.len() - 1]);
        }
    }
}

proof fn lemma_runs_upto(text: Seq<char>, lines: Seq<LineSpan>, rows: Seq<Seq<Token>>, n: nat)
    requires
        text.len() <= usize::MAX,
        is_line_split(text, lines),
        n <= lines.len(),
    ensures
        ordered_within(runs_upto(lines, rows, n), 0, end_of_lines(lines, n)),
        rows_fit(lines, rows) ==> chain(runs_upto(lines, rows, n), 0, end_of_lines(lines, n)),
    decreases n,
{
    if n > 0 {
        let before = runs_upto(lines, rows, (n - 1) as nat);
        let line = lines[n - 1];
        let here = line_runs(line, row_of(rows, n - 1));
        let all = runs_upto(lines, rows, n);
        lemma_runs_upto(text, lines, rows, (n - 1) as nat);
        assert(line_end(line) <= text.len());
        lemma_line_runs(line, row_of(rows, n - 1));
        assert(all == before + here);
        assert(line.start == end_of_lines(lines, (n - 1) as nat)) by {
            if n > 1 {
                assert(lines[n - 1].start == line_end(lines[n - 2]));
            }
        }
        assert forall|k: int| 0 <= k < all.len() implies 0 <= (#[trigger] all[k]).start
            && all[k].end() <= line_end(line) by {
            if k < before.len() {
                assert(all[k] == before[k]);
            } else {
                assert(all[k] == here[k - before.len()]);
            }
        }
        assert forall|j: int, k: int| 0 <= j < k < all.len() implies (#[trigger] all[j]).end() <= (
        #[trigger] all[k]).start by {
            if k < before.len() {
                assert(all[j] == before[j] && all[k] == before[k]);
            } else if j < before.len() {
                assert(all[j] == before[j] && all[k] == here[k - before.len()]);
            } else {
                assert(all[j] == here[j - before.len()] && all[k] == here[k - before.len()]);
            }
        }
        if rows_fit(lines, rows) {
            assert(total_len(row_of(rows, n - 1)) == line.len);
            assert(line.len > 0);
            assert(here.len() > 0);
            assert(all.last() == here.last());
            assert(all[0] == if before.len() > 0 {
                before[0]
            } else {
                here[0]
            });
            assert forall|j: int, k: int| 0 <= j && k == j + 1 && k < all.len() implies (
            #[trigger] all[k]).start == (#[trigger] all[j]).end() by {
                if k < before.len() {
                    assert(all[j] == before[j] && all[k] == before[k]);
                } else if j < before.len() {
                    assert(all[j] == before.last() && all[k] == here[0]);
                } else {
                    assert(all[j] == here[j - before.len()] && all[k] == here[k - before.len()]);
                }
            }
        }
    }
}

proof fn lemma_chain_covers(runs: Seq<StyleRun>, to: int, p: int)
    requires
        chain(runs, 0, to),
        0 <= p < to,
    ensures
        covered(runs, p),
    decreases runs.len(),
{
    let last = runs.len() - 1;
    if runs[last].start <= p {
        assert(runs[last].start <= p < runs[last].end());
    } else {
        let rest = runs.drop_last();
        assert(last > 0);
        assert(runs[last].start == runs[last - 1].end());
        assert(rest.last() == runs[last - 1]);
        assert forall|j: int, k: int| 0 <= j && k == j + 1 && k < rest.len() implies (
        #[trigger] rest[k]).start == (#[trigger] rest[j]).end() by {
            assert(rest[j] == runs[j] && rest[k] == runs[k]);
        }
        lemma_chain_covers(rest, runs[last].start as int, p);
        let k = choose|k: int|
            0 <= k < rest.len() && (#[trigger] rest[k]).start <= p < rest[k].end();
        assert(runs[k] == rest[k]);
    }
}

/// The runs of a text come in ascending order, do not overlap, and lie
/// within the text, whatever tokens the lines were answered with.
pub proof fn lemma_runs_ordered(text: Seq<char>, rows: Seq<Seq<Token>>)
    requires
        text.len() <= usize::MAX,
    ensures
        ordered_within(text_runs(text, rows), 0, text.len() as int),
{
    let lines = lines_of(text);
    lemma_lines_of(text);
    lemma_runs_upto(text, lines, rows, lines.len());
}

/// Where the tokens of every line add up to the line, the runs lie end to
/// end from offset 0 to the end of the text, so that every offset of the
/// text is covered by a run, and no other offset is.
pub proof fn lemma_runs_cover(text: Seq<char>, rows: Seq<Seq<Token>>)
    requires
        text.len() <= usize::MAX,
        rows_fit(lines_of(text), rows),
    ensures
        chain(text_runs(text, rows), 0, text.len() as int),
        ordered_within(text_runs(text, rows), 0, text.len() as int),
        forall|p: int| covered(text_runs(text, rows), p) ==> 0 <= p < text.len(),
        forall|p: int| 0 <= p < text.len() ==> covered(text_runs(text, rows), p),
{
    let lines = lines_of(text);
    let runs = text_runs(text, rows);
    lemma_lines_of(text);
    lemma_runs_upto(text, lines, rows, lines.len());
    assert forall|p: int| 0 <= p < text.len() implies covered(runs, p) by {
        lemma_chain_covers(runs, text.len() as int, p);
    }
}

/// Tagging styles only adds to a cache: it still starts with what it held,
/// holds no style twice, and holds a style exactly if it held it before or
/// the style was among those tagged.
pub proof fn lemma_with_styles(cache: Seq<Style>, styles: Seq<Style>)
    requires
        cache.no_duplicates(),
    ensures
        with_styles(cache, styles).no_duplicates(),
        cache.is_prefix_of(with_styles(cache, styles)),
        forall|s: Style| #[trigger]
            with_styles(cache, styles).contains(s) <==> cache.contains(s) || styles.contains(s),
        with_styles(cache, styles).len() <= cache.len() + styles.len(),
    decreases styles.len(),
{
    let all = with_styles(cache, styles);
    if styles.len() == 0 {
        assert forall|s: Style| #[trigger]
            all.contains(s) <==> cache.contains(s) || styles.contains(s) by {
            if styles.contains(s) {
                let i = choose|i: int| 0 <= i < styles.len() && styles[i] == s;
            }
        }
    } else {
        let rest = styles.drop_last();
        let mid = with_styles(cache, rest);
        lemma_with_styles(cache, rest);
        lemma_with_style(mid, styles.last());
        assert forall|s: Style| #[trigger]
            all.contains(s) <==> cache.contains(s) || styles.contains(s) by {
            if all.contains(s) {
                let i = choose|i: int| 0 <= i < all.len() && all[i] == s;
                if i < mid.len() {
                    assert(mid[i] == s);
                    assert(mid.contains(s));
                    if rest.contains(s) {
                        let j = choose|j: int| 0 <= j < rest.len() && rest[j] == s;
                        assert(styles[j] == s);
                    }
                } else {
                    assert(s == styles.last());
                    assert(styles[styles.len() - 1] == s);
                }
            }
            if cache.contains(s) {
                assert(mid.contains(s));
                let i = choose|i: int| 0 <= i < mid.len() && mid[i] == s;
                assert(all[i] == s);
            }
            if styles.contains(s) {
                let j = choose|j: int| 0 <= j < styles.len() && styles[j] == s;
                if j < rest.len() {
                    assert(rest[j] == s);
                    assert(mid.contains(s));
                    let i = choose|i: int| 0 <= i < mid.len() && mid[i] == s;
                    assert(all[i] == s);
                }
            }
        }
    }
}

/// Tagging styles that all have a tag changes nothing.
pub proof fn lemma_with_styles_known(cache: Seq<Style>, styles: Seq<Style>)
    requires
        forall|i: int| 0 <= i < styles.len() ==> cache.contains(#[trigger] styles[i]),
    ensures
        with_styles(cache, styles) == cache,
    decreases styles.len(),
{
    if styles.len() > 0 {
        let rest = styles.drop_last();
        assert forall|i: int| 0 <= i < rest.len() implies cache.contains(#[trigger] rest[i]) by {
            assert(rest[i] == styles[i]);
        }
        lemma_with_styles_known(cache, rest);
        assert(cache.contains(styles[styles.len() - 1]));
    }
}

/// A second pass over the same text with the same tokens gives the same
/// runs, makes no tag, and lays the same spans.
pub proof fn lemma_pass_idempotent(h: HighlighterView, text: Seq<char>, rows: Seq<Seq<Token>>)
    requires
        h.cache.no_duplicates(),
    ensures
        h.after(text, rows).after(text, rows) == h.after(text, rows),
{
    let styles = styles_of(text_runs(text, rows));
    let once = h.after(text, rows);
    lemma_with_styles(h.cache, styles);
    assert forall|i: int| 0 <= i < styles.len() implies once.cache.contains(
        #[trigger] styles[i],
    ) by {
        assert(styles.contains(styles[i]));
    }
    lemma_with_styles_known(once.cache, styles);
}

/// What lies over the buffer after a pass is decided by the text and its
/// tokens alone: nothing of an earlier pass is left. Every span lies within
/// the text, the spans come in ascending order without overlap, and each
/// carries the tag of its run's style.
pub proof fn lemma_pass_spans(h: HighlighterView, text: Seq<char>, rows: Seq<Seq<Token>>)
    requires
        h.cache.no_duplicates(),
        text.len() <= usize::MAX,
        h.after(text, rows).cache.len() <= usize::MAX,
    ensures
        h.after(text, rows).applied.len() == text_runs(text, rows).len(),
        forall|k: int|
            0 <= k < text_runs(text, rows).len() ==> {
                let span = #[trigger] h.after(text, rows).applied[k];
                let run = text_runs(text, rows)[k];
                &&& span.start == run.start
                &&& span.len == run.len
                &&& span.start + span.len <= text.len()
                &&& span.tag < h.after(text, rows).cache.len()
                &&& h.after(text, rows).cache[span.tag as int] == run.spec_style()
            },
        forall|j: int, k: int|
            0 <= j < k < text_runs(text, rows).len() ==> (#[trigger] h.after(
                text,
                rows,
            ).applied[j]).start + h.after(text, rows).applied[j].len <= (#[trigger] h.after(
                text,
                rows,
            ).applied[k]).start,
{
    let runs = text_runs(text, rows);
    let styles = styles_of(runs);
    let next = h.after(text, rows);
    lemma_with_styles(h.cache, styles);
    lemma_runs_ordered(text, rows);
    assert forall|k: int| 0 <= k < runs.len() implies {
        let span = #[trigger] next.applied[k];
        let run = runs[k];
        &&& span.start == run.start
        &&& span.len == run.len
        &&& span.start + span.len <= text.len()
        &&& span.tag < next.cache.len()
        &&& next.cache[span.tag as int] == run.spec_style()
    } by {
        assert(styles[k] == runs[k].spec_style());
        assert(styles.contains(styles[k]));
        assert(next.cache.contains(runs[k].spec_style()));
        let tag = next.cache.index_of(runs[k].spec_style());
        assert(0 <= tag < next.cache.len() && next.cache[tag] == runs[k].spec_style());
        assert(runs[k].end() <= text.len());
    }
    assert forall|j: int, k: int| 0 <= j < k < runs.len() implies (#[trigger] next.applied[j]).start
        + next.applied[j].len <= (#[trigger] next.applied[k]).start by {
        assert(runs[j].end() <= runs[k].start);
    }
}

} // verus!
