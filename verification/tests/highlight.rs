use a4::highlight::{checked_total, place_runs, Style, StyleRun, Token};
use a4::highlighter::{Highlighter, Pipelines, TagSpan};
use a4::language::{detect_language, Language};
use a4::lines::{line_spans, LineSpan};
use a4::page::create_page;
use a4::registry::Registry;
use a4::tags::{signature, TagCache};

const PLAIN: Style = Style { color: 0xd0d0d0, bold: false, italic: false };
const KEYWORD: Style = Style { color: 0xff7f50, bold: true, italic: false };
const COMMENT: Style = Style { color: 0x808080, bold: false, italic: true };

fn token(len: usize, style: Style) -> Token {
    Token { len, style }
}

fn run(start: usize, len: usize, style: Style) -> StyleRun {
    StyleRun { start, len, color: style.color, bold: style.bold, italic: style.italic }
}

fn spans(text: &str) -> Vec<(usize, usize)> {
    line_spans(text).iter().map(|l| (l.start, l.len)).collect()
}

#[test]
fn lines_of_an_empty_text() {
    assert_eq!(line_spans(""), Vec::<LineSpan>::new());
}

#[test]
fn lines_keep_their_line_feed() {
    assert_eq!(spans("a\nbc\n"), vec![(0, 2), (2, 3)]);
    assert_eq!(spans("a\nbc"), vec![(0, 2), (2, 2)]);
    assert_eq!(spans("abc"), vec![(0, 3)]);
    assert_eq!(spans("\n"), vec![(0, 1)]);
    assert_eq!(spans("\n\n\nx"), vec![(0, 1), (1, 1), (2, 1), (3, 1)]);
    assert_eq!(spans("a\r\nb"), vec![(0, 3), (3, 1)]);
}

#[test]
fn lines_are_counted_in_characters() {
    assert_eq!(spans("é\nñandú\n"), vec![(0, 2), (2, 6)]);
    assert_eq!(line_spans("日本語"), vec![LineSpan { start: 0, len: 3 }]);
}

#[test]
fn lines_tile_the_text() {
    let text = "fn main() {\n    println!(\"hi\");\n}\n\n// end";
    let lines = line_spans(text);
    let mut at = 0;
    for line in &lines {
        assert_eq!(line.start, at);
        assert!(line.len > 0);
        at += line.len;
    }
    assert_eq!(at, text.chars().count());
    assert_eq!(lines.len(), 5);
}

#[test]
fn totals_of_token_rows() {
    assert_eq!(checked_total(&vec![]), Some(0));
    assert_eq!(checked_total(&vec![token(2, PLAIN), token(0, PLAIN), token(5, KEYWORD)]), Some(7));
    assert_eq!(checked_total(&vec![token(usize::MAX, PLAIN)]), Some(usize::MAX));
    assert_eq!(checked_total(&vec![token(usize::MAX, PLAIN), token(1, PLAIN)]), None);
    assert_eq!(checked_total(&vec![token(usize::MAX, PLAIN), token(0, PLAIN)]), Some(usize::MAX));
}

#[test]
fn runs_of_an_empty_text() {
    assert_eq!(place_runs("", &vec![]), Vec::<StyleRun>::new());
    assert_eq!(place_runs("", &vec![vec![token(3, PLAIN)]]), Vec::<StyleRun>::new());
}

#[test]
fn runs_are_placed_at_running_offsets() {
    let text = "fn main() {}\n// done";
    let tokens = vec![
        vec![token(2, KEYWORD), token(1, PLAIN), token(4, PLAIN), token(6, PLAIN)],
        vec![token(7, COMMENT)],
    ];
    assert_eq!(
        place_runs(text, &tokens),
        vec![
            run(0, 2, KEYWORD),
            run(2, 1, PLAIN),
            run(3, 4, PLAIN),
            run(7, 6, PLAIN),
            run(13, 7, COMMENT),
        ]
    );
}

#[test]
fn runs_cover_the_text_where_the_tokens_fit() {
    let text = "let x = 1;\nlet y = 2;\n\nend";
    let tokens = vec![
        vec![token(3, KEYWORD), token(8, PLAIN)],
        vec![token(3, KEYWORD), token(0, COMMENT), token(8, PLAIN)],
        vec![token(1, PLAIN)],
        vec![token(3, PLAIN)],
    ];
    let runs = place_runs(text, &tokens);
    assert_eq!(runs.len(), 7);
    let mut at = 0;
    for r in &runs {
        assert_eq!(r.start, at);
        at += r.len;
    }
    assert_eq!(at, text.chars().count());
}

#[test]
fn a_line_whose_tokens_do_not_fit_is_left_unstyled() {
    let text = "ab\ncd\nef";
    let short = vec![vec![token(3, PLAIN)], vec![token(2, KEYWORD)], vec![token(2, PLAIN)]];
    assert_eq!(place_runs(text, &short), vec![run(0, 3, PLAIN), run(6, 2, PLAIN)]);
    let long = vec![vec![token(3, PLAIN)], vec![token(4, KEYWORD)], vec![token(2, PLAIN)]];
    assert_eq!(place_runs(text, &long), vec![run(0, 3, PLAIN), run(6, 2, PLAIN)]);
    let huge = vec![vec![token(usize::MAX, PLAIN), token(4, PLAIN)], vec![token(3, KEYWORD)]];
    assert_eq!(place_runs(text, &huge), vec![run(3, 3, KEYWORD)]);
}

#[test]
fn lines_without_tokens_are_left_unstyled() {
    let text = "ab\ncd\nef";
    assert_eq!(place_runs(text, &vec![]), Vec::<StyleRun>::new());
    assert_eq!(place_runs(text, &vec![vec![token(3, COMMENT)]]), vec![run(0, 3, COMMENT)]);
    let extra = vec![
        vec![token(3, PLAIN)],
        vec![],
        vec![token(2, PLAIN)],
        vec![token(9, PLAIN)],
    ];
    assert_eq!(place_runs(text, &extra), vec![run(0, 3, PLAIN), run(6, 2, PLAIN)]);
}

#[test]
fn runs_never_leave_the_text() {
    let text = "one\ntwo\nthree";
    let rows = vec![
        vec![
            vec![token(4, PLAIN)],
            vec![token(1, PLAIN), token(3, KEYWORD)],
            vec![token(5, PLAIN)],
        ],
        vec![vec![token(40, PLAIN)], vec![token(4, PLAIN)], vec![token(6, PLAIN)]],
        vec![vec![], vec![], vec![token(2, PLAIN), token(3, PLAIN)]],
    ];
    for tokens in &rows {
        let runs = place_runs(text, tokens);
        let mut floor = 0;
        for r in &runs {
            assert!(r.start >= floor);
            assert!(r.start + r.len <= 13);
            floor = r.start + r.len;
        }
    }
}

#[test]
fn the_run_reports_its_style() {
    assert_eq!(run(1, 2, KEYWORD).style(), KEYWORD);
    assert_eq!(run(1, 2, COMMENT).style(), COMMENT);
}

#[test]
fn signatures_tell_styles_apart() {
    assert_eq!(signature(Style { color: 0, bold: false, italic: false }), 0);
    assert_eq!(signature(Style { color: 0x00ff00, bold: true, italic: false }), 0x1_0000_ff00);
    assert_eq!(signature(Style { color: 0x00ff00, bold: false, italic: true }), 0x2_0000_ff00);
    assert_eq!(signature(Style { color: u32::MAX, bold: true, italic: true }), 0x3_ffff_ffff);
}

#[test]
fn the_cache_makes_one_tag_per_style() {
    let mut cache = TagCache::new();
    assert_eq!(cache.len(), 0);
    assert_eq!(cache.lookup(PLAIN), None);
    assert_eq!(cache.resolve(PLAIN), 0);
    assert_eq!(cache.resolve(KEYWORD), 1);
    assert_eq!(cache.resolve(PLAIN), 0);
    assert_eq!(cache.resolve(COMMENT), 2);
    assert_eq!(cache.resolve(KEYWORD), 1);
    assert_eq!(cache.len(), 3);
    assert_eq!(cache.lookup(COMMENT), Some(2));
    assert_eq!(cache.lookup(Style { bold: true, ..PLAIN }), None);
    assert_eq!(cache.style_of(0), Some(PLAIN));
    assert_eq!(cache.style_of(1), Some(KEYWORD));
    assert_eq!(cache.style_of(2), Some(COMMENT));
    assert_eq!(cache.style_of(3), None);
}

#[test]
fn a_pass_lays_one_span_per_run() {
    let mut highlighter = Highlighter::new();
    assert_eq!(highlighter.applied().len(), 0);
    let tokens = vec![
        vec![token(2, KEYWORD), token(5, PLAIN), token(1, PLAIN)],
        vec![token(4, COMMENT)],
    ];
    let runs = highlighter.on_text_changed("fn id()\n// x", &tokens);
    assert_eq!(
        runs,
        vec![run(0, 2, KEYWORD), run(2, 5, PLAIN), run(7, 1, PLAIN), run(8, 4, COMMENT)]
    );
    assert_eq!(
        highlighter.applied(),
        &vec![
            TagSpan { tag: 0, start: 0, len: 2 },
            TagSpan { tag: 1, start: 2, len: 5 },
            TagSpan { tag: 1, start: 7, len: 1 },
            TagSpan { tag: 2, start: 8, len: 4 },
        ]
    );
    assert_eq!(highlighter.tags().len(), 3);
    assert_eq!(highlighter.tags().style_of(0), Some(KEYWORD));
}

#[test]
fn a_second_pass_over_the_same_text_changes_nothing() {
    let mut highlighter = Highlighter::new();
    let text = "let a = 1;\n// two\nlet b;";
    let tokens = vec![
        vec![token(3, KEYWORD), token(8, PLAIN)],
        vec![token(7, COMMENT)],
        vec![token(3, KEYWORD), token(3, PLAIN)],
    ];
    let first = highlighter.on_text_changed(text, &tokens);
    let spans = highlighter.applied().clone();
    let tags = highlighter.tags().len();
    let second = highlighter.on_text_changed(text, &tokens);
    assert_eq!(first, second);
    assert_eq!(highlighter.applied(), &spans);
    assert_eq!(highlighter.tags().len(), tags);
    assert_eq!(tags, 3);
}

#[test]
fn no_span_outlives_a_shorter_text() {
    let mut highlighter = Highlighter::new();
    let long = vec![vec![token(6, PLAIN)], vec![token(6, KEYWORD)], vec![token(5, COMMENT)]];
    highlighter.on_text_changed("first\nsecnd\nthird", &long);
    assert_eq!(highlighter.applied().len(), 3);
    let short = vec![vec![token(2, COMMENT)]];
    let runs = highlighter.on_text_changed("fi", &short);
    assert_eq!(runs, vec![run(0, 2, COMMENT)]);
    assert_eq!(highlighter.applied(), &vec![TagSpan { tag: 2, start: 0, len: 2 }]);
    assert_eq!(highlighter.tags().len(), 3);
    highlighter.on_text_changed("", &vec![]);
    assert_eq!(highlighter.applied().len(), 0);
    assert_eq!(highlighter.tags().len(), 3);
}

#[test]
fn opening_and_highlighting_a_rust_file() {
    let path = "main.rs";
    let content = "fn main() {}";
    assert_eq!(detect_language(path), Some(Language::Rust));
    let mut registry = Registry::new();
    let page = create_page(&mut registry, path, Ok(content.to_string()));
    assert_eq!(page.position, 0);
    assert_eq!(page.language.map(|l| l.id()), Some("rust"));
    assert_eq!(registry.buffer_at(0).unwrap().as_str(), content);
    let text = registry.buffer_at(page.position).unwrap().clone();
    assert_eq!(line_spans(&text), vec![LineSpan { start: 0, len: 12 }]);
    let tokens = vec![vec![token(2, KEYWORD), token(10, PLAIN)]];
    let mut highlighter = Highlighter::new();
    let runs = highlighter.on_text_changed(&text, &tokens);
    assert!(!runs.is_empty());
    assert_eq!(runs[0].start, 0);
    assert!(runs[0].len > 0);
    assert_ne!(runs[0].color, PLAIN.color);
    assert_eq!(runs[0], run(0, 2, KEYWORD));
}

#[test]
fn a_buffer_has_one_highlighter() {
    let mut pipelines = Pipelines::new();
    assert!(!pipelines.is_bound(7));
    assert!(pipelines.bind(7));
    assert!(pipelines.is_bound(7));
    let tokens = vec![vec![token(2, KEYWORD)]];
    assert_eq!(pipelines.on_text_changed(7, "fn", &tokens), Some(vec![run(0, 2, KEYWORD)]));
    assert!(!pipelines.bind(7));
    assert_eq!(pipelines.applied(7), Some(&vec![TagSpan { tag: 0, start: 0, len: 2 }]));
    assert!(pipelines.bind(3));
    assert_eq!(pipelines.applied(3), Some(&vec![]));
    let other = vec![vec![token(2, COMMENT)]];
    assert_eq!(pipelines.on_text_changed(3, "//", &other), Some(vec![run(0, 2, COMMENT)]));
    assert_eq!(pipelines.applied(7), Some(&vec![TagSpan { tag: 0, start: 0, len: 2 }]));
    assert_eq!(pipelines.on_text_changed(9, "fn", &tokens), None);
    assert_eq!(pipelines.applied(9), None);
}

#[test]
fn a_released_highlighter_is_gone() {
    let mut pipelines = Pipelines::new();
    assert!(!pipelines.release(1));
    assert!(pipelines.bind(1));
    assert!(pipelines.bind(2));
    assert!(pipelines.bind(3));
    let tokens = vec![vec![token(1, PLAIN)]];
    pipelines.on_text_changed(3, "x", &tokens);
    assert!(pipelines.release(2));
    assert!(!pipelines.release(2));
    assert!(pipelines.is_bound(1) && !pipelines.is_bound(2) && pipelines.is_bound(3));
    assert_eq!(pipelines.applied(3), Some(&vec![TagSpan { tag: 0, start: 0, len: 1 }]));
    assert_eq!(pipelines.on_text_changed(2, "x", &tokens), None);
    assert!(pipelines.bind(2));
    assert_eq!(pipelines.applied(2), Some(&vec![]));
}
