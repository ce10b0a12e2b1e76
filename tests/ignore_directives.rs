use deno_ast::swc::common::comments::{Comment as SwcComment, CommentKind as SwcCommentKind};
use deno_ast::swc::common::BytePos;
use deno_ast::{parse_program, MediaType, ModuleSpecifier, ParseParams, StartSourcePos};
use lint_ignore::context::Context;
use lint_ignore::ignore_directives::{
    parse_file_ignore_directives, parse_ignore_comment, parse_line_ignore_directives, CodeStatus,
    FileIgnoreDirective, IgnoreDirective, Line, LineIgnoreDirective,
};
use lint_ignore::source::{Comment, CommentKind, LineIndex, Span};
use lint_ignore::text::{is_white_space_char, normalize_separators};
use std::collections::HashMap;

struct Unit {
    comments: Vec<Comment>,
    leading_comments: Vec<Comment>,
    line_index: LineIndex,
}

fn offset(pos: BytePos) -> u32 {
    pos.0 - StartSourcePos::START_SOURCE_POS.as_byte_pos().0
}

fn comment_of(c: &SwcComment) -> Comment {
    Comment {
        kind: match c.kind {
            SwcCommentKind::Line => CommentKind::Line,
            SwcCommentKind::Block => CommentKind::Block,
        },
        span: Span { lo: offset(c.span.lo), hi: offset(c.span.hi) },
        text: c.text.to_string(),
    }
}

fn parse(source: &str) -> Unit {
    let parsed = parse_program(ParseParams {
        specifier: ModuleSpecifier::parse("file:///test.ts").unwrap(),
        text: source.into(),
        media_type: MediaType::TypeScript,
        capture_tokens: false,
        scope_analysis: false,
        maybe_syntax: None,
    })
    .unwrap();
    let comments = parsed.comments().get_vec().iter().map(comment_of).collect();
    let leading_comments = parsed
        .get_leading_comments()
        .map(|v| v.iter().map(comment_of).collect())
        .unwrap_or_default();
    let info = parsed.text_info_lazy();
    let line_starts = (0..info.lines_count())
        .map(|i| info.line_start(i).as_byte_index(StartSourcePos::START_SOURCE_POS) as u32)
        .collect();
    Unit { comments, leading_comments, line_index: LineIndex::new(line_starts) }
}

fn code_map(codes: impl IntoIterator<Item = &'static str>) -> HashMap<String, CodeStatus> {
    codes.into_iter().map(|code| (code.to_string(), CodeStatus::default())).collect()
}

fn codes_of<T: lint_ignore::ignore_directives::DirectiveKind>(
    d: &IgnoreDirective<T>,
) -> HashMap<String, CodeStatus> {
    d.codes().iter().cloned().collect()
}

fn line_directives(source: &str, keyword: &str) -> HashMap<usize, LineIgnoreDirective> {
    let unit = parse(source);
    parse_line_ignore_directives(keyword, &unit.comments, &unit.line_index)
}

fn file_directive(source: &str, keyword: &str) -> Option<FileIgnoreDirective> {
    let unit = parse(source);
    parse_file_ignore_directives(keyword, &unit.leading_comments)
}

fn line_comment(text: &str) -> Comment {
    Comment { kind: CommentKind::Line, span: Span { lo: 0, hi: text.len() as u32 + 2 }, text: text.to_string() }
}

#[test]
fn test_parse_line_ignore_comments() {
    let source_code = r#"
// deno-lint-ignore no-explicit-any no-empty no-debugger
function foo(): any {}

// not-deno-lint-ignore no-explicit-any
function foo(): any {}

// deno-lint-ignore no-explicit-any, no-empty, no-debugger
function foo(): any {}

// deno-lint-ignore no-explicit-any,no-empty,no-debugger
function foo(): any {}

export function deepAssign(
target: Record<string, any>,
...sources: any[]
): // deno-lint-ignore ban-types
object | undefined {}
  "#;

    let line_directives = line_directives(source_code, "deno-lint-ignore");
    assert_eq!(line_directives.len(), 4);
    let d = line_directives.get(&1).unwrap();
    assert_eq!(codes_of(d), code_map(["no-explicit-any", "no-empty", "no-debugger"]));
    let d = line_directives.get(&7).unwrap();
    assert_eq!(codes_of(d), code_map(["no-explicit-any", "no-empty", "no-debugger"]));
    let d = line_directives.get(&10).unwrap();
    assert_eq!(codes_of(d), code_map(["no-explicit-any", "no-empty", "no-debugger"]));
    let d = line_directives.get(&16).unwrap();
    assert_eq!(codes_of(d), code_map(["ban-types"]));
}

#[test]
fn test_parse_global_ignore_directives() {
    let d = file_directive("// deno-lint-ignore-file", "deno-lint-ignore-file").unwrap();
    assert!(d.codes().is_empty());

    let d = file_directive("// deno-lint-ignore-file foo", "deno-lint-ignore-file").unwrap();
    assert_eq!(codes_of(&d), code_map(["foo"]));

    let d = file_directive("// deno-lint-ignore-file foo bar", "deno-lint-ignore-file").unwrap();
    assert_eq!(codes_of(&d), code_map(["foo", "bar"]));

    let d = file_directive(
        r#"
// deno-lint-ignore-file foo
// deno-lint-ignore-file bar
"#,
        "deno-lint-ignore-file",
    )
    .unwrap();
    assert_eq!(codes_of(&d), code_map(["foo"]));

    let d = file_directive(
        r#"
const x = 42;
// deno-lint-ignore-file foo
"#,
        "deno-lint-ignore-file",
    );
    assert!(d.is_none());
}

#[test]
fn stacked_file_directives_first_wins() {
    let d = file_directive("// lint-ignore-file foo\n// lint-ignore-file bar\nvar x = 1;", "lint-ignore-file")
        .unwrap();
    assert_eq!(codes_of(&d), code_map(["foo"]));
    assert_eq!(d.span(), Span { lo: 0, hi: 23 });
}

#[test]
fn file_directive_after_statement_is_none() {
    assert!(file_directive("const x = 1;\n// lint-ignore-file foo", "lint-ignore-file").is_none());
}

#[test]
fn keyword_glued_to_text_is_no_directive() {
    let d = parse_ignore_comment::<Line>("deno-lint-ignore", &line_comment(" deno-lint-ignorefoo"));
    assert!(d.is_none());
    let d = parse_ignore_comment::<Line>("deno-lint-ignore", &line_comment(" deno-lint-ignore-file"));
    assert!(d.is_none());
}

#[test]
fn block_comment_is_no_directive() {
    let c = Comment { kind: CommentKind::Block, span: Span { lo: 0, hi: 24 }, text: " deno-lint-ignore foo ".to_string() };
    assert!(parse_ignore_comment::<Line>("deno-lint-ignore", &c).is_none());
}

#[test]
fn separators_and_duplicates() {
    let c = line_comment("  deno-lint-ignore  a,b  c ,d\tb  ");
    let d = parse_ignore_comment::<Line>("deno-lint-ignore", &c).unwrap();
    assert_eq!(d.codes().len(), 4);
    assert_eq!(codes_of(&d), code_map(["a", "b", "c", "d"]));
    assert_eq!(d.span(), c.span);
    assert!(!d.ignore_all());
}

#[test]
fn keyword_alone_covers_everything() {
    let d = parse_ignore_comment::<Line>("deno-lint-ignore", &line_comment(" deno-lint-ignore  ")).unwrap();
    assert!(d.ignore_all());
    assert!(!d.has_code("anything"));
}

#[test]
fn empty_keyword_matches_nothing() {
    assert!(parse_ignore_comment::<Line>("", &line_comment(" foo")).is_none());
    assert!(parse_ignore_comment::<Line>("", &line_comment("   ")).is_none());
}

#[test]
fn parsing_twice_gives_same_codes() {
    let c = line_comment(" deno-lint-ignore x, y z");
    let a = parse_ignore_comment::<Line>("deno-lint-ignore", &c).unwrap();
    let b = parse_ignore_comment::<Line>("deno-lint-ignore", &c).unwrap();
    assert_eq!(codes_of(&a), codes_of(&b));
}

#[test]
fn check_used_marks_only_named_code() {
    let mut d = parse_ignore_comment::<Line>("deno-lint-ignore", &line_comment(" deno-lint-ignore a b")).unwrap();
    assert!(d.has_code("a"));
    assert!(!d.has_code("c"));
    assert!(d.check_used("b"));
    assert!(!d.check_used("c"));
    let codes = codes_of(&d);
    assert_eq!(codes["a"], CodeStatus { used: false });
    assert_eq!(codes["b"], CodeStatus { used: true });
}

#[test]
fn mark_as_used_sets_flag() {
    let mut s = CodeStatus::default();
    s.mark_as_used();
    assert!(s.used);
}

#[test]
fn later_directive_on_same_line_wins() {
    let lines = line_directives("var x = 1; /* a */ // deno-lint-ignore foo\n", "deno-lint-ignore");
    assert_eq!(lines.len(), 1);
    let comments = vec![line_comment(" deno-lint-ignore foo"), line_comment(" deno-lint-ignore bar")];
    let lines = parse_line_ignore_directives("deno-lint-ignore", &comments, &LineIndex::new(vec![0]));
    assert_eq!(lines.len(), 1);
    assert_eq!(codes_of(&lines[&0]), code_map(["bar"]));
}

#[test]
fn line_index_counts_line_starts() {
    let index = LineIndex::new(vec![0, 5, 9]);
    assert_eq!(index.line_index(0), 0);
    assert_eq!(index.line_index(4), 0);
    assert_eq!(index.line_index(5), 1);
    assert_eq!(index.line_index(12), 2);
}

#[test]
fn separators_become_single_commas() {
    assert_eq!(normalize_separators("a, b  c"), "a,b,,c");
    assert_eq!(normalize_separators(" x,\u{3000}y"), ",x,y");
}

#[test]
fn white_space_property() {
    assert!(is_white_space_char(' '));
    assert!(is_white_space_char('\t'));
    assert!(is_white_space_char('\u{a0}'));
    assert!(is_white_space_char('\u{2028}'));
    assert!(!is_white_space_char('a'));
    assert!(!is_white_space_char(','));
    assert!(!is_white_space_char('\u{200b}'));
}

#[test]
fn context_line_directive_marks_code_used() {
    let comments = vec![line_comment(" deno-lint-ignore foo bar")];
    let mut context = Context::new(LineIndex::new(vec![0, 30]), &comments, &vec![], "deno-lint-ignore", "deno-lint-ignore-file");
    context.add_diagnostic(Span { lo: 3, hi: 5 }, "foo", "found foo");
    context.add_diagnostic(Span { lo: 31, hi: 35 }, "foo", "found foo again");
    context.add_diagnostic(Span { lo: 6, hi: 8 }, "baz", "found baz");
    let kept = context.diagnostics();
    assert_eq!(kept.len(), 2);
    assert_eq!(kept[0].message, "found foo again");
    assert_eq!(kept[1].code, "baz");
    let unused = context.unused_directive_diagnostics();
    assert_eq!(unused.len(), 1);
    assert_eq!(unused[0].message, "bar is never flagged; you can remove this directive");
    assert_eq!(unused[0].span, comments[0].span);
}
