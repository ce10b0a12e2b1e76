use deno_ast::swc::ast::{Decl, ModuleItem, Stmt, VarDeclKind as SwcVarDeclKind};
use deno_ast::swc::common::comments::{Comment as SwcComment, CommentKind as SwcCommentKind};
use deno_ast::swc::common::BytePos;
use deno_ast::{parse_program, MediaType, ModuleSpecifier, ParseParams, ProgramRef, StartSourcePos};
use lint_ignore::context::{Context, Diagnostic};
use lint_ignore::no_var::{NoVar, VarDecl, VarDeclKind, CODE, MESSAGE};
use lint_ignore::source::{Comment, CommentKind, LineIndex, Span};

struct Unit {
    comments: Vec<Comment>,
    leading_comments: Vec<Comment>,
    line_index: LineIndex,
    var_decls: Vec<VarDecl>,
}

fn offset(pos: BytePos) -> u32 {
    pos.0 - StartSourcePos::START_SOURCE_POS.as_byte_pos().0
}

fn comment_of(c: &SwcComment) -> Comment {
    Comment {
        kind: match c.kind {
            SwcCommentKind::Line => CommentKind::Line,
            SwcCommentKind::Block => CommentKind::Block,
        },
        span: Span { lo: offset(c.span.lo), hi: offset(c.span.hi) },
        text: c.text.to_string(),
    }
}

fn var_decl_of(stmt: &Stmt) -> Option<VarDecl> {
    match stmt {
        Stmt::Decl(Decl::Var(v)) => Some(VarDecl {
            span: Span { lo: offset(v.span.lo), hi: offset(v.span.hi) },
            kind: match v.kind {
                SwcVarDeclKind::Var => VarDeclKind::Var,
                SwcVarDeclKind::Let => VarDeclKind::Let,
                SwcVarDeclKind::Const => VarDeclKind::Const,
            },
        }),
        _ => None,
    }
}

fn parse(source: &str) -> Unit {
    let parsed = parse_program(ParseParams {
        specifier: ModuleSpecifier::parse("file:///test.ts").unwrap(),
        text: source.into(),
        media_type: MediaType::TypeScript,
        capture_tokens: false,
        scope_analysis: false,
        maybe_syntax: None,
    })
    .unwrap();
    let comments = parsed.comments().get_vec().iter().map(comment_of).collect();
    let leading_comments = parsed
        .get_leading_comments()
        .map(|v| v.iter().map(comment_of).collect())
        .unwrap_or_default();
    let info = parsed.text_info_lazy();
    let line_starts = (0..info.lines_count())
        .map(|i| info.line_start(i).as_byte_index(StartSourcePos::START_SOURCE_POS) as u32)
        .collect();
    let var_decls = match parsed.program_ref() {
        ProgramRef::Module(m) => m
            .body
            .iter()
            .filter_map(|item| match item {
                ModuleItem::Stmt(s) => var_decl_of(s),
                _ => None,
            })
            .collect(),
        ProgramRef::Script(s) => s.body.iter().filter_map(var_decl_of).collect(),
    };
    Unit { comments, leading_comments, line_index: LineIndex::new(line_starts), var_decls }
}

fn run(source: &str, line_keyword: &str, file_keyword: &str) -> (Vec<Diagnostic>, Vec<Diagnostic>) {
    let unit = parse(source);
    let mut context = Context::new(
        unit.line_index,
        &unit.comments,
        &unit.leading_comments,
        line_keyword,
        file_keyword,
    );
    NoVar::new().lint_program(&mut context, &unit.var_decls);
    let unused = context.unused_directive_diagnostics();
    (context.diagnostics().clone(), unused)
}

fn lint(source: &str) -> Vec<Diagnostic> {
    run(source, "deno-lint-ignore", "deno-lint-ignore-file").0
}

fn assert_cols(source: &str, cols: &[u32]) {
    let diagnostics = lint(source);
    assert_eq!(diagnostics.len(), cols.len(), "{}", source);
    for (d, col) in diagnostics.iter().zip(cols) {
        assert_eq!(d.span.lo, *col);
        assert_eq!(d.message, MESSAGE);
        assert_eq!(d.code, CODE);
    }
}

#[test]
fn no_var_valid() {
    assert!(lint(r#"let foo = 0; const bar = 1"#).is_empty());
}

#[test]
fn no_var_invalid() {
    assert_cols("var foo = 0;", &[0]);
    assert_cols("let foo = 0; var bar = 1;", &[13]);
    assert_cols("let foo = 0; var bar = 1; var x = 2;", &[13, 26]);
}

#[test]
fn no_var_rule_identity() {
    let rule = NoVar::new();
    assert_eq!(rule.code(), "no-var");
    assert_eq!(rule.tags(), &["recommended"]);
}

#[test]
fn trailing_line_directive_suppresses() {
    let (kept, unused) = run("var x = 1; // lint-ignore no-var", "lint-ignore", "lint-ignore-file");
    assert!(kept.is_empty());
    assert!(unused.is_empty());
}

#[test]
fn line_directive_covers_only_its_own_line() {
    let (kept, unused) = run(
        "// lint-ignore no-var\nvar x = 1;\nvar y = 2;",
        "lint-ignore",
        "lint-ignore-file",
    );
    assert_eq!(kept.len(), 2);
    assert_eq!(kept[0].span.lo, 22);
    assert_eq!(kept[1].span.lo, 33);
    assert_eq!(unused.len(), 1);
    assert_eq!(unused[0].message, "no-var is never flagged; you can remove this directive");
}

#[test]
fn ignore_all_file_directive_suppresses_everything() {
    let (kept, unused) = run("// lint-ignore-file\nvar x = 1;", "lint-ignore", "lint-ignore-file");
    assert!(kept.is_empty());
    assert!(unused.is_empty());
}

#[test]
fn file_directive_with_other_code_reports_unused() {
    let (kept, unused) = run(
        "// lint-ignore-file no-such-code\nvar x = 1;",
        "lint-ignore",
        "lint-ignore-file",
    );
    assert_eq!(kept.len(), 1);
    assert_eq!(kept[0].code, "no-var");
    assert_eq!(unused.len(), 1);
    assert_eq!(unused[0].code, "ban-unused-ignore");
    assert_eq!(unused[0].message, "no-such-code is never flagged; you can remove this directive");
    assert_eq!(unused[0].span, Span { lo: 0, hi: 32 });
}

#[test]
fn file_directive_naming_the_code_marks_it_used() {
    let (kept, unused) = run("// lint-ignore-file no-var\nvar x = 1;", "lint-ignore", "lint-ignore-file");
    assert!(kept.is_empty());
    assert!(unused.is_empty());
}

#[test]
fn file_directive_overrides_line_directive() {
    let (kept, unused) = run(
        "// lint-ignore-file no-var\nvar x = 1; // lint-ignore other-code",
        "lint-ignore",
        "lint-ignore-file",
    );
    assert!(kept.is_empty());
    assert_eq!(unused.len(), 1);
    assert_eq!(unused[0].message, "other-code is never flagged; you can remove this directive");
}

#[test]
fn ignore_all_line_directive_suppresses_any_code() {
    let (kept, unused) = run("var x = 1; // lint-ignore", "lint-ignore", "lint-ignore-file");
    assert!(kept.is_empty());
    assert!(unused.is_empty());
}
