use crate::ignore_directives::{
    CodeStatus,
    DirectiveKind,
    FileIgnoreDirective,
    file_directive_from,
    IgnoreDirective,
    LineIgnoreDirective,
    has_directive_on_line,
    line_directives_from,
    parse_file_ignore_directives,
    parse_line_ignore_directives,
};
use crate::source::{Comment, LineIndex, Span, line_of};
use std::collections::HashMap;
use vstd::prelude::*;

verus! {

/// The code of the diagnostics that report a directive code that suppressed
/// nothing.
pub const UNUSED_DIRECTIVE_CODE: &'static str = "ban-unused-ignore";

/// What follows the code in the message of such a diagnostic.
pub const UNUSED_DIRECTIVE_MESSAGE_TAIL: &'static str = " is never flagged; you can remove this directive";

/// A finding of a rule: where it is, the rule's code, and a message.
#[derive(Clone, Debug)]
pub struct Diagnostic {
    pub span: Span,
    pub code: String,
    pub message: String,
}

impl View for Diagnostic {
    type V = (Span, Seq<char>, Seq<char>);

    open spec fn view(&self) -> (Span, Seq<char>, Seq<char>) {
        (self.span, self.code@, self.message@)
    }
}

/// The views of `ds`.
pub open spec fn diagnostic_views(ds: Seq<Diagnostic>) -> Seq<(Span, Seq<char>, Seq<char>)> {
    ds.map_values(|d: Diagnostic| d@)
}

/// `new` is `old` with `code` marked used, where `old` names it.
pub open spec fn marked_used<T: DirectiveKind>(
    new: IgnoreDirective<T>,
    old: IgnoreDirective<T>,
    code: Seq<char>,
) -> bool {
    &&& new.span_view() == old.span_view()
    &&& new.entries().len() == old.entries().len()
    &&& forall|i: int|
        0 <= i < old.entries().len() ==> #[trigger] new.entries()[i] == if old.entries()[i].0
            == code {
            (code, true)
        } else {
            old.entries()[i]
        }
}

/// The codes of `entries` that are not used yet, in order.
pub open spec fn unused_codes(entries: Seq<(Seq<char>, bool)>) -> Seq<Seq<char>>
    decreases entries.len(),
{
    if entries.len() == 0 {
        Seq::empty()
    } else if entries.last().1 {
        unused_codes(entries.drop_last())
    } else {
        unused_codes(entries.drop_last()).push(entries.last().0)
    }
}

/// The diagnostic that reports `code` of the directive at `span` as unused.
pub open spec fn unused_diagnostic(span: Span, code: Seq<char>) -> (Span, Seq<char>, Seq<char>) {
    (span, UNUSED_DIRECTIVE_CODE@, code + UNUSED_DIRECTIVE_MESSAGE_TAIL@)
}

/// The diagnostics that report the unused codes of `d`; none where `d`
/// covers every code.
pub open spec fn unused_diagnostics_of<T: DirectiveKind>(d: IgnoreDirective<T>) -> Seq<
    (Span, Seq<char>, Seq<char>),
> {
    unused_codes(d.entries()).map_values(|c: Seq<char>| unused_diagnostic(d.span_view(), c))
}

/// The diagnostics that report the unused codes of the line directives of
/// `m` at `lines`, line by line.
pub open spec fn unused_diagnostics_of_lines(
    m: Map<usize, LineIgnoreDirective>,
    lines: Seq<usize>,
) -> Seq<(Span, Seq<char>, Seq<char>)>
    decreases lines.len(),
{
    if lines.len() == 0 {
        Seq::empty()
    } else {
        unused_diagnostics_of_lines(m, lines.drop_last()) + unused_diagnostics_of(
            m[lines.last()],
        )
    }
}

/// The state of one analysis run: the directives of the file, the diagnostics
/// kept so far.
pub struct Context {
    pub line_index: LineIndex,
    pub file_directive: Option<FileIgnoreDirective>,
    pub line_directives: HashMap<usize, LineIgnoreDirective>,
    /// The keys of `line_directives`, in the order of their comments.
    pub directive_lines: Vec<usize>,
    pub diagnostics: Vec<Diagnostic>,
}

impl Context {
    /// Every directive holds each code once, and `directive_lines` holds each
    /// key of `line_directives` once, and nothing else.
    pub open spec fn wf(&self) -> bool {
        &&& (self.file_directive matches Some(d) ==> d.wf())
        &&& forall|l: usize| #[trigger]
            self.line_directives@.contains_key(l) ==> self.line_directives@[l].wf()
        &&& self.directive_lines@.no_duplicates()
        &&& forall|l: usize|
            #[trigger] self.directive_lines@.contains(l) <==> self.line_directives@.contains_key(l)
    }

    /// The file directive covers `code`.
    pub open spec fn file_covers(&self, code: Seq<char>) -> bool {
        self.file_directive matches Some(d) && (d.spec_ignore_all() || d.keys().contains(code))
    }

    /// The directive on `line` covers `code`.
    pub open spec fn line_covers(&self, line: usize, code: Seq<char>) -> bool {
        self.line_directives@.contains_key(line) && (self.line_directives@[line].spec_ignore_all()
            || self.line_directives@[line].keys().contains(code))
    }

    /// The line of the byte offset `pos`.
    pub open spec fn line_at(&self, pos: u32) -> usize {
        line_of(self.line_index.line_starts@, pos) as usize
    }

    /// The diagnostics that report every unused code of every directive: those
    /// of the file directive first, then those of the line directives.
    pub open spec fn spec_unused_directive_diagnostics(&self) -> Seq<
        (Span, Seq<char>, Seq<char>),
    > {
        let file_part = match self.file_directive {
            Some(d) => unused_diagnostics_of(d),
            None => Seq::empty(),
        };
        file_part + unused_diagnostics_of_lines(self.line_directives@, self.directive_lines@)
    }
}

/// `new` is `old` after a rule reported `code` at `span` with `message`:
/// a file directive that covers the code takes it, and marks it used;
/// otherwise a directive on the diagnostic's line that covers it takes it,
/// and marks it used; otherwise the diagnostic is kept.
pub open spec fn add_diagnostic_result(
    old: Context,
    new: Context,
    span: Span,
    code: Seq<char>,
    message: Seq<char>,
) -> bool {
    let line = old.line_at(span.lo);
    &&& new.line_index == old.line_index
    &&& new.directive_lines == old.directive_lines
    &&& new.wf()
    &&& diagnostic_views(new.diagnostics@) == if old.file_covers(code) || old.line_covers(
        line,
        code,
    ) {
        diagnostic_views(old.diagnostics@)
    } else {
        diagnostic_views(old.diagnostics@).push((span, code, message))
    }
    &&& if old.file_covers(code) {
        &&& new.file_directive is Some
        &&& marked_used(new.file_directive->0, old.file_directive->0, code)
        &&& new.line_directives@ == old.line_directives@
    } else {
        &&& new.file_directive == old.file_directive
        &&& new.line_directives@.dom() == old.line_directives@.dom()
        &&& forall|l: usize|
            l != line && #[trigger] old.line_directives@.contains_key(l)
                ==> new.line_directives@[l] == old.line_directives@[l]
        &&& old.line_directives@.contains_key(line) ==> marked_used(
            new.line_directives@[line],
            old.line_directives@[line],
            code,
        )
    }
}

/// Whether `lines` holds `line`.
fn holds_line(lines: &Vec<usize>, line: usize) -> (r: bool)
    ensures
        r == lines@.contains(line),
{
    let mut i: usize = 0;
    while i < lines.len()
        invariant
            i <= lines@.len(),
            forall|j: int| 0 <= j < i ==> lines@[j] != line,
        decreases lines@.len() - i,
    {
        if lines[i] == line {
            assert(lines@[i as int] == line);
            return true;
        }
        i = i + 1;
    }
    false
}

impl Context {
    /// Sets up a run over one file: reads the line directives from all
    /// `comments` and the file directive from the `leading_comments`, those
    /// before the file's first token.
    pub fn new(
        line_index: LineIndex,
        comments: &Vec<Comment>,
        leading_comments: &Vec<Comment>,
        ignore_diagnostic_directive: &str,
        ignore_global_directive: &str,
    ) -> (r: Context)
        ensures
            r.wf(),
            r.line_index == line_index,
            r.diagnostics@.len() == 0,
            line_directives_from(
                r.line_directives@,
                ignore_diagnostic_directive@,
                comments@,
                line_index.line_starts@,
                comments@.len() as int,
            ),
            file_directive_from(r.file_directive, ignore_global_directive@, leading_comments@),
    {
        broadcast use vstd::std_specs::hash::group_hash_axioms;

        let file_directive = parse_file_ignore_directives(ignore_global_directive, leading_comments);
        let line_directives = parse_line_ignore_directives(
            ignore_diagnostic_directive,
            comments,
            &line_index,
        );
        let ghost keyword = ignore_diagnostic_directive@;
        let ghost starts = line_index.line_starts@;
        let mut directive_lines: Vec<usize> = Vec::new();
        let mut i: usize = 0;
        while i < comments.len()
            invariant
                i <= comments@.len(),
                keyword == ignore_diagnostic_directive@,
                starts == line_index.line_starts@,
                line_directives_from(
                    line_directives@,
                    keyword,
                    comments@,
                    starts,
                    comments@.len() as int,
                ),
                directive_lines@.no_duplicates(),
                forall|l: usize| #[trigger]
                    directive_lines@.contains(l) ==> line_directives@.contains_key(l),
                forall|k: int|
                    0 <= k < i && #[trigger] line_directives@.contains_key(
                        line_of(starts, comments@[k].span.lo) as usize,
                    ) ==> directive_lines@.contains(line_of(starts, comments@[k].span.lo) as usize),
            decreases comments@.len() - i,
        {
            let line = line_index.line_index(comments[i].span.lo);
            if line_directives.contains_key(&line) {
                let seen = holds_line(&directive_lines, line);
                if !seen {
                    let ghost before = directive_lines@;
                    directive_lines.push(line);
                    assert forall|l: usize| #[trigger]
                        directive_lines@.contains(l) implies line_directives@.contains_key(l) by {
                        if l != line {
                            let q = choose|q: int|
                                0 <= q < directive_lines@.len() && directive_lines@[q] == l;
                            assert(before[q] == l);
                            assert(before.contains(l));
                        }
                    }
                    assert(directive_lines@[before.len() as int] == line);
                    assert forall|k: int|
                        0 <= k < i + 1 && #[trigger] line_directives@.contains_key(
                            line_of(starts, comments@[k].span.lo) as usize,
                        ) implies directive_lines@.contains(
                        line_of(starts, comments@[k].span.lo) as usize,
                    ) by {
                        if k < i {
                            let l = line_of(starts, comments@[k].span.lo) as usize;
                            let q = choose|q: int| 0 <= q < before.len() && before[q] == l;
                            assert(directive_lines@[q] == l);
                        }
                    }
                }
            }
            i = i + 1;
        }
        assert forall|l: usize|
            #[trigger] directive_lines@.contains(l) <==> line_directives@.contains_key(l) by {
            if line_directives@.contains_key(l) {
                assert(has_directive_on_line(
                    keyword,
                    comments@,
                    starts,
                    comments@.len() as int,
                    l,
                ));
                let k = choose|k: int|
                    0 <= k < comments@.len() && crate::ignore_directives::is_directive_comment(
                        keyword,
                        #[trigger] comments@[k],
                    ) && line_of(starts, comments@[k].span.lo) == l;
                assert(line_directives@.contains_key(
                    line_of(starts, comments@[k].span.lo) as usize,
                ));
            }
        }
        Context {
            line_index,
            file_directive,
            line_directives,
            directive_lines,
            diagnostics: Vec::new(),
        }
    }
}

/// Appends to `out` a diagnostic for each unused code of `d`.
fn push_unused_diagnostics<T: DirectiveKind>(d: &IgnoreDirective<T>, out: &mut Vec<Diagnostic>)
    ensures
        diagnostic_views(final(out)@) == diagnostic_views(old(out)@) + unused_diagnostics_of(*d),
{
    let codes = d.codes();
    let ghost entries = d.entries();
    let ghost start = diagnostic_views(out@);
    let ghost f = |c: Seq<char>| unused_diagnostic(d.span_view(), c);
    let mut i: usize = 0;
    assert(entries.subrange(0, 0) =~= Seq::<(Seq<char>, bool)>::empty());
    assert(start + unused_codes(Seq::empty()).map_values(f) =~= start);
    while i < codes.len()
        invariant
            i <= codes@.len(),
            entries == d.entries(),
            entries == codes@.map_values(|e: (String, CodeStatus)| (e.0@, e.1.used)),
            f == (|c: Seq<char>| unused_diagnostic(d.span_view(), c)),
            diagnostic_views(out@) == start + unused_codes(entries.subrange(0, i as int)).map_values(
                f,
            ),
        decreases codes@.len() - i,
    {
        let ghost prefix = entries.subrange(0, i as int);
        assert(entries.subrange(0, i + 1).drop_last() =~= prefix);
        assert(entries.subrange(0, i + 1).last() == entries[i as int]);
        if !codes[i].1.used {
            let mut message = codes[i].0.clone();
            message.append(UNUSED_DIRECTIVE_MESSAGE_TAIL);
            let diagnostic = Diagnostic {
                span: d.span(),
                code: String::from_str(UNUSED_DIRECTIVE_CODE),
                message,
            };
            let ghost before = out@;
            out.push(diagnostic);
            assert(diagnostic_views(out@) =~= diagnostic_views(before).push(diagnostic@));
            assert(unused_codes(entries.subrange(0, i + 1)) == unused_codes(prefix).push(
                entries[i as int].0,
            ));
            assert(unused_codes(prefix).push(entries[i as int].0).map_values(f) =~= unused_codes(
                prefix,
            ).map_values(f).push(f(entries[i as int].0)));
            assert(diagnostic@ == f(entries[i as int].0));
        }
        i = i + 1;
    }
    assert(entries.subrange(0, i as int) =~= entries);
}

impl Context {
    /// The diagnostics kept so far.
    pub fn diagnostics(&self) -> (r: &Vec<Diagnostic>)
        ensures
            r == &self.diagnostics,
    {
        &self.diagnostics
    }

    /// Reports a finding of a rule: a file directive that covers `code`
    /// suppresses it; otherwise a directive on the line where `span` starts
    /// that covers `code` does; a directive that suppresses it by naming the
    /// code marks that code used. A finding that nothing suppresses is kept.
    pub fn add_diagnostic(&mut self, span: Span, code: &str, message: &str)
        requires
            old(self).wf(),
        ensures
            add_diagnostic_result(*old(self), *final(self), span, code@, message@),
    {
        broadcast use vstd::std_specs::hash::group_hash_axioms;

        let line = self.line_index.line_index(span.lo);
        let file_takes = match &self.file_directive {
            Some(d) => d.ignore_all() || d.has_code(code),
            None => false,
        };
        if file_takes {
            match &mut self.file_directive {
                Some(d) => {
                    d.check_used(code);
                },
                None => {},
            }
            return;
        }
        match self.line_directives.remove(&line) {
            Some(mut d) => {
                let takes = if d.ignore_all() {
                    true
                } else {
                    d.check_used(code)
                };
                self.line_directives.insert(line, d);
                assert(self.line_directives@.dom() =~= old(self).line_directives@.dom());
                if takes {
                    return;
                }
            },
            None => {
                assert(self.line_directives@ =~= old(self).line_directives@);
            },
        }
        let diagnostic = Diagnostic {
            span,
            code: String::from_str(code),
            message: String::from_str(message),
        };
        let ghost before = self.diagnostics@;
        self.diagnostics.push(diagnostic);
        assert(diagnostic_views(self.diagnostics@) =~= diagnostic_views(before).push(diagnostic@));
    }

    /// A diagnostic for each code of each directive that has suppressed
    /// nothing: those of the file directive, then those of the line
    /// directives in the order of their comments. A directive that covers
    /// every code is never reported. These diagnostics are not themselves
    /// held against the directives: no directive can suppress them.
    pub fn unused_directive_diagnostics(&self) -> (r: Vec<Diagnostic>)
        requires
            self.wf(),
        ensures
            diagnostic_views(r@) == self.spec_unused_directive_diagnostics(),
    {
        broadcast use vstd::std_specs::hash::group_hash_axioms;

        let mut out: Vec<Diagnostic> = Vec::new();
        match &self.file_directive {
            Some(d) => push_unused_diagnostics(d, &mut out),
            None => {},
        }
        let ghost file_part = diagnostic_views(out@);
        let ghost m = self.line_directives@;
        let ghost lines = self.directive_lines@;
        assert(lines.subrange(0, 0) =~= Seq::<usize>::empty());
        assert(file_part + unused_diagnostics_of_lines(m, Seq::empty()) =~= file_part);
        let mut j: usize = 0;
        while j < self.directive_lines.len()
            invariant
                j <= lines.len(),
                self.wf(),
                m == self.line_directives@,
                lines == self.directive_lines@,
                file_part == match self.file_directive {
                    Some(d) => unused_diagnostics_of(d),
                    None => Seq::<(Span, Seq<char>, Seq<char>)>::empty(),
                },
                diagnostic_views(out@) == file_part + unused_diagnostics_of_lines(
                    m,
                    lines.subrange(0, j as int),
                ),
            decreases lines.len() - j,
        {
            let line = self.directive_lines[j];
            assert(lines.contains(line));
            let ghost prefix = lines.subrange(0, j as int);
            assert(lines.subrange(0, j + 1).drop_last() =~= prefix);
            assert(lines.subrange(0, j + 1).last() == line);
            match self.line_directives.get(&line) {
                Some(d) => {
                    let ghost before = diagnostic_views(out@);
                    push_unused_diagnostics(d, &mut out);
                    assert(before + unused_diagnostics_of(*d) =~= file_part + (
                    unused_diagnostics_of_lines(m, prefix) + unused_diagnostics_of(m[line])));
                },
                None => {},
            }
            j = j + 1;
        }
        assert(lines.subrange(0, j as int) =~= lines);
        out
    }
}

/// A line directive suppresses what it covers: where no file directive
/// covers `code`, a diagnostic on a line whose directive names `code`, or
/// covers every code, is dropped, and a named code is marked used.
pub proof fn lemma_line_directive_suppresses(
    old: Context,
    new: Context,
    span: Span,
    code: Seq<char>,
    message: Seq<char>,
)
    requires
        add_diagnostic_result(old, new, span, code, message),
        !old.file_covers(code),
        old.line_directives@.contains_key(old.line_at(span.lo)),
        old.line_directives@[old.line_at(span.lo)].spec_ignore_all()
            || old.line_directives@[old.line_at(span.lo)].keys().contains(code),
    ensures
        diagnostic_views(new.diagnostics@) == diagnostic_views(old.diagnostics@),
        ({
            let line = old.line_at(span.lo);
            forall|i: int|
                0 <= i < old.line_directives@[line].entries().len()
                    && old.line_directives@[line].entries()[i].0 == code
                    ==> #[trigger] new.line_directives@[line].entries()[i] == (code, true)
        }),
{
}

/// A file directive overrides line directives: where it covers `code`, the
/// diagnostic is dropped and no line directive is touched.
pub proof fn lemma_file_directive_overrides(
    old: Context,
    new: Context,
    span: Span,
    code: Seq<char>,
    message: Seq<char>,
)
    requires
        add_diagnostic_result(old, new, span, code, message),
        old.file_covers(code),
    ensures
        diagnostic_views(new.diagnostics@) == diagnostic_views(old.diagnostics@),
        new.line_directives@ == old.line_directives@,
{
}

proof fn lemma_unused_codes_entries(entries: Seq<(Seq<char>, bool)>)
    requires
        entries.map_values(|e: (Seq<char>, bool)| e.0).no_duplicates(),
    ensures
        forall|c: Seq<char>|
            #[trigger] unused_codes(entries).contains(c) <==> exists|i: int|
                0 <= i < entries.len() && #[trigger] entries[i] == (c, false),
        unused_codes(entries).no_duplicates(),
    decreases entries.len(),
{
    if entries.len() > 0 {
        let front = entries.drop_last();
        let last = entries.last();
        assert(front.map_values(|e: (Seq<char>, bool)| e.0) =~= entries.map_values(
            |e: (Seq<char>, bool)| e.0,
        ).drop_last());
        lemma_unused_codes_entries(front);
        let uf = unused_codes(front);
        let u = unused_codes(entries);
        if last.1 {
            assert(u == uf);
        } else {
            assert(u == uf.push(last.0));
        }
        assert forall|c: Seq<char>| #[trigger] u.contains(c) implies exists|i: int|
            0 <= i < entries.len() && #[trigger] entries[i] == (c, false) by {
            let q = choose|q: int| 0 <= q < u.len() && u[q] == c;
            if q < uf.len() {
                assert(uf[q] == c);
                assert(uf.contains(c));
                let i = choose|i: int| 0 <= i < front.len() && #[trigger] front[i] == (c, false);
                assert(entries[i] == (c, false));
            } else {
                assert(entries[entries.len() - 1] == (c, false));
            }
        }
        assert forall|c: Seq<char>|
            (exists|i: int| 0 <= i < entries.len() && #[trigger] entries[i] == (c, false))
                implies #[trigger] u.contains(c) by {
            let i = choose|i: int| 0 <= i < entries.len() && #[trigger] entries[i] == (c, false);
            if i < front.len() {
                assert(front[i] == (c, false));
                assert(uf.contains(c));
                let q = choose|q: int| 0 <= q < uf.len() && uf[q] == c;
                assert(u[q] == c);
            } else {
                assert(u[uf.len() as int] == c);
            }
        }
        if !last.1 {
            assert forall|c: Seq<char>| unused_codes(front).contains(c) implies c != last.0 by {
                let i = choose|i: int| 0 <= i < front.len() && #[trigger] front[i] == (c, false);
                let keys = entries.map_values(|e: (Seq<char>, bool)| e.0);
                assert(keys[i] == c);
                assert(keys[entries.len() - 1] == last.0);
            }
            assert forall|a: int, b: int| 0 <= a < u.len() && 0 <= b < u.len() && a != b implies u[a]
                != u[b] by {
                let uf = unused_codes(front);
                if a < uf.len() && b < uf.len() {
                } else if a < uf.len() {
                    assert(uf.contains(u[a]));
                } else {
                    assert(uf.contains(u[b]));
                }
            }
        }
    }
}

/// Each unused code of a directive yields exactly one diagnostic, at the
/// directive's span: the codes reported are the codes not marked used, each
/// once, and a directive that covers every code yields none.
pub proof fn lemma_unused_reported_once<T: DirectiveKind>(d: IgnoreDirective<T>)
    requires
        d.wf(),
    ensures
        forall|c: Seq<char>|
            #[trigger] unused_codes(d.entries()).contains(c) <==> exists|i: int|
                0 <= i < d.entries().len() && #[trigger] d.entries()[i] == (c, false),
        unused_codes(d.entries()).no_duplicates(),
        unused_diagnostics_of(d).len() == unused_codes(d.entries()).len(),
        forall|i: int|
            0 <= i < unused_diagnostics_of(d).len() ==> #[trigger] unused_diagnostics_of(d)[i]
                == unused_diagnostic(d.span_view(), unused_codes(d.entries())[i]),
        d.spec_ignore_all() ==> unused_diagnostics_of(d).len() == 0,
{
    assert(d.keys() =~= d.entries().map_values(|e: (Seq<char>, bool)| e.0));
    lemma_unused_codes_entries(d.entries());
    if d.spec_ignore_all() {
        assert(d.entries() =~= Seq::<(Seq<char>, bool)>::empty());
    }
}

} // verus!
