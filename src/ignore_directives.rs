use crate::source::{Comment, CommentKind, LineIndex, Span, line_of};
use crate::text::{
    chars_of,
    first_word,
    first_word_end,
    is_white_space,
    lemma_first_word_shape,
    normalize_separators,
    pieces_at,
    range_equals,
    separators_to_commas,
    split_comma_bounds,
    split_commas,
    trim,
    trim_bounds,
};
use std::collections::HashMap;
use vstd::prelude::*;

verus! {

pub type LineIgnoreDirective = IgnoreDirective<Line>;

pub type FileIgnoreDirective = IgnoreDirective<File>;

/// Marks a directive that covers the single line it stands on.
#[derive(Debug)]
pub struct Line;

/// Marks a directive that covers the whole file.
#[derive(Debug)]
pub struct File;

/// The scope of a directive: `Line` or `File`.
pub trait DirectiveKind {}

impl DirectiveKind for Line {}

impl DirectiveKind for File {}

/// Whether a directive's code has suppressed a diagnostic yet.
#[derive(Clone, Copy, Debug, PartialEq, Eq, Default, Structural)]
pub struct CodeStatus {
    pub used: bool,
}

impl CodeStatus {
    /// Records that the code has suppressed a diagnostic.
    pub fn mark_as_used(&mut self)
        ensures
            final(self).used,
    {
        self.used = true;
    }
}

/// The text after `keyword` in a comment, where the comment's trimmed text
/// has `keyword` as its first whitespace-delimited word.
pub open spec fn directive_rest(keyword: Seq<char>, text: Seq<char>) -> Option<Seq<char>> {
    let t = trim(text);
    if t.len() > 0 && first_word(t) == keyword {
        Some(t.subrange(keyword.len() as int, t.len() as int))
    } else {
        None
    }
}

/// The pieces between the separators of a directive's code list.
pub open spec fn code_pieces(rest: Seq<char>) -> Seq<Seq<char>> {
    split_commas(separators_to_commas(rest, false))
}

/// `c` is one of the first `n` pieces of `pieces` that are not empty, trimmed.
pub open spec fn listed_among(pieces: Seq<Seq<char>>, n: int, c: Seq<char>) -> bool {
    exists|i: int| 0 <= i < n && #[trigger] pieces[i].len() > 0 && trim(pieces[i]) == c
}

proof fn lemma_listed_among_grows(pieces: Seq<Seq<char>>, n: int, c: Seq<char>)
    requires
        listed_among(pieces, n, c),
    ensures
        listed_among(pieces, n + 1, c),
{
    let w = choose|w: int| 0 <= w < n && #[trigger] pieces[w].len() > 0 && trim(pieces[w]) == c;
    assert(0 <= w < n + 1 && pieces[w].len() > 0 && trim(pieces[w]) == c);
}

/// `c` is one of the codes that the code list `rest` names.
pub open spec fn is_listed_code(rest: Seq<char>, c: Seq<char>) -> bool {
    listed_among(code_pieces(rest), code_pieces(rest).len() as int, c)
}

/// `comment` is a line comment whose first word is `keyword`.
pub open spec fn is_directive_comment(keyword: Seq<char>, comment: Comment) -> bool {
    comment.kind == CommentKind::Line && directive_rest(keyword, comment.text@) is Some
}

/// The codes held in `codes`.
pub open spec fn code_keys(codes: Seq<(String, CodeStatus)>) -> Seq<Seq<char>> {
    codes.map_values(|e: (String, CodeStatus)| e.0@)
}

/// Whether `codes` holds `code`.
fn holds_code(codes: &Vec<(String, CodeStatus)>, code: &String) -> (r: bool)
    ensures
        r == code_keys(codes@).contains(code@),
{
    let mut i: usize = 0;
    while i < codes.len()
        invariant
            i <= codes@.len(),
            forall|j: int| 0 <= j < i ==> code_keys(codes@)[j] != code@,
        decreases codes@.len() - i,
    {
        if codes[i].0 == *code {
            assert(code_keys(codes@)[i as int] == code@);
            return true;
        }
        i = i + 1;
    }
    false
}

/// A suppression directive read from a comment.
#[derive(Debug)]
pub struct IgnoreDirective<T: DirectiveKind> {
    span: Span,
    codes: Vec<(String, CodeStatus)>,
    _marker: core::marker::PhantomData<T>,
}

impl<T: DirectiveKind> IgnoreDirective<T> {
    /// The span of the comment that holds the directive.
    pub closed spec fn span_view(&self) -> Span {
        self.span
    }

    /// The directive's codes, each with its used flag.
    pub closed spec fn entries(&self) -> Seq<(Seq<char>, bool)> {
        self.codes@.map_values(|e: (String, CodeStatus)| (e.0@, e.1.used))
    }

    /// The directive's codes.
    pub open spec fn keys(&self) -> Seq<Seq<char>> {
        self.entries().map_values(|e: (Seq<char>, bool)| e.0)
    }

    /// No code is held twice.
    pub open spec fn wf(&self) -> bool {
        self.keys().no_duplicates()
    }

    /// Holds when the directive names no code, and so covers every code.
    pub open spec fn spec_ignore_all(&self) -> bool {
        self.entries().len() == 0
    }

    /// The directive is what `comment` gives for the directive keyword
    /// `keyword`: it covers the comment's span and names, once each and not
    /// yet used, the codes that the comment lists after the keyword.
    pub open spec fn is_directive_of(&self, keyword: Seq<char>, comment: Comment) -> bool {
        &&& is_directive_comment(keyword, comment)
        &&& self.span_view() == comment.span
        &&& self.wf()
        &&& forall|c: Seq<char>|
            self.keys().contains(c) <==> is_listed_code(
                directive_rest(keyword, comment.text@)->0,
                c,
            )
        &&& forall|i: int| 0 <= i < self.entries().len() ==> !(#[trigger] self.entries()[i]).1
    }

    pub fn span(&self) -> (r: Span)
        ensures
            r == self.span_view(),
    {
        self.span
    }

    /// If the directive has no codes specified, it means all the rules should
    /// be ignored.
    pub fn ignore_all(&self) -> (r: bool)
        ensures
            r == self.spec_ignore_all(),
    {
        self.codes.len() == 0
    }

    /// The directive's codes, each with its status.
    pub fn codes(&self) -> (r: &Vec<(String, CodeStatus)>)
        ensures
            r@.map_values(|e: (String, CodeStatus)| (e.0@, e.1.used)) == self.entries(),
    {
        &self.codes
    }

    /// Whether the directive names `code`.
    pub fn has_code(&self, code: &str) -> (r: bool)
        ensures
            r == self.keys().contains(code@),
    {
        let wanted = String::from_str(code);
        let mut i: usize = 0;
        while i < self.codes.len()
            invariant
                wanted@ == code@,
                i <= self.codes@.len(),
                forall|j: int| 0 <= j < i ==> self.keys()[j] != code@,
            decreases self.codes@.len() - i,
        {
            if self.codes[i].0 == wanted {
                assert(self.keys()[i as int] == code@);
                assert(self.keys().contains(code@));
                return true;
            }
            i = i + 1;
        }
        false
    }

    /// Marks `diagnostic_code` as used when the directive names it, and tells
    /// whether it does.
    pub fn check_used(&mut self, diagnostic_code: &str) -> (r: bool)
        requires
            old(self).wf(),
        ensures
            r == old(self).keys().contains(diagnostic_code@),
            final(self).wf(),
            final(self).span_view() == old(self).span_view(),
            final(self).entries().len() == old(self).entries().len(),
            forall|i: int|
                0 <= i < old(self).entries().len() ==> #[trigger] final(self).entries()[i] == if old(
                    self,
                ).entries()[i].0 == diagnostic_code@ {
                    (diagnostic_code@, true)
                } else {
                    old(self).entries()[i]
                },
    {
        let code = String::from_str(diagnostic_code);
        let mut i: usize = 0;
        while i < self.codes.len()
            invariant
                code@ == diagnostic_code@,
                old(self).wf(),
                *self == *old(self),
                i <= self.codes@.len(),
                forall|j: int| 0 <= j < i ==> self.keys()[j] != diagnostic_code@,
            decreases self.codes@.len() - i,
        {
            if self.codes[i].0 == code {
                let key = self.codes[i].0.clone();
                let mut status = self.codes[i].1;
                status.mark_as_used();
                self.codes.set(i, (key, status));
                proof {
                    assert(old(self).keys()[i as int] == diagnostic_code@);
                    assert(old(self).keys().contains(diagnostic_code@));
                    assert(self.keys() =~= old(self).keys());
                    assert forall|j: int| 0 <= j < old(self).entries().len() implies #[trigger] self.entries()[j] == if old(
                        self,
                    ).entries()[j].0 == diagnostic_code@ {
                        (diagnostic_code@, true)
                    } else {
                        old(self).entries()[j]
                    } by {
                        if j != i {
                            assert(old(self).keys()[j] != old(self).keys()[i as int]);
                        }
                    }
                }
                return true;
            }
            i = i + 1;
        }
        assert(!old(self).keys().contains(diagnostic_code@));
        assert forall|j: int| 0 <= j < old(self).entries().len() implies old(self).entries()[j].0
            != diagnostic_code@ by {
            assert(old(self).keys()[j] == old(self).entries()[j].0);
        }
        false
    }
}

/// Reads a directive from `comment`: a line comment whose trimmed text starts
/// with `ignore_diagnostic_directive` as a word of its own, followed by the
/// codes that it covers, separated by whitespace or commas. With no codes the
/// directive covers every code.
pub fn parse_ignore_comment<T: DirectiveKind>(
    ignore_diagnostic_directive: &str,
    comment: &Comment,
) -> (r: Option<IgnoreDirective<T>>)
    ensures
        match r {
            Some(d) => d.is_directive_of(ignore_diagnostic_directive@, *comment),
            None => !is_directive_comment(ignore_diagnostic_directive@, *comment),
        },
{
    match comment.kind {
        CommentKind::Block => {
            return None;
        },
        CommentKind::Line => {},
    }
    let ghost keyword = ignore_diagnostic_directive@;
    let text = chars_of(comment.text.as_str());
    let (lo, hi) = trim_bounds(&text);
    let ghost t = text@.subrange(lo as int, hi as int);
    if lo == hi {
        return None;
    }
    let k = first_word_end(&text, lo, hi);
    let word = chars_of(ignore_diagnostic_directive);
    if !range_equals(&text, lo, k, &word) {
        return None;
    }
    let rest = comment.text.as_str().substring_char(k, hi);
    assert(rest@ =~= t.subrange(keyword.len() as int, t.len() as int));
    let normalized = normalize_separators(rest);
    let normalized_chars = chars_of(normalized.as_str());
    let bounds = split_comma_bounds(&normalized_chars);
    let ghost pieces = code_pieces(rest@);
    assert(pieces == pieces_at(normalized@, bounds@));
    let mut codes: Vec<(String, CodeStatus)> = Vec::new();
    let mut j: usize = 0;
    while j < bounds.len()
        invariant
            j <= bounds@.len(),
            pieces == pieces_at(normalized@, bounds@),
            forall|i: int|
                0 <= i < bounds@.len() ==> (#[trigger] bounds@[i]).0 <= bounds@[i].1
                    <= normalized@.len(),
            code_keys(codes@).no_duplicates(),
            forall|c: Seq<char>|
                code_keys(codes@).contains(c) <==> listed_among(pieces, j as int, c),
            forall|i: int| 0 <= i < codes@.len() ==> !(#[trigger] codes@[i]).1.used,
        decreases bounds@.len() - j,
    {
        let (a, b) = bounds[j];
        let ghost before = codes@;
        if a < b {
            let piece = normalized.as_str().substring_char(a, b);
            assert(piece@ == pieces[j as int]);
            let piece_chars = chars_of(piece);
            let (x, y) = trim_bounds(&piece_chars);
            let code = String::from_str(piece.substring_char(x, y));
            assert(code@ == trim(pieces[j as int]));
            let ghost wanted = code@;
            if !holds_code(&codes, &code) {
                codes.push((code, CodeStatus { used: false }));
                assert(code_keys(codes@) =~= code_keys(before).push(wanted));
                assert(code_keys(codes@)[before.len() as int] == wanted);
            }
            assert(code_keys(codes@).contains(wanted));
            assert forall|c: Seq<char>| listed_among(pieces, j + 1, c) implies code_keys(
                codes@,
            ).contains(c) by {
                {
                    let w = choose|w: int|
                        0 <= w < j + 1 && #[trigger] pieces[w].len() > 0 && trim(pieces[w]) == c;
                    if w < j {
                        assert(listed_among(pieces, j as int, c));
                        assert(code_keys(before).contains(c));
                        let q = choose|q: int| 0 <= q < before.len() && code_keys(before)[q] == c;
                        assert(code_keys(codes@)[q] == c);
                    } else {
                        assert(c == wanted);
                    }
                }
            }
            assert forall|c: Seq<char>| code_keys(codes@).contains(c) implies listed_among(
                pieces,
                j + 1,
                c,
            ) by {
                {
                    if code_keys(before).contains(c) {
                        lemma_listed_among_grows(pieces, j as int, c);
                    } else {
                        assert(c == wanted);
                        assert(pieces[j as int].len() > 0);
                    }
                }
            }
            assert forall|c: Seq<char>|
                code_keys(codes@).contains(c) <==> listed_among(pieces, j + 1, c) by {}
        } else {
            assert(pieces[j as int].len() == 0);
            assert forall|c: Seq<char>|
                code_keys(codes@).contains(c) <==> listed_among(pieces, j + 1, c) by {
                if listed_among(pieces, j + 1, c) {
                    let w = choose|w: int|
                        0 <= w < j + 1 && #[trigger] pieces[w].len() > 0 && trim(pieces[w]) == c;
                    assert(w != j);
                    assert(0 <= w < j && pieces[w].len() > 0 && trim(pieces[w]) == c);
                    assert(listed_among(pieces, j as int, c));
                }
                if listed_among(pieces, j as int, c) {
                    lemma_listed_among_grows(pieces, j as int, c);
                }
            }
        }
        j = j + 1;
    }
    let d = IgnoreDirective { span: comment.span, codes, _marker: core::marker::PhantomData };
    assert(d.keys() =~= code_keys(codes@));
    assert forall|i: int| 0 <= i < d.entries().len() implies !(#[trigger] d.entries()[i]).1 by {
        assert(!codes@[i].1.used);
    }
    Some(d)
}

/// `comments[k]` is a directive comment on line `line`, and no later one of
/// the first `n` comments is a directive comment on that line.
pub open spec fn last_directive_on_line(
    keyword: Seq<char>,
    comments: Seq<Comment>,
    lines: Seq<u32>,
    n: int,
    line: usize,
    k: int,
) -> bool {
    &&& 0 <= k < n
    &&& is_directive_comment(keyword, comments[k])
    &&& line_of(lines, comments[k].span.lo) == line
    &&& forall|k2: int|
        k < k2 < n ==> !(is_directive_comment(keyword, #[trigger] comments[k2]) && line_of(
            lines,
            comments[k2].span.lo,
        ) == line)
}

/// Some one of the first `n` comments is a directive comment on line `line`.
pub open spec fn has_directive_on_line(
    keyword: Seq<char>,
    comments: Seq<Comment>,
    lines: Seq<u32>,
    n: int,
    line: usize,
) -> bool {
    exists|k: int|
        0 <= k < n && is_directive_comment(keyword, #[trigger] comments[k]) && line_of(
            lines,
            comments[k].span.lo,
        ) == line
}

/// The directives among the first `n` comments, keyed by their line: for each
/// line, the directive of the last directive comment on it.
pub open spec fn line_directives_from(
    m: Map<usize, LineIgnoreDirective>,
    keyword: Seq<char>,
    comments: Seq<Comment>,
    lines: Seq<u32>,
    n: int,
) -> bool {
    &&& forall|line: usize|
        #[trigger] m.contains_key(line) <==> has_directive_on_line(keyword, comments, lines, n, line)
    &&& forall|line: usize|
        #[trigger] m.contains_key(line) ==> exists|k: int|
            last_directive_on_line(keyword, comments, lines, n, line, k) && m[line].is_directive_of(
                keyword,
                #[trigger] comments[k],
            )
}

/// Reads a line directive from every comment, keyed by the line the comment
/// starts on; of two on one line, the later one is kept.
pub fn parse_line_ignore_directives(
    ignore_diagnostic_directive: &str,
    comments: &Vec<Comment>,
    line_index: &LineIndex,
) -> (r: HashMap<usize, LineIgnoreDirective>)
    ensures
        line_directives_from(
            r@,
            ignore_diagnostic_directive@,
            comments@,
            line_index.line_starts@,
            comments@.len() as int,
        ),
{
    broadcast use vstd::std_specs::hash::group_hash_axioms;

    let ghost keyword = ignore_diagnostic_directive@;
    let ghost lines = line_index.line_starts@;
    let mut r: HashMap<usize, LineIgnoreDirective> = HashMap::new();
    let mut i: usize = 0;
    while i < comments.len()
        invariant
            i <= comments@.len(),
            keyword == ignore_diagnostic_directive@,
            lines == line_index.line_starts@,
            line_directives_from(r@, keyword, comments@, lines, i as int),
        decreases comments@.len() - i,
    {
        let ghost before = r@;
        match parse_ignore_comment::<Line>(ignore_diagnostic_directive, &comments[i]) {
            Some(directive) => {
                let line = line_index.line_index(directive.span().lo);
                r.insert(line, directive);
                assert forall|l: usize|
                    #[trigger] r@.contains_key(l) <==> has_directive_on_line(
                        keyword,
                        comments@,
                        lines,
                        i + 1,
                        l,
                    ) by {
                    if l != line && has_directive_on_line(keyword, comments@, lines, i + 1, l) {
                        let k = choose|k: int|
                            0 <= k < i + 1 && is_directive_comment(
                                keyword,
                                #[trigger] comments@[k],
                            ) && line_of(lines, comments@[k].span.lo) == l;
                        assert(has_directive_on_line(keyword, comments@, lines, i as int, l));
                    }
                    if l == line {
                        assert(has_directive_on_line(keyword, comments@, lines, i + 1, l)) by {
                            assert(is_directive_comment(keyword, comments@[i as int]));
                        }
                    }
                    if has_directive_on_line(keyword, comments@, lines, i as int, l) {
                        let k = choose|k: int|
                            0 <= k < i && is_directive_comment(
                                keyword,
                                #[trigger] comments@[k],
                            ) && line_of(lines, comments@[k].span.lo) == l;
                        assert(has_directive_on_line(keyword, comments@, lines, i + 1, l));
                    }
                }
                assert forall|l: usize| #[trigger] r@.contains_key(l) implies exists|k: int|
                    last_directive_on_line(keyword, comments@, lines, i + 1, l, k)
                        && r@[l].is_directive_of(keyword, #[trigger] comments@[k]) by {
                    if l == line {
                        assert(last_directive_on_line(
                            keyword,
                            comments@,
                            lines,
                            i + 1,
                            l,
                            i as int,
                        ));
                    } else {
                        let k = choose|k: int|
                            last_directive_on_line(keyword, comments@, lines, i as int, l, k)
                                && before[l].is_directive_of(keyword, #[trigger] comments@[k]);
                        assert(last_directive_on_line(keyword, comments@, lines, i + 1, l, k));
                    }
                }
            },
            None => {
                assert forall|l: usize|
                    #[trigger] r@.contains_key(l) <==> has_directive_on_line(
                        keyword,
                        comments@,
                        lines,
                        i + 1,
                        l,
                    ) by {
                    if has_directive_on_line(keyword, comments@, lines, i + 1, l) {
                        let k = choose|k: int|
                            0 <= k < i + 1 && is_directive_comment(
                                keyword,
                                #[trigger] comments@[k],
                            ) && line_of(lines, comments@[k].span.lo) == l;
                        assert(has_directive_on_line(keyword, comments@, lines, i as int, l));
                    }
                    if has_directive_on_line(keyword, comments@, lines, i as int, l) {
                        let k = choose|k: int|
                            0 <= k < i && is_directive_comment(
                                keyword,
                                #[trigger] comments@[k],
                            ) && line_of(lines, comments@[k].span.lo) == l;
                        assert(has_directive_on_line(keyword, comments@, lines, i + 1, l));
                    }
                }
                assert forall|l: usize| #[trigger] r@.contains_key(l) implies exists|k: int|
                    last_directive_on_line(keyword, comments@, lines, i + 1, l, k)
                        && r@[l].is_directive_of(keyword, #[trigger] comments@[k]) by {
                    let k = choose|k: int|
                        last_directive_on_line(keyword, comments@, lines, i as int, l, k)
                            && r@[l].is_directive_of(keyword, #[trigger] comments@[k]);
                    assert(last_directive_on_line(keyword, comments@, lines, i + 1, l, k));
                }
            },
        }
        i = i + 1;
    }
    r
}

/// `r` is the directive of the first of `leading_comments` that is a
/// directive comment for `keyword`, or nothing where none is.
pub open spec fn file_directive_from(
    r: Option<FileIgnoreDirective>,
    keyword: Seq<char>,
    leading_comments: Seq<Comment>,
) -> bool {
    match r {
        Some(d) => exists|k: int|
            0 <= k < leading_comments.len() && (forall|k2: int|
                0 <= k2 < k ==> !is_directive_comment(keyword, #[trigger] leading_comments[k2]))
                && d.is_directive_of(keyword, #[trigger] leading_comments[k]),
        None => forall|k: int|
            0 <= k < leading_comments.len() ==> !is_directive_comment(
                keyword,
                #[trigger] leading_comments[k],
            ),
    }
}

/// Reads the file directive from the comments that lead the file, before its
/// first token: the first of them that is a directive, if any is.
pub fn parse_file_ignore_directives(
    ignore_global_directive: &str,
    leading_comments: &Vec<Comment>,
) -> (r: Option<FileIgnoreDirective>)
    ensures
        file_directive_from(r, ignore_global_directive@, leading_comments@),
{
    let mut i: usize = 0;
    while i < leading_comments.len()
        invariant
            i <= leading_comments@.len(),
            forall|k2: int|
                0 <= k2 < i ==> !is_directive_comment(
                    ignore_global_directive@,
                    #[trigger] leading_comments@[k2],
                ),
        decreases leading_comments@.len() - i,
    {
        match parse_ignore_comment::<File>(ignore_global_directive, &leading_comments[i]) {
            Some(d) => {
                assert(d.is_directive_of(ignore_global_directive@, leading_comments@[i as int]));
                return Some(d);
            },
            None => {},
        }
        i = i + 1;
    }
    None
}

/// Reading one comment text twice gives the same codes: two directives read
/// from comments of equal form and text name the same set of codes.
pub proof fn lemma_parse_same_codes<T: DirectiveKind>(
    keyword: Seq<char>,
    first: Comment,
    second: Comment,
    d1: IgnoreDirective<T>,
    d2: IgnoreDirective<T>,
)
    requires
        first.kind == second.kind,
        first.text@ == second.text@,
        d1.is_directive_of(keyword, first),
        d2.is_directive_of(keyword, second),
    ensures
        d1.keys().to_set() == d2.keys().to_set(),
{
    assert(d1.keys().to_set() =~= d2.keys().to_set());
}

/// Whether a comment is a directive depends on its form and text alone.
pub proof fn lemma_parse_same_outcome(keyword: Seq<char>, first: Comment, second: Comment)
    requires
        first.kind == second.kind,
        first.text@ == second.text@,
    ensures
        is_directive_comment(keyword, first) == is_directive_comment(keyword, second),
{
}

/// The first leading comment that is a file directive decides: where the
/// first leading comment is one, the file directive is read from it, and
/// no later comment contributes a code.
pub proof fn lemma_first_file_directive_wins(
    r: Option<FileIgnoreDirective>,
    keyword: Seq<char>,
    leading_comments: Seq<Comment>,
)
    requires
        file_directive_from(r, keyword, leading_comments),
        leading_comments.len() > 0,
        is_directive_comment(keyword, leading_comments[0]),
    ensures
        r is Some,
        r->0.is_directive_of(keyword, leading_comments[0]),
{
    match r {
        Some(d) => {
            let k = choose|k: int|
                0 <= k < leading_comments.len() && (forall|k2: int|
                    0 <= k2 < k ==> !is_directive_comment(keyword, #[trigger] leading_comments[k2]))
                    && d.is_directive_of(keyword, #[trigger] leading_comments[k]);
            if k > 0 {
                assert(!is_directive_comment(keyword, leading_comments[0]));
            }
        },
        None => {
            assert(!is_directive_comment(keyword, leading_comments[0]));
        },
    }
}

/// The keyword must be a word of its own: a comment whose trimmed text is the
/// keyword followed directly by a character that is not whitespace is no
/// directive.
pub proof fn lemma_keyword_must_end_word(keyword: Seq<char>, comment: Comment)
    requires
        trim(comment.text@).len() > keyword.len(),
        trim(comment.text@).subrange(0, keyword.len() as int) == keyword,
        !is_white_space(trim(comment.text@)[keyword.len() as int]),
    ensures
        !is_directive_comment(keyword, comment),
{
    let t = trim(comment.text@);
    lemma_first_word_shape(t);
    if first_word(t) == keyword {
        assert(is_white_space(t[keyword.len() as int]));
    }
}

} // verus!
