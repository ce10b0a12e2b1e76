use vstd::prelude::*;

verus! {

/// The Unicode `White_Space` property.
pub open spec fn is_white_space(c: char) -> bool {
    let n = c as u32;
    (0x9 <= n && n <= 0xd) || n == 0x20 || n == 0x85 || n == 0xa0 || n == 0x1680 || (0x2000 <= n
        && n <= 0x200a) || n == 0x2028 || n == 0x2029 || n == 0x202f || n == 0x205f || n == 0x3000
}

/// Tests a character for the Unicode `White_Space` property.
pub fn is_white_space_char(c: char) -> (r: bool)
    ensures
        r == is_white_space(c),
{
    let n = c as u32;
    (0x9 <= n && n <= 0xd) || n == 0x20 || n == 0x85 || n == 0xa0 || n == 0x1680 || (0x2000 <= n
        && n <= 0x200a) || n == 0x2028 || n == 0x2029 || n == 0x202f || n == 0x205f || n == 0x3000
}

/// `s` without its leading whitespace.
pub open spec fn trim_start(s: Seq<char>) -> Seq<char>
    decreases s.len(),
{
    if s.len() > 0 && is_white_space(s[0]) {
        trim_start(s.drop_first())
    } else {
        s
    }
}

/// `s` without its trailing whitespace.
pub open spec fn trim_end(s: Seq<char>) -> Seq<char>
    decreases s.len(),
{
    if s.len() > 0 && is_white_space(s.last()) {
        trim_end(s.drop_last())
    } else {
        s
    }
}

/// `s` without leading and trailing whitespace.
pub open spec fn trim(s: Seq<char>) -> Seq<char> {
    trim_end(trim_start(s))
}

/// The characters of `s` up to its first whitespace character.
pub open spec fn first_word(s: Seq<char>) -> Seq<char>
    decreases s.len(),
{
    if s.len() == 0 || is_white_space(s[0]) {
        Seq::empty()
    } else {
        seq![s[0]] + first_word(s.drop_first())
    }
}

/// `s` with every comma, together with the whitespace that directly follows
/// it, and every other whitespace character replaced by one comma.
/// `after_comma` holds where the text just before `s` was such a comma.
pub open spec fn separators_to_commas(s: Seq<char>, after_comma: bool) -> Seq<char>
    decreases s.len(),
{
    if s.len() == 0 {
        Seq::empty()
    } else if after_comma && is_white_space(s[0]) {
        separators_to_commas(s.drop_first(), true)
    } else if s[0] == ',' {
        seq![','] + separators_to_commas(s.drop_first(), true)
    } else if is_white_space(s[0]) {
        seq![','] + separators_to_commas(s.drop_first(), false)
    } else {
        seq![s[0]] + separators_to_commas(s.drop_first(), false)
    }
}

/// The pieces of `s` between its commas, as `str::split(',')` gives them:
/// one more piece than there are commas.
pub open spec fn split_commas(s: Seq<char>) -> Seq<Seq<char>>
    decreases s.len(),
{
    if s.len() == 0 {
        seq![Seq::empty()]
    } else if s.last() == ',' {
        split_commas(s.drop_last()).push(Seq::empty())
    } else {
        let p = split_commas(s.drop_last());
        p.update(p.len() - 1, p.last().push(s.last()))
    }
}

/// The first word of `t` is a prefix of `t` without whitespace, and ends
/// at a whitespace character or at the end of `t`.
pub proof fn lemma_first_word_shape(t: Seq<char>)
    ensures
        first_word(t).len() <= t.len(),
        first_word(t) == t.subrange(0, first_word(t).len() as int),
        forall|i: int| 0 <= i < first_word(t).len() ==> !is_white_space(#[trigger] t[i]),
        first_word(t).len() < t.len() ==> is_white_space(t[first_word(t).len() as int]),
    decreases t.len(),
{
    if t.len() > 0 && !is_white_space(t[0]) {
        let rest = t.drop_first();
        lemma_first_word_shape(rest);
        assert(first_word(t) =~= t.subrange(0, first_word(t).len() as int));
        assert forall|i: int| 0 <= i < first_word(t).len() implies !is_white_space(
            #[trigger] t[i],
        ) by {
            if i > 0 {
                assert(t[i] == rest[i - 1]);
            }
        }
    } else {
        assert(t.subrange(0, 0) =~= Seq::<char>::empty());
    }
}

/// The characters of a string, one by one.
pub fn chars_of(s: &str) -> (r: Vec<char>)
    ensures
        r@ == s@,
{
    let n = s.unicode_len();
    let mut r: Vec<char> = Vec::new();
    let mut i: usize = 0;
    while i < n
        invariant
            n == s@.len(),
            i <= n,
            r@ == s@.subrange(0, i as int),
        decreases n - i,
    {
        r.push(s.get_char(i));
        i = i + 1;
    }
    assert(r@ =~= s@);
    r
}

proof fn lemma_trim_start_from(s: Seq<char>, i: int)
    requires
        0 <= i < s.len(),
        is_white_space(s[i]),
    ensures
        trim_start(s.subrange(i, s.len() as int)) == trim_start(s.subrange(i + 1, s.len() as int)),
{
    assert(s.subrange(i, s.len() as int).drop_first() =~= s.subrange(i + 1, s.len() as int));
}

proof fn lemma_trim_end_to(s: Seq<char>, j: int)
    requires
        0 < j <= s.len(),
        is_white_space(s[j - 1]),
    ensures
        trim_end(s.subrange(0, j)) == trim_end(s.subrange(0, j - 1)),
{
    assert(s.subrange(0, j).drop_last() =~= s.subrange(0, j - 1));
}

/// The bounds `(lo, hi)` of `s` without leading and trailing whitespace.
pub fn trim_bounds(s: &Vec<char>) -> (r: (usize, usize))
    ensures
        r.0 <= r.1 <= s@.len(),
        s@.subrange(r.0 as int, r.1 as int) == trim(s@),
{
    let n = s.len();
    let mut lo: usize = 0;
    assert(s@.subrange(0, n as int) =~= s@);
    while lo < n && is_white_space_char(s[lo])
        invariant
            n == s@.len(),
            lo <= n,
            trim_start(s@) == trim_start(s@.subrange(lo as int, n as int)),
        decreases n - lo,
    {
        proof {
            lemma_trim_start_from(s@, lo as int);
        }
        lo = lo + 1;
    }
    let ghost t = s@.subrange(lo as int, n as int);
    assert(trim_start(t) == t);
    let mut hi: usize = n;
    assert(t.subrange(0, t.len() as int) =~= t);
    while hi > lo && is_white_space_char(s[hi - 1])
        invariant
            lo <= hi <= n,
            n == s@.len(),
            t == s@.subrange(lo as int, n as int),
            trim_end(t) == trim_end(t.subrange(0, hi - lo)),
        decreases hi,
    {
        proof {
            lemma_trim_end_to(t, hi - lo);
        }
        hi = hi - 1;
    }
    assert(t.subrange(0, t.len() as int) =~= t);
    assert(t.subrange(0, hi - lo) =~= s@.subrange(lo as int, hi as int));
    (lo, hi)
}

/// Relies on regex's `Regex::replace_all` with the pattern `,\s*|\s`, whose
/// class `\s` is the Unicode `White_Space` property: each match, a comma with
/// the whitespace after it or a single whitespace character, becomes a comma.
/// The pattern is valid, so `Regex::new` does not fail.
#[verifier::external_body]
fn replace_separators(s: &str) -> (r: String)
    ensures
        r@ == separators_to_commas(s@, false),
{
    regex::Regex::new(r",\s*|\s").unwrap().replace_all(s, ",").into_owned()
}

/// `s` with its code separators (a run of whitespace, or a comma and the
/// whitespace after it) written as single commas.
pub fn normalize_separators(s: &str) -> (r: String)
    ensures
        r@ == separators_to_commas(s@, false),
{
    replace_separators(s)
}

proof fn lemma_first_word_step(s: Seq<char>, k: int, hi: int)
    requires
        0 <= k < hi <= s.len(),
        !is_white_space(s[k]),
    ensures
        first_word(s.subrange(k, hi)) == seq![s[k]] + first_word(s.subrange(k + 1, hi)),
{
    assert(s.subrange(k, hi).drop_first() =~= s.subrange(k + 1, hi));
}

/// The end of the first word of `s[lo..hi]`: the index of its first whitespace
/// character, or `hi`.
pub fn first_word_end(s: &Vec<char>, lo: usize, hi: usize) -> (k: usize)
    requires
        lo <= hi <= s@.len(),
    ensures
        lo <= k <= hi,
        first_word(s@.subrange(lo as int, hi as int)) == s@.subrange(lo as int, k as int),
{
    let mut k: usize = lo;
    while k < hi && !is_white_space_char(s[k])
        invariant
            lo <= k <= hi <= s@.len(),
            first_word(s@.subrange(lo as int, hi as int)) == s@.subrange(lo as int, k as int)
                + first_word(s@.subrange(k as int, hi as int)),
        decreases hi - k,
    {
        proof {
            lemma_first_word_step(s@, k as int, hi as int);
            assert(s@.subrange(lo as int, k as int) + seq![s@[k as int]] =~= s@.subrange(
                lo as int,
                k + 1,
            ));
        }
        k = k + 1;
    }
    assert(s@.subrange(lo as int, k as int) + Seq::<char>::empty() =~= s@.subrange(
        lo as int,
        k as int,
    ));
    k
}

/// Whether `a[lo..hi]` and `b` hold the same characters.
pub fn range_equals(a: &Vec<char>, lo: usize, hi: usize, b: &Vec<char>) -> (r: bool)
    requires
        lo <= hi <= a@.len(),
    ensures
        r == (a@.subrange(lo as int, hi as int) == b@),
{
    if hi - lo != b.len() {
        return false;
    }
    let mut i: usize = 0;
    while i < b.len()
        invariant
            lo <= hi <= a@.len(),
            hi - lo == b@.len(),
            i <= b@.len(),
            forall|j: int| 0 <= j < i ==> a@[lo + j] == b@[j],
        decreases b@.len() - i,
    {
        if a[lo + i] != b[i] {
            assert(a@.subrange(lo as int, hi as int)[i as int] != b@[i as int]);
            return false;
        }
        i = i + 1;
    }
    assert(a@.subrange(lo as int, hi as int) =~= b@);
    true
}

/// The pieces of `s` that the bounds `b` give.
pub open spec fn pieces_at(s: Seq<char>, b: Seq<(usize, usize)>) -> Seq<Seq<char>> {
    b.map_values(|p: (usize, usize)| s.subrange(p.0 as int, p.1 as int))
}

/// The bounds of the pieces of `s` between its commas.
pub fn split_comma_bounds(s: &Vec<char>) -> (r: Vec<(usize, usize)>)
    ensures
        forall|i: int| 0 <= i < r@.len() ==> (#[trigger] r@[i]).0 <= r@[i].1 <= s@.len(),
        pieces_at(s@, r@) == split_commas(s@),
{
    let n = s.len();
    let mut r: Vec<(usize, usize)> = Vec::new();
    let mut start: usize = 0;
    let mut i: usize = 0;
    assert(s@.subrange(0, 0) =~= Seq::<char>::empty());
    assert(pieces_at(s@, r@).push(s@.subrange(0, 0)) =~= seq![Seq::<char>::empty()]);
    while i < n
        invariant
            n == s@.len(),
            start <= i <= n,
            forall|j: int| 0 <= j < r@.len() ==> (#[trigger] r@[j]).0 <= r@[j].1 <= i,
            split_commas(s@.subrange(0, i as int)) == pieces_at(s@, r@).push(
                s@.subrange(start as int, i as int),
            ),
        decreases n - i,
    {
        let ghost before = s@.subrange(0, i as int);
        assert(s@.subrange(0, i + 1).drop_last() =~= before);
        if s[i] == ',' {
            let ghost r0 = r@;
            r.push((start, i));
            assert(pieces_at(s@, r@) =~= pieces_at(s@, r0).push(
                s@.subrange(start as int, i as int),
            ));
            assert(s@.subrange(i + 1, i + 1) =~= Seq::<char>::empty());
            start = i + 1;
        } else {
            assert(s@.subrange(start as int, i as int).push(s@[i as int]) =~= s@.subrange(
                start as int,
                i + 1,
            ));
        }
        i = i + 1;
    }
    let ghost r0 = r@;
    r.push((start, n));
    assert(s@.subrange(0, n as int) =~= s@);
    assert(pieces_at(s@, r@) =~= pieces_at(s@, r0).push(s@.subrange(start as int, n as int)));
    assert forall|i: int| 0 <= i < r@.len() implies (#[trigger] r@[i]).0 <= r@[i].1 <= s@.len() by {
        if i < r0.len() {
            assert(r@[i] == r0[i]);
            assert(r0[i].0 <= r0[i].1 <= n);
        } else {
            assert(r@[i] == (start, n));
        }
    }
    r
}

} // verus!
