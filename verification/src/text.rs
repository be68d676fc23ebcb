//! Text primitives the matcher is built on: the character view of strings,
//! Unicode whitespace trimming, splitting on a separator, joining, and
//! decimal rendering of counts.
use vstd::prelude::*;

verus! {

broadcast use vstd::string::group_string_axioms;

// ---------------------------------------------------------------------------
// Character classification that comes from the standard library
// ---------------------------------------------------------------------------

/// Whether `c` has the Unicode `White_Space` property, as `char::is_whitespace`
/// reports it: the ASCII tab, line feed, vertical tab, form feed, carriage
/// return and space, next line, no-break space, ogham space mark, the
/// spaces from en quad to hair space, line and paragraph separators, narrow
/// no-break space, medium mathematical space and ideographic space.
pub open spec fn unicode_white_space(c: char) -> bool {
    ||| ('\u{9}' <= c && c <= '\u{d}')
    ||| c == ' '
    ||| c == '\u{85}'
    ||| c == '\u{a0}'
    ||| c == '\u{1680}'
    ||| ('\u{2000}' <= c && c <= '\u{200a}')
    ||| c == '\u{2028}'
    ||| c == '\u{2029}'
    ||| c == '\u{202f}'
    ||| c == '\u{205f}'
    ||| c == '\u{3000}'
}

/// Whether `c` is alphabetic or numeric in the Unicode sense, as
/// `char::is_alphanumeric` reports it.
pub uninterp spec fn unicode_alphanumeric(c: char) -> bool;

/// Calls `char::is_whitespace`, which is true exactly for the characters
/// with the Unicode `White_Space` property, listed in `unicode_white_space`.
#[verifier::external_body]
pub(crate) fn is_white_space(c: char) -> (r: bool)
    ensures
        r == unicode_white_space(c),
{
    c.is_whitespace()
}

/// Calls `char::is_alphanumeric`; the result is named `unicode_alphanumeric`.
#[verifier::external_body]
pub(crate) fn is_alphanumeric(c: char) -> (r: bool)
    ensures
        r == unicode_alphanumeric(c),
{
    c.is_alphanumeric()
}

/// Calls `String::push`, which appends one character to the end of the string.
#[verifier::external_body]
pub(crate) fn push_char(s: &mut String, c: char)
    ensures
        final(s)@ == old(s)@.push(c),
{
    s.push(c);
}

/// Calls `<str as PartialEq>::eq`, which compares two string slices
/// character by character.
#[verifier::external_body]
pub(crate) fn str_eq(a: &str, b: &str) -> (r: bool)
    ensures
        r == (a@ == b@),
{
    a == b
}

/// The ASCII decimal digits `0`-`9`.
pub open spec fn is_ascii_digit(c: char) -> bool {
    '0' <= c && c <= '9'
}

/// ASCII letters and digits.
pub open spec fn is_ascii_alphanumeric(c: char) -> bool {
    is_ascii_digit(c) || ('a' <= c && c <= 'z') || ('A' <= c && c <= 'Z')
}

// ---------------------------------------------------------------------------
// Converting between `str`/`String` and characters
// ---------------------------------------------------------------------------

/// The characters of `s`, in order.
pub fn chars_of(s: &str) -> (out: Vec<char>)
    ensures
        out@ == s@,
{
    let mut out: Vec<char> = Vec::new();
    for c in it: s.chars()
        invariant
            out@ == it.seq().take(it.index()),
            it.seq() == s@,
    {
        out.push(c);
    }
    out
}

/// Appends `cs[lo..hi]` to `s`.
pub fn push_chars(s: &mut String, cs: &Vec<char>, lo: usize, hi: usize)
    requires
        lo <= hi <= cs.len(),
    ensures
        final(s)@ == old(s)@ + cs@.subrange(lo as int, hi as int),
{
    let mut i = lo;
    while i < hi
        invariant
            lo <= i <= hi <= cs.len(),
            s@ == old(s)@ + cs@.subrange(lo as int, i as int),
        decreases hi - i,
    {
        push_char(s, cs[i]);
        i = i + 1;
        assert(cs@.subrange(lo as int, i as int) == cs@.subrange(lo as int, i - 1).push(
            cs@[i - 1],
        ));
    }
}

/// A new string holding `cs[lo..hi]`.
pub fn string_of(cs: &Vec<char>, lo: usize, hi: usize) -> (s: String)
    requires
        lo <= hi <= cs.len(),
    ensures
        s@ == cs@.subrange(lo as int, hi as int),
{
    let mut s = String::new();
    push_chars(&mut s, cs, lo, hi);
    s
}

// ---------------------------------------------------------------------------
// Trimming
// ---------------------------------------------------------------------------

/// `s` without its leading whitespace.
pub open spec fn trim_start(s: Seq<char>) -> Seq<char>
    decreases s.len(),
{
    if s.len() > 0 && unicode_white_space(s[0]) {
        trim_start(s.drop_first())
    } else {
        s
    }
}

/// `s` without its trailing whitespace.
pub open spec fn trim_end(s: Seq<char>) -> Seq<char>
    decreases s.len(),
{
    if s.len() > 0 && unicode_white_space(s.last()) {
        trim_end(s.drop_last())
    } else {
        s
    }
}

/// `s` without leading and trailing whitespace, as `str::trim` gives it.
pub open spec fn trimmed(s: Seq<char>) -> Seq<char> {
    trim_end(trim_start(s))
}

/// What is left after trimming the end does not end in whitespace.
pub proof fn lemma_trim_end_last(s: Seq<char>)
    ensures
        trim_end(s).len() > 0 ==> !unicode_white_space(trim_end(s).last()),
    decreases s.len(),
{
    if s.len() > 0 && unicode_white_space(s.last()) {
        lemma_trim_end_last(s.drop_last());
    }
}

/// Trimming the start drops some leading characters.
pub proof fn lemma_trim_start_skip(s: Seq<char>) -> (i: int)
    ensures
        0 <= i <= s.len(),
        trim_start(s) == s.skip(i),
        trim_start(s).len() > 0 ==> !unicode_white_space(trim_start(s)[0]),
    decreases s.len(),
{
    if s.len() > 0 && unicode_white_space(s[0]) {
        let j = lemma_trim_start_skip(s.drop_first());
        assert(s.drop_first().skip(j) == s.skip(j + 1));
        j + 1
    } else {
        assert(s.skip(0) == s);
        0
    }
}

/// Trimming the end keeps some leading characters.
pub proof fn lemma_trim_end_take(s: Seq<char>) -> (n: int)
    ensures
        0 <= n <= s.len(),
        trim_end(s) == s.take(n),
    decreases s.len(),
{
    if s.len() > 0 && unicode_white_space(s.last()) {
        let m = lemma_trim_end_take(s.drop_last());
        assert(s.drop_last().take(m) == s.take(m));
        m
    } else {
        assert(s.take(s.len() as int) == s);
        s.len() as int
    }
}

/// The trimmed text is a contiguous piece of the text.
pub proof fn lemma_trimmed_piece(s: Seq<char>) -> (r: (int, int))
    ensures
        0 <= r.0 <= r.1 <= s.len(),
        trimmed(s) == s.subrange(r.0, r.1),
{
    let i = lemma_trim_start_skip(s);
    let n = lemma_trim_end_take(trim_start(s));
    assert(s.skip(i).take(n) == s.subrange(i, i + n));
    (i, i + n)
}

/// Trimming twice is trimming once.
pub proof fn lemma_trimmed_idempotent(s: Seq<char>)
    ensures
        trimmed(trimmed(s)) == trimmed(s),
{
    let t = trimmed(s);
    let u = trim_start(s);
    lemma_trim_start_skip(s);
    let n = lemma_trim_end_take(u);
    lemma_trim_end_last(u);
    if t.len() > 0 {
        assert(t[0] == u[0]);
        assert(trim_start(t) == t);
        assert(trim_end(t) == t);
    }
}

/// Whether `sub` occurring in `s` means every character of `sub` occurs in
/// `s`: a character missing from `s` is missing from each of its pieces.
pub proof fn lemma_has_char_subrange(s: Seq<char>, a: int, b: int, c: char)
    requires
        0 <= a <= b <= s.len(),
        has_char(s.subrange(a, b), c),
    ensures
        has_char(s, c),
{
    let k = choose|k: int| 0 <= k < b - a && s.subrange(a, b)[k] == c;
    assert(s[a + k] == c);
}

proof fn lemma_trim_start_at(s: Seq<char>, i: int)
    requires
        0 <= i <= s.len(),
        forall|j: int| 0 <= j < i ==> unicode_white_space(#[trigger] s[j]),
        i == s.len() || !unicode_white_space(s[i]),
    ensures
        trim_start(s) == s.skip(i),
    decreases i,
{
    if i == 0 {
        assert(s.skip(0) == s);
    } else {
        assert(unicode_white_space(s[0]));
        let t = s.drop_first();
        assert forall|j: int| 0 <= j < i - 1 implies unicode_white_space(#[trigger] t[j]) by {
            assert(t[j] == s[j + 1]);
        }
        lemma_trim_start_at(t, i - 1);
        assert(t.skip(i - 1) == s.skip(i));
    }
}

proof fn lemma_trim_end_at(s: Seq<char>, n: int)
    requires
        0 <= n <= s.len(),
        forall|j: int| n <= j < s.len() ==> unicode_white_space(#[trigger] s[j]),
        n == 0 || !unicode_white_space(s[n - 1]),
    ensures
        trim_end(s) == s.take(n),
    decreases s.len() - n,
{
    if n == s.len() {
        assert(s.take(n) == s);
    } else {
        assert(unicode_white_space(s[s.len() - 1]));
        let t = s.drop_last();
        assert forall|j: int| n <= j < t.len() implies unicode_white_space(#[trigger] t[j]) by {
            assert(t[j] == s[j]);
        }
        if n > 0 {
            assert(t[n - 1] == s[n - 1]);
        }
        lemma_trim_end_at(t, n);
        assert(t.take(n) == s.take(n));
    }
}

/// The bounds of `cs[lo..hi]` with surrounding whitespace removed.
pub fn trim_range(cs: &Vec<char>, lo: usize, hi: usize) -> (r: (usize, usize))
    requires
        lo <= hi <= cs.len(),
    ensures
        lo <= r.0 <= r.1 <= hi,
        cs@.subrange(r.0 as int, r.1 as int) == trimmed(cs@.subrange(lo as int, hi as int)),
{
    let ghost s = cs@.subrange(lo as int, hi as int);
    let mut i: usize = lo;
    while i < hi && is_white_space(cs[i])
        invariant
            lo <= i <= hi <= cs.len(),
            s == cs@.subrange(lo as int, hi as int),
            forall|j: int| 0 <= j < i - lo ==> unicode_white_space(#[trigger] s[j]),
        decreases hi - i,
    {
        assert(s[i - lo] == cs@[i as int]);
        i = i + 1;
    }
    let mut k: usize = hi;
    while k > i && is_white_space(cs[k - 1])
        invariant
            lo <= i <= k <= hi <= cs.len(),
            s == cs@.subrange(lo as int, hi as int),
            forall|j: int| k - lo <= j < s.len() ==> unicode_white_space(#[trigger] s[j]),
        decreases k - i,
    {
        assert(s[k - 1 - lo] == cs@[k - 1]);
        k = k - 1;
    }
    proof {
        if i < hi {
            assert(s[i - lo] == cs@[i as int]);
        }
        lemma_trim_start_at(s, i - lo);
        let t = s.skip(i - lo);
        assert forall|j: int| k - i <= j < t.len() implies unicode_white_space(#[trigger] t[j]) by {
            assert(t[j] == s[j + i - lo]);
        }
        if k > i {
            assert(t[k - i - 1] == cs@[k - 1]);
        }
        lemma_trim_end_at(t, k - i);
        assert(t.take(k - i) == cs@.subrange(i as int, k as int));
    }
    (i, k)
}

/// The bounds of `cs` with surrounding whitespace removed.
pub fn trim_bounds(cs: &Vec<char>) -> (r: (usize, usize))
    ensures
        r.0 <= r.1 <= cs.len(),
        cs@.subrange(r.0 as int, r.1 as int) == trimmed(cs@),
{
    assert(cs@.subrange(0, cs@.len() as int) == cs@);
    trim_range(cs, 0, cs.len())
}

/// The position of the first `c` in `s`, when there is one.
#[verifier::opaque]
pub open spec fn first_index_of(s: Seq<char>, c: char) -> int {
    choose|i: int| 0 <= i < s.len() && s[i] == c && forall|k: int| 0 <= k < i ==> s[k] != c
}

/// Whether `c` occurs in `s`.
pub open spec fn has_char(s: Seq<char>, c: char) -> bool {
    exists|i: int| 0 <= i < s.len() && s[i] == c
}

/// When `c` occurs in `s`, `first_index_of` is the position of its first
/// occurrence.
pub proof fn lemma_first_index_of(s: Seq<char>, c: char)
    requires
        has_char(s, c),
    ensures
        0 <= first_index_of(s, c) < s.len(),
        s[first_index_of(s, c)] == c,
        forall|k: int| 0 <= k < first_index_of(s, c) ==> s[k] != c,
    decreases s.len(),
{
    reveal(first_index_of);
    if s[0] == c {
        assert(0 <= 0 < s.len() && s[0] == c && forall|k: int| 0 <= k < 0 ==> s[k] != c);
    } else {
        let t = s.drop_first();
        let w = choose|i: int| 0 <= i < s.len() && s[i] == c;
        assert(t[w - 1] == c);
        lemma_first_index_of(t, c);
        let j = first_index_of(t, c);
        assert forall|k: int| 0 <= k < j + 1 implies s[k] != c by {
            if k > 0 {
                assert(s[k] == t[k - 1]);
            }
        }
        assert(s[j + 1] == c);
    }
}

/// Finds the first `c` in `chars[lo..hi]`.
pub fn find_char(chars: &Vec<char>, lo: usize, hi: usize, c: char) -> (r: Option<usize>)
    requires
        lo <= hi <= chars.len(),
    ensures
        r is None ==> !has_char(chars@.subrange(lo as int, hi as int), c),
        r matches Some(k) ==> lo <= k < hi && chars@[k as int] == c && has_char(
            chars@.subrange(lo as int, hi as int),
            c,
        ) && first_index_of(chars@.subrange(lo as int, hi as int), c) == k - lo,
{
    let ghost s = chars@.subrange(lo as int, hi as int);
    let mut k = lo;
    while k < hi
        invariant
            lo <= k <= hi <= chars.len(),
            s == chars@.subrange(lo as int, hi as int),
            forall|m: int| 0 <= m < k - lo ==> s[m] != c,
        decreases hi - k,
    {
        if chars[k] == c {
            proof {
                let i = k - lo;
                assert(s[i] == c);
                assert(has_char(s, c));
                reveal(first_index_of);
                let j = first_index_of(s, c);
                assert(0 <= i < s.len() && s[i] == c && forall|m: int| 0 <= m < i ==> s[m] != c);
                if j < i {
                    assert(s[j] != c);
                }
                if j > i {
                    assert(s[i] != c);
                }
            }
            return Some(k);
        }
        assert(s[k - lo] == chars@[k as int]);
        k = k + 1;
    }
    None
}

// ---------------------------------------------------------------------------
// Splitting and joining
// ---------------------------------------------------------------------------

/// The pieces of `s` between occurrences of `sep`, as `str::split` yields
/// them: there is always at least one piece, and two separators in a row give
/// an empty piece between them.
pub open spec fn split_on(s: Seq<char>, sep: char) -> Seq<Seq<char>>
    decreases s.len(),
{
    if s.len() == 0 {
        seq![Seq::<char>::empty()]
    } else {
        let init = split_on(s.drop_last(), sep);
        if s.last() == sep {
            init.push(Seq::<char>::empty())
        } else {
            init.update(init.len() - 1, init.last().push(s.last()))
        }
    }
}

/// The pieces joined together with `sep` between each neighbouring pair.
pub open spec fn join(pieces: Seq<Seq<char>>, sep: Seq<char>) -> Seq<char>
    decreases pieces.len(),
{
    if pieces.len() == 0 {
        Seq::<char>::empty()
    } else if pieces.len() == 1 {
        pieces[0]
    } else {
        join(pieces.drop_last(), sep) + sep + pieces.last()
    }
}

/// Joining one more piece adds the separator and the piece, unless it is
/// the first.
pub proof fn lemma_join_push(pieces: Seq<Seq<char>>, piece: Seq<char>, sep: Seq<char>)
    ensures
        join(pieces.push(piece), sep) == if pieces.len() == 0 {
            piece
        } else {
            join(pieces, sep) + sep + piece
        },
{
    assert(pieces.push(piece).drop_last() == pieces);
}

/// Splitting never yields an empty list of pieces, and no piece holds the
/// separator.
pub proof fn lemma_split_on_shape(s: Seq<char>, sep: char)
    ensures
        split_on(s, sep).len() >= 1,
        forall|k: int, j: int|
            0 <= k < split_on(s, sep).len() && 0 <= j < split_on(s, sep)[k].len() ==> #[trigger] split_on(
                s,
                sep,
            )[k][j] != sep,
    decreases s.len(),
{
    if s.len() > 0 {
        lemma_split_on_shape(s.drop_last(), sep);
    }
}

/// Joining the pieces of a split with the separator gives back the text.
pub proof fn lemma_join_split_on(s: Seq<char>, sep: char)
    ensures
        join(split_on(s, sep), seq![sep]) == s,
    decreases s.len(),
{
    if s.len() > 0 {
        let p = split_on(s.drop_last(), sep);
        lemma_split_on_shape(s.drop_last(), sep);
        lemma_join_split_on(s.drop_last(), sep);
        if s.last() == sep {
            let q = p.push(Seq::<char>::empty());
            assert(q.drop_last() == p);
            assert(join(q, seq![sep]) == s.drop_last() + seq![sep] + Seq::<char>::empty());
            assert(s == s.drop_last() + seq![sep] + Seq::<char>::empty());
        } else {
            let q = p.update(p.len() - 1, p.last().push(s.last()));
            if p.len() == 1 {
                assert(s == s.drop_last().push(s.last()));
            } else {
                assert(q.drop_last() == p.drop_last());
                assert(join(p, seq![sep]) == join(p.drop_last(), seq![sep]) + seq![sep] + p.last());
                assert(s == s.drop_last().push(s.last()));
                assert(join(q, seq![sep]) == join(p.drop_last(), seq![sep]) + seq![sep]
                    + p.last().push(s.last()));
            }
        }
    }
}

/// A character missing from the text is missing from every piece of it.
pub proof fn lemma_split_on_missing(s: Seq<char>, sep: char, x: char)
    requires
        !has_char(s, x),
    ensures
        forall|k: int| 0 <= k < split_on(s, sep).len() ==> !has_char(#[trigger] split_on(s, sep)[k], x),
    decreases s.len(),
{
    if s.len() > 0 {
        let t = s.drop_last();
        assert forall|i: int| 0 <= i < t.len() implies t[i] != x by {
            assert(t[i] == s[i]);
        }
        lemma_split_on_missing(t, sep, x);
        let init = split_on(t, sep);
        lemma_split_on_shape(t, sep);
        assert(s[s.len() - 1] != x);
        if s.last() != sep {
            let l = init.last().push(s.last());
            assert forall|j: int| 0 <= j < l.len() implies l[j] != x by {
                if j < init.last().len() {
                    assert(!has_char(init[init.len() - 1], x));
                    assert(l[j] == init.last()[j]);
                }
            }
        }
    }
}

/// The last piece of a split is empty exactly when the text is empty or
/// ends with the separator.
pub proof fn lemma_split_on_last(s: Seq<char>, sep: char)
    ensures
        (split_on(s, sep).last().len() == 0) == (s.len() == 0 || s.last() == sep),
        s.len() > 0 && s.last() == sep ==> split_on(s, sep).len() >= 2,
{
    if s.len() > 0 {
        lemma_split_on_shape(s.drop_last(), sep);
    }
}

/// Where the pieces of `cs[lo..hi]`, split on `sep`, lie in `cs`.
pub fn split_spans(cs: &Vec<char>, lo: usize, hi: usize, sep: char) -> (spans: Vec<(usize, usize)>)
    requires
        lo <= hi <= cs.len(),
    ensures
        spans.len() == split_on(cs@.subrange(lo as int, hi as int), sep).len(),
        forall|k: int|
            0 <= k < spans.len() ==> {
                &&& lo <= (#[trigger] spans@[k]).0 <= spans@[k].1 <= hi
                &&& cs@.subrange(spans@[k].0 as int, spans@[k].1 as int) == split_on(
                    cs@.subrange(lo as int, hi as int),
                    sep,
                )[k]
            },
{
    let mut spans: Vec<(usize, usize)> = Vec::new();
    let mut start = lo;
    let mut i = lo;
    assert(cs@.subrange(lo as int, lo as int) == Seq::<char>::empty());
    while i < hi
        invariant
            lo <= start <= i <= hi <= cs.len(),
            split_on(cs@.subrange(lo as int, i as int), sep).len() == spans.len() + 1,
            forall|k: int|
                0 <= k < spans.len() ==> {
                    &&& lo <= (#[trigger] spans@[k]).0 <= spans@[k].1 <= i
                    &&& cs@.subrange(spans@[k].0 as int, spans@[k].1 as int) == split_on(
                        cs@.subrange(lo as int, i as int),
                        sep,
                    )[k]
                },
            split_on(cs@.subrange(lo as int, i as int), sep).last() == cs@.subrange(
                start as int,
                i as int,
            ),
        decreases hi - i,
    {
        let ghost before = split_on(cs@.subrange(lo as int, i as int), sep);
        let ghost next = cs@.subrange(lo as int, i + 1);
        assert(next.drop_last() == cs@.subrange(lo as int, i as int));
        assert(next.last() == cs@[i as int]);
        if cs[i] == sep {
            spans.push((start, i));
            start = i + 1;
            assert(cs@.subrange(start as int, i + 1) == Seq::<char>::empty());
        } else {
            assert(cs@.subrange(start as int, i + 1) == cs@.subrange(start as int, i as int).push(
                cs@[i as int],
            ));
        }
        i = i + 1;
    }
    spans.push((start, hi));
    spans
}

// ---------------------------------------------------------------------------
// Decimal rendering
// ---------------------------------------------------------------------------

/// The character for a decimal digit.
pub open spec fn digit(d: nat) -> char {
    if d == 0 {
        '0'
    } else if d == 1 {
        '1'
    } else if d == 2 {
        '2'
    } else if d == 3 {
        '3'
    } else if d == 4 {
        '4'
    } else if d == 5 {
        '5'
    } else if d == 6 {
        '6'
    } else if d == 7 {
        '7'
    } else if d == 8 {
        '8'
    } else {
        '9'
    }
}

/// `n` written in decimal, without leading zeros.
pub open spec fn decimal(n: nat) -> Seq<char>
    decreases n,
{
    if n < 10 {
        seq![digit(n)]
    } else {
        decimal(n / 10).push(digit(n % 10))
    }
}

fn digit_char(d: usize) -> (c: char)
    requires
        d < 10,
    ensures
        c == digit(d as nat),
{
    if d == 0 {
        '0'
    } else if d == 1 {
        '1'
    } else if d == 2 {
        '2'
    } else if d == 3 {
        '3'
    } else if d == 4 {
        '4'
    } else if d == 5 {
        '5'
    } else if d == 6 {
        '6'
    } else if d == 7 {
        '7'
    } else if d == 8 {
        '8'
    } else {
        '9'
    }
}

/// Appends `n` in decimal to `s`.
pub fn push_decimal(s: &mut String, n: usize)
    ensures
        final(s)@ == old(s)@ + decimal(n as nat),
    decreases n,
{
    if n >= 10 {
        push_decimal(s, n / 10);
    }
    let c = digit_char(n % 10);
    push_char(s, c);
}

} // verus!
