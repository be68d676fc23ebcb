//! Route patterns: their segments, and reading a pattern like
//! `/users/:id(\d+)/posts/*rest` into segments.
//!
//! - `users` is a literal segment;
//! - `:id` matches exactly one path component, captured under `id`;
//! - `:id(\d+)` does so only for components that satisfy the constraint;
//! - `*rest` matches one or more remaining components and must come last;
//! - a trailing `?` makes a literal or param segment optional. Optional
//!   segments must all sit at the end, and a wildcard cannot be optional.
use vstd::prelude::*;

use crate::constraint::{
    constraint_fault_text, parse_constraint, Constraint, ConstraintFault, ConstraintModel, Outcome,
};
use crate::text::{
    chars_of, find_char, first_index_of, has_char, join, lemma_join_split_on, split_on, split_spans,
    string_of, trim_bounds, trim_end, trim_start, trimmed, unicode_white_space,
};

verus! {

broadcast use vstd::string::group_string_axioms;

/// One piece of a parsed route pattern.
#[derive(Debug, Clone, PartialEq, Eq)]
pub enum Segment {
    Static(String),
    Param(String),
    /// A param constrained to values matching a pattern, e.g. `:id(\d+)`.
    /// The path component must match the whole constraint.
    ConstrainedParam(String, Constraint),
    Wildcard(String),
    /// A literal segment suffixed with `?`.
    OptionalStatic(String),
    /// A param segment suffixed with `?`.
    OptionalParam(String),
    /// A constrained param suffixed with `?`.
    OptionalConstrainedParam(String, Constraint),
}

/// Why a pattern was rejected, in words.
#[derive(Debug, Clone, PartialEq, Eq)]
pub struct PatternError {
    pub message: String,
}

/// The mathematical value of a `Segment`.
pub enum SegmentModel {
    Static(Seq<char>),
    Param(Seq<char>),
    ConstrainedParam(Seq<char>, ConstraintModel),
    Wildcard(Seq<char>),
    OptionalStatic(Seq<char>),
    OptionalParam(Seq<char>),
    OptionalConstrainedParam(Seq<char>, ConstraintModel),
}

impl View for Segment {
    type V = SegmentModel;

    open spec fn view(&self) -> SegmentModel {
        match self {
            Segment::Static(s) => SegmentModel::Static(s@),
            Segment::Param(s) => SegmentModel::Param(s@),
            Segment::ConstrainedParam(s, c) => SegmentModel::ConstrainedParam(s@, c@),
            Segment::Wildcard(s) => SegmentModel::Wildcard(s@),
            Segment::OptionalStatic(s) => SegmentModel::OptionalStatic(s@),
            Segment::OptionalParam(s) => SegmentModel::OptionalParam(s@),
            Segment::OptionalConstrainedParam(s, c) => SegmentModel::OptionalConstrainedParam(
                s@,
                c@,
            ),
        }
    }
}

/// The models of a list of segments.
pub open spec fn segment_models(segments: Seq<Segment>) -> Seq<SegmentModel> {
    segments.map_values(|s: Segment| s@)
}

/// The models of a list of parsed patterns.
pub open spec fn pattern_models(patterns: Seq<Vec<Segment>>) -> Seq<Seq<SegmentModel>> {
    patterns.map_values(|v: Vec<Segment>| segment_models(v@))
}

/// Whether the segment was marked optional with `?`.
pub open spec fn is_optional(s: SegmentModel) -> bool {
    match s {
        SegmentModel::OptionalStatic(_) => true,
        SegmentModel::OptionalParam(_) => true,
        SegmentModel::OptionalConstrainedParam(_, _) => true,
        _ => false,
    }
}

/// Whether the optional segments form a run at the end: no required segment
/// follows an optional one.
pub open spec fn optional_run_at_end(segs: Seq<SegmentModel>) -> bool {
    forall|i: int, j: int|
        0 <= i < j < segs.len() && is_optional(#[trigger] segs[i]) ==> is_optional(#[trigger] segs[j])
}

/// Whether a wildcard appears only as the very last segment.
pub open spec fn wildcard_only_last(segs: Seq<SegmentModel>) -> bool {
    forall|i: int| 0 <= i < segs.len() - 1 ==> !(#[trigger] segs[i] is Wildcard)
}

/// What every list of segments read from a pattern looks like.
pub open spec fn well_formed(segs: Seq<SegmentModel>) -> bool {
    optional_run_at_end(segs) && wildcard_only_last(segs)
}

// ---------------------------------------------------------------------------
// What reading a pattern means
// ---------------------------------------------------------------------------

/// Why a pattern is rejected.
pub enum PatternFault {
    EmptySegment,
    ParamMissingName,
    /// A param whose `(` has no closing `)` at its end; holds the text after `:`.
    UnterminatedConstraint(Seq<char>),
    /// A param whose constraint is rejected: the param's name, the
    /// constraint's text, and why.
    BadConstraint(Seq<char>, Seq<char>, ConstraintFault),
    WildcardMissingName,
    WildcardOptional,
    WildcardNotLast,
    OptionalNotAtEnd,
}

/// The message that explains a rejected `pattern`.
pub open spec fn pattern_fault_text(f: PatternFault, pattern: Seq<char>) -> Seq<char> {
    match f {
        PatternFault::EmptySegment => "empty segment in pattern '"@ + pattern + "'"@,
        PatternFault::ParamMissingName => "param segment missing a name in '"@ + pattern + "'"@,
        PatternFault::UnterminatedConstraint(name) => "unterminated constraint in ':"@ + name
            + "' in pattern '"@ + pattern + "'"@,
        PatternFault::BadConstraint(name, source, cf) => "in constraint for ':"@ + name
            + "' in pattern '"@ + pattern + "': "@ + constraint_fault_text(cf, source),
        PatternFault::WildcardMissingName => "wildcard segment missing a name in '"@ + pattern
            + "'"@,
        PatternFault::WildcardOptional => "wildcard segment cannot be optional in '"@ + pattern
            + "'"@,
        PatternFault::WildcardNotLast => "wildcard segment must be last in '"@ + pattern + "'"@,
        PatternFault::OptionalNotAtEnd => "optional segments must be at the end of pattern '"@
            + pattern + "'"@,
    }
}

/// The text of a pattern or path once surrounding whitespace and one
/// leading `/` are removed.
pub open spec fn body_of(s: Seq<char>) -> Seq<char> {
    let t = trimmed(s);
    if t.len() > 0 && t[0] == '/' {
        t.drop_first()
    } else {
        t
    }
}

/// A param's text after `:` (and after a trailing `?`) split into its name
/// and, when it has one, its constraint text: `id(\d+)` gives `id` and
/// `\d+`. `None` when there is a `(` but the text does not end with `)`.
pub open spec fn split_constraint_model(name: Seq<char>) -> Option<(Seq<char>, Option<Seq<char>>)> {
    if !has_char(name, '(') {
        Some((name, None))
    } else if name.last() != ')' {
        None
    } else {
        let open = first_index_of(name, '(');
        Some((name.take(open), Some(name.subrange(open + 1, name.len() - 1))))
    }
}

/// What a param's text after `:` reads as; `optional` tells whether the
/// piece ended in `?`.
pub open spec fn param_model(name: Seq<char>, optional: bool) -> Outcome<SegmentModel, PatternFault> {
    if name.len() == 0 {
        Outcome::Fault(PatternFault::ParamMissingName)
    } else {
        match split_constraint_model(name) {
            None => Outcome::Fault(PatternFault::UnterminatedConstraint(name)),
            Some((pname, csrc)) => {
                if pname.len() == 0 {
                    Outcome::Fault(PatternFault::ParamMissingName)
                } else {
                    match csrc {
                        None => Outcome::Value(
                            if optional {
                                SegmentModel::OptionalParam(pname)
                            } else {
                                SegmentModel::Param(pname)
                            },
                        ),
                        Some(src) => match parse_constraint(src) {
                            Outcome::Value(atoms) => {
                                let c = ConstraintModel { source: src, atoms };
                                Outcome::Value(
                                    if optional {
                                        SegmentModel::OptionalConstrainedParam(pname, c)
                                    } else {
                                        SegmentModel::ConstrainedParam(pname, c)
                                    },
                                )
                            },
                            Outcome::Fault(cf) => Outcome::Fault(
                                PatternFault::BadConstraint(pname, src, cf),
                            ),
                            Outcome::Abort => Outcome::Abort,
                        },
                    }
                }
            },
        }
    }
}

/// What a wildcard's text after `*` reads as.
pub open spec fn wildcard_model(name: Seq<char>, optional: bool, is_last: bool) -> Outcome<
    SegmentModel,
    PatternFault,
> {
    if name.len() == 0 {
        Outcome::Fault(PatternFault::WildcardMissingName)
    } else if optional {
        Outcome::Fault(PatternFault::WildcardOptional)
    } else if !is_last {
        Outcome::Fault(PatternFault::WildcardNotLast)
    } else {
        Outcome::Value(SegmentModel::Wildcard(name))
    }
}

/// What one piece of a pattern between slashes reads as; `is_last` tells
/// whether it is the last piece.
pub open spec fn segment_model(r: Seq<char>, is_last: bool) -> Outcome<SegmentModel, PatternFault> {
    if r.len() == 0 {
        Outcome::Fault(PatternFault::EmptySegment)
    } else {
        let optional = r.last() == '?';
        let raw = if optional {
            r.drop_last()
        } else {
            r
        };
        if raw.len() == 0 {
            Outcome::Fault(PatternFault::EmptySegment)
        } else if raw[0] == ':' {
            param_model(raw.drop_first(), optional)
        } else if raw[0] == '*' {
            wildcard_model(raw.drop_first(), optional, is_last)
        } else {
            Outcome::Value(
                if optional {
                    SegmentModel::OptionalStatic(raw)
                } else {
                    SegmentModel::Static(raw)
                },
            )
        }
    }
}

/// The segments read from the first `n` pieces, left to right: the first
/// piece that is rejected decides the result.
pub open spec fn segments_upto(raws: Seq<Seq<char>>, n: int) -> Outcome<Seq<SegmentModel>, PatternFault>
    decreases n,
{
    if n <= 0 {
        Outcome::Value(Seq::<SegmentModel>::empty())
    } else {
        match segments_upto(raws, n - 1) {
            Outcome::Value(segs) => match segment_model(raws[n - 1], n - 1 == raws.len() - 1) {
                Outcome::Value(seg) => Outcome::Value(segs.push(seg)),
                Outcome::Fault(f) => Outcome::Fault(f),
                Outcome::Abort => Outcome::Abort,
            },
            other => other,
        }
    }
}

/// What a whole pattern reads as. `Abort` marks patterns outside the
/// accepted input: those whose first constraint that fails to read has a
/// range with its `-` at the very end of the constraint text.
pub open spec fn parse_pattern_model(p: Seq<char>) -> Outcome<Seq<SegmentModel>, PatternFault> {
    let body = body_of(p);
    if body.len() == 0 {
        Outcome::Value(Seq::<SegmentModel>::empty())
    } else {
        let raws = split_on(body, '/');
        match segments_upto(raws, raws.len() as int) {
            Outcome::Value(segs) => if optional_run_at_end(segs) {
                Outcome::Value(segs)
            } else {
                Outcome::Fault(PatternFault::OptionalNotAtEnd)
            },
            other => other,
        }
    }
}

/// The components of a request path.
pub open spec fn split_path_model(path: Seq<char>) -> Seq<Seq<char>> {
    let body = body_of(path);
    if body.len() == 0 {
        Seq::<Seq<char>>::empty()
    } else {
        split_on(body, '/')
    }
}

// ---------------------------------------------------------------------------
// Reading a pattern
// ---------------------------------------------------------------------------

/// An error whose message is `prefix`, the pattern, and a closing quote.
fn error_quoting(prefix: &str, pattern: &str) -> (e: PatternError)
    ensures
        e.message@ == prefix@ + pattern@ + "'"@,
{
    let mut message = String::new();
    message.append(prefix);
    message.append(pattern);
    message.append("'");
    PatternError { message }
}

/// Splits the param text `chars[lo..hi]` like `id(\d+)` into the end of
/// its name and, when it has a constraint, the bounds of the constraint's
/// text. `None` when there is a `(` but the text does not end with `)`.
fn split_constraint(chars: &Vec<char>, lo: usize, hi: usize) -> (r: Option<(usize, Option<(usize, usize)>)>)
    requires
        lo < hi <= chars.len(),
    ensures
        split_constraint_model(chars@.subrange(lo as int, hi as int)) is None <==> r is None,
        r matches Some((e, None)) ==> lo <= e <= hi && split_constraint_model(
            chars@.subrange(lo as int, hi as int),
        ) == Some((chars@.subrange(lo as int, e as int), None::<Seq<char>>)),
        r matches Some((e, Some((x, y)))) ==> lo <= e <= x <= y <= hi && split_constraint_model(
            chars@.subrange(lo as int, hi as int),
        ) == Some((chars@.subrange(lo as int, e as int), Some(chars@.subrange(x as int, y as int)))),
{
    let ghost name = chars@.subrange(lo as int, hi as int);
    match find_char(chars, lo, hi, '(') {
        None => {
            assert(chars@.subrange(lo as int, hi as int) == name);
            Some((hi, None))
        },
        Some(k) => {
            assert(name.last() == chars@[hi - 1]);
            if chars[hi - 1] != ')' {
                return None;
            }
            proof {
                let o = k - lo;
                assert(name[o] == chars@[k as int]);
                assert(name.take(o) == chars@.subrange(lo as int, k as int));
                assert(name.subrange(o + 1, name.len() - 1) == chars@.subrange(k + 1, hi - 1));
            }
            Some((k, Some((k + 1, hi - 1))))
        },
    }
}

/// The error for a param whose `(` is never closed; `chars[lo..hi]` is the
/// text after `:`.
fn unterminated_error(chars: &Vec<char>, lo: usize, hi: usize, pattern: &str) -> (e: PatternError)
    requires
        lo <= hi <= chars.len(),
    ensures
        e.message@ == pattern_fault_text(
            PatternFault::UnterminatedConstraint(chars@.subrange(lo as int, hi as int)),
            pattern@,
        ),
{
    let mut message = String::new();
    message.append("unterminated constraint in ':");
    crate::text::push_chars(&mut message, chars, lo, hi);
    message.append("' in pattern '");
    message.append(pattern);
    message.append("'");
    PatternError { message }
}

/// The error for a param whose constraint was rejected with `cmsg`.
fn constraint_error(pname: &str, pattern: &str, cmsg: &str) -> (e: PatternError)
    ensures
        e.message@ == "in constraint for ':"@ + pname@ + "' in pattern '"@ + pattern@ + "': "@
            + cmsg@,
{
    let mut message = String::new();
    message.append("in constraint for ':");
    message.append(pname);
    message.append("' in pattern '");
    message.append(pattern);
    message.append("': ");
    message.append(cmsg);
    PatternError { message }
}

/// Reads the param text `chars[lo..hi]` (after `:`, before any `?`).
fn parse_param(chars: &Vec<char>, lo: usize, hi: usize, optional: bool, pattern: &str) -> (r: Option<
    Result<Segment, PatternError>,
>)
    requires
        lo <= hi <= chars.len(),
    ensures
        (param_model(chars@.subrange(lo as int, hi as int), optional) is Abort) <==> r is None,
        param_model(chars@.subrange(lo as int, hi as int), optional) matches Outcome::Value(seg)
            ==> (r matches Some(Ok(s)) && s@ == seg),
        param_model(chars@.subrange(lo as int, hi as int), optional) matches Outcome::Fault(f)
            ==> (r matches Some(Err(e)) && e.message@ == pattern_fault_text(f, pattern@)),
{
    if lo == hi {
        return Some(Err(error_quoting("param segment missing a name in '", pattern)));
    }
    let (pname_end, csrc) = match split_constraint(chars, lo, hi) {
        None => return Some(Err(unterminated_error(chars, lo, hi, pattern))),
        Some(x) => x,
    };
    if pname_end == lo {
        return Some(Err(error_quoting("param segment missing a name in '", pattern)));
    }
    let pname = string_of(chars, lo, pname_end);
    match csrc {
        None => {
            if optional {
                Some(Ok(Segment::OptionalParam(pname)))
            } else {
                Some(Ok(Segment::Param(pname)))
            }
        },
        Some((x, y)) => {
            let src = string_of(chars, x, y);
            match Constraint::try_parse(src.as_str()) {
                Some(Ok(c)) => {
                    if optional {
                        Some(Ok(Segment::OptionalConstrainedParam(pname, c)))
                    } else {
                        Some(Ok(Segment::ConstrainedParam(pname, c)))
                    }
                },
                Some(Err(cmsg)) => Some(Err(constraint_error(pname.as_str(), pattern, cmsg.as_str()))),
                None => None,
            }
        },
    }
}

/// Reads the piece `chars[a..b]` of `pattern` as a segment.
fn parse_segment(chars: &Vec<char>, a: usize, b: usize, is_last: bool, pattern: &str) -> (r: Option<
    Result<Segment, PatternError>,
>)
    requires
        a <= b <= chars.len(),
    ensures
        (segment_model(chars@.subrange(a as int, b as int), is_last) is Abort) <==> r is None,
        segment_model(chars@.subrange(a as int, b as int), is_last) matches Outcome::Value(seg)
            ==> (r matches Some(Ok(s)) && s@ == seg),
        segment_model(chars@.subrange(a as int, b as int), is_last) matches Outcome::Fault(f)
            ==> (r matches Some(Err(e)) && e.message@ == pattern_fault_text(f, pattern@)),
{
    let ghost r0 = chars@.subrange(a as int, b as int);
    if a == b {
        return Some(Err(error_quoting("empty segment in pattern '", pattern)));
    }
    let optional = chars[b - 1] == '?';
    let rb = if optional {
        b - 1
    } else {
        b
    };
    let ghost raw = chars@.subrange(a as int, rb as int);
    proof {
        assert(r0.last() == chars@[b - 1]);
        if optional {
            assert(r0.drop_last() == raw);
        } else {
            assert(r0 == raw);
        }
    }
    if a == rb {
        return Some(Err(error_quoting("empty segment in pattern '", pattern)));
    }
    assert(raw[0] == chars@[a as int]);
    assert(raw.drop_first() == chars@.subrange(a + 1, rb as int));
    if chars[a] == ':' {
        parse_param(chars, a + 1, rb, optional, pattern)
    } else if chars[a] == '*' {
        if a + 1 == rb {
            return Some(Err(error_quoting("wildcard segment missing a name in '", pattern)));
        }
        if optional {
            return Some(Err(error_quoting("wildcard segment cannot be optional in '", pattern)));
        }
        if !is_last {
            return Some(Err(error_quoting("wildcard segment must be last in '", pattern)));
        }
        Some(Ok(Segment::Wildcard(string_of(chars, a + 1, rb))))
    } else {
        let text = string_of(chars, a, rb);
        if optional {
            Some(Ok(Segment::OptionalStatic(text)))
        } else {
            Some(Ok(Segment::Static(text)))
        }
    }
}

/// Where the body of `cs` (trimmed, one leading `/` removed) lies.
pub(crate) fn body_bounds(cs: &Vec<char>) -> (r: (usize, usize))
    ensures
        r.0 <= r.1 <= cs.len(),
        cs@.subrange(r.0 as int, r.1 as int) == body_of(cs@),
{
    let (lo, hi) = trim_bounds(cs);
    if lo < hi && cs[lo] == '/' {
        proof {
            let t = cs@.subrange(lo as int, hi as int);
            assert(t[0] == cs@[lo as int]);
            assert(t.drop_first() == cs@.subrange(lo + 1, hi as int));
        }
        (lo + 1, hi)
    } else {
        proof {
            let t = cs@.subrange(lo as int, hi as int);
            if lo < hi {
                assert(t[0] == cs@[lo as int]);
            }
        }
        (lo, hi)
    }
}

/// Splits a pattern like `/users/:id/posts/*rest` into segments. A leading
/// slash is optional; a trailing or doubled slash is an error because it
/// would silently swallow an empty path component.
///
/// Patterns whose first unreadable constraint has a range with its `-` at
/// the very end of the constraint (as in `:id([a-)`) are outside the
/// accepted input.
pub fn parse_pattern(pattern: &str) -> (r: Result<Vec<Segment>, PatternError>)
    requires
        !(parse_pattern_model(pattern@) is Abort),
    ensures
        parse_pattern_model(pattern@) matches Outcome::Value(segs) ==> (r matches Ok(v)
            && segment_models(v@) == segs),
        r matches Ok(v) ==> well_formed(segment_models(v@)) && names_sound(segment_models(v@)),
        parse_pattern_model(pattern@) matches Outcome::Fault(f) ==> (r matches Err(e)
            && e.message@ == pattern_fault_text(f, pattern@)),
{
    match try_parse_pattern(pattern) {
        Some(r) => r,
        None => {
            // excluded by the precondition
            assert(false);
            Err(PatternError { message: String::new() })
        },
    }
}

/// Reads a pattern like `parse_pattern`, and gives `None` for a pattern
/// outside the accepted input.
pub fn try_parse_pattern(pattern: &str) -> (r: Option<Result<Vec<Segment>, PatternError>>)
    ensures
        (parse_pattern_model(pattern@) is Abort) <==> r is None,
        parse_pattern_model(pattern@) matches Outcome::Value(segs) ==> (r matches Some(Ok(v))
            && segment_models(v@) == segs),
        r matches Some(Ok(v)) ==> well_formed(segment_models(v@)) && names_sound(segment_models(v@)),
        parse_pattern_model(pattern@) matches Outcome::Fault(f) ==> (r matches Some(Err(e))
            && e.message@ == pattern_fault_text(f, pattern@)),
{
    proof {
        lemma_parsed_segments_well_formed(pattern@);
        lemma_parsed_names_sound(pattern@);
    }
    let chars = chars_of(pattern);
    let (start, end) = body_bounds(&chars);
    let ghost body = body_of(pattern@);
    if start == end {
        let v: Vec<Segment> = Vec::new();
        assert(segment_models(v@) == Seq::<SegmentModel>::empty());
        return Some(Ok(v));
    }
    let spans = split_spans(&chars, start, end, '/');
    let ghost raws = split_on(body, '/');
    let mut segments: Vec<Segment> = Vec::new();
    let mut idx: usize = 0;
    assert(segment_models(segments@) == Seq::<SegmentModel>::empty());
    while idx < spans.len()
        invariant
            0 <= idx <= spans.len() == raws.len(),
            chars@ == pattern@,
            body == body_of(pattern@),
            body.len() > 0,
            raws == split_on(body, '/'),
            start <= end <= chars.len(),
            body == chars@.subrange(start as int, end as int),
            forall|k: int|
                0 <= k < spans.len() ==> {
                    &&& (#[trigger] spans@[k]).0 <= spans@[k].1 <= chars.len()
                    &&& chars@.subrange(spans@[k].0 as int, spans@[k].1 as int) == raws[k]
                },
            segments_upto(raws, idx as int) == Outcome::<Seq<SegmentModel>, PatternFault>::Value(
                segment_models(segments@),
            ),
        decreases spans.len() - idx,
    {
        let (a, b) = spans[idx];
        let is_last = idx == spans.len() - 1;
        match parse_segment(&chars, a, b, is_last, pattern) {
            Some(Ok(seg)) => {
                proof {
                    assert(segment_models(segments@.push(seg)) == segment_models(segments@).push(
                        seg@,
                    ));
                }
                segments.push(seg);
            },
            Some(Err(e)) => {
                proof {
                    lemma_segments_upto_fault(raws, idx as int + 1, raws.len() as int);
                }
                return Some(Err(e));
            },
            None => {
                proof {
                    lemma_segments_upto_fault(raws, idx as int + 1, raws.len() as int);
                }
                return None;
            },
        }
        idx = idx + 1;
    }
    let ghost segs = segment_models(segments@);
    assert(parse_pattern_model(pattern@) == if optional_run_at_end(segs) {
        Outcome::<Seq<SegmentModel>, PatternFault>::Value(segs)
    } else {
        Outcome::<Seq<SegmentModel>, PatternFault>::Fault(PatternFault::OptionalNotAtEnd)
    });
    let mut seen_optional = false;
    let mut k: usize = 0;
    while k < segments.len()
        invariant
            0 <= k <= segments.len(),
            segs == segment_models(segments@),
            parse_pattern_model(pattern@) == if optional_run_at_end(segs) {
                Outcome::<Seq<SegmentModel>, PatternFault>::Value(segs)
            } else {
                Outcome::<Seq<SegmentModel>, PatternFault>::Fault(PatternFault::OptionalNotAtEnd)
            },
            seen_optional == exists|m: int| 0 <= m < k && is_optional(#[trigger] segs[m]),
            forall|i: int, j: int|
                0 <= i < j < k && is_optional(#[trigger] segs[i]) ==> is_optional(#[trigger] segs[j]),
        decreases segments.len() - k,
    {
        let opt = match &segments[k] {
            Segment::OptionalStatic(_) => true,
            Segment::OptionalParam(_) => true,
            Segment::OptionalConstrainedParam(_, _) => true,
            _ => false,
        };
        assert(opt == is_optional(segs[k as int]));
        if !opt && seen_optional {
            proof {
                let m = choose|m: int| 0 <= m < k && is_optional(#[trigger] segs[m]);
                assert(!optional_run_at_end(segs));
            }
            return Some(Err(error_quoting("optional segments must be at the end of pattern '", pattern)));
        }
        seen_optional = seen_optional || opt;
        k = k + 1;
    }
    Some(Ok(segments))
}

/// The views of a list of path components.
pub open spec fn path_model(ps: Seq<&str>) -> Seq<Seq<char>> {
    ps.map_values(|s: &str| s@)
}

/// Splits a request path into its components. A bare `/` yields no
/// components at all, matching a pattern with no segments.
pub fn split_path(path: &str) -> (r: Vec<&str>)
    ensures
        path_model(r@) == split_path_model(path@),
{
    let chars = chars_of(path);
    let (start, end) = body_bounds(&chars);
    let mut out: Vec<&str> = Vec::new();
    if start == end {
        assert(path_model(out@) == Seq::<Seq<char>>::empty());
        return out;
    }
    let spans = split_spans(&chars, start, end, '/');
    let ghost pieces = split_on(chars@.subrange(start as int, end as int), '/');
    let mut k: usize = 0;
    while k < spans.len()
        invariant
            0 <= k <= spans.len() == pieces.len(),
            chars@ == path@,
            pieces == split_on(chars@.subrange(start as int, end as int), '/'),
            forall|m: int|
                0 <= m < spans.len() ==> {
                    &&& (#[trigger] spans@[m]).0 <= spans@[m].1 <= chars.len()
                    &&& chars@.subrange(spans@[m].0 as int, spans@[m].1 as int) == pieces[m]
                },
            path_model(out@) == pieces.take(k as int),
        decreases spans.len() - k,
    {
        let (a, b) = spans[k];
        let piece = path.substring_char(a, b);
        proof {
            assert(path_model(out@.push(piece)) == path_model(out@).push(piece@));
            assert(pieces.take(k + 1) == pieces.take(k as int).push(pieces[k as int]));
        }
        out.push(piece);
        k = k + 1;
    }
    assert(pieces.take(k as int) == pieces);
    out
}

proof fn lemma_segments_upto_shape(raws: Seq<Seq<char>>, n: int)
    requires
        0 <= n <= raws.len(),
    ensures
        segments_upto(raws, n) matches Outcome::Value(segs) ==> segs.len() == n && forall|k: int|
            0 <= k < n && (#[trigger] segs[k] is Wildcard) ==> k == raws.len() - 1,
    decreases n,
{
    if n > 0 {
        lemma_segments_upto_shape(raws, n - 1);
    }
}

/// Every list of segments that a pattern reads as is well formed: the
/// optional segments form a run at the end, and a wildcard can only be the
/// last segment.
pub proof fn lemma_parsed_segments_well_formed(p: Seq<char>)
    ensures
        parse_pattern_model(p) matches Outcome::Value(segs) ==> well_formed(segs),
{
    let body = body_of(p);
    if body.len() > 0 {
        let raws = split_on(body, '/');
        crate::text::lemma_split_on_shape(body, '/');
        lemma_segments_upto_shape(raws, raws.len() as int);
    }
}

/// No component of a path holds a `/`, and the components joined again
/// with `/` give back the path without its surrounding whitespace and its
/// leading `/`.
pub proof fn lemma_split_path_join(path: Seq<char>)
    ensures
        join(split_path_model(path), seq!['/']) == body_of(path),
        forall|k: int|
            0 <= k < split_path_model(path).len() ==> !has_char(
                #[trigger] split_path_model(path)[k],
                '/',
            ),
{
    if body_of(path).len() > 0 {
        lemma_join_split_on(body_of(path), '/');
        crate::text::lemma_split_on_shape(body_of(path), '/');
    }
}

/// The name of a param or wildcard, or the text of a literal.
pub open spec fn segment_text(s: SegmentModel) -> Seq<char> {
    match s {
        SegmentModel::Static(t) => t,
        SegmentModel::Param(t) => t,
        SegmentModel::ConstrainedParam(t, _) => t,
        SegmentModel::Wildcard(t) => t,
        SegmentModel::OptionalStatic(t) => t,
        SegmentModel::OptionalParam(t) => t,
        SegmentModel::OptionalConstrainedParam(t, _) => t,
    }
}

/// Whether every name and literal of the segments is non-empty and holds
/// no `/`.
pub open spec fn names_sound(segs: Seq<SegmentModel>) -> bool {
    forall|k: int|
        0 <= k < segs.len() ==> segment_text(#[trigger] segs[k]).len() > 0 && !has_char(
            segment_text(segs[k]),
            '/',
        )
}

proof fn lemma_param_text(name: Seq<char>, optional: bool)
    ensures
        param_model(name, optional) matches Outcome::Value(seg) ==> segment_text(seg).len() > 0 && (
        segment_text(seg) == name || (has_char(name, '(') && segment_text(seg) == name.take(
            first_index_of(name, '('),
        ))),
{
    if name.len() > 0 {
        match split_constraint_model(name) {
            None => {},
            Some((pname, csrc)) => {
                if pname.len() > 0 {
                    match csrc {
                        None => {},
                        Some(src) => {
                            match parse_constraint(src) {
                                Outcome::Value(atoms) => {},
                                _ => {},
                            }
                        },
                    }
                }
            },
        }
    }
}

proof fn lemma_segment_model_text(r: Seq<char>, is_last: bool)
    requires
        !has_char(r, '/'),
    ensures
        segment_model(r, is_last) matches Outcome::Value(seg) ==> segment_text(seg).len() > 0
            && !has_char(segment_text(seg), '/'),
{
    if r.len() > 0 {
        let optional = r.last() == '?';
        let raw = if optional {
            r.drop_last()
        } else {
            r
        };
        let rl = raw.len() as int;
        assert(raw == r.subrange(0, rl));
        if raw.len() > 0 {
            if has_char(raw, '/') {
                crate::text::lemma_has_char_subrange(r, 0, rl, '/');
            }
            let name = raw.drop_first();
            assert(name == r.subrange(1, rl));
            if has_char(name, '/') {
                crate::text::lemma_has_char_subrange(r, 1, rl, '/');
            }
            if raw[0] == ':' {
                lemma_param_text(name, optional);
                if has_char(name, '(') {
                    let open = first_index_of(name, '(');
                    crate::text::lemma_first_index_of(name, '(');
                    assert(name.take(open) == r.subrange(1, 1 + open));
                    if has_char(name.take(open), '/') {
                        crate::text::lemma_has_char_subrange(r, 1, 1 + open, '/');
                    }
                }
            }
        }
    }
}

proof fn lemma_segments_upto_text(raws: Seq<Seq<char>>, n: int)
    requires
        0 <= n <= raws.len(),
        forall|k: int| 0 <= k < raws.len() ==> !has_char(#[trigger] raws[k], '/'),
    ensures
        segments_upto(raws, n) matches Outcome::Value(segs) ==> names_sound(segs),
    decreases n,
{
    if n > 0 {
        lemma_segments_upto_text(raws, n - 1);
        lemma_segment_model_text(raws[n - 1], n - 1 == raws.len() - 1);
    }
}

/// Every name and literal of a pattern read from text is non-empty and
/// holds no `/`.
pub proof fn lemma_parsed_names_sound(p: Seq<char>)
    ensures
        parse_pattern_model(p) matches Outcome::Value(segs) ==> names_sound(segs),
{
    let body = body_of(p);
    if body.len() > 0 {
        let raws = split_on(body, '/');
        crate::text::lemma_split_on_shape(body, '/');
        assert forall|k: int| 0 <= k < raws.len() implies !has_char(#[trigger] raws[k], '/') by {
            if has_char(raws[k], '/') {
                let j = choose|j: int| 0 <= j < raws[k].len() && raws[k][j] == '/';
                assert(split_on(body, '/')[k][j] != '/');
            }
        }
        lemma_segments_upto_text(raws, raws.len() as int);
    }
}

/// The leading slash is optional: a pattern or path without surrounding
/// whitespace reads the same with a `/` put in front of it.
pub proof fn lemma_leading_slash_optional(p: Seq<char>)
    requires
        trimmed(p) == p,
        !(p.len() > 0 && p[0] == '/'),
    ensures
        parse_pattern_model(seq!['/'] + p) == parse_pattern_model(p),
        split_path_model(seq!['/'] + p) == split_path_model(p),
{
    let q = seq!['/'] + p;
    assert(q[0] == '/');
    assert(q.drop_first() == p);
    assert(trim_start(q) == q);
    crate::text::lemma_trim_end_last(crate::text::trim_start(p));
    if p.len() > 0 {
        assert(!unicode_white_space(p.last()));
        assert(q.last() == p.last());
    }
    assert(trim_end(q) == q);
    assert(body_of(q) == p);
    assert(body_of(p) == p);
}

/// How one piece of a pattern between slashes reads, for a name `n` that is
/// non-empty, holds no `(` and does not end in `?`: `n` is a literal,
/// `n?` an optional literal (when `n` starts with neither `:` nor `*`);
/// `:n` a param and `:n?` an optional param; `*n` a wildcard when it is the
/// last piece and rejected otherwise, and `*n?` always rejected; an empty
/// piece, a bare `?`, `:` or `*` are rejected, and so is `:n(` with no
/// closing `)`.
pub proof fn lemma_piece_forms(n: Seq<char>, is_last: bool)
    requires
        n.len() > 0,
        !has_char(n, '('),
        n.last() != '?',
    ensures
        n[0] != ':' && n[0] != '*' ==> segment_model(n, is_last) == Outcome::<
            SegmentModel,
            PatternFault,
        >::Value(SegmentModel::Static(n)),
        n[0] != ':' && n[0] != '*' ==> segment_model(n + seq!['?'], is_last) == Outcome::<
            SegmentModel,
            PatternFault,
        >::Value(SegmentModel::OptionalStatic(n)),
        segment_model(seq![':'] + n, is_last) == Outcome::<SegmentModel, PatternFault>::Value(
            SegmentModel::Param(n),
        ),
        segment_model(seq![':'] + n + seq!['?'], is_last) == Outcome::<
            SegmentModel,
            PatternFault,
        >::Value(SegmentModel::OptionalParam(n)),
        is_last ==> segment_model(seq!['*'] + n, is_last) == Outcome::<
            SegmentModel,
            PatternFault,
        >::Value(SegmentModel::Wildcard(n)),
        !is_last ==> segment_model(seq!['*'] + n, is_last) == Outcome::<
            SegmentModel,
            PatternFault,
        >::Fault(PatternFault::WildcardNotLast),
        segment_model(seq!['*'] + n + seq!['?'], is_last) == Outcome::<
            SegmentModel,
            PatternFault,
        >::Fault(PatternFault::WildcardOptional),
        segment_model(Seq::<char>::empty(), is_last) == Outcome::<
            SegmentModel,
            PatternFault,
        >::Fault(PatternFault::EmptySegment),
        segment_model(seq!['?'], is_last) == Outcome::<SegmentModel, PatternFault>::Fault(
            PatternFault::EmptySegment,
        ),
        segment_model(seq![':'], is_last) == Outcome::<SegmentModel, PatternFault>::Fault(
            PatternFault::ParamMissingName,
        ),
        segment_model(seq!['*'], is_last) == Outcome::<SegmentModel, PatternFault>::Fault(
            PatternFault::WildcardMissingName,
        ),
        segment_model(seq![':'] + n + seq!['('], is_last) == Outcome::<
            SegmentModel,
            PatternFault,
        >::Fault(PatternFault::UnterminatedConstraint(n + seq!['('])),
{
    let q = seq!['?'];
    assert((n + q).last() == '?');
    assert((n + q).drop_last() == n);
    assert((n + q)[0] == n[0]);
    let pn = seq![':'] + n;
    assert(pn.last() == n.last());
    assert(pn.drop_first() == n);
    assert((pn + q).drop_last() == pn);
    assert((pn + q).last() == '?');
    let wn = seq!['*'] + n;
    assert(wn.last() == n.last());
    assert(wn.drop_first() == n);
    assert((wn + q).drop_last() == wn);
    assert((wn + q).last() == '?');
    assert(seq!['?'].drop_last().len() == 0);
    assert(seq![':'].drop_first().len() == 0);
    assert(seq!['*'].drop_first().len() == 0);
    let open = n + seq!['('];
    assert((pn + seq!['(']).drop_first() == open);
    assert((pn + seq!['(']).last() == '(');
    assert(open[n.len() as int] == '(');
    assert(has_char(open, '('));
}

/// A param with a constraint, `:n(src)` or `:n(src)?` for a non-empty name
/// `n` without `(`, reads as a constrained param named `n` whose constraint
/// has the text `src`, when `src` reads as a constraint; when it does not,
/// the pattern is rejected for that constraint.
pub proof fn lemma_constrained_piece(n: Seq<char>, src: Seq<char>, optional: bool, is_last: bool)
    requires
        n.len() > 0,
        !has_char(n, '('),
    ensures
        ({
            let r = seq![':'] + n + seq!['('] + src + seq![')'];
            let piece = if optional {
                r + seq!['?']
            } else {
                r
            };
            &&& parse_constraint(src) matches Outcome::Value(atoms) ==> segment_model(piece, is_last)
                == Outcome::<SegmentModel, PatternFault>::Value(
                if optional {
                    SegmentModel::OptionalConstrainedParam(
                        n,
                        ConstraintModel { source: src, atoms },
                    )
                } else {
                    SegmentModel::ConstrainedParam(n, ConstraintModel { source: src, atoms })
                },
            )
            &&& parse_constraint(src) matches Outcome::Fault(f) ==> segment_model(piece, is_last)
                == Outcome::<SegmentModel, PatternFault>::Fault(PatternFault::BadConstraint(n, src, f))
        }),
{
    let r = seq![':'] + n + seq!['('] + src + seq![')'];
    let name = n + seq!['('] + src + seq![')'];
    assert(r.drop_first() == name);
    assert(r[0] == ':');
    assert(r.last() == ')');
    let q = seq!['?'];
    assert((r + q).drop_last() == r);
    assert((r + q).last() == '?');
    assert(name[n.len() as int] == '(');
    assert(has_char(name, '('));
    assert(name.last() == ')');
    crate::text::lemma_first_index_of(name, '(');
    let k = first_index_of(name, '(');
    if k < n.len() {
        assert(name[k] == n[k]);
    }
    if k > n.len() {
        assert(name[n.len() as int] != '(');
    }
    assert(k == n.len());
    assert(name.take(k) == n);
    assert(name.subrange(k + 1, name.len() - 1) == src);
}

/// A rejected prefix decides the whole: once `segments_upto` fails at `n`,
/// it fails the same way at every later `m`.
proof fn lemma_segments_upto_fault(raws: Seq<Seq<char>>, n: int, m: int)
    requires
        0 <= n <= m,
        !(segments_upto(raws, n) is Value),
    ensures
        segments_upto(raws, m) == segments_upto(raws, n),
    decreases m - n,
{
    if m > n {
        lemma_segments_upto_fault(raws, n, m - 1);
    }
}

} // verus!
