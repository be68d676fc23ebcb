//! Matching parsed segments against the components of a path, and
//! explaining why a match failed.
use vstd::prelude::*;

use crate::constraint::{atoms_match, Outcome};
use crate::router::{
    is_optional, optional_run_at_end, parse_pattern, parse_pattern_model, path_model,
    pattern_fault_text, pattern_models, segment_models, well_formed, split_path, split_path_model, wildcard_only_last,
    PatternError, Segment, SegmentModel,
};
use crate::overlap::{
    common_path, lemma_match_when_fits, lemma_without_constraints_literal_at,
    lemma_without_constraints_required_len, lemma_without_constraints_shape, without_constraints,
};
use crate::text::{decimal, join, push_decimal, str_eq};

verus! {

broadcast use vstd::string::group_string_axioms;

/// A captured param: its name and the text it captured.
pub type Capture = (Seq<char>, Seq<char>);

/// The views of a list of captured params.
pub open spec fn captures_model(v: Seq<(String, String)>) -> Seq<Capture> {
    v.map_values(|p: (String, String)| (p.0@, p.1@))
}

/// How many segments come before the first optional one.
pub open spec fn required_len(segs: Seq<SegmentModel>) -> int
    decreases segs.len(),
{
    if segs.len() == 0 || is_optional(segs[0]) {
        0
    } else {
        1 + required_len(segs.drop_first())
    }
}

proof fn lemma_required_len(segs: Seq<SegmentModel>, k: int)
    requires
        0 <= k <= segs.len(),
        forall|m: int| 0 <= m < k ==> !is_optional(#[trigger] segs[m]),
        k == segs.len() || is_optional(segs[k]),
    ensures
        required_len(segs) == k,
    decreases k,
{
    if k > 0 {
        let t = segs.drop_first();
        assert forall|m: int| 0 <= m < k - 1 implies !is_optional(#[trigger] t[m]) by {
            assert(t[m] == segs[m + 1]);
        }
        if k < segs.len() {
            assert(t[k - 1] == segs[k]);
        }
        assert(!is_optional(segs[0]));
        lemma_required_len(t, k - 1);
    }
}

/// The required segments come first, up to `required_len`, and none of
/// them is optional.
pub proof fn lemma_required_prefix(segs: Seq<SegmentModel>)
    ensures
        0 <= required_len(segs) <= segs.len(),
        forall|m: int| 0 <= m < required_len(segs) ==> !is_optional(#[trigger] segs[m]),
        required_len(segs) < segs.len() ==> is_optional(segs[required_len(segs)]),
    decreases segs.len(),
{
    if segs.len() > 0 && !is_optional(segs[0]) {
        let t = segs.drop_first();
        lemma_required_prefix(t);
        assert forall|m: int| 0 <= m < required_len(segs) implies !is_optional(#[trigger] segs[m]) by {
            if m > 0 {
                assert(segs[m] == t[m - 1]);
            }
        }
        if required_len(segs) < segs.len() {
            assert(segs[required_len(segs)] == t[required_len(t)]);
        }
    }
}

/// Prepends `caps` to a successful match result.
pub open spec fn prepend_captures(caps: Seq<Capture>, r: Option<Seq<Capture>>) -> Option<Seq<Capture>> {
    match r {
        Some(rest) => Some(caps + rest),
        None => None,
    }
}

/// Matching segments `i..` against the path from component `i` on; `req` is
/// where the optional run begins. Segment `i` consumes component `i`, except
/// that a wildcard consumes all that remain (at least one), and that the
/// path may end anywhere inside the optional run.
pub open spec fn match_from_model(
    segs: Seq<SegmentModel>,
    req: int,
    path: Seq<Seq<char>>,
    i: int,
) -> Option<Seq<Capture>>
    decreases segs.len() - i,
{
    if i < 0 || i > segs.len() {
        None
    } else if i < req && i < segs.len() {
        if i >= path.len() {
            None
        } else {
            match segs[i] {
                SegmentModel::Wildcard(name) => if i == req - 1 {
                    Some(seq![(name, join(path.subrange(i, path.len() as int), seq!['/']))])
                } else {
                    None
                },
                SegmentModel::Param(name) => prepend_captures(
                    seq![(name, path[i])],
                    match_from_model(segs, req, path, i + 1),
                ),
                SegmentModel::ConstrainedParam(name, c) => if atoms_match(c.atoms, path[i]) {
                    prepend_captures(seq![(name, path[i])], match_from_model(segs, req, path, i + 1))
                } else {
                    None
                },
                SegmentModel::Static(expected) => if path[i] == expected {
                    match_from_model(segs, req, path, i + 1)
                } else {
                    None
                },
                _ => None,
            }
        }
    } else if i < segs.len() {
        if i >= path.len() {
            Some(Seq::<Capture>::empty())
        } else {
            match segs[i] {
                SegmentModel::OptionalParam(name) => prepend_captures(
                    seq![(name, path[i])],
                    match_from_model(segs, req, path, i + 1),
                ),
                SegmentModel::OptionalConstrainedParam(name, c) => if atoms_match(
                    c.atoms,
                    path[i],
                ) {
                    prepend_captures(seq![(name, path[i])], match_from_model(segs, req, path, i + 1))
                } else {
                    None
                },
                SegmentModel::OptionalStatic(expected) => if path[i] == expected {
                    match_from_model(segs, req, path, i + 1)
                } else {
                    None
                },
                _ => None,
            }
        }
    } else if i < path.len() {
        None
    } else {
        Some(Seq::<Capture>::empty())
    }
}

/// What matching segments against path components gives: the captured
/// params in declaration order, or `None` when the path does not match.
pub open spec fn match_segments_model(segs: Seq<SegmentModel>, path: Seq<Seq<char>>) -> Option<
    Seq<Capture>,
> {
    match_from_model(segs, required_len(segs), path, 0)
}

/// Whether walking segments `i..` against the path, as matching does, comes
/// upon a segment that is not optional after the optional run has begun,
/// while the path still has a component for it. No result is defined there.
pub open spec fn walk_strays(segs: Seq<SegmentModel>, req: int, path: Seq<Seq<char>>, i: int) -> bool
    decreases segs.len() - i,
{
    if i < 0 || i >= segs.len() || i >= path.len() {
        false
    } else if i < req {
        match segs[i] {
            SegmentModel::Param(_) => walk_strays(segs, req, path, i + 1),
            SegmentModel::ConstrainedParam(_, c) => atoms_match(c.atoms, path[i]) && walk_strays(
                segs,
                req,
                path,
                i + 1,
            ),
            SegmentModel::Static(expected) => path[i] == expected && walk_strays(
                segs,
                req,
                path,
                i + 1,
            ),
            _ => false,
        }
    } else {
        match segs[i] {
            SegmentModel::OptionalParam(_) => walk_strays(segs, req, path, i + 1),
            SegmentModel::OptionalConstrainedParam(_, c) => atoms_match(c.atoms, path[i])
                && walk_strays(segs, req, path, i + 1),
            SegmentModel::OptionalStatic(expected) => path[i] == expected && walk_strays(
                segs,
                req,
                path,
                i + 1,
            ),
            _ => true,
        }
    }
}

/// Whether matching `segs` against `path` comes upon a required segment
/// inside the optional run (see `walk_strays`).
pub open spec fn match_strays(segs: Seq<SegmentModel>, path: Seq<Seq<char>>) -> bool {
    walk_strays(segs, required_len(segs), path, 0)
}

proof fn lemma_no_stray_from(segs: Seq<SegmentModel>, path: Seq<Seq<char>>, i: int)
    requires
        optional_run_at_end(segs),
        0 <= i,
    ensures
        !walk_strays(segs, required_len(segs), path, i),
    decreases segs.len() - i,
{
    let req = required_len(segs);
    lemma_required_prefix(segs);
    if i < segs.len() && i < path.len() {
        if i >= req {
            assert(is_optional(segs[req]));
            if i > req {
                assert(is_optional(segs[i]));
            }
        }
        lemma_no_stray_from(segs, path, i + 1);
    }
}

/// Matching never comes upon a required segment inside the optional run
/// when the optional segments form a run at the end, as in every pattern
/// read from text.
pub proof fn lemma_no_stray(segs: Seq<SegmentModel>, path: Seq<Seq<char>>)
    requires
        optional_run_at_end(segs),
    ensures
        !match_strays(segs, path),
{
    lemma_no_stray_from(segs, path, 0);
}

/// Whether the segment was marked optional with `?`.
pub fn is_optional_segment(segment: &Segment) -> (r: bool)
    ensures
        r == is_optional(segment@),
{
    match segment {
        Segment::OptionalStatic(_) => true,
        Segment::OptionalParam(_) => true,
        Segment::OptionalConstrainedParam(_, _) => true,
        _ => false,
    }
}

/// Where the trailing optional run of `segments` begins.
pub(crate) fn split_optional(segments: &[Segment]) -> (k: usize)
    ensures
        k == required_len(segment_models(segments@)),
        k <= segments@.len(),
{
    let ghost segs = segment_models(segments@);
    let mut k: usize = 0;
    while k < segments.len() && !is_optional_segment(&segments[k])
        invariant
            0 <= k <= segments@.len(),
            segs == segment_models(segments@),
            forall|m: int| 0 <= m < k ==> !is_optional(#[trigger] segs[m]),
        decreases segments.len() - k,
    {
        assert(segs[k as int] == segments@[k as int]@);
        k = k + 1;
    }
    proof {
        if k < segments.len() {
            assert(segs[k as int] == segments@[k as int]@);
        }
        lemma_required_len(segs, k as int);
    }
    k
}

/// The components `from..` joined with `/`.
fn join_components(ps: &[&str], from: usize) -> (s: String)
    requires
        from < ps@.len(),
    ensures
        s@ == join(path_model(ps@).subrange(from as int, ps@.len() as int), seq!['/']),
{
    let ghost path = path_model(ps@);
    let mut s = String::new();
    s.append(ps[from]);
    let mut k = from + 1;
    proof {
        let p1 = path.subrange(from as int, k as int);
        assert(p1.len() == 1);
        assert(p1[0] == ps@[from as int]@);
    }
    while k < ps.len()
        invariant
            from < k <= ps@.len(),
            path == path_model(ps@),
            s@ == join(path.subrange(from as int, k as int), seq!['/']),
        decreases ps.len() - k,
    {
        crate::text::push_char(&mut s, '/');
        s.append(ps[k]);
        proof {
            let q = path.subrange(from as int, k + 1);
            assert(q.drop_last() == path.subrange(from as int, k as int));
            assert(q.last() == ps@[k as int]@);
        }
        k = k + 1;
    }
    assert(path.subrange(from as int, k as int) == path.subrange(from as int, ps@.len() as int));
    s
}

/// Matches parsed segments against a path's components, returning the
/// captured params in declaration order on success.
///
/// A wildcard must capture at least one component, so `/files/*rest` does
/// not match bare `/files`. Trailing optional segments are matched against
/// whatever components remain once the required segments are consumed: the
/// path may run out anywhere in that run, but cannot skip an earlier
/// optional segment and still match a later one.
pub fn match_segments(segments: &[Segment], path_segments: &[&str]) -> (r: Option<Vec<(String, String)>>)
    requires
        !match_strays(segment_models(segments@), path_model(path_segments@)),
    ensures
        match_segments_model(segment_models(segments@), path_model(path_segments@)) is None
            ==> r is None,
        match_segments_model(segment_models(segments@), path_model(path_segments@)) matches Some(
            caps,
        ) ==> (r matches Some(v) && captures_model(v@) == caps),
{
    let ghost segs = segment_models(segments@);
    let ghost path = path_model(path_segments@);
    let ghost full = match_segments_model(segs, path);
    let req = split_optional(segments);
    proof {
        lemma_required_prefix(segs);
    }
    let mut params: Vec<(String, String)> = Vec::new();
    let mut i: usize = 0;
    assert(captures_model(params@) + Seq::<Capture>::empty() == Seq::<Capture>::empty());
    assert(prepend_captures(captures_model(params@), match_from_model(segs, req as int, path, 0))
        == full);
    while i < req
        invariant
            0 <= i <= req <= segments@.len(),
            segs == segment_models(segments@),
            path == path_model(path_segments@),
            req == required_len(segs),
            full == match_segments_model(segment_models(segments@), path_model(path_segments@)),
            full == prepend_captures(
                captures_model(params@),
                match_from_model(segs, req as int, path, i as int),
            ),
        decreases req - i,
    {
        let ghost before = captures_model(params@);
        assert(segs[i as int] == segments@[i as int]@);
        if i >= path_segments.len() {
            assert(match_from_model(segs, req as int, path, i as int) is None);
            return None;
        }
        assert(path[i as int] == path_segments@[i as int]@);
        match &segments[i] {
            Segment::Wildcard(name) => {
                let joined = join_components(path_segments, i);
                let pair = (name.clone(), joined);
                proof {
                    assert(captures_model(params@.push(pair)) == before.push((pair.0@, pair.1@)));
                    assert(before.push((pair.0@, pair.1@)) == before + seq![(pair.0@, pair.1@)]);
                }
                params.push(pair);
                if i == req - 1 {
                    return Some(params);
                } else {
                    return None;
                }
            },
            Segment::Param(name) => {
                let pair = (name.clone(), String::from_str(path_segments[i]));
                proof {
                    assert(captures_model(params@.push(pair)) == before.push((pair.0@, pair.1@)));
                    lemma_prepend_push(before, (pair.0@, pair.1@), match_from_model(segs, req as int, path, i + 1));
                }
                params.push(pair);
            },
            Segment::ConstrainedParam(name, constraint) => {
                if !constraint.is_match(path_segments[i]) {
                    return None;
                }
                let pair = (name.clone(), String::from_str(path_segments[i]));
                proof {
                    assert(captures_model(params@.push(pair)) == before.push((pair.0@, pair.1@)));
                    lemma_prepend_push(before, (pair.0@, pair.1@), match_from_model(segs, req as int, path, i + 1));
                }
                params.push(pair);
            },
            Segment::Static(expected) => {
                if !str_eq(path_segments[i], expected.as_str()) {
                    assert(match_from_model(segs, req as int, path, i as int) is None);
                    return None;
                }
            },
            _ => {
                return None;
            },
        }
        i = i + 1;
    }
    while i < segments.len()
        invariant
            req <= i <= segments@.len(),
            segs == segment_models(segments@),
            path == path_model(path_segments@),
            req == required_len(segs),
            full == match_segments_model(segment_models(segments@), path_model(path_segments@)),
            full == prepend_captures(
                captures_model(params@),
                match_from_model(segs, req as int, path, i as int),
            ),
        decreases segments.len() - i,
    {
        let ghost before = captures_model(params@);
        assert(segs[i as int] == segments@[i as int]@);
        if i >= path_segments.len() {
            assert(before + Seq::<Capture>::empty() == before);
            assert(match_from_model(segs, req as int, path, i as int) == Some(Seq::<Capture>::empty()));
            return Some(params);
        }
        assert(path[i as int] == path_segments@[i as int]@);
        match &segments[i] {
            Segment::OptionalParam(name) => {
                let pair = (name.clone(), String::from_str(path_segments[i]));
                proof {
                    assert(captures_model(params@.push(pair)) == before.push((pair.0@, pair.1@)));
                    lemma_prepend_push(before, (pair.0@, pair.1@), match_from_model(segs, req as int, path, i + 1));
                }
                params.push(pair);
            },
            Segment::OptionalConstrainedParam(name, constraint) => {
                if !constraint.is_match(path_segments[i]) {
                    return None;
                }
                let pair = (name.clone(), String::from_str(path_segments[i]));
                proof {
                    assert(captures_model(params@.push(pair)) == before.push((pair.0@, pair.1@)));
                    lemma_prepend_push(before, (pair.0@, pair.1@), match_from_model(segs, req as int, path, i + 1));
                }
                params.push(pair);
            },
            Segment::OptionalStatic(expected) => {
                if !str_eq(path_segments[i], expected.as_str()) {
                    assert(match_from_model(segs, req as int, path, i as int) is None);
                    return None;
                }
            },
            _ => {
                return None;
            },
        }
        i = i + 1;
    }
    if i < path_segments.len() {
        None
    } else {
        assert(captures_model(params@) + Seq::<Capture>::empty() == captures_model(params@));
        Some(params)
    }
}

proof fn lemma_prepend_push(before: Seq<Capture>, c: Capture, rest: Option<Seq<Capture>>)
    ensures
        prepend_captures(before, prepend_captures(seq![c], rest)) == prepend_captures(
            before.push(c),
            rest,
        ),
{
    if let Some(r) = rest {
        assert(before + (seq![c] + r) == before.push(c) + r);
    }
}

// ---------------------------------------------------------------------------
// Explaining a failed match
// ---------------------------------------------------------------------------

/// The text that reports a match.
pub open spec fn matched_text() -> Seq<char> {
    "pattern matches"@
}

/// A wildcard at position `i` found no component left.
pub open spec fn wildcard_short_text(name: Seq<char>, i: nat) -> Seq<char> {
    "wildcard ':"@ + name + "' needs at least one path segment after position "@ + decimal(i)
        + ", but the path ends there"@
}

/// The path has only `n` components where `req` are required.
pub open spec fn too_few_text(n: nat, req: nat) -> Seq<char> {
    "path has only "@ + decimal(n) + " segment(s), but the pattern requires at least "@ + decimal(
        req,
    )
}

/// Component number `pos` (counting from 1) is not the literal the pattern
/// asks for there.
pub open spec fn literal_mismatch_text(
    pos: nat,
    value: Seq<char>,
    expected: Seq<char>,
    optional: bool,
) -> Seq<char> {
    "segment "@ + decimal(pos) + " is '"@ + value + (if optional {
        "', expected optional literal '"@
    } else {
        "', expected literal '"@
    }) + expected + "'"@
}

/// Component number `pos` does not satisfy the constraint `source` of the
/// param `name`.
pub open spec fn constraint_mismatch_text(
    pos: nat,
    value: Seq<char>,
    name: Seq<char>,
    source: Seq<char>,
) -> Seq<char> {
    "segment "@ + decimal(pos) + " ('"@ + value + "') does not satisfy the constraint on ':"@ + name
        + "' ("@ + source + ")"@
}

/// `n` components are left over after the pattern.
pub open spec fn extra_text(n: nat) -> Seq<char> {
    "path has "@ + decimal(n) + " extra segment(s) beyond what the pattern accounts for"@
}

/// What is said once the segments are used up at component `i` of a path
/// of `n` components.
pub open spec fn tail_text(n: int, i: int) -> Seq<char> {
    if i < n {
        extra_text((n - i) as nat)
    } else {
        matched_text()
    }
}

/// The explanation for segments `i..` against the path from component `i`
/// on: the first point of disagreement, walking the required run and then
/// the optional run.
pub open spec fn explain_from(segs: Seq<SegmentModel>, req: int, path: Seq<Seq<char>>, i: int) -> Seq<
    char,
>
    decreases segs.len() - i,
{
    if i < 0 || i > segs.len() {
        tail_text(path.len() as int, i)
    } else if i < req && i < segs.len() {
        if segs[i] is Wildcard {
            if i >= path.len() {
                wildcard_short_text(segs[i]->Wildcard_0, i as nat)
            } else {
                matched_text()
            }
        } else if i >= path.len() {
            too_few_text(path.len(), req as nat)
        } else {
            match segs[i] {
                SegmentModel::Static(expected) => if path[i] != expected {
                    literal_mismatch_text((i + 1) as nat, path[i], expected, false)
                } else {
                    explain_from(segs, req, path, i + 1)
                },
                SegmentModel::ConstrainedParam(name, c) => if !atoms_match(c.atoms, path[i]) {
                    constraint_mismatch_text((i + 1) as nat, path[i], name, c.source)
                } else {
                    explain_from(segs, req, path, i + 1)
                },
                _ => explain_from(segs, req, path, i + 1),
            }
        }
    } else if i < segs.len() && i < path.len() {
        match segs[i] {
            SegmentModel::OptionalStatic(expected) => if path[i] != expected {
                literal_mismatch_text((i + 1) as nat, path[i], expected, true)
            } else {
                explain_from(segs, req, path, i + 1)
            },
            SegmentModel::OptionalConstrainedParam(name, c) => if !atoms_match(c.atoms, path[i]) {
                constraint_mismatch_text((i + 1) as nat, path[i], name, c.source)
            } else {
                explain_from(segs, req, path, i + 1)
            },
            _ => explain_from(segs, req, path, i + 1),
        }
    } else {
        tail_text(path.len() as int, i)
    }
}

/// The explanation of why `segs` do (or do not) match `path`.
pub open spec fn explain_model(segs: Seq<SegmentModel>, path: Seq<Seq<char>>) -> Seq<char> {
    explain_from(segs, required_len(segs), path, 0)
}

fn wildcard_short_message(name: &str, i: usize) -> (m: String)
    ensures
        m@ == wildcard_short_text(name@, i as nat),
{
    let mut m = String::new();
    m.append("wildcard ':");
    m.append(name);
    m.append("' needs at least one path segment after position ");
    push_decimal(&mut m, i);
    m.append(", but the path ends there");
    m
}

fn too_few_message(n: usize, req: usize) -> (m: String)
    ensures
        m@ == too_few_text(n as nat, req as nat),
{
    let mut m = String::new();
    m.append("path has only ");
    push_decimal(&mut m, n);
    m.append(" segment(s), but the pattern requires at least ");
    push_decimal(&mut m, req);
    m
}

fn literal_mismatch_message(pos: usize, value: &str, expected: &str, optional: bool) -> (m: String)
    ensures
        m@ == literal_mismatch_text(pos as nat, value@, expected@, optional),
{
    let mut m = String::new();
    m.append("segment ");
    push_decimal(&mut m, pos);
    m.append(" is '");
    m.append(value);
    if optional {
        m.append("', expected optional literal '");
    } else {
        m.append("', expected literal '");
    }
    m.append(expected);
    m.append("'");
    m
}

fn constraint_mismatch_message(pos: usize, value: &str, name: &str, source: &str) -> (m: String)
    ensures
        m@ == constraint_mismatch_text(pos as nat, value@, name@, source@),
{
    let mut m = String::new();
    m.append("segment ");
    push_decimal(&mut m, pos);
    m.append(" ('");
    m.append(value);
    m.append("') does not satisfy the constraint on ':");
    m.append(name);
    m.append("' (");
    m.append(source);
    m.append(")");
    m
}

fn tail_message(n: usize, i: usize) -> (m: String)
    ensures
        m@ == tail_text(n as int, i as int),
{
    if i < n {
        let mut m = String::new();
        m.append("path has ");
        push_decimal(&mut m, n - i);
        m.append(" extra segment(s) beyond what the pattern accounts for");
        m
    } else {
        String::from_str("pattern matches")
    }
}

/// Explains why `segments` failed to match `path_segments`: it walks the
/// same required/optional structure as `match_segments` and stops at the
/// first point of disagreement.
pub fn explain_mismatch(segments: &[Segment], path_segments: &[&str]) -> (r: String)
    requires
        !match_strays(segment_models(segments@), path_model(path_segments@)),
    ensures
        r@ == explain_model(segment_models(segments@), path_model(path_segments@)),
{
    let ghost segs = segment_models(segments@);
    let ghost path = path_model(path_segments@);
    let req = split_optional(segments);
    proof {
        lemma_required_prefix(segs);
    }
    let n = path_segments.len();
    let mut idx: usize = 0;
    while idx < req
        invariant
            0 <= idx <= req <= segments@.len(),
            n == path_segments@.len() == path.len(),
            segs == segment_models(segments@),
            path == path_model(path_segments@),
            req == required_len(segs),
            explain_model(segs, path) == explain_from(segs, req as int, path, idx as int),
        decreases req - idx,
    {
        assert(segs[idx as int] == segments@[idx as int]@);
        if let Segment::Wildcard(name) = &segments[idx] {
            if idx >= n {
                return wildcard_short_message(name.as_str(), idx);
            }
            return String::from_str("pattern matches");
        }
        if idx >= n {
            return too_few_message(n, req);
        }
        let value = path_segments[idx];
        assert(path[idx as int] == value@);
        match &segments[idx] {
            Segment::Static(expected) => {
                if !str_eq(value, expected.as_str()) {
                    return literal_mismatch_message(idx + 1, value, expected.as_str(), false);
                }
            },
            Segment::ConstrainedParam(name, constraint) => {
                if !constraint.is_match(value) {
                    return constraint_mismatch_message(
                        idx + 1,
                        value,
                        name.as_str(),
                        constraint.source(),
                    );
                }
            },
            _ => {},
        }
        idx = idx + 1;
    }
    while idx < segments.len() && idx < n
        invariant
            req <= idx <= segments@.len(),
            n == path_segments@.len() == path.len(),
            segs == segment_models(segments@),
            path == path_model(path_segments@),
            req == required_len(segs),
            explain_model(segs, path) == explain_from(segs, req as int, path, idx as int),
        decreases segments.len() - idx,
    {
        assert(segs[idx as int] == segments@[idx as int]@);
        let value = path_segments[idx];
        assert(path[idx as int] == value@);
        match &segments[idx] {
            Segment::OptionalStatic(expected) => {
                if !str_eq(value, expected.as_str()) {
                    return literal_mismatch_message(idx + 1, value, expected.as_str(), true);
                }
            },
            Segment::OptionalConstrainedParam(name, constraint) => {
                if !constraint.is_match(value) {
                    return constraint_mismatch_message(
                        idx + 1,
                        value,
                        name.as_str(),
                        constraint.source(),
                    );
                }
            },
            _ => {},
        }
        idx = idx + 1;
    }
    tail_message(n, idx)
}

/// Parses `pattern` and matches it against `path` in one call. Returns an
/// error only if the pattern itself is malformed.
pub fn matches(pattern: &str, path: &str) -> (r: Result<Option<Vec<(String, String)>>, PatternError>)
    requires
        !(parse_pattern_model(pattern@) is Abort),
    ensures
        r is Err <==> parse_pattern_model(pattern@) is Fault,
        parse_pattern_model(pattern@) matches Outcome::Fault(f) ==> (r matches Err(e)
            && e.message@ == pattern_fault_text(f, pattern@)),
        parse_pattern_model(pattern@) matches Outcome::Value(segs) ==> (r matches Ok(m) && (
        match_segments_model(segs, split_path_model(path@)) is None ==> m is None)),
        parse_pattern_model(pattern@) matches Outcome::Value(segs) ==> (r matches Ok(m) && (
        match_segments_model(segs, split_path_model(path@)) matches Some(caps) ==> (m matches Some(
            v,
        ) && captures_model(v@) == caps))),
{
    let segments = match parse_pattern(pattern) {
        Ok(s) => s,
        Err(e) => return Err(e),
    };
    let path_segments = split_path(path);
    proof {
        lemma_no_stray(segment_models(segments@), path_model(path_segments@));
    }
    Ok(match_segments(segments.as_slice(), path_segments.as_slice()))
}

/// Every route of a table that a path matches, in table order: the position
/// of each matching pattern in `patterns`, with the params it captured.
pub fn matching_routes(patterns: &[Vec<Segment>], path_segments: &[&str]) -> (r: Vec<
    (usize, Vec<(String, String)>),
>)
    requires
        forall|i: int|
            0 <= i < patterns@.len() ==> !match_strays(
                #[trigger] pattern_models(patterns@)[i],
                path_model(path_segments@),
            ),
    ensures
        forall|k: int|
            0 <= k < r@.len() ==> (#[trigger] r@[k]).0 < patterns@.len() && match_segments_model(
                pattern_models(patterns@)[r@[k].0 as int],
                path_model(path_segments@),
            ) == Some(captures_model(r@[k].1@)),
        forall|i: int|
            0 <= i < patterns@.len() && #[trigger] match_segments_model(
                pattern_models(patterns@)[i],
                path_model(path_segments@),
            ) is Some ==> exists|k: int| 0 <= k < r@.len() && r@[k].0 == i,
        forall|k: int, l: int| 0 <= k < l < r@.len() ==> r@[k].0 < r@[l].0,
{
    let ghost ms = pattern_models(patterns@);
    let ghost path = path_model(path_segments@);
    let mut r: Vec<(usize, Vec<(String, String)>)> = Vec::new();
    let mut i: usize = 0;
    while i < patterns.len()
        invariant
            0 <= i <= patterns@.len() == ms.len(),
            ms == pattern_models(patterns@),
            path == path_model(path_segments@),
            forall|m: int| 0 <= m < ms.len() ==> !match_strays(#[trigger] ms[m], path),
            forall|k: int|
                0 <= k < r@.len() ==> (#[trigger] r@[k]).0 < i && match_segments_model(
                    ms[r@[k].0 as int],
                    path,
                ) == Some(captures_model(r@[k].1@)),
            forall|m: int|
                0 <= m < i && #[trigger] match_segments_model(ms[m], path) is Some ==> exists|k: int|
                    0 <= k < r@.len() && r@[k].0 == m,
            forall|k: int, l: int| 0 <= k < l < r@.len() ==> r@[k].0 < r@[l].0,
        decreases patterns@.len() - i,
    {
        assert(ms[i as int] == segment_models(patterns@[i as int]@));
        let found = match_segments(patterns[i].as_slice(), path_segments);
        match found {
            Some(params) => {
                let ghost old_r = r@;
                r.push((i, params));
                proof {
                    assert forall|m: int|
                        0 <= m < i + 1 && #[trigger] match_segments_model(ms[m], path)
                            is Some implies exists|k: int| 0 <= k < r@.len() && r@[k].0 == m by {
                        if m == i {
                            assert(r@[old_r.len() as int].0 == m);
                        } else {
                            let k = choose|k: int| 0 <= k < old_r.len() && old_r[k].0 == m;
                            assert(r@[k] == old_r[k]);
                        }
                    }
                }
            },
            None => {},
        }
        i = i + 1;
    }
    r
}

// ---------------------------------------------------------------------------
// Laws
// ---------------------------------------------------------------------------

/// None of the messages that point at a disagreement reads as a match.
proof fn lemma_mismatch_texts_differ()
    ensures
        forall|name: Seq<char>, k: nat| #[trigger] wildcard_short_text(name, k) != matched_text(),
        forall|n: nat, r: nat| #[trigger] too_few_text(n, r) != matched_text(),
        forall|p: nat, v: Seq<char>, e: Seq<char>, o: bool| #[trigger] literal_mismatch_text(p, v, e, o)
            != matched_text(),
        forall|p: nat, v: Seq<char>, n: Seq<char>, c: Seq<char>| #[trigger] constraint_mismatch_text(
            p,
            v,
            n,
            c,
        ) != matched_text(),
        forall|n: nat| #[trigger] extra_text(n) != matched_text(),
{
    reveal_strlit("pattern matches");
    reveal_strlit("wildcard ':");
    reveal_strlit("path has only ");
    reveal_strlit("segment ");
    reveal_strlit("path has ");
    assert(matched_text()[0] == 'p');
    assert(matched_text()[3] == 't');
    assert forall|name: Seq<char>, k: nat| #[trigger] wildcard_short_text(name, k) != matched_text() by {
        assert(wildcard_short_text(name, k)[0] == 'w');
    }
    assert forall|n: nat, r: nat| #[trigger] too_few_text(n, r) != matched_text() by {
        assert(too_few_text(n, r)[3] == 'h');
    }
    assert forall|p: nat, v: Seq<char>, e: Seq<char>, o: bool| #[trigger] literal_mismatch_text(
        p,
        v,
        e,
        o,
    ) != matched_text() by {
        assert(literal_mismatch_text(p, v, e, o)[0] == 's');
    }
    assert forall|p: nat, v: Seq<char>, n: Seq<char>, c: Seq<char>| #[trigger] constraint_mismatch_text(
        p,
        v,
        n,
        c,
    ) != matched_text() by {
        assert(constraint_mismatch_text(p, v, n, c)[0] == 's');
    }
    assert forall|n: nat| #[trigger] extra_text(n) != matched_text() by {
        assert(extra_text(n)[3] == 'h');
    }
}

proof fn lemma_explain_agrees_from(segs: Seq<SegmentModel>, path: Seq<Seq<char>>, i: int)
    requires
        optional_run_at_end(segs),
        wildcard_only_last(segs),
        0 <= i <= segs.len(),
    ensures
        (match_from_model(segs, required_len(segs), path, i) is Some) == (explain_from(
            segs,
            required_len(segs),
            path,
            i,
        ) == matched_text()),
    decreases segs.len() - i,
{
    let req = required_len(segs);
    lemma_required_prefix(segs);
    lemma_mismatch_texts_differ();
    if i < segs.len() {
        if i >= req && req < segs.len() {
            assert(is_optional(segs[req]));
            if i > req {
                assert(is_optional(segs[i]));
            }
        }
        if !(segs[i] is Wildcard) {
            lemma_explain_agrees_from(segs, path, i + 1);
        }
    }
}

proof fn lemma_explain_skip(segs: Seq<SegmentModel>, path: Seq<Seq<char>>, i: int, k: int)
    requires
        optional_run_at_end(segs),
        wildcard_only_last(segs),
        0 <= i <= k,
        k <= path.len(),
        k <= segs.len(),
        forall|j: int|
            i <= j < k ==> !(#[trigger] segs[j] is Wildcard) && component_fits(segs[j], path[j]),
    ensures
        explain_from(segs, required_len(segs), path, i) == explain_from(
            segs,
            required_len(segs),
            path,
            k,
        ),
    decreases k - i,
{
    if i < k {
        assert(!(segs[i] is Wildcard) && component_fits(segs[i], path[i]));
        lemma_explain_skip(segs, path, i + 1, k);
    }
}

/// The explanation names the first component that does not satisfy its
/// segment, counting from 1, with the component's text and what the
/// segment asked for: a literal it should equal, marked optional when the
/// segment is, or a constraint it should satisfy.
pub proof fn lemma_explain_first_disagreement(segs: Seq<SegmentModel>, path: Seq<Seq<char>>, i: int)
    requires
        well_formed(segs),
        0 <= i < path.len(),
        i < segs.len(),
        forall|j: int| 0 <= j < i ==> !(#[trigger] segs[j] is Wildcard) && component_fits(segs[j], path[j]),
        !(segs[i] is Wildcard),
        !component_fits(segs[i], path[i]),
    ensures
        segs[i] matches SegmentModel::Static(e) ==> explain_model(segs, path)
            == literal_mismatch_text((i + 1) as nat, path[i], e, false),
        segs[i] matches SegmentModel::OptionalStatic(e) ==> explain_model(segs, path)
            == literal_mismatch_text((i + 1) as nat, path[i], e, true),
        segs[i] matches SegmentModel::ConstrainedParam(name, c) ==> explain_model(segs, path)
            == constraint_mismatch_text((i + 1) as nat, path[i], name, c.source),
        segs[i] matches SegmentModel::OptionalConstrainedParam(name, c) ==> explain_model(segs, path)
            == constraint_mismatch_text((i + 1) as nat, path[i], name, c.source),
{
    lemma_required_prefix(segs);
    lemma_explain_skip(segs, path, 0, i);
    let req = required_len(segs);
    if i >= req && req < segs.len() {
        assert(is_optional(segs[req]));
        if i > req {
            assert(is_optional(segs[i]));
        }
    }
}

/// When a path fits every segment of a pattern without a wildcard and goes
/// on past them, the explanation counts the components left over: the
/// path's length less the number of segments.
pub proof fn lemma_explain_extra_count(segs: Seq<SegmentModel>, path: Seq<Seq<char>>)
    requires
        well_formed(segs),
        forall|j: int| 0 <= j < segs.len() ==> !(#[trigger] segs[j] is Wildcard),
        segs.len() < path.len(),
        forall|j: int| 0 <= j < segs.len() ==> component_fits(#[trigger] segs[j], path[j]),
    ensures
        explain_model(segs, path) == extra_text((path.len() - segs.len()) as nat),
{
    lemma_required_prefix(segs);
    lemma_explain_skip(segs, path, 0, segs.len() as int);
}

/// When a path fits every segment before a trailing wildcard and ends right
/// where the wildcard starts, the explanation names the wildcard and that
/// position.
pub proof fn lemma_explain_wildcard_short(segs: Seq<SegmentModel>, path: Seq<Seq<char>>)
    requires
        well_formed(segs),
        segs.len() > 0,
        segs.last() is Wildcard,
        path.len() == segs.len() - 1,
        forall|j: int| 0 <= j < path.len() ==> component_fits(#[trigger] segs[j], path[j]),
    ensures
        explain_model(segs, path) == wildcard_short_text(segs.last()->Wildcard_0, path.len()),
{
    lemma_required_prefix(segs);
    let req = required_len(segs);
    if req < segs.len() {
        assert(is_optional(segs[req]));
        assert(is_optional(segs[segs.len() - 1]));
    }
    assert forall|j: int| 0 <= j < path.len() implies !(#[trigger] segs[j] is Wildcard)
        && component_fits(segs[j], path[j]) by {
        assert(component_fits(segs[j], path[j]));
    }
    lemma_explain_skip(segs, path, 0, path.len() as int);
}

proof fn lemma_explain_too_few_from(segs: Seq<SegmentModel>, path: Seq<Seq<char>>, i: int)
    requires
        optional_run_at_end(segs),
        wildcard_only_last(segs),
        0 <= i <= path.len() < required_len(segs),
        !(segs[path.len() as int] is Wildcard),
        forall|j: int| i <= j < path.len() ==> component_fits(#[trigger] segs[j], path[j]),
    ensures
        explain_from(segs, required_len(segs), path, i) == too_few_text(
            path.len(),
            required_len(segs) as nat,
        ),
    decreases path.len() - i,
{
    let req = required_len(segs);
    lemma_required_prefix(segs);
    if i < path.len() {
        assert(component_fits(segs[i], path[i]));
        assert(!(segs[i] is Wildcard));
        lemma_explain_too_few_from(segs, path, i + 1);
    }
}

/// When a path ends inside the required run of a pattern whose segments it
/// fits so far (and not where a wildcard would start), the explanation says
/// the path is too short, and the number it gives as required is the least
/// number of components of any path the pattern matches: no matching path
/// is shorter, and with constraints set aside a path that long matches.
pub proof fn lemma_too_few_names_least_length(segs: Seq<SegmentModel>, path: Seq<Seq<char>>)
    requires
        well_formed(segs),
        path.len() < required_len(segs),
        !(segs[path.len() as int] is Wildcard),
        forall|j: int| 0 <= j < path.len() ==> component_fits(#[trigger] segs[j], path[j]),
    ensures
        exists|n: nat|
            {
                &&& explain_model(segs, path) == too_few_text(path.len(), n)
                &&& forall|p: Seq<Seq<char>>| #[trigger]
                    match_segments_model(segs, p) is Some ==> p.len() >= n
                &&& exists|p: Seq<Seq<char>>|
                    p.len() == n && #[trigger] match_segments_model(without_constraints(segs), p)
                        is Some
            },
{
    let req = required_len(segs);
    lemma_required_prefix(segs);
    lemma_explain_too_few_from(segs, path, 0);
    assert forall|p: Seq<Seq<char>>| #[trigger]
        match_segments_model(segs, p) is Some implies p.len() >= req by {
        lemma_match_succeeds_iff(segs, p);
    }
    let e = without_constraints(segs);
    lemma_without_constraints_shape(segs);
    lemma_without_constraints_required_len(segs);
    lemma_without_constraints_literal_at(segs, 0);
    let p = common_path(e, e, req);
    if req < segs.len() {
        assert(is_optional(segs[req]));
    }
    lemma_match_when_fits(e, p, 0);
    assert(p.len() == req && match_segments_model(e, p) is Some);
    assert(explain_model(segs, path) == too_few_text(path.len(), req as nat));
}

/// What each segment from `i` on captures when segment `k` takes component
/// `k`: a param its component, a wildcard all components from its own on,
/// joined with `/`; nothing past the last component.
pub open spec fn captures_by_position(segs: Seq<SegmentModel>, path: Seq<Seq<char>>, i: int) -> Seq<
    Capture,
>
    decreases path.len() - i,
{
    if i < 0 || i >= path.len() || i >= segs.len() {
        Seq::<Capture>::empty()
    } else {
        match segs[i] {
            SegmentModel::Wildcard(name) => seq![
                (name, join(path.subrange(i, path.len() as int), seq!['/'])),
            ],
            SegmentModel::Param(name) => seq![(name, path[i])] + captures_by_position(
                segs,
                path,
                i + 1,
            ),
            SegmentModel::ConstrainedParam(name, _) => seq![(name, path[i])] + captures_by_position(
                segs,
                path,
                i + 1,
            ),
            SegmentModel::OptionalParam(name) => seq![(name, path[i])] + captures_by_position(
                segs,
                path,
                i + 1,
            ),
            SegmentModel::OptionalConstrainedParam(name, _) => seq![(name, path[i])]
                + captures_by_position(segs, path, i + 1),
            _ => captures_by_position(segs, path, i + 1),
        }
    }
}

proof fn lemma_captures_by_position_from(segs: Seq<SegmentModel>, path: Seq<Seq<char>>, i: int)
    requires
        optional_run_at_end(segs),
        0 <= i <= segs.len(),
    ensures
        match_from_model(segs, required_len(segs), path, i) matches Some(caps) ==> caps
            == captures_by_position(segs, path, i),
    decreases segs.len() - i,
{
    let req = required_len(segs);
    lemma_required_prefix(segs);
    if i < segs.len() {
        if i >= req && req < segs.len() && i > req {
            assert(is_optional(segs[i]));
        }
        lemma_captures_by_position_from(segs, path, i + 1);
    }
}

/// Segment `k` of a pattern always takes component `k` of the path: a match
/// captures, in order, each param's own component and a wildcard's
/// remaining components. So the path may end inside the optional run, but
/// no optional segment is skipped to let a later one match.
pub proof fn lemma_captures_by_position(segs: Seq<SegmentModel>, path: Seq<Seq<char>>)
    requires
        optional_run_at_end(segs),
    ensures
        match_segments_model(segs, path) matches Some(caps) ==> caps == captures_by_position(
            segs,
            path,
            0,
        ),
{
    lemma_captures_by_position_from(segs, path, 0);
}

/// Whether path component `v` satisfies what segment `s` asks of the
/// component it takes: a literal must equal it, a constraint must accept it,
/// a plain param takes anything.
pub open spec fn component_fits(s: SegmentModel, v: Seq<char>) -> bool {
    match s {
        SegmentModel::Static(e) => v == e,
        SegmentModel::OptionalStatic(e) => v == e,
        SegmentModel::ConstrainedParam(_, c) => atoms_match(c.atoms, v),
        SegmentModel::OptionalConstrainedParam(_, c) => atoms_match(c.atoms, v),
        _ => true,
    }
}

/// Whether the required run of `segs` ends in a wildcard.
pub open spec fn ends_with_wildcard_model(segs: Seq<SegmentModel>) -> bool {
    let req = required_len(segs);
    0 < req <= segs.len() && segs[req - 1] is Wildcard
}

/// Whether the path has as many components as the pattern allows: at least
/// the required ones, and at most one per segment unless a wildcard takes
/// the rest.
pub open spec fn length_fits(segs: Seq<SegmentModel>, n: int) -> bool {
    required_len(segs) <= n && (ends_with_wildcard_model(segs) || n <= segs.len())
}

/// Whether each component from `i` on that a segment other than a wildcard
/// takes satisfies that segment.
pub open spec fn components_fit_from(segs: Seq<SegmentModel>, path: Seq<Seq<char>>, i: int) -> bool {
    forall|j: int|
        i <= j < path.len() && j < segs.len() && !(segs[j] is Wildcard) ==> component_fits(
            #[trigger] segs[j],
            path[j],
        )
}

proof fn lemma_match_iff_from(segs: Seq<SegmentModel>, path: Seq<Seq<char>>, i: int)
    requires
        optional_run_at_end(segs),
        wildcard_only_last(segs),
        0 <= i <= segs.len(),
        ends_with_wildcard_model(segs) ==> i < required_len(segs),
        i < required_len(segs) || i <= path.len(),
    ensures
        (match_from_model(segs, required_len(segs), path, i) is Some) == (length_fits(
            segs,
            path.len() as int,
        ) && components_fit_from(segs, path, i)),
    decreases segs.len() - i,
{
    let req = required_len(segs);
    lemma_required_prefix(segs);
    if req < segs.len() {
        assert(is_optional(segs[req]));
        assert(is_optional(segs[segs.len() - 1]));
    }
    if i < req && i < segs.len() {
        if i < path.len() {
            if segs[i] is Wildcard {
                assert(i == segs.len() - 1);
                assert(req == segs.len());
                assert(ends_with_wildcard_model(segs));
            } else {
                assert(!is_optional(segs[i]));
                if ends_with_wildcard_model(segs) {
                    assert(i != req - 1);
                }
                lemma_match_iff_from(segs, path, i + 1);
                if !component_fits(segs[i], path[i]) {
                    assert(!components_fit_from(segs, path, i));
                }
                if component_fits(segs[i], path[i]) && components_fit_from(segs, path, i + 1) {
                    assert forall|j: int|
                        i <= j < path.len() && j < segs.len() && !(segs[j] is Wildcard) implies component_fits(
                        #[trigger] segs[j],
                        path[j],
                    ) by {
                        if j > i {
                            assert(components_fit_from(segs, path, i + 1));
                        }
                    }
                }
            }
        }
    } else if i < segs.len() {
        if i < path.len() {
            if i > req {
                assert(is_optional(segs[i]));
            }
            lemma_match_iff_from(segs, path, i + 1);
            if !component_fits(segs[i], path[i]) {
                assert(!components_fit_from(segs, path, i));
            }
            if component_fits(segs[i], path[i]) && components_fit_from(segs, path, i + 1) {
                assert forall|j: int|
                    i <= j < path.len() && j < segs.len() && !(segs[j] is Wildcard) implies component_fits(
                    #[trigger] segs[j],
                    path[j],
                ) by {
                    if j > i {
                        assert(components_fit_from(segs, path, i + 1));
                    }
                }
            }
        }
    }
}

/// A match succeeds exactly when the path has as many components as the
/// pattern allows and each component satisfies the segment that takes it
/// (a literal equal to it, a constraint accepting it), the wildcard aside.
pub proof fn lemma_match_succeeds_iff(segs: Seq<SegmentModel>, path: Seq<Seq<char>>)
    requires
        optional_run_at_end(segs),
        wildcard_only_last(segs),
    ensures
        (match_segments_model(segs, path) is Some) == (length_fits(segs, path.len() as int)
            && components_fit_from(segs, path, 0)),
{
    lemma_match_iff_from(segs, path, 0);
}

/// The explanation reads "pattern matches" exactly when the segments match
/// the path, for every list of segments that a pattern reads as.
pub proof fn lemma_explain_agrees_with_match(segs: Seq<SegmentModel>, path: Seq<Seq<char>>)
    requires
        optional_run_at_end(segs),
        wildcard_only_last(segs),
    ensures
        (match_segments_model(segs, path) is Some) == (explain_model(segs, path) == matched_text()),
{
    lemma_explain_agrees_from(segs, path, 0);
}

} // verus!
