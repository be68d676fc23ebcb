//! Whether two patterns could ever match the same path: a static check over
//! the pattern text, independent of any particular path.
//!
//! Two patterns overlap when their possible path lengths meet and, at every
//! position that matters, they do not require two different literals.
//! Params, optional params and wildcards place no constraint on a
//! component's value, and constraints are not evaluated here, so the check
//! can warn about an overlap that a constraint rules out.
use vstd::prelude::*;

use crate::matching::{
    lemma_required_prefix, match_from_model, match_segments_model, required_len, split_optional,
};
use crate::router::{
    is_optional, optional_run_at_end, pattern_models, segment_models, well_formed,
    wildcard_only_last, Segment, SegmentModel,
};
use crate::text::str_eq;

verus! {

/// Whether the required run (of length `req`) ends in a wildcard.
pub open spec fn ends_in_wildcard(segs: Seq<SegmentModel>, req: int) -> bool {
    0 < req <= segs.len() && segs[req - 1] is Wildcard
}

/// The literal that position `i` of a pattern requires of a path component,
/// if any. A trailing wildcard absorbs its own position and every later
/// one; params place no requirement; past the pattern's end there is none.
pub open spec fn literal_at(segs: Seq<SegmentModel>, i: int) -> Option<Seq<char>> {
    let req = required_len(segs);
    if ends_in_wildcard(segs, req) && i >= req - 1 {
        None
    } else if 0 <= i < req {
        match segs[i] {
            SegmentModel::Static(s) => Some(s),
            _ => None,
        }
    } else if req <= i < segs.len() {
        match segs[i] {
            SegmentModel::OptionalStatic(s) => Some(s),
            _ => None,
        }
    } else {
        None
    }
}

/// Whether `a` and `b` require two different literals at position `i`.
pub open spec fn literal_conflict(a: Seq<SegmentModel>, b: Seq<SegmentModel>, i: int) -> bool {
    match (literal_at(a, i), literal_at(b, i)) {
        (Some(x), Some(y)) => x != y,
        _ => false,
    }
}

/// How many positions the overlap check looks at: the fewest components
/// that both patterns accept once their lengths meet. A path that long has
/// to satisfy every literal either pattern requires below it, and nothing
/// past it; a longer path only has more literals to satisfy.
pub open spec fn checked_positions(a: Seq<SegmentModel>, b: Seq<SegmentModel>) -> int {
    let ra = required_len(a);
    let rb = required_len(b);
    if ra <= rb {
        rb
    } else {
        ra
    }
}

/// Whether the numbers of components the two patterns accept meet: each
/// needs at least its required segments, and a pattern without a trailing
/// wildcard accepts at most one component per segment.
pub open spec fn lengths_meet(a: Seq<SegmentModel>, b: Seq<SegmentModel>) -> bool {
    let ra = required_len(a);
    let rb = required_len(b);
    &&& (ends_in_wildcard(b, rb) || ra <= b.len())
    &&& (ends_in_wildcard(a, ra) || rb <= a.len())
}

/// Whether the overlap check reports that `a` and `b` may both match some
/// path.
pub open spec fn overlap_model(a: Seq<SegmentModel>, b: Seq<SegmentModel>) -> bool {
    &&& lengths_meet(a, b)
    &&& forall|i: int| 0 <= i < checked_positions(a, b) ==> !#[trigger] literal_conflict(a, b, i)
}

/// Whether position `i` of a pattern not ending in a wildcard holds a
/// required segment although it lies inside the optional run. No literal
/// requirement is defined there.
pub open spec fn misplaced_at(segs: Seq<SegmentModel>, i: int) -> bool {
    let req = required_len(segs);
    &&& !ends_in_wildcard(segs, req)
    &&& req <= i < segs.len()
    &&& !is_optional(segs[i])
}

/// Whether the overlap check, walking positions in order until the first
/// literal conflict, comes upon a misplaced segment in either pattern.
pub open spec fn overlap_strays(a: Seq<SegmentModel>, b: Seq<SegmentModel>) -> bool {
    &&& lengths_meet(a, b)
    &&& exists|i: int|
        0 <= i < checked_positions(a, b) && (#[trigger] misplaced_at(a, i) || misplaced_at(b, i))
            && forall|j: int| 0 <= j < i ==> !#[trigger] literal_conflict(a, b, j)
}

/// The overlap check never comes upon a misplaced segment when the optional
/// segments of both patterns form a run at the end, as in every pattern
/// read from text.
pub proof fn lemma_no_overlap_stray(a: Seq<SegmentModel>, b: Seq<SegmentModel>)
    requires
        optional_run_at_end(a),
        optional_run_at_end(b),
    ensures
        !overlap_strays(a, b),
{
    lemma_required_prefix(a);
    lemma_required_prefix(b);
    assert forall|i: int| !#[trigger] misplaced_at(a, i) && !misplaced_at(b, i) by {
        if required_len(a) <= i < a.len() && required_len(a) < i {
            assert(is_optional(a[required_len(a)]));
        }
        if required_len(b) <= i < b.len() && required_len(b) < i {
            assert(is_optional(b[required_len(b)]));
        }
    }
}

/// The number of path components a pattern can match: `min` required,
/// `max` bounded unless the pattern ends in a wildcard.
fn length_range(required_len: usize, has_wildcard: bool, optional_len: usize) -> (r: (usize, Option<usize>))
    requires
        required_len + optional_len <= usize::MAX,
    ensures
        r.0 == required_len,
        has_wildcard ==> r.1 is None,
        !has_wildcard ==> r.1 == Some((required_len + optional_len) as usize),
{
    if has_wildcard {
        (required_len, None)
    } else {
        (required_len, Some(required_len + optional_len))
    }
}

/// Whether the required run of `segments` (the first `req`) ends in a
/// wildcard.
fn ends_with_wildcard(segments: &[Segment], req: usize) -> (r: bool)
    requires
        req <= segments@.len(),
    ensures
        r == ends_in_wildcard(segment_models(segments@), req as int),
{
    if req == 0 {
        return false;
    }
    assert(segment_models(segments@)[req - 1] == segments@[req - 1]@);
    match &segments[req - 1] {
        Segment::Wildcard(_) => true,
        _ => false,
    }
}

/// What position `i` requires, given where the optional run begins.
fn kind_at<'a>(segments: &'a [Segment], req: usize, i: usize) -> (r: Option<&'a str>)
    requires
        req == required_len(segment_models(segments@)),
        req <= segments@.len(),
    ensures
        r is None <==> literal_at(segment_models(segments@), i as int) is None,
        r matches Some(x) ==> literal_at(segment_models(segments@), i as int) == Some(x@),
{
    let ghost segs = segment_models(segments@);
    if ends_with_wildcard(segments, req) && i >= req - 1 {
        return None;
    }
    if i < segments.len() {
        assert(segs[i as int] == segments@[i as int]@);
        if i < req {
            match &segments[i] {
                Segment::Static(s) => Some(s.as_str()),
                _ => None,
            }
        } else {
            match &segments[i] {
                Segment::OptionalStatic(s) => Some(s.as_str()),
                _ => None,
            }
        }
    } else {
        None
    }
}

/// Reports whether some path could match both patterns at once. Two
/// patterns overlap when their possible path lengths intersect and, at
/// every position of the shortest path both accept, neither requires a
/// literal value the other rules out. Constraints are not evaluated, so for
/// patterns read from text the answer is exactly whether some path matches
/// both with their constraints dropped.
pub fn patterns_overlap(a: &[Segment], b: &[Segment]) -> (r: bool)
    requires
        !overlap_strays(segment_models(a@), segment_models(b@)),
    ensures
        r == overlap_model(segment_models(a@), segment_models(b@)),
        well_formed(segment_models(a@)) && well_formed(segment_models(b@)) ==> (r == share_a_path(
            segment_models(a@),
            segment_models(b@),
        )),
{
    let ghost sa = segment_models(a@);
    let ghost sb = segment_models(b@);
    proof {
        if well_formed(sa) && well_formed(sb) {
            lemma_overlap_exact(sa, sb);
        }
    }
    let required_a = split_optional(a);
    let required_b = split_optional(b);
    let wildcard_a = ends_with_wildcard(a, required_a);
    let wildcard_b = ends_with_wildcard(b, required_b);
    let (min_a, max_a) = length_range(required_a, wildcard_a, a.len() - required_a);
    let (min_b, max_b) = length_range(required_b, wildcard_b, b.len() - required_b);
    let bound_a = match max_a {
        Some(m) => m,
        None => usize::MAX,
    };
    let bound_b = match max_b {
        Some(m) => m,
        None => usize::MAX,
    };
    if min_a > bound_b || min_b > bound_a {
        return false;
    }
    // The shortest path both patterns accept has this many components; a
    // literal either pattern requires further on need not be met by it.
    let check_upper = if required_a <= required_b {
        required_b
    } else {
        required_a
    };
    assert(check_upper == checked_positions(sa, sb));
    let mut i: usize = 0;
    while i < check_upper
        invariant
            0 <= i <= check_upper,
            check_upper == checked_positions(sa, sb),
            well_formed(sa) && well_formed(sb) ==> overlap_model(sa, sb) == share_a_path(sa, sb),
            sa == segment_models(a@),
            sb == segment_models(b@),
            required_a == required_len(sa),
            required_b == required_len(sb),
            required_a <= a@.len(),
            required_b <= b@.len(),
            forall|k: int| 0 <= k < i ==> !#[trigger] literal_conflict(sa, sb, k),
        decreases check_upper - i,
    {
        let x = kind_at(a, required_a, i);
        let y = kind_at(b, required_b, i);
        if let (Some(x), Some(y)) = (x, y) {
            if !str_eq(x, y) {
                assert(literal_conflict(sa, sb, i as int));
                return false;
            }
        }
        assert(!literal_conflict(sa, sb, i as int));
        i = i + 1;
    }
    true
}

/// Whether pair `p` comes before pair `q`, comparing first then second.
pub open spec fn pair_before(p: (usize, usize), q: (usize, usize)) -> bool {
    p.0 < q.0 || (p.0 == q.0 && p.1 < q.1)
}

/// Every pair of positions `(i, j)`, `i < j`, whose patterns may both match
/// some path, in increasing order.
pub fn overlapping_pairs(patterns: &[Vec<Segment>]) -> (r: Vec<(usize, usize)>)
    requires
        forall|i: int, j: int|
            0 <= i < j < patterns@.len() ==> !overlap_strays(
                #[trigger] pattern_models(patterns@)[i],
                #[trigger] pattern_models(patterns@)[j],
            ),
    ensures
        forall|k: int|
            0 <= k < r@.len() ==> (#[trigger] r@[k]).0 < r@[k].1 < patterns@.len() && overlap_model(
                pattern_models(patterns@)[r@[k].0 as int],
                pattern_models(patterns@)[r@[k].1 as int],
            ),
        forall|i: int, j: int|
            0 <= i < j < patterns@.len() && overlap_model(
                #[trigger] pattern_models(patterns@)[i],
                #[trigger] pattern_models(patterns@)[j],
            ) ==> exists|k: int| 0 <= k < r@.len() && r@[k] == (i as usize, j as usize),
        forall|k: int, l: int| 0 <= k < l < r@.len() ==> pair_before(r@[k], r@[l]),
{
    let ghost ms = pattern_models(patterns@);
    let n = patterns.len();
    let mut r: Vec<(usize, usize)> = Vec::new();
    let mut i: usize = 0;
    while i < n
        invariant
            0 <= i <= n == patterns@.len() == ms.len(),
            ms == pattern_models(patterns@),
            forall|p: int, q: int| 0 <= p < q < n ==> !overlap_strays(#[trigger] ms[p], #[trigger] ms[q]),
            forall|k: int|
                0 <= k < r@.len() ==> (#[trigger] r@[k]).0 < r@[k].1 < n && r@[k].0 < i
                    && overlap_model(ms[r@[k].0 as int], ms[r@[k].1 as int]),
            forall|a: int, b: int|
                0 <= a < b < n && a < i && overlap_model(#[trigger] ms[a], #[trigger] ms[b])
                    ==> exists|k: int| 0 <= k < r@.len() && r@[k] == (a as usize, b as usize),
            forall|k: int, l: int| 0 <= k < l < r@.len() ==> pair_before(r@[k], r@[l]),
        decreases n - i,
    {
        let mut j: usize = i + 1;
        while j < n
            invariant
                0 <= i < n == patterns@.len() == ms.len(),
                i + 1 <= j <= n,
                ms == pattern_models(patterns@),
                forall|p: int, q: int| 0 <= p < q < n ==> !overlap_strays(#[trigger] ms[p], #[trigger] ms[q]),
                forall|k: int|
                    0 <= k < r@.len() ==> (#[trigger] r@[k]).0 < r@[k].1 < n && pair_before(
                        r@[k],
                        (i, j),
                    ) && overlap_model(ms[r@[k].0 as int], ms[r@[k].1 as int]),
                forall|a: int, b: int|
                    0 <= a < b < n && (a < i || (a == i && b < j)) && overlap_model(
                        #[trigger] ms[a],
                        #[trigger] ms[b],
                    ) ==> exists|k: int| 0 <= k < r@.len() && r@[k] == (a as usize, b as usize),
                forall|k: int, l: int| 0 <= k < l < r@.len() ==> pair_before(r@[k], r@[l]),
            decreases n - j,
        {
            assert(ms[i as int] == segment_models(patterns@[i as int]@));
            assert(ms[j as int] == segment_models(patterns@[j as int]@));
            if patterns_overlap(patterns[i].as_slice(), patterns[j].as_slice()) {
                let ghost old_r = r@;
                r.push((i, j));
                proof {
                    assert forall|a: int, b: int|
                        0 <= a < b < n && (a < i || (a == i && b < j + 1)) && overlap_model(
                            #[trigger] ms[a],
                            #[trigger] ms[b],
                        ) implies exists|k: int| 0 <= k < r@.len() && r@[k] == (
                        a as usize,
                        b as usize,
                    ) by {
                        if a == i && b == j {
                            assert(r@[old_r.len() as int] == (a as usize, b as usize));
                        } else {
                            let k = choose|k: int|
                                0 <= k < old_r.len() && old_r[k] == (a as usize, b as usize);
                            assert(r@[k] == old_r[k]);
                        }
                    }
                }
            }
            j = j + 1;
        }
        i = i + 1;
    }
    r
}

// ---------------------------------------------------------------------------
// Laws
// ---------------------------------------------------------------------------

/// The overlap check is symmetric: `a` overlaps `b` exactly when `b`
/// overlaps `a`.
pub proof fn lemma_overlap_symmetric(a: Seq<SegmentModel>, b: Seq<SegmentModel>)
    ensures
        overlap_model(a, b) == overlap_model(b, a),
{
    assert(checked_positions(a, b) == checked_positions(b, a));
    assert forall|i: int| literal_conflict(a, b, i) == literal_conflict(b, a, i) by {}
    if overlap_model(a, b) {
        assert forall|i: int| 0 <= i < checked_positions(b, a) implies !#[trigger] literal_conflict(
            b,
            a,
            i,
        ) by {
            assert(!literal_conflict(a, b, i));
        }
    }
    if overlap_model(b, a) {
        assert forall|i: int| 0 <= i < checked_positions(a, b) implies !#[trigger] literal_conflict(
            a,
            b,
            i,
        ) by {
            assert(!literal_conflict(b, a, i));
        }
    }
}

/// Every pattern overlaps itself.
pub proof fn lemma_overlap_reflexive(a: Seq<SegmentModel>)
    ensures
        overlap_model(a, a),
{
    lemma_required_prefix(a);
}

/// What a successful match tells about the path: it has at least the
/// required components, at most one per segment unless the required run
/// ends in a wildcard, and wherever the pattern requires a literal at a
/// position the path has, the path holds that literal.
pub proof fn lemma_match_shape(segs: Seq<SegmentModel>, path: Seq<Seq<char>>, i: int)
    requires
        optional_run_at_end(segs),
        0 <= i <= segs.len(),
        match_from_model(segs, required_len(segs), path, i) is Some,
    ensures
        i < required_len(segs) ==> required_len(segs) <= path.len(),
        !ends_in_wildcard(segs, required_len(segs)) ==> path.len() <= segs.len(),
        forall|j: int|
            i <= j < path.len() && #[trigger] literal_at(segs, j) is Some ==> path[j] == literal_at(
                segs,
                j,
            )->0,
    decreases segs.len() - i,
{
    let req = required_len(segs);
    lemma_required_prefix(segs);
    if i < req && i < segs.len() {
        match segs[i] {
            SegmentModel::Wildcard(_) => {
                assert(i == req - 1);
                assert(ends_in_wildcard(segs, req));
            },
            _ => {
                lemma_match_shape(segs, path, i + 1);
            },
        }
    } else if i < segs.len() {
        if i < path.len() {
            lemma_match_shape(segs, path, i + 1);
        }
    }
}

/// The segment with its constraint dropped: a constrained param becomes a
/// plain param of the same name, optional or not as before.
pub open spec fn without_constraint(s: SegmentModel) -> SegmentModel {
    match s {
        SegmentModel::ConstrainedParam(name, _) => SegmentModel::Param(name),
        SegmentModel::OptionalConstrainedParam(name, _) => SegmentModel::OptionalParam(name),
        other => other,
    }
}

/// The segments with every constraint dropped.
pub open spec fn without_constraints(segs: Seq<SegmentModel>) -> Seq<SegmentModel> {
    segs.map_values(|s: SegmentModel| without_constraint(s))
}

proof fn lemma_without_constraint(s: SegmentModel)
    ensures
        is_optional(without_constraint(s)) == is_optional(s),
        (without_constraint(s) is Wildcard) == (s is Wildcard),
        (without_constraint(s) is Static) == (s is Static),
        (without_constraint(s) is OptionalStatic) == (s is OptionalStatic),
        s is Static ==> without_constraint(s) == s,
        s is OptionalStatic ==> without_constraint(s) == s,
{
}

pub(crate) proof fn lemma_without_constraints_required_len(segs: Seq<SegmentModel>)
    ensures
        required_len(without_constraints(segs)) == required_len(segs),
    decreases segs.len(),
{
    if segs.len() > 0 {
        assert(without_constraints(segs).drop_first() == without_constraints(segs.drop_first()));
        lemma_without_constraint(segs[0]);
        lemma_without_constraints_required_len(segs.drop_first());
    }
}

pub(crate) proof fn lemma_without_constraints_literal_at(segs: Seq<SegmentModel>, i: int)
    ensures
        literal_at(without_constraints(segs), i) == literal_at(segs, i),
        ends_in_wildcard(without_constraints(segs), required_len(without_constraints(segs)))
            == ends_in_wildcard(segs, required_len(segs)),
{
    let e = without_constraints(segs);
    let req = required_len(segs);
    lemma_without_constraints_required_len(segs);
    lemma_required_prefix(segs);
    assert(e.len() == segs.len());
    if 0 < req <= segs.len() {
        assert(e[req - 1] == without_constraint(segs[req - 1]));
        lemma_without_constraint(segs[req - 1]);
    }
    assert(ends_in_wildcard(e, req) == ends_in_wildcard(segs, req));
    if 0 <= i < segs.len() {
        assert(e[i] == without_constraint(segs[i]));
        lemma_without_constraint(segs[i]);
        assert(literal_at(e, i) == literal_at(segs, i));
    }
}

/// The overlap check does not evaluate constraints: it treats `:id(\d+)`
/// exactly like `:id`.
pub proof fn lemma_overlap_ignores_constraints(a: Seq<SegmentModel>, b: Seq<SegmentModel>)
    ensures
        overlap_model(without_constraints(a), without_constraints(b)) == overlap_model(a, b),
{
    let ea = without_constraints(a);
    let eb = without_constraints(b);
    lemma_without_constraints_required_len(a);
    lemma_without_constraints_required_len(b);
    lemma_without_constraints_literal_at(a, 0);
    lemma_without_constraints_literal_at(b, 0);
    assert forall|i: int| #[trigger] literal_conflict(ea, eb, i) == literal_conflict(a, b, i) by {
        lemma_without_constraints_literal_at(a, i);
        lemma_without_constraints_literal_at(b, i);
    }
    assert(ea.len() == a.len() && eb.len() == b.len());
    assert(lengths_meet(ea, eb) == lengths_meet(a, b));
    assert(checked_positions(ea, eb) == checked_positions(a, b));
    if overlap_model(a, b) {
        assert forall|i: int| 0 <= i < checked_positions(ea, eb) implies !#[trigger] literal_conflict(
            ea,
            eb,
            i,
        ) by {
            assert(!literal_conflict(a, b, i));
        }
    }
    if overlap_model(ea, eb) {
        assert forall|i: int| 0 <= i < checked_positions(a, b) implies !#[trigger] literal_conflict(
            a,
            b,
            i,
        ) by {
            assert(!literal_conflict(ea, eb, i));
        }
    }
}

/// The overlap check never misses a real overlap: when one path matches
/// both patterns, the check reports an overlap.
pub proof fn lemma_overlap_sound(a: Seq<SegmentModel>, b: Seq<SegmentModel>, path: Seq<Seq<char>>)
    requires
        optional_run_at_end(a),
        optional_run_at_end(b),
        match_segments_model(a, path) is Some,
        match_segments_model(b, path) is Some,
    ensures
        overlap_model(a, b),
{
    lemma_required_prefix(a);
    lemma_required_prefix(b);
    lemma_match_shape(a, path, 0);
    lemma_match_shape(b, path, 0);
    assert forall|i: int| 0 <= i < checked_positions(a, b) implies !#[trigger] literal_conflict(
        a,
        b,
        i,
    ) by {
        if literal_at(a, i) is Some && literal_at(b, i) is Some {
            assert(path[i] == literal_at(a, i)->0);
            assert(path[i] == literal_at(b, i)->0);
        }
    }
}

/// Whether the segments hold no constrained param, optional or not.
pub open spec fn unconstrained(segs: Seq<SegmentModel>) -> bool {
    forall|k: int|
        0 <= k < segs.len() ==> !(#[trigger] segs[k] is ConstrainedParam) && !(segs[
            k] is OptionalConstrainedParam)
}

/// Whether some path matches both patterns once their constraints are
/// dropped.
pub open spec fn share_a_path(a: Seq<SegmentModel>, b: Seq<SegmentModel>) -> bool {
    exists|path: Seq<Seq<char>>|
        #[trigger] match_segments_model(without_constraints(a), path) is Some
            && match_segments_model(without_constraints(b), path) is Some
}

pub(crate) proof fn lemma_without_constraints_shape(segs: Seq<SegmentModel>)
    ensures
        without_constraints(segs).len() == segs.len(),
        optional_run_at_end(segs) ==> optional_run_at_end(without_constraints(segs)),
        wildcard_only_last(segs) ==> wildcard_only_last(without_constraints(segs)),
        unconstrained(without_constraints(segs)),
        unconstrained(segs) ==> without_constraints(segs) == segs,
{
    let e = without_constraints(segs);
    assert forall|k: int| 0 <= k < segs.len() implies #[trigger] e[k] == without_constraint(segs[k])
        && is_optional(e[k]) == is_optional(segs[k]) && (e[k] is Wildcard) == (segs[k] is Wildcard)
        by {
        lemma_without_constraint(segs[k]);
    }
    if unconstrained(segs) {
        assert(e =~= segs);
    }
}

/// A path that is long enough, not too long, and holds every literal the
/// pattern requires from position `i` on, matches an unconstrained pattern
/// from there.
pub(crate) proof fn lemma_match_when_fits(segs: Seq<SegmentModel>, path: Seq<Seq<char>>, i: int)
    requires
        optional_run_at_end(segs),
        wildcard_only_last(segs),
        unconstrained(segs),
        0 <= i <= segs.len(),
        required_len(segs) <= path.len(),
        !ends_in_wildcard(segs, required_len(segs)) ==> path.len() <= segs.len(),
        ends_in_wildcard(segs, required_len(segs)) ==> i < required_len(segs),
        forall|j: int|
            i <= j < path.len() && #[trigger] literal_at(segs, j) is Some ==> path[j] == literal_at(
                segs,
                j,
            )->0,
    ensures
        match_from_model(segs, required_len(segs), path, i) is Some,
    decreases segs.len() - i,
{
    let req = required_len(segs);
    lemma_required_prefix(segs);
    if req < segs.len() {
        assert(is_optional(segs[req]));
        assert(is_optional(segs[segs.len() - 1]));
        assert(!(segs[segs.len() - 1] is Wildcard));
    }
    if i < req && i < segs.len() {
        assert(!is_optional(segs[i]));
        match segs[i] {
            SegmentModel::Wildcard(_) => {
                assert(i == segs.len() - 1);
                assert(req == segs.len());
            },
            SegmentModel::Static(e) => {
                assert(!(ends_in_wildcard(segs, req) && i >= req - 1));
                assert(literal_at(segs, i) == Some(e));
                lemma_match_when_fits(segs, path, i + 1);
            },
            _ => {
                lemma_match_when_fits(segs, path, i + 1);
            },
        }
    } else if i < segs.len() {
        if i < path.len() {
            if i > req {
                assert(is_optional(segs[i]));
            }
            assert(!ends_in_wildcard(segs, req));
            match segs[i] {
                SegmentModel::OptionalStatic(e) => {
                    assert(literal_at(segs, i) == Some(e));
                    lemma_match_when_fits(segs, path, i + 1);
                },
                _ => {
                    lemma_match_when_fits(segs, path, i + 1);
                },
            }
        }
    }
}

/// The path of `n` components that holds, at each position, the literal
/// `a` requires there, else the one `b` requires, else `x`.
pub open spec fn common_path(a: Seq<SegmentModel>, b: Seq<SegmentModel>, n: int) -> Seq<Seq<char>> {
    Seq::new(
        n as nat,
        |j: int|
            if literal_at(a, j) is Some {
                literal_at(a, j)->0
            } else if literal_at(b, j) is Some {
                literal_at(b, j)->0
            } else {
                seq!['x']
            },
    )
}

/// The overlap check never reports an overlap that constraints are not to
/// blame for: when it reports one, some path matches both patterns with
/// their constraints dropped, and so matches both patterns themselves when
/// they hold no constraint.
pub proof fn lemma_overlap_complete(a: Seq<SegmentModel>, b: Seq<SegmentModel>)
    requires
        well_formed(a),
        well_formed(b),
        overlap_model(a, b),
    ensures
        share_a_path(a, b),
        unconstrained(a) && unconstrained(b) ==> exists|path: Seq<Seq<char>>|
            #[trigger] match_segments_model(a, path) is Some && match_segments_model(b, path) is Some,
{
    let ea = without_constraints(a);
    let eb = without_constraints(b);
    let ra = required_len(a);
    let rb = required_len(b);
    let n = checked_positions(a, b);
    let path = common_path(a, b, n);
    lemma_required_prefix(a);
    lemma_required_prefix(b);
    lemma_without_constraints_shape(a);
    lemma_without_constraints_shape(b);
    lemma_without_constraints_required_len(a);
    lemma_without_constraints_required_len(b);
    lemma_without_constraints_literal_at(a, 0);
    lemma_without_constraints_literal_at(b, 0);
    assert forall|j: int| 0 <= j < path.len() && #[trigger] literal_at(ea, j) is Some implies path[j]
        == literal_at(ea, j)->0 by {
        lemma_without_constraints_literal_at(a, j);
    }
    assert forall|j: int| 0 <= j < path.len() && #[trigger] literal_at(eb, j) is Some implies path[j]
        == literal_at(eb, j)->0 by {
        lemma_without_constraints_literal_at(a, j);
        lemma_without_constraints_literal_at(b, j);
        assert(!literal_conflict(a, b, j));
    }
    if ends_in_wildcard(a, ra) {
        assert(0 < ra);
    }
    if ends_in_wildcard(b, rb) {
        assert(0 < rb);
    }
    lemma_match_when_fits(ea, path, 0);
    lemma_match_when_fits(eb, path, 0);
    assert(match_segments_model(ea, path) is Some && match_segments_model(eb, path) is Some);
}

/// The overlap check reports an overlap exactly when some path matches both
/// patterns once their constraints are dropped.
pub proof fn lemma_overlap_exact(a: Seq<SegmentModel>, b: Seq<SegmentModel>)
    requires
        well_formed(a),
        well_formed(b),
    ensures
        overlap_model(a, b) == share_a_path(a, b),
{
    if overlap_model(a, b) {
        lemma_overlap_complete(a, b);
    }
    if share_a_path(a, b) {
        let ea = without_constraints(a);
        let eb = without_constraints(b);
        let path = choose|path: Seq<Seq<char>>|
            #[trigger] match_segments_model(ea, path) is Some && match_segments_model(eb, path) is Some;
        lemma_without_constraints_shape(a);
        lemma_without_constraints_shape(b);
        lemma_overlap_sound(ea, eb, path);
        lemma_overlap_ignores_constraints(a, b);
    }
}

} // verus!
