//! Routes files: one route per line, as `name = pattern`, or just a pattern.
//! Blank lines and lines starting with `#` are skipped.
use vstd::prelude::*;

use crate::text::{
    chars_of, find_char, first_index_of, has_char, join, split_on, split_spans, string_of,
    trim_range, trimmed,
};

verus! {

broadcast use vstd::string::group_string_axioms;

/// A named route pattern.
#[derive(Debug, Clone, PartialEq, Eq)]
pub struct Route {
    pub name: String,
    pub pattern: String,
}

/// The lines of `contents`, as `str::lines` yields them: split at `\n`, a
/// `\r` right before a `\n` dropped, and no empty line after a final `\n`.
pub open spec fn lines_of(contents: Seq<char>) -> Seq<Seq<char>> {
    let pieces = split_on(contents, '\n');
    let n = pieces.len();
    let stripped = Seq::new(
        n,
        |k: int|
            if k < n - 1 && pieces[k].len() > 0 && pieces[k].last() == '\r' {
                pieces[k].drop_last()
            } else {
                pieces[k]
            },
    );
    if pieces.last().len() == 0 {
        stripped.drop_last()
    } else {
        stripped
    }
}

/// Whether a trimmed line holds a route: it is not blank and not a comment.
pub open spec fn holds_route(t: Seq<char>) -> bool {
    t.len() > 0 && t[0] != '#'
}

/// The name and pattern of a trimmed route line: split at the first `=`
/// and trimmed on both sides, or the whole line as both when it has none.
pub open spec fn route_of_line(t: Seq<char>) -> (Seq<char>, Seq<char>) {
    if has_char(t, '=') {
        let k = first_index_of(t, '=');
        (trimmed(t.take(k)), trimmed(t.skip(k + 1)))
    } else {
        (t, t)
    }
}

/// The routes held by `lines`, in order.
pub open spec fn routes_of(lines: Seq<Seq<char>>) -> Seq<(Seq<char>, Seq<char>)>
    decreases lines.len(),
{
    if lines.len() == 0 {
        Seq::<(Seq<char>, Seq<char>)>::empty()
    } else {
        let init = routes_of(lines.drop_last());
        let t = trimmed(lines.last());
        if holds_route(t) {
            init.push(route_of_line(t))
        } else {
            init
        }
    }
}

/// The name and pattern of each route.
pub open spec fn route_models(v: Seq<Route>) -> Seq<(Seq<char>, Seq<char>)> {
    v.map_values(|r: Route| (r.name@, r.pattern@))
}

/// The route on the trimmed line `chars[x..y]`.
fn route_from_line(chars: &Vec<char>, x: usize, y: usize) -> (r: Route)
    requires
        x <= y <= chars.len(),
    ensures
        (r.name@, r.pattern@) == route_of_line(chars@.subrange(x as int, y as int)),
{
    let ghost t = chars@.subrange(x as int, y as int);
    match find_char(chars, x, y, '=') {
        Some(e) => {
            let (a, b) = trim_range(chars, x, e);
            let (c, d) = trim_range(chars, e + 1, y);
            proof {
                let k = e - x;
                assert(t.take(k) == chars@.subrange(x as int, e as int));
                assert(t.skip(k + 1) == chars@.subrange(e + 1, y as int));
            }
            Route { name: string_of(chars, a, b), pattern: string_of(chars, c, d) }
        },
        None => Route { name: string_of(chars, x, y), pattern: string_of(chars, x, y) },
    }
}

/// Turns a routes file into its routes. Lines are `name = pattern`, or just
/// `pattern` if no name is given; blank lines and lines starting with `#`
/// are skipped.
pub fn parse_routes_file(contents: &str) -> (routes: Vec<Route>)
    ensures
        route_models(routes@) == routes_of(lines_of(contents@)),
{
    let chars = chars_of(contents);
    assert(chars@.subrange(0, chars@.len() as int) == chars@);
    let spans = split_spans(&chars, 0, chars.len(), '\n');
    let ghost pieces = split_on(contents@, '\n');
    let ghost lines = lines_of(contents@);
    proof {
        crate::text::lemma_split_on_shape(contents@, '\n');
    }
    let n = spans.len();
    let last = spans[n - 1];
    let count = if last.0 == last.1 {
        n - 1
    } else {
        n
    };
    proof {
        assert(pieces.last() == chars@.subrange(last.0 as int, last.1 as int));
    }
    let mut routes: Vec<Route> = Vec::new();
    let mut k: usize = 0;
    assert(route_models(routes@) == routes_of(lines.take(0)));
    while k < count
        invariant
            0 <= k <= count <= n == spans.len() == pieces.len(),
            count == lines.len(),
            chars@ == contents@,
            pieces == split_on(contents@, '\n'),
            lines == lines_of(contents@),
            forall|m: int|
                0 <= m < spans.len() ==> {
                    &&& (#[trigger] spans@[m]).0 <= spans@[m].1 <= chars.len()
                    &&& chars@.subrange(spans@[m].0 as int, spans@[m].1 as int) == pieces[m]
                },
            route_models(routes@) == routes_of(lines.take(k as int)),
        decreases count - k,
    {
        let (a, b0) = spans[k];
        let mut b = b0;
        if k < n - 1 && b > a && chars[b - 1] == '\r' {
            b = b - 1;
        }
        proof {
            let p = pieces[k as int];
            assert(p == chars@.subrange(a as int, b0 as int));
            if b0 > a {
                assert(p.last() == chars@[b0 - 1]);
            }
            if b < b0 {
                assert(p.drop_last() == chars@.subrange(a as int, b as int));
            }
            assert(lines[k as int] == chars@.subrange(a as int, b as int));
            assert(lines.take(k + 1).drop_last() == lines.take(k as int));
            assert(lines.take(k + 1).last() == lines[k as int]);
        }
        let (x, y) = trim_range(&chars, a, b);
        if x < y && chars[x] != '#' {
            proof {
                assert(chars@.subrange(x as int, y as int)[0] == chars@[x as int]);
            }
            let route = route_from_line(&chars, x, y);
            proof {
                assert(route_models(routes@.push(route)) == route_models(routes@).push(
                    (route.name@, route.pattern@),
                ));
            }
            routes.push(route);
        } else {
            proof {
                if x < y {
                    assert(chars@.subrange(x as int, y as int)[0] == chars@[x as int]);
                }
            }
        }
        k = k + 1;
    }
    assert(lines.take(count as int) == lines);
    routes
}

/// The route a line gives: none for a line whose text, once surrounding
/// whitespace is removed, is empty or starts with `#`; otherwise the name
/// and pattern of that trimmed text.
pub open spec fn line_route(line: Seq<char>) -> Option<(Seq<char>, Seq<char>)> {
    let t = trimmed(line);
    if t.len() == 0 || t[0] == '#' {
        None
    } else {
        Some(route_of_line(t))
    }
}

/// A routes file holds one route per line that is neither blank nor a
/// comment once surrounding whitespace is removed, in the order of the
/// lines, and nothing else: every route comes from such a line, and every
/// such line gives a route.
pub proof fn lemma_routes_from_kept_lines(lines: Seq<Seq<char>>)
    ensures
        routes_of(lines) == lines.filter_map(|l: Seq<char>| line_route(l)),
    decreases lines.len(),
{
    if lines.len() > 0 {
        lemma_routes_from_kept_lines(lines.drop_last());
    }
}

/// The name and pattern of a route carry no surrounding whitespace, and a
/// name taken from before an `=` holds no `=`.
pub proof fn lemma_route_of_line_shape(t: Seq<char>)
    ensures
        has_char(t, '=') ==> !has_char(route_of_line(t).0, '='),
        has_char(t, '=') ==> trimmed(route_of_line(t).0) == route_of_line(t).0,
        has_char(t, '=') ==> trimmed(route_of_line(t).1) == route_of_line(t).1,
        !has_char(t, '=') ==> route_of_line(t) == (t, t),
{
    if has_char(t, '=') {
        let k = first_index_of(t, '=');
        crate::text::lemma_first_index_of(t, '=');
        let before = t.take(k);
        let name = trimmed(before);
        let (x, y) = crate::text::lemma_trimmed_piece(before);
        if has_char(name, '=') {
            let i = choose|i: int| 0 <= i < name.len() && name[i] == '=';
            assert(name[i] == before[x + i]);
            assert(before[x + i] == t[x + i]);
        }
        crate::text::lemma_trimmed_idempotent(before);
        crate::text::lemma_trimmed_idempotent(t.skip(k + 1));
    }
}

/// The lines of a text hold no line feed, and for a text without carriage
/// returns, joining them with line feeds (and one more at the end when the
/// text ends with one) gives the text back.
pub proof fn lemma_lines_of_text(contents: Seq<char>)
    ensures
        forall|k: int| 0 <= k < lines_of(contents).len() ==> !has_char(
            #[trigger] lines_of(contents)[k],
            '\n',
        ),
        !has_char(contents, '\r') ==> join(lines_of(contents), seq!['\n']) + (if contents.len() > 0
            && contents.last() == '\n' {
            seq!['\n']
        } else {
            Seq::<char>::empty()
        }) == contents,
{
    let pieces = split_on(contents, '\n');
    let lines = lines_of(contents);
    crate::text::lemma_split_on_shape(contents, '\n');
    crate::text::lemma_split_on_last(contents, '\n');
    let n = pieces.len();
    assert forall|k: int| 0 <= k < lines.len() implies !has_char(#[trigger] lines[k], '\n') by {
        if has_char(lines[k], '\n') {
            let j = choose|j: int| 0 <= j < lines[k].len() && lines[k][j] == '\n';
            assert(pieces[k][j] == lines[k][j]);
        }
    }
    if !has_char(contents, '\r') {
        crate::text::lemma_split_on_missing(contents, '\n', '\r');
        crate::text::lemma_join_split_on(contents, '\n');
        let stripped = Seq::new(
            n,
            |k: int|
                if k < n - 1 && pieces[k].len() > 0 && pieces[k].last() == '\r' {
                    pieces[k].drop_last()
                } else {
                    pieces[k]
                },
        );
        assert forall|k: int| 0 <= k < n implies stripped[k] == pieces[k] by {
            if pieces[k].len() > 0 {
                assert(!has_char(pieces[k], '\r'));
                assert(pieces[k][pieces[k].len() - 1] != '\r');
            }
        }
        assert(stripped == pieces);
        if pieces.last().len() == 0 {
            if contents.len() == 0 {
                assert(lines.len() == 0);
            } else {
                assert(lines == pieces.drop_last());
                let p = pieces.drop_last();
                assert(pieces == p.push(Seq::<char>::empty()));
                crate::text::lemma_join_push(p, Seq::<char>::empty(), seq!['\n']);
                assert(join(pieces, seq!['\n']) == join(p, seq!['\n']) + seq!['\n']
                    + Seq::<char>::empty());
                assert(join(p, seq!['\n']) + seq!['\n'] + Seq::<char>::empty() == join(
                    p,
                    seq!['\n'],
                ) + seq!['\n']);
            }
        } else {
            assert(lines == pieces);
            assert(join(lines, seq!['\n']) + Seq::<char>::empty() == join(lines, seq!['\n']));
        }
    }
}

} // verus!
