//! Rendering matches as text and as JSON.
use vstd::prelude::*;

use crate::matching::{captures_model, Capture};
use crate::routes::Route;
use crate::text::{chars_of, digit, join, lemma_join_push, push_char};

verus! {

broadcast use vstd::string::group_string_axioms;

/// The lowercase hexadecimal digit for `d` (below 16).
pub open spec fn hex_digit(d: int) -> char {
    if d < 10 {
        digit(d as nat)
    } else if d == 10 {
        'a'
    } else if d == 11 {
        'b'
    } else if d == 12 {
        'c'
    } else if d == 13 {
        'd'
    } else if d == 14 {
        'e'
    } else {
        'f'
    }
}

/// How `c` is written inside a JSON string literal: quotes, backslashes
/// and control characters escaped, everything else as it is.
pub open spec fn json_escaped(c: char) -> Seq<char> {
    if c == '"' {
        seq!['\\', '"']
    } else if c == '\\' {
        seq!['\\', '\\']
    } else if c == '\n' {
        seq!['\\', 'n']
    } else if c == '\r' {
        seq!['\\', 'r']
    } else if c == '\t' {
        seq!['\\', 't']
    } else if (c as u32) < 0x20 {
        seq!['\\', 'u', '0', '0', hex_digit((c as u32) as int / 16), hex_digit((c as u32) as int % 16)]
    } else {
        seq![c]
    }
}

/// The characters of `s`, each escaped for a JSON string literal.
pub open spec fn json_body(s: Seq<char>) -> Seq<char>
    decreases s.len(),
{
    if s.len() == 0 {
        Seq::<char>::empty()
    } else {
        json_body(s.drop_last()) + json_escaped(s.last())
    }
}

/// `s` as a JSON string literal.
pub open spec fn json_text(s: Seq<char>) -> Seq<char> {
    seq!['"'] + json_body(s) + seq!['"']
}

fn hex_char(d: u32) -> (c: char)
    requires
        d < 16,
    ensures
        c == hex_digit(d as int),
{
    if d < 10 {
        if d == 0 {
            '0'
        } else if d == 1 {
            '1'
        } else if d == 2 {
            '2'
        } else if d == 3 {
            '3'
        } else if d == 4 {
            '4'
        } else if d == 5 {
            '5'
        } else if d == 6 {
            '6'
        } else if d == 7 {
            '7'
        } else if d == 8 {
            '8'
        } else {
            '9'
        }
    } else if d == 10 {
        'a'
    } else if d == 11 {
        'b'
    } else if d == 12 {
        'c'
    } else if d == 13 {
        'd'
    } else if d == 14 {
        'e'
    } else {
        'f'
    }
}

/// Appends `c` escaped for a JSON string literal.
fn push_json_char(out: &mut String, c: char)
    ensures
        final(out)@ == old(out)@ + json_escaped(c),
{
    if c == '"' {
        push_char(out, '\\');
        push_char(out, '"');
    } else if c == '\\' {
        push_char(out, '\\');
        push_char(out, '\\');
    } else if c == '\n' {
        push_char(out, '\\');
        push_char(out, 'n');
    } else if c == '\r' {
        push_char(out, '\\');
        push_char(out, 'r');
    } else if c == '\t' {
        push_char(out, '\\');
        push_char(out, 't');
    } else if (c as u32) < 0x20 {
        let code = c as u32;
        push_char(out, '\\');
        push_char(out, 'u');
        push_char(out, '0');
        push_char(out, '0');
        push_char(out, hex_char(code / 16));
        push_char(out, hex_char(code % 16));
    } else {
        push_char(out, c);
    }
}

/// Renders a string as a JSON string literal, escaping the characters that
/// would otherwise break the surrounding syntax or produce invalid JSON.
pub fn json_string(s: &str) -> (out: String)
    ensures
        out@ == json_text(s@),
{
    let chars = chars_of(s);
    let mut out = String::new();
    push_char(&mut out, '"');
    let mut k: usize = 0;
    assert(chars@.take(0) == Seq::<char>::empty());
    while k < chars.len()
        invariant
            0 <= k <= chars.len(),
            chars@ == s@,
            out@ == seq!['"'] + json_body(chars@.take(k as int)),
        decreases chars.len() - k,
    {
        push_json_char(&mut out, chars[k]);
        proof {
            let t = chars@.take(k + 1);
            assert(t.drop_last() == chars@.take(k as int));
            assert(t.last() == chars@[k as int]);
        }
        k = k + 1;
    }
    push_char(&mut out, '"');
    assert(chars@.take(k as int) == chars@);
    out
}

/// Each captured param as `name=value`.
pub open spec fn assignment_texts(caps: Seq<Capture>) -> Seq<Seq<char>> {
    caps.map_values(|c: Capture| c.0 + seq!['='] + c.1)
}

/// One line describing a matched route: its name, its pattern in
/// parentheses, then its captured params as `name=value`, space separated.
pub open spec fn match_line(name: Seq<char>, pattern: Seq<char>, caps: Seq<Capture>) -> Seq<char> {
    name + seq![' ', '('] + pattern + seq![')'] + if caps.len() == 0 {
        Seq::<char>::empty()
    } else {
        seq![' '] + join(assignment_texts(caps), seq![' '])
    }
}

/// The line that describes a matched route.
pub fn render_match(name: &str, pattern: &str, params: &[(String, String)]) -> (out: String)
    ensures
        out@ == match_line(name@, pattern@, captures_model(params@)),
{
    let ghost caps = captures_model(params@);
    let ghost texts = assignment_texts(caps);
    let mut out = String::new();
    out.append(name);
    push_char(&mut out, ' ');
    push_char(&mut out, '(');
    out.append(pattern);
    push_char(&mut out, ')');
    let ghost head = out@;
    if params.len() == 0 {
        assert(head + Seq::<char>::empty() == head);
        return out;
    }
    push_char(&mut out, ' ');
    let mut k: usize = 0;
    assert(texts.take(0) == Seq::<Seq<char>>::empty());
    while k < params.len()
        invariant
            0 <= k <= params.len(),
            caps == captures_model(params@),
            texts == assignment_texts(caps),
            out@ == head + seq![' '] + join(texts.take(k as int), seq![' ']),
        decreases params.len() - k,
    {
        let ghost before = out@;
        if k > 0 {
            push_char(&mut out, ' ');
        }
        out.append(params[k].0.as_str());
        push_char(&mut out, '=');
        out.append(params[k].1.as_str());
        proof {
            assert(texts.take(k + 1) == texts.take(k as int).push(texts[k as int]));
            lemma_join_push(texts.take(k as int), texts[k as int], seq![' ']);
        }
        k = k + 1;
    }
    assert(texts.take(k as int) == texts);
    out
}

/// Each captured param as a JSON object member, `"name":"value"`.
pub open spec fn json_member_texts(caps: Seq<Capture>) -> Seq<Seq<char>> {
    caps.map_values(|c: Capture| json_text(c.0) + seq![':'] + json_text(c.1))
}

/// A matched route as a JSON object with its name, pattern and params.
pub open spec fn hit_json(name: Seq<char>, pattern: Seq<char>, caps: Seq<Capture>) -> Seq<char> {
    "{\"name\":"@ + json_text(name) + ",\"pattern\":"@ + json_text(pattern) + ",\"params\":{"@
        + join(json_member_texts(caps), seq![',']) + "}}"@
}

/// Each matched route as a JSON object.
pub open spec fn hit_json_texts(hits: Seq<(&Route, Vec<(String, String)>)>) -> Seq<Seq<char>> {
    hits.map_values(
        |h: (&Route, Vec<(String, String)>)|
            hit_json(h.0.name@, h.0.pattern@, captures_model(h.1@)),
    )
}

/// The matched routes as a JSON array.
pub open spec fn hits_json(hits: Seq<(&Route, Vec<(String, String)>)>) -> Seq<char> {
    seq!['['] + join(hit_json_texts(hits), seq![',']) + seq![']']
}

fn render_hit_json(out: &mut String, route: &Route, params: &Vec<(String, String)>)
    ensures
        final(out)@ == old(out)@ + hit_json(route.name@, route.pattern@, captures_model(params@)),
{
    let ghost start = out@;
    let ghost texts = json_member_texts(captures_model(params@));
    out.append("{\"name\":");
    out.append(json_string(route.name.as_str()).as_str());
    out.append(",\"pattern\":");
    out.append(json_string(route.pattern.as_str()).as_str());
    out.append(",\"params\":{");
    let ghost head = out@;
    let mut j: usize = 0;
    assert(texts.take(0) == Seq::<Seq<char>>::empty());
    assert(head + Seq::<char>::empty() == head);
    while j < params.len()
        invariant
            0 <= j <= params.len(),
            texts == json_member_texts(captures_model(params@)),
            out@ == head + join(texts.take(j as int), seq![',']),
        decreases params.len() - j,
    {
        if j > 0 {
            push_char(out, ',');
        }
        out.append(json_string(params[j].0.as_str()).as_str());
        push_char(out, ':');
        out.append(json_string(params[j].1.as_str()).as_str());
        proof {
            assert(texts.take(j + 1) == texts.take(j as int).push(texts[j as int]));
            lemma_join_push(texts.take(j as int), texts[j as int], seq![',']);
        }
        j = j + 1;
    }
    assert(texts.take(j as int) == texts);
    out.append("}}");
}

/// The matched routes, with their captured params, as a JSON array of
/// objects with `name`, `pattern` and `params` members.
pub fn render_matches_json(hits: &[(&Route, Vec<(String, String)>)]) -> (out: String)
    ensures
        out@ == hits_json(hits@),
{
    let ghost texts = hit_json_texts(hits@);
    let mut out = String::new();
    push_char(&mut out, '[');
    let mut i: usize = 0;
    assert(texts.take(0) == Seq::<Seq<char>>::empty());
    while i < hits.len()
        invariant
            0 <= i <= hits@.len(),
            texts == hit_json_texts(hits@),
            out@ == seq!['['] + join(texts.take(i as int), seq![',']),
        decreases hits@.len() - i,
    {
        if i > 0 {
            push_char(&mut out, ',');
        }
        render_hit_json(&mut out, hits[i].0, &hits[i].1);
        proof {
            assert(texts.take(i + 1) == texts.take(i as int).push(texts[i as int]));
            lemma_join_push(texts.take(i as int), texts[i as int], seq![',']);
        }
        i = i + 1;
    }
    push_char(&mut out, ']');
    assert(texts.take(i as int) == texts);
    out
}

/// The warning that two routes may both match the same path.
pub open spec fn overlap_warning_text(
    a_name: Seq<char>,
    a_pattern: Seq<char>,
    b_name: Seq<char>,
    b_pattern: Seq<char>,
) -> Seq<char> {
    "warning: routes '"@ + a_name + "' ("@ + a_pattern + ") and '"@ + b_name + "' ("@ + b_pattern
        + ") may both match the same path"@
}

/// The warning that routes `a` and `b` may both match the same path.
pub fn render_overlap_warning(a: &Route, b: &Route) -> (out: String)
    ensures
        out@ == overlap_warning_text(a.name@, a.pattern@, b.name@, b.pattern@),
{
    let mut out = String::new();
    out.append("warning: routes '");
    out.append(a.name.as_str());
    out.append("' (");
    out.append(a.pattern.as_str());
    out.append(") and '");
    out.append(b.name.as_str());
    out.append("' (");
    out.append(b.pattern.as_str());
    out.append(") may both match the same path");
    out
}

/// The line that says why a route did not match.
pub open spec fn mismatch_line(name: Seq<char>, pattern: Seq<char>, reason: Seq<char>) -> Seq<char> {
    name + " ("@ + pattern + ") did not match: "@ + reason
}

/// The line that says why the route `name` with `pattern` did not match.
pub fn render_mismatch(name: &str, pattern: &str, reason: &str) -> (out: String)
    ensures
        out@ == mismatch_line(name@, pattern@, reason@),
{
    let mut out = String::new();
    out.append(name);
    out.append(" (");
    out.append(pattern);
    out.append(") did not match: ");
    out.append(reason);
    out
}

// ---------------------------------------------------------------------------
// Laws
// ---------------------------------------------------------------------------

/// The JSON array of hits: no hits give `[]`, one hit gives its object in
/// brackets, and each further hit adds a comma and its object before the
/// closing bracket.
pub proof fn lemma_hits_json_shape(
    hits: Seq<(&Route, Vec<(String, String)>)>,
    h: (&Route, Vec<(String, String)>),
)
    ensures
        hits_json(Seq::<(&Route, Vec<(String, String)>)>::empty()) == seq!['[', ']'],
        hits_json(seq![h]) == seq!['['] + hit_json(h.0.name@, h.0.pattern@, captures_model(h.1@))
            + seq![']'],
        hits.len() > 0 ==> hits_json(hits.push(h)) == hits_json(hits).drop_last() + seq![',']
            + hit_json(h.0.name@, h.0.pattern@, captures_model(h.1@)) + seq![']'],
{
    let e = Seq::<(&Route, Vec<(String, String)>)>::empty();
    assert(hit_json_texts(e) == Seq::<Seq<char>>::empty());
    assert(hit_json_texts(seq![h]) == seq![hit_json(h.0.name@, h.0.pattern@, captures_model(h.1@))]);
    assert(hit_json_texts(hits.push(h)) == hit_json_texts(hits).push(
        hit_json(h.0.name@, h.0.pattern@, captures_model(h.1@)),
    ));
    lemma_join_push(hit_json_texts(hits), hit_json(h.0.name@, h.0.pattern@, captures_model(h.1@)), seq![',']);
    let j = join(hit_json_texts(hits), seq![',']);
    assert((seq!['['] + j + seq![']']).drop_last() == seq!['['] + j);
}

/// The object of one hit ends in its params object: no params give `{}`,
/// and each further param adds a comma and `"name":"value"` before the
/// closing braces.
pub proof fn lemma_hit_json_params(name: Seq<char>, pattern: Seq<char>, caps: Seq<Capture>, c: Capture)
    ensures
        hit_json(name, pattern, Seq::<Capture>::empty()) == "{\"name\":"@ + json_text(name)
            + ",\"pattern\":"@ + json_text(pattern) + ",\"params\":{"@ + "}}"@,
        caps.len() > 0 ==> hit_json(name, pattern, caps.push(c)) == hit_json(name, pattern, caps).take(
            hit_json(name, pattern, caps).len() - 2,
        ) + seq![','] + json_text(c.0) + seq![':'] + json_text(c.1) + "}}"@,
{
    reveal_strlit("}}");
    let head = "{\"name\":"@ + json_text(name) + ",\"pattern\":"@ + json_text(pattern)
        + ",\"params\":{"@;
    assert(json_member_texts(Seq::<Capture>::empty()) == Seq::<Seq<char>>::empty());
    assert(head + Seq::<char>::empty() == head);
    let m = json_text(c.0) + seq![':'] + json_text(c.1);
    assert(json_member_texts(caps.push(c)) == json_member_texts(caps).push(m));
    lemma_join_push(json_member_texts(caps), m, seq![',']);
    let j = join(json_member_texts(caps), seq![',']);
    assert((head + j + "}}"@).take((head + j + "}}"@).len() - 2) == head + j);
}

/// A match line: the name and the pattern in parentheses, then a space and
/// `name=value` for the first param, and for each further param a space and
/// its `name=value`.
pub proof fn lemma_match_line_shape(name: Seq<char>, pattern: Seq<char>, caps: Seq<Capture>, c: Capture)
    ensures
        match_line(name, pattern, Seq::<Capture>::empty()) == name + seq![' ', '('] + pattern
            + seq![')'],
        match_line(name, pattern, seq![c]) == name + seq![' ', '('] + pattern + seq![')', ' ']
            + c.0 + seq!['='] + c.1,
        caps.len() > 0 ==> match_line(name, pattern, caps.push(c)) == match_line(name, pattern, caps)
            + seq![' '] + c.0 + seq!['='] + c.1,
{
    let head = name + seq![' ', '('] + pattern + seq![')'];
    assert(head + Seq::<char>::empty() == head);
    let a = c.0 + seq!['='] + c.1;
    assert(assignment_texts(seq![c]) == seq![a]);
    assert(assignment_texts(caps.push(c)) == assignment_texts(caps).push(a));
    lemma_join_push(assignment_texts(caps), a, seq![' ']);
    assert(head + (seq![' '] + a) == name + seq![' ', '('] + pattern + seq![')', ' '] + c.0 + seq![
        '=',
    ] + c.1);
}

/// Escaping for JSON goes character by character: the escape of a text is
/// the escapes of its characters in order. A character other than a quote,
/// a backslash or a control character below U+0020 (such as a line feed,
/// carriage return or tab) is written as itself;
/// each of those is written as an escape that starts with a backslash, the
/// quote and the backslash as exactly a backslash and themselves.
pub proof fn lemma_json_escaping(s: Seq<char>, t: Seq<char>, c: char)
    ensures
        json_body(s + t) == json_body(s) + json_body(t),
        json_text(s) == seq!['"'] + json_body(s) + seq!['"'],
        c != '"' && c != '\\' && c != '\n' && c != '\r' && c != '\t' && (c as u32) >= 0x20
            ==> json_body(seq![c]) == seq![c],
        c == '"' ==> json_body(seq![c]) == seq!['\\', '"'],
        c == '\\' ==> json_body(seq![c]) == seq!['\\', '\\'],
        (c as u32) < 0x20 ==> json_body(seq![c]).len() >= 2 && json_body(seq![c])[0] == '\\',
    decreases t.len(),
{
    assert(seq![c].drop_last() == Seq::<char>::empty());
    assert(seq![c].last() == c);
    assert(json_body(Seq::<char>::empty()) == Seq::<char>::empty());
    assert(Seq::<char>::empty() + json_escaped(c) == json_escaped(c));
    assert(json_body(seq![c]) == json_escaped(c));
    if t.len() > 0 {
        lemma_json_escaping(s, t.drop_last(), c);
        assert((s + t).drop_last() == s + t.drop_last());
        assert((s + t).last() == t.last());
    } else {
        assert(s + t == s);
    }
}

} // verus!
