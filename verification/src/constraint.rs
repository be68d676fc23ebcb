//! The small pattern language that can follow a param, e.g. `:id(\d+)`.
//!
//! It is not a general regex engine: there are no groups, no alternation and
//! no `{n,m}` counts. A constraint is a sequence of atoms, each a character
//! class with a quantifier, and a value satisfies it when the whole value can
//! be cut into consecutive runs, one per atom, each run as long as its
//! quantifier allows and made only of characters of its class.
use vstd::prelude::*;

use crate::text::{
    chars_of, is_alphanumeric, is_ascii_alphanumeric, is_ascii_digit, is_white_space, push_char,
    unicode_alphanumeric, unicode_white_space,
};

verus! {

broadcast use vstd::string::group_string_axioms;

// ---------------------------------------------------------------------------
// Types and their models
// ---------------------------------------------------------------------------

/// How many times an atom's class may repeat.
#[derive(Debug, Clone, Copy, PartialEq, Eq)]
pub enum Quantifier {
    One,
    ZeroOrOne,
    ZeroOrMore,
    OneOrMore,
}

/// One member of a `[...]` class.
#[derive(Debug, Clone, Copy, PartialEq, Eq)]
pub enum SetItem {
    Char(char),
    Range(char, char),
}

/// The characters an atom accepts.
#[derive(Debug, Clone, PartialEq, Eq)]
pub enum CharClass {
    Any,
    Char(char),
    Digit,
    NonDigit,
    Word,
    NonWord,
    Whitespace,
    NonWhitespace,
    Bracket { negated: bool, items: Vec<SetItem> },
}

/// A character class with its quantifier.
#[derive(Debug, Clone, PartialEq, Eq)]
pub struct Atom {
    pub class: CharClass,
    pub quantifier: Quantifier,
}

/// A parsed constraint: its source text and its atoms.
#[derive(Debug, Clone, PartialEq, Eq)]
pub struct Constraint {
    source: String,
    atoms: Vec<Atom>,
}

/// The mathematical value of a `CharClass`.
pub enum ClassModel {
    Any,
    Char(char),
    Digit,
    NonDigit,
    Word,
    NonWord,
    Whitespace,
    NonWhitespace,
    Bracket { negated: bool, items: Seq<SetItem> },
}

/// The mathematical value of an `Atom`.
pub struct AtomModel {
    pub class: ClassModel,
    pub quantifier: Quantifier,
}

/// The mathematical value of a `Constraint`.
pub struct ConstraintModel {
    pub source: Seq<char>,
    pub atoms: Seq<AtomModel>,
}

impl View for CharClass {
    type V = ClassModel;

    open spec fn view(&self) -> ClassModel {
        match self {
            CharClass::Any => ClassModel::Any,
            CharClass::Char(c) => ClassModel::Char(*c),
            CharClass::Digit => ClassModel::Digit,
            CharClass::NonDigit => ClassModel::NonDigit,
            CharClass::Word => ClassModel::Word,
            CharClass::NonWord => ClassModel::NonWord,
            CharClass::Whitespace => ClassModel::Whitespace,
            CharClass::NonWhitespace => ClassModel::NonWhitespace,
            CharClass::Bracket { negated, items } => ClassModel::Bracket { negated: *negated, items: items@ },
        }
    }
}

impl View for Atom {
    type V = AtomModel;

    open spec fn view(&self) -> AtomModel {
        AtomModel { class: self.class@, quantifier: self.quantifier }
    }
}

/// The models of a list of atoms.
pub open spec fn atom_models(atoms: Seq<Atom>) -> Seq<AtomModel> {
    atoms.map_values(|a: Atom| a@)
}

impl View for Constraint {
    type V = ConstraintModel;

    closed spec fn view(&self) -> ConstraintModel {
        ConstraintModel { source: self.source@, atoms: atom_models(self.atoms@) }
    }
}

// ---------------------------------------------------------------------------
// What parsing a constraint means
// ---------------------------------------------------------------------------

/// Why a constraint's text is rejected.
pub enum ConstraintFault {
    Empty,
    DanglingEscape,
    UnsupportedSyntax(char),
    UnsupportedEscape(char),
    UnterminatedSet,
    InvalidRange(char, char),
    EmptySet,
}

/// The result of reading some text: a value, a rejection, or `Abort` for
/// text that lies outside what the reader accepts at all (no result is
/// defined for it).
pub enum Outcome<T, F> {
    Value(T),
    Fault(F),
    Abort,
}

/// The message that explains a rejected constraint `source`.
pub open spec fn constraint_fault_text(f: ConstraintFault, source: Seq<char>) -> Seq<char> {
    match f {
        ConstraintFault::Empty => "constraint pattern is empty"@,
        ConstraintFault::DanglingEscape => "dangling escape in constraint '"@ + source + "'"@,
        ConstraintFault::UnsupportedSyntax(c) => "unsupported constraint syntax '"@ + seq![c]
            + "' in '"@ + source + "' (groups and alternation aren't supported)"@,
        ConstraintFault::UnsupportedEscape(c) => "unsupported escape '\\"@ + seq![c]
            + "' in constraint '"@ + source + "'"@,
        ConstraintFault::UnterminatedSet => "unterminated '[' in constraint '"@ + source + "'"@,
        ConstraintFault::InvalidRange(lo, hi) => "invalid range '"@ + seq![lo] + "-"@ + seq![hi]
            + "' in constraint '"@ + source + "'"@,
        ConstraintFault::EmptySet => "empty character class in constraint '"@ + source + "'"@,
    }
}

/// The class written as `\e`, or `None` for an unsupported escape.
pub open spec fn escape_model(e: char) -> Option<ClassModel> {
    if e == 'd' {
        Some(ClassModel::Digit)
    } else if e == 'D' {
        Some(ClassModel::NonDigit)
    } else if e == 'w' {
        Some(ClassModel::Word)
    } else if e == 'W' {
        Some(ClassModel::NonWord)
    } else if e == 's' {
        Some(ClassModel::Whitespace)
    } else if e == 'S' {
        Some(ClassModel::NonWhitespace)
    } else if unicode_alphanumeric(e) {
        None
    } else {
        Some(ClassModel::Char(e))
    }
}

/// Reads one member character of a `[...]` class at `j` (a `\` takes the
/// character after it literally); gives the character and the next position.
pub open spec fn set_char_at(s: Seq<char>, j: int) -> Result<(char, int), ConstraintFault> {
    if s[j] == '\\' {
        if j + 1 >= s.len() {
            Err(ConstraintFault::DanglingEscape)
        } else {
            Ok((s[j + 1], j + 2))
        }
    } else {
        Ok((s[j], j + 1))
    }
}

/// Prepends `x` to a successful list result.
pub open spec fn prepend_item<T>(x: T, r: Outcome<(Seq<T>, int), ConstraintFault>) -> Outcome<
    (Seq<T>, int),
    ConstraintFault,
> {
    match r {
        Outcome::Value((xs, k)) => Outcome::Value((seq![x] + xs, k)),
        other => other,
    }
}

/// Prepends `xs` to a successful list result.
pub open spec fn prepend_items<T>(xs: Seq<T>, r: Outcome<(Seq<T>, int), ConstraintFault>) -> Outcome<
    (Seq<T>, int),
    ConstraintFault,
> {
    match r {
        Outcome::Value((ys, k)) => Outcome::Value((xs + ys, k)),
        other => other,
    }
}

/// Prepends `xs` to a successful result of reading atoms.
pub open spec fn prepend_atoms(xs: Seq<AtomModel>, r: Outcome<Seq<AtomModel>, ConstraintFault>) -> Outcome<
    Seq<AtomModel>,
    ConstraintFault,
> {
    match r {
        Outcome::Value(ys) => Outcome::Value(xs + ys),
        other => other,
    }
}

/// Reads the members of a `[...]` class from `j` up to and past its `]`.
/// A `-` between two members makes a range, except right before the `]`.
/// A range whose `-` is the last character of the text is outside what
/// the reader accepts (`Abort`).
pub open spec fn set_items_from(s: Seq<char>, j: int) -> Outcome<(Seq<SetItem>, int), ConstraintFault>
    decreases s.len() - j,
{
    if j < 0 || j >= s.len() {
        Outcome::Fault(ConstraintFault::UnterminatedSet)
    } else if s[j] == ']' {
        Outcome::Value((Seq::<SetItem>::empty(), j + 1))
    } else {
        match set_char_at(s, j) {
            Err(f) => Outcome::Fault(f),
            Ok((lo, j1)) => {
                if j1 < s.len() && s[j1] == '-' && !(j1 + 1 < s.len() && s[j1 + 1] == ']') {
                    if j1 + 1 >= s.len() {
                        Outcome::Abort
                    } else {
                        match set_char_at(s, j1 + 1) {
                            Err(f) => Outcome::Fault(f),
                            Ok((hi, j2)) => {
                                if hi < lo {
                                    Outcome::Fault(ConstraintFault::InvalidRange(lo, hi))
                                } else {
                                    prepend_item(SetItem::Range(lo, hi), set_items_from(s, j2))
                                }
                            },
                        }
                    }
                } else {
                    prepend_item(SetItem::Char(lo), set_items_from(s, j1))
                }
            },
        }
    }
}

/// Reads a `[...]` class whose body starts at `j` (just past the `[`).
pub open spec fn set_at(s: Seq<char>, j: int) -> Outcome<(ClassModel, int), ConstraintFault> {
    let negated = j < s.len() && s[j] == '^';
    let j0 = if negated {
        j + 1
    } else {
        j
    };
    match set_items_from(s, j0) {
        Outcome::Value((items, k)) => if items.len() == 0 {
            Outcome::Fault(ConstraintFault::EmptySet)
        } else {
            Outcome::Value((ClassModel::Bracket { negated, items }, k))
        },
        Outcome::Fault(f) => Outcome::Fault(f),
        Outcome::Abort => Outcome::Abort,
    }
}

/// Reads the class that starts at `i`.
pub open spec fn class_at(s: Seq<char>, i: int) -> Outcome<(ClassModel, int), ConstraintFault> {
    let c = s[i];
    if c == '\\' {
        if i + 1 >= s.len() {
            Outcome::Fault(ConstraintFault::DanglingEscape)
        } else {
            match escape_model(s[i + 1]) {
                Some(cl) => Outcome::Value((cl, i + 2)),
                None => Outcome::Fault(ConstraintFault::UnsupportedEscape(s[i + 1])),
            }
        }
    } else if c == '.' {
        Outcome::Value((ClassModel::Any, i + 1))
    } else if c == '[' {
        set_at(s, i + 1)
    } else if c == '(' || c == ')' || c == '|' {
        Outcome::Fault(ConstraintFault::UnsupportedSyntax(c))
    } else {
        Outcome::Value((ClassModel::Char(c), i + 1))
    }
}

/// The quantifier written at `j`, if any, and the position after it.
pub open spec fn quantifier_at(s: Seq<char>, j: int) -> (Quantifier, int) {
    if 0 <= j < s.len() && s[j] == '*' {
        (Quantifier::ZeroOrMore, j + 1)
    } else if 0 <= j < s.len() && s[j] == '+' {
        (Quantifier::OneOrMore, j + 1)
    } else if 0 <= j < s.len() && s[j] == '?' {
        (Quantifier::ZeroOrOne, j + 1)
    } else {
        (Quantifier::One, j)
    }
}

proof fn lemma_set_items_advance(s: Seq<char>, j: int)
    ensures
        set_items_from(s, j) matches Outcome::Value((_, k)) ==> j < k <= s.len(),
    decreases s.len() - j,
{
    if 0 <= j < s.len() && s[j] != ']' {
        match set_char_at(s, j) {
            Err(_) => {},
            Ok((lo, j1)) => {
                if j1 < s.len() && s[j1] == '-' && !(j1 + 1 < s.len() && s[j1 + 1] == ']') {
                    if j1 + 1 < s.len() {
                        match set_char_at(s, j1 + 1) {
                            Err(_) => {},
                            Ok((hi, j2)) => {
                                lemma_set_items_advance(s, j2);
                            },
                        }
                    }
                } else {
                    lemma_set_items_advance(s, j1);
                }
            },
        }
    }
}

/// Reading a class always moves forward, and never past the end.
pub proof fn lemma_class_advances(s: Seq<char>, i: int)
    requires
        0 <= i < s.len(),
    ensures
        class_at(s, i) matches Outcome::Value((_, k)) ==> i < k <= s.len(),
{
    if s[i] == '[' {
        let negated = i + 1 < s.len() && s[i + 1] == '^';
        lemma_set_items_advance(s, if negated {
            i + 2
        } else {
            i + 1
        });
    }
}

/// The atoms written from position `i` on.
pub open spec fn atoms_from(s: Seq<char>, i: int) -> Outcome<Seq<AtomModel>, ConstraintFault>
    decreases s.len() - i,
{
    if i < 0 || i >= s.len() {
        Outcome::Value(Seq::<AtomModel>::empty())
    } else {
        match class_at(s, i) {
            Outcome::Value((class, j)) => {
                proof {
                    lemma_class_advances(s, i);
                }
                let (quantifier, k) = quantifier_at(s, j);
                match atoms_from(s, k) {
                    Outcome::Value(rest) => Outcome::Value(
                        seq![AtomModel { class, quantifier }] + rest,
                    ),
                    other => other,
                }
            },
            Outcome::Fault(f) => Outcome::Fault(f),
            Outcome::Abort => Outcome::Abort,
        }
    }
}

/// What the text `s` of a constraint reads as.
pub open spec fn parse_constraint(s: Seq<char>) -> Outcome<Seq<AtomModel>, ConstraintFault> {
    if s.len() == 0 {
        Outcome::Fault(ConstraintFault::Empty)
    } else {
        atoms_from(s, 0)
    }
}

// ---------------------------------------------------------------------------
// What matching a constraint means
// ---------------------------------------------------------------------------

/// Whether `c` is a member named by `item`.
pub open spec fn item_matches(item: SetItem, c: char) -> bool {
    match item {
        SetItem::Char(x) => c == x,
        SetItem::Range(lo, hi) => lo <= c && c <= hi,
    }
}

/// Whether some member of a `[...]` class names `c`.
pub open spec fn bracket_hit(items: Seq<SetItem>, c: char) -> bool {
    exists|k: int| 0 <= k < items.len() && #[trigger] item_matches(items[k], c)
}

/// Whether the class accepts `c`.
pub open spec fn class_accepts(class: ClassModel, c: char) -> bool {
    match class {
        ClassModel::Any => true,
        ClassModel::Char(e) => c == e,
        ClassModel::Digit => is_ascii_digit(c),
        ClassModel::NonDigit => !is_ascii_digit(c),
        ClassModel::Word => is_ascii_alphanumeric(c) || c == '_',
        ClassModel::NonWord => !(is_ascii_alphanumeric(c) || c == '_'),
        ClassModel::Whitespace => unicode_white_space(c),
        ClassModel::NonWhitespace => !unicode_white_space(c),
        ClassModel::Bracket { negated, items } => bracket_hit(items, c) != negated,
    }
}

/// Whether a run of `n` characters is allowed by `q`.
pub open spec fn count_allowed(q: Quantifier, n: int) -> bool {
    match q {
        Quantifier::One => n == 1,
        Quantifier::ZeroOrOne => 0 <= n <= 1,
        Quantifier::ZeroOrMore => 0 <= n,
        Quantifier::OneOrMore => 1 <= n,
    }
}

/// Whether every character of `run` is accepted by `class`.
pub open spec fn run_in_class(class: ClassModel, run: Seq<char>) -> bool {
    forall|k: int| 0 <= k < run.len() ==> class_accepts(class, #[trigger] run[k])
}

/// Whether the run of `cs` between `cuts[k]` and `cuts[k + 1]` is one that
/// atom `k` accepts: as long as its quantifier allows, and all inside its
/// class.
pub open spec fn run_fits(atoms: Seq<AtomModel>, cs: Seq<char>, cuts: Seq<int>, k: int) -> bool {
    &&& count_allowed(atoms[k].quantifier, cuts[k + 1] - cuts[k])
    &&& run_in_class(atoms[k].class, cs.subrange(cuts[k], cuts[k + 1]))
}

/// Whether `cuts` cuts the whole of `cs` into consecutive runs, one per
/// atom, each of which its atom accepts.
pub open spec fn is_cutting(atoms: Seq<AtomModel>, cs: Seq<char>, cuts: Seq<int>) -> bool {
    &&& cuts.len() == atoms.len() + 1
    &&& cuts[0] == 0
    &&& cuts[atoms.len() as int] == cs.len()
    &&& forall|i: int, j: int| 0 <= i <= j <= atoms.len() ==> #[trigger] cuts[i] <= #[trigger] cuts[j]
    &&& forall|k: int| 0 <= k < atoms.len() ==> #[trigger] run_fits(atoms, cs, cuts, k)
}

/// Whether the whole of `cs` satisfies the atoms: it can be cut into one
/// run per atom, in order, each run allowed by its atom's quantifier and
/// made only of characters of its atom's class.
pub open spec fn atoms_match(atoms: Seq<AtomModel>, cs: Seq<char>) -> bool {
    exists|cuts: Seq<int>| #[trigger] is_cutting(atoms, cs, cuts)
}

/// With no atoms left, only the empty text matches.
pub proof fn lemma_match_no_atoms(cs: Seq<char>)
    ensures
        atoms_match(Seq::<AtomModel>::empty(), cs) == (cs.len() == 0),
{
    let atoms = Seq::<AtomModel>::empty();
    if cs.len() == 0 {
        assert(is_cutting(atoms, cs, seq![0int]));
    }
}

/// A first run that the first atom accepts, followed by a match of the
/// remaining atoms, is a match.
pub proof fn lemma_match_prepend(am: Seq<AtomModel>, cs: Seq<char>, n: int)
    requires
        am.len() > 0,
        0 <= n <= cs.len(),
        count_allowed(am[0].quantifier, n),
        run_in_class(am[0].class, cs.take(n)),
        atoms_match(am.drop_first(), cs.skip(n)),
    ensures
        atoms_match(am, cs),
{
    let rest = am.drop_first();
    let tail = cs.skip(n);
    let c2 = choose|c2: Seq<int>| #[trigger] is_cutting(rest, tail, c2);
    let cuts = seq![0int] + c2.map_values(|c: int| c + n);
    assert(cuts[1] == n);
    assert(cs.subrange(0, n) == cs.take(n));
    assert forall|i: int, j: int| 0 <= i <= j <= am.len() implies #[trigger] cuts[i] <= #[trigger] cuts[j] by {
        assert(c2[0] == 0);
        if i > 0 {
            assert(cuts[i] == c2[i - 1] + n);
            assert(cuts[j] == c2[j - 1] + n);
            assert(c2[i - 1] <= c2[j - 1]);
        } else if j > 0 {
            assert(cuts[j] == c2[j - 1] + n);
            assert(c2[0] <= c2[j - 1]);
        }
    }
    assert forall|k: int| 0 <= k < am.len() implies #[trigger] run_fits(am, cs, cuts, k) by {
        if k > 0 {
            assert(run_fits(rest, tail, c2, k - 1));
            assert(cuts[k] == c2[k - 1] + n);
            assert(cuts[k + 1] == c2[k] + n);
            assert(am[k] == rest[k - 1]);
            assert(c2[k - 1] <= c2[k]);
            assert(c2[0] <= c2[k - 1] && c2[k] <= c2[rest.len() as int]);
            assert(cs.subrange(cuts[k], cuts[k + 1]) == tail.subrange(c2[k - 1], c2[k]));
        }
    }
    assert(is_cutting(am, cs, cuts));
}

/// Any match starts with a first run that the first atom accepts, followed
/// by a match of the remaining atoms.
pub proof fn lemma_match_first_run(am: Seq<AtomModel>, cs: Seq<char>) -> (n: int)
    requires
        am.len() > 0,
        atoms_match(am, cs),
    ensures
        0 <= n <= cs.len(),
        count_allowed(am[0].quantifier, n),
        run_in_class(am[0].class, cs.take(n)),
        atoms_match(am.drop_first(), cs.skip(n)),
{
    let cuts = choose|cuts: Seq<int>| #[trigger] is_cutting(am, cs, cuts);
    let n = cuts[1];
    assert(run_fits(am, cs, cuts, 0));
    assert(cs.subrange(0, n) == cs.take(n));
    let rest = am.drop_first();
    let tail = cs.skip(n);
    let c2 = cuts.drop_first().map_values(|c: int| c - n);
    assert(cuts[0] <= cuts[1] && cuts[1] <= cuts[am.len() as int]);
    assert forall|i: int, j: int| 0 <= i <= j <= rest.len() implies #[trigger] c2[i] <= #[trigger] c2[j] by {
        assert(c2[i] == cuts[i + 1] - n);
        assert(c2[j] == cuts[j + 1] - n);
        assert(cuts[i + 1] <= cuts[j + 1]);
    }
    assert forall|k: int| 0 <= k <= am.len() implies 0 <= #[trigger] cuts[k] <= cs.len() by {
        assert(cuts[0] <= cuts[k] && cuts[k] <= cuts[am.len() as int]);
    }
    assert forall|k: int| 0 <= k < rest.len() implies #[trigger] run_fits(rest, tail, c2, k) by {
        assert(run_fits(am, cs, cuts, k + 1));
        assert(cuts[k + 1] <= cuts[k + 2]);
        assert(c2[k] == cuts[k + 1] - n);
        assert(c2[k + 1] == cuts[k + 2] - n);
        assert(rest[k] == am[k + 1]);
        assert(cs.subrange(cuts[k + 1], cuts[k + 2]) == tail.subrange(c2[k], c2[k + 1]));
    }
    assert(is_cutting(rest, tail, c2));
    n
}

/// A single atom accepts exactly the values whose length its quantifier
/// allows and whose characters all lie in its class.
pub proof fn lemma_single_atom_match(a: AtomModel, cs: Seq<char>)
    ensures
        atoms_match(seq![a], cs) == (count_allowed(a.quantifier, cs.len() as int) && run_in_class(
            a.class,
            cs,
        )),
{
    let am = seq![a];
    assert(am.drop_first() == Seq::<AtomModel>::empty());
    if atoms_match(am, cs) {
        let n = lemma_match_first_run(am, cs);
        lemma_match_no_atoms(cs.skip(n));
        assert(n == cs.len());
        assert(cs.take(n) == cs);
    }
    if count_allowed(a.quantifier, cs.len() as int) && run_in_class(a.class, cs) {
        let n = cs.len() as int;
        assert(cs.take(n) == cs);
        assert(cs.skip(n).len() == 0);
        lemma_match_no_atoms(cs.skip(n));
        lemma_match_prepend(am, cs, n);
    }
}

proof fn lemma_one_char_run(class: ClassModel, c: char)
    ensures
        run_in_class(class, seq![c]) == class_accepts(class, c),
{
    assert(seq![c][0] == c);
}

/// The shorthand classes accept exactly the documented characters: `\d`
/// the ten ASCII digits and `\D` every other character; `\w` ASCII letters,
/// digits and `_`, and `\W` every other character; `\s` the Unicode
/// whitespace characters and `\S` every other character; `.` every
/// character. Each written alone accepts exactly the one-character values
/// of its class.
pub proof fn lemma_shorthand_classes(c: char)
    ensures
        parse_constraint(seq!['\\', 'd']) matches Outcome::Value(atoms) && (atoms_match(
            atoms,
            seq![c],
        ) <==> ('0' <= c && c <= '9')),
        parse_constraint(seq!['\\', 'D']) matches Outcome::Value(atoms) && (atoms_match(
            atoms,
            seq![c],
        ) <==> !('0' <= c && c <= '9')),
        parse_constraint(seq!['\\', 'w']) matches Outcome::Value(atoms) && (atoms_match(
            atoms,
            seq![c],
        ) <==> (('0' <= c && c <= '9') || ('a' <= c && c <= 'z') || ('A' <= c && c <= 'Z') || c
            == '_')),
        parse_constraint(seq!['\\', 'W']) matches Outcome::Value(atoms) && (atoms_match(
            atoms,
            seq![c],
        ) <==> !(('0' <= c && c <= '9') || ('a' <= c && c <= 'z') || ('A' <= c && c <= 'Z') || c
            == '_')),
        parse_constraint(seq!['\\', 's']) matches Outcome::Value(atoms) && (atoms_match(
            atoms,
            seq![c],
        ) <==> unicode_white_space(c)),
        parse_constraint(seq!['\\', 'S']) matches Outcome::Value(atoms) && (atoms_match(
            atoms,
            seq![c],
        ) <==> !unicode_white_space(c)),
        parse_constraint(seq!['.']) matches Outcome::Value(atoms) && atoms_match(atoms, seq![c]),
{
    lemma_shorthand_class(c, 'd', ClassModel::Digit);
    lemma_shorthand_class(c, 'D', ClassModel::NonDigit);
    lemma_shorthand_class(c, 'w', ClassModel::Word);
    lemma_shorthand_class(c, 'W', ClassModel::NonWord);
    lemma_shorthand_class(c, 's', ClassModel::Whitespace);
    lemma_shorthand_class(c, 'S', ClassModel::NonWhitespace);
    let s = seq!['.'];
    assert(atoms_from(s, 1) == Outcome::<Seq<AtomModel>, ConstraintFault>::Value(
        Seq::<AtomModel>::empty(),
    ));
    let a = AtomModel { class: ClassModel::Any, quantifier: Quantifier::One };
    assert(seq![a] + Seq::<AtomModel>::empty() == seq![a]);
    lemma_single_atom_match(a, seq![c]);
}

proof fn lemma_shorthand_class(c: char, e: char, class: ClassModel)
    requires
        escape_model(e) == Some(class),
    ensures
        parse_constraint(seq!['\\', e]) == Outcome::<Seq<AtomModel>, ConstraintFault>::Value(
            seq![AtomModel { class, quantifier: Quantifier::One }],
        ),
        atoms_match(seq![AtomModel { class, quantifier: Quantifier::One }], seq![c])
            == class_accepts(class, c),
{
    let s = seq!['\\', e];
    assert(atoms_from(s, 2) == Outcome::<Seq<AtomModel>, ConstraintFault>::Value(
        Seq::<AtomModel>::empty(),
    ));
    let a = AtomModel { class, quantifier: Quantifier::One };
    assert(seq![a] + Seq::<AtomModel>::empty() == seq![a]);
    lemma_single_atom_match(a, seq![c]);
    lemma_one_char_run(class, c);
}

/// Whether `x` stands for itself when written in a constraint.
pub open spec fn plain_char(x: char) -> bool {
    x != '\\' && x != '.' && x != '[' && x != '(' && x != ')' && x != '|'
}

/// A plain character stands for itself, and a quantifier after it sets how
/// often it repeats: alone exactly once, with `?` at most once, with `*`
/// any number of times, with `+` at least once.
pub proof fn lemma_quantified_literal(x: char, cs: Seq<char>)
    requires
        plain_char(x),
    ensures
        parse_constraint(seq![x]) matches Outcome::Value(atoms) && (atoms_match(atoms, cs) <==> (
        cs.len() == 1 && cs[0] == x)),
        parse_constraint(seq![x, '?']) matches Outcome::Value(atoms) && (atoms_match(atoms, cs)
            <==> (cs.len() <= 1 && forall|k: int| 0 <= k < cs.len() ==> cs[k] == x)),
        parse_constraint(seq![x, '*']) matches Outcome::Value(atoms) && (atoms_match(atoms, cs)
            <==> (forall|k: int| 0 <= k < cs.len() ==> cs[k] == x)),
        parse_constraint(seq![x, '+']) matches Outcome::Value(atoms) && (atoms_match(atoms, cs)
            <==> (cs.len() >= 1 && forall|k: int| 0 <= k < cs.len() ==> cs[k] == x)),
{
    let class = ClassModel::Char(x);
    let s1 = seq![x];
    assert(atoms_from(s1, 1) == Outcome::<Seq<AtomModel>, ConstraintFault>::Value(
        Seq::<AtomModel>::empty(),
    ));
    let a1 = AtomModel { class, quantifier: Quantifier::One };
    assert(seq![a1] + Seq::<AtomModel>::empty() == seq![a1]);
    lemma_single_atom_match(a1, cs);
    if cs.len() == 1 {
        assert(run_in_class(class, cs) == (cs[0] == x));
    }
    lemma_quantified_literal_with(x, '?', Quantifier::ZeroOrOne, cs);
    lemma_quantified_literal_with(x, '*', Quantifier::ZeroOrMore, cs);
    lemma_quantified_literal_with(x, '+', Quantifier::OneOrMore, cs);
}

proof fn lemma_quantified_literal_with(x: char, q: char, quantifier: Quantifier, cs: Seq<char>)
    requires
        plain_char(x),
        quantifier_at(seq![x, q], 1) == (quantifier, 2int),
    ensures
        parse_constraint(seq![x, q]) == Outcome::<Seq<AtomModel>, ConstraintFault>::Value(
            seq![AtomModel { class: ClassModel::Char(x), quantifier }],
        ),
        atoms_match(seq![AtomModel { class: ClassModel::Char(x), quantifier }], cs) == (
        count_allowed(quantifier, cs.len() as int) && forall|k: int|
            0 <= k < cs.len() ==> cs[k] == x),
{
    let s = seq![x, q];
    assert(atoms_from(s, 2) == Outcome::<Seq<AtomModel>, ConstraintFault>::Value(
        Seq::<AtomModel>::empty(),
    ));
    let a = AtomModel { class: ClassModel::Char(x), quantifier };
    assert(seq![a] + Seq::<AtomModel>::empty() == seq![a]);
    lemma_single_atom_match(a, cs);
}

/// A `[lo-hi]` class accepts exactly the characters from `lo` to `hi`, and
/// `[^lo-hi]` exactly the others.
pub proof fn lemma_range_class(lo: char, hi: char, c: char)
    requires
        lo <= hi,
        lo != '\\' && lo != ']' && lo != '^',
        hi != '\\' && hi != ']',
    ensures
        parse_constraint(seq!['[', lo, '-', hi, ']']) matches Outcome::Value(atoms) && (atoms_match(
            atoms,
            seq![c],
        ) <==> (lo <= c && c <= hi)),
        parse_constraint(seq!['[', '^', lo, '-', hi, ']']) matches Outcome::Value(atoms) && (
        atoms_match(atoms, seq![c]) <==> !(lo <= c && c <= hi)),
{
    lemma_range_class_from(seq!['[', lo, '-', hi, ']'], 1, false, lo, hi, c);
    lemma_range_class_from(seq!['[', '^', lo, '-', hi, ']'], 2, true, lo, hi, c);
}

proof fn lemma_range_class_from(s: Seq<char>, j: int, negated: bool, lo: char, hi: char, c: char)
    requires
        lo <= hi,
        lo != '\\' && lo != ']' && lo != '^',
        hi != '\\' && hi != ']',
        s.len() == j + 4,
        s[0] == '[',
        negated ==> j == 2 && s[1] == '^',
        !negated ==> j == 1,
        s[j] == lo,
        s[j + 1] == '-',
        s[j + 2] == hi,
        s[j + 3] == ']',
    ensures
        parse_constraint(s) matches Outcome::Value(atoms) && (atoms_match(atoms, seq![c]) <==> (
        (lo <= c && c <= hi) != negated)),
{
    let items = seq![SetItem::Range(lo, hi)];
    assert(set_items_from(s, j + 3) == Outcome::<(Seq<SetItem>, int), ConstraintFault>::Value(
        (Seq::<SetItem>::empty(), j + 4),
    ));
    assert(items + Seq::<SetItem>::empty() == items);
    assert(set_items_from(s, j) == Outcome::<(Seq<SetItem>, int), ConstraintFault>::Value(
        (items, j + 4),
    ));
    let class = ClassModel::Bracket { negated, items };
    assert(class_at(s, 0) == Outcome::<(ClassModel, int), ConstraintFault>::Value(
        (class, j + 4),
    ));
    assert(atoms_from(s, j + 4) == Outcome::<Seq<AtomModel>, ConstraintFault>::Value(
        Seq::<AtomModel>::empty(),
    ));
    let a = AtomModel { class, quantifier: Quantifier::One };
    assert(seq![a] + Seq::<AtomModel>::empty() == seq![a]);
    lemma_single_atom_match(a, seq![c]);
    lemma_one_char_run(class, c);
    if lo <= c && c <= hi {
        assert(item_matches(items[0], c));
    }
}

// ---------------------------------------------------------------------------
// Parsing
// ---------------------------------------------------------------------------

proof fn lemma_push_concat<T>(xs: Seq<T>, x: T, ys: Seq<T>)
    ensures
        xs + (seq![x] + ys) == xs.push(x) + ys,
{
    assert(xs + (seq![x] + ys) =~= xs.push(x) + ys);
}

/// `prefix`, then `source`, then a closing quote.
fn quoted_after(prefix: &str, source: &str) -> (m: String)
    ensures
        m@ == prefix@ + source@ + "'"@,
{
    let mut m = String::new();
    m.append(prefix);
    m.append(source);
    m.append("'");
    m
}

fn escape_class(escaped: char, source: &str) -> (r: Result<CharClass, String>)
    ensures
        escape_model(escaped) matches Some(cl) ==> (r matches Ok(c) && c@ == cl),
        escape_model(escaped) is None ==> (r matches Err(m) && m@ == constraint_fault_text(
            ConstraintFault::UnsupportedEscape(escaped),
            source@,
        )),
{
    if escaped == 'd' {
        Ok(CharClass::Digit)
    } else if escaped == 'D' {
        Ok(CharClass::NonDigit)
    } else if escaped == 'w' {
        Ok(CharClass::Word)
    } else if escaped == 'W' {
        Ok(CharClass::NonWord)
    } else if escaped == 's' {
        Ok(CharClass::Whitespace)
    } else if escaped == 'S' {
        Ok(CharClass::NonWhitespace)
    } else if is_alphanumeric(escaped) {
        let mut m = String::new();
        m.append("unsupported escape '\\");
        push_char(&mut m, escaped);
        m.append("' in constraint '");
        m.append(source);
        m.append("'");
        Err(m)
    } else {
        Ok(CharClass::Char(escaped))
    }
}

fn read_set_char(chars: &[char], i: &mut usize, source: &str) -> (r: Result<char, String>)
    requires
        *old(i) < chars@.len(),
        chars@ == source@,
    ensures
        set_char_at(chars@, *old(i) as int) matches Ok((c, k)) ==> r == Ok::<char, String>(c)
            && *final(i) == k,
        set_char_at(chars@, *old(i) as int) matches Err(f) ==> (r matches Err(m) && m@
            == constraint_fault_text(f, source@)),
{
    let c = chars[*i];
    if c == '\\' {
        *i = *i + 1;
        if *i >= chars.len() {
            return Err(quoted_after("dangling escape in constraint '", source));
        }
        let escaped = chars[*i];
        *i = *i + 1;
        Ok(escaped)
    } else {
        *i = *i + 1;
        Ok(c)
    }
}

/// Reads a `[...]` class body, with `i` just past the opening `[`; leaves
/// `i` just past the closing `]`.
fn parse_set(chars: &[char], i: &mut usize, source: &str) -> (r: Option<Result<CharClass, String>>)
    requires
        *old(i) <= chars@.len(),
        chars@ == source@,
    ensures
        (set_at(chars@, *old(i) as int) is Abort) <==> r is None,
        set_at(chars@, *old(i) as int) matches Outcome::Value((cl, k)) ==> (r matches Some(Ok(c))
            && c@ == cl && *final(i) == k),
        set_at(chars@, *old(i) as int) matches Outcome::Fault(f) ==> (r matches Some(Err(m)) && m@
            == constraint_fault_text(f, source@)),
{
    let ghost s = chars@;
    let ghost start = *i as int;
    let negated = *i < chars.len() && chars[*i] == '^';
    if negated {
        *i = *i + 1;
    }
    let ghost j0 = *i as int;
    let mut items: Vec<SetItem> = Vec::new();
    proof {
        match set_items_from(s, j0) {
            Outcome::Value((ys, k)) => {
                assert(items@ + ys == ys);
            },
            _ => {},
        }
    }
    loop
        invariant_except_break
            start == *old(i) as int,
            negated == (start < s.len() && s[start] == '^'),
            j0 == if negated {
                start + 1
            } else {
                start
            },
            j0 <= *i <= s.len(),
            chars@ == s,
            s == source@,
            set_items_from(s, j0) == prepend_items(items@, set_items_from(s, *i as int)),
        ensures
            start == *old(i) as int,
            negated == (start < s.len() && s[start] == '^'),
            j0 == if negated {
                start + 1
            } else {
                start
            },
            j0 < *i <= s.len(),
            set_items_from(s, j0) == Outcome::<(Seq<SetItem>, int), ConstraintFault>::Value(
                (items@, *i as int),
            ),
        decreases s.len() - *i,
    {
        if *i >= chars.len() {
            proof {
                assert(set_items_from(s, *i as int) is Fault);
                assert(set_items_from(s, j0) is Fault);
            }
            return Some(Err(quoted_after("unterminated '[' in constraint '", source)));
        }
        if chars[*i] == ']' {
            *i = *i + 1;
            assert(items@ + Seq::<SetItem>::empty() == items@);
            break;
        }
        let ghost at = *i as int;
        let lo = match read_set_char(chars, i, source) {
            Ok(c) => c,
            Err(m) => return Some(Err(m)),
        };
        if *i < chars.len() && chars[*i] == '-' && !(*i + 1 < chars.len() && chars[*i + 1] == ']') {
            *i = *i + 1;
            if *i >= chars.len() {
                assert(set_items_from(s, at) is Abort);
                return None;
            }
            let hi = match read_set_char(chars, i, source) {
                Ok(c) => c,
                Err(m) => return Some(Err(m)),
            };
            if hi < lo {
                let mut m = String::new();
                m.append("invalid range '");
                push_char(&mut m, lo);
                m.append("-");
                push_char(&mut m, hi);
                m.append("' in constraint '");
                m.append(source);
                m.append("'");
                return Some(Err(m));
            }
            proof {
                match set_items_from(s, *i as int) {
                    Outcome::Value((ys, k)) => {
                        lemma_push_concat(items@, SetItem::Range(lo, hi), ys);
                    },
                    _ => {},
                }
            }
            items.push(SetItem::Range(lo, hi));
        } else {
            proof {
                match set_items_from(s, *i as int) {
                    Outcome::Value((ys, k)) => {
                        lemma_push_concat(items@, SetItem::Char(lo), ys);
                    },
                    _ => {},
                }
            }
            items.push(SetItem::Char(lo));
        }
    }
    if items.len() == 0 {
        return Some(Err(quoted_after("empty character class in constraint '", source)));
    }
    Some(Ok(CharClass::Bracket { negated, items }))
}

/// Reads the class that starts at `i`, giving it and the position after it.
fn read_class(chars: &[char], i: usize, source: &str) -> (r: Option<Result<(CharClass, usize), String>>)
    requires
        i < chars@.len(),
        chars@ == source@,
    ensures
        (class_at(chars@, i as int) is Abort) <==> r is None,
        class_at(chars@, i as int) matches Outcome::Value((cl, k)) ==> (r matches Some(Ok((c, k2)))
            && c@ == cl && k2 == k),
        class_at(chars@, i as int) matches Outcome::Fault(f) ==> (r matches Some(Err(m)) && m@
            == constraint_fault_text(f, source@)),
{
    let c = chars[i];
    if c == '\\' {
        if i + 1 >= chars.len() {
            return Some(Err(quoted_after("dangling escape in constraint '", source)));
        }
        match escape_class(chars[i + 1], source) {
            Ok(cl) => Some(Ok((cl, i + 2))),
            Err(m) => Some(Err(m)),
        }
    } else if c == '.' {
        Some(Ok((CharClass::Any, i + 1)))
    } else if c == '[' {
        let mut j = i + 1;
        match parse_set(chars, &mut j, source) {
            Some(Ok(cl)) => Some(Ok((cl, j))),
            Some(Err(m)) => Some(Err(m)),
            None => None,
        }
    } else if c == '(' || c == ')' || c == '|' {
        let mut m = String::new();
        m.append("unsupported constraint syntax '");
        push_char(&mut m, c);
        m.append("' in '");
        m.append(source);
        m.append("' (groups and alternation aren't supported)");
        Some(Err(m))
    } else {
        Some(Ok((CharClass::Char(c), i + 1)))
    }
}

impl Constraint {
    /// Parses a constraint body, i.e. the text between the parens in
    /// `:id(\d+)`. The whole value of a path segment must satisfy it.
    ///
    /// A range whose `-` is the last character of the text, as in `[a-`,
    /// is outside the accepted input.
    pub fn parse(source: &str) -> (r: Result<Constraint, String>)
        requires
            !(parse_constraint(source@) is Abort),
        ensures
            parse_constraint(source@) matches Outcome::Value(atoms) ==> (r matches Ok(c) && c@
                == (ConstraintModel { source: source@, atoms })),
            parse_constraint(source@) matches Outcome::Fault(f) ==> (r matches Err(m) && m@
                == constraint_fault_text(f, source@)),
    {
        match Constraint::try_parse(source) {
            Some(r) => r,
            None => {
                // excluded by the precondition
                assert(false);
                Err(String::new())
            },
        }
    }

    /// Reads a constraint body like `Constraint::parse`, and gives `None`
    /// for text outside the accepted input.
    pub fn try_parse(source: &str) -> (r: Option<Result<Constraint, String>>)
        ensures
            (parse_constraint(source@) is Abort) <==> r is None,
            parse_constraint(source@) matches Outcome::Value(atoms) ==> (r matches Some(Ok(c))
                && c@ == (ConstraintModel { source: source@, atoms })),
            parse_constraint(source@) matches Outcome::Fault(f) ==> (r matches Some(Err(m)) && m@
                == constraint_fault_text(f, source@)),
    {
        if source.is_empty() {
            return Some(Err(String::from_str("constraint pattern is empty")));
        }
        let chars = chars_of(source);
        let ghost s = chars@;
        let mut atoms: Vec<Atom> = Vec::new();
        let mut i: usize = 0;
        assert(atom_models(atoms@) == Seq::<AtomModel>::empty());
        assert(Seq::<AtomModel>::empty() + Seq::<AtomModel>::empty() == Seq::<AtomModel>::empty());
        while i < chars.len()
            invariant
                0 <= i <= chars.len(),
                chars@ == s,
                s == source@,
                s.len() > 0,
                atoms_from(s, 0) == prepend_atoms(atom_models(atoms@), atoms_from(s, i as int)),
            decreases chars.len() - i,
        {
            let (class, j) = match read_class(chars.as_slice(), i, source) {
                Some(Ok(x)) => x,
                Some(Err(m)) => return Some(Err(m)),
                None => return None,
            };
            proof {
                lemma_class_advances(s, i as int);
            }
            let mut k = j;
            let quantifier = if j < chars.len() && chars[j] == '*' {
                k = j + 1;
                Quantifier::ZeroOrMore
            } else if j < chars.len() && chars[j] == '+' {
                k = j + 1;
                Quantifier::OneOrMore
            } else if j < chars.len() && chars[j] == '?' {
                k = j + 1;
                Quantifier::ZeroOrOne
            } else {
                Quantifier::One
            };
            let atom = Atom { class, quantifier };
            proof {
                let m = atom_models(atoms@);
                assert(atom_models(atoms@.push(atom)) == m.push(atom@));
                match atoms_from(s, k as int) {
                    Outcome::Value(ys) => {
                        assert(m + (seq![atom@] + ys) == m.push(atom@) + ys);
                    },
                    _ => {},
                }
            }
            atoms.push(atom);
            i = k;
        }
        proof {
            assert(atom_models(atoms@) + Seq::<AtomModel>::empty() == atom_models(atoms@));
        }
        Some(Ok(Constraint { source: String::from_str(source), atoms }))
    }

    /// The constraint's text, as it was written.
    pub fn source(&self) -> (r: &str)
        ensures
            r@ == self@.source,
    {
        self.source.as_str()
    }

    /// Whether `value` satisfies this constraint in its entirety.
    pub fn is_match(&self, value: &str) -> (r: bool)
        ensures
            r == atoms_match(self@.atoms, value@),
    {
        let chars = chars_of(value);
        let r = match_from(&self.atoms, 0, &chars, 0);
        proof {
            assert(atom_models(self.atoms@).skip(0) == atom_models(self.atoms@));
            assert(chars@.skip(0) == chars@);
        }
        r
    }
}

// ---------------------------------------------------------------------------
// Matching
// ---------------------------------------------------------------------------

fn class_matches(class: &CharClass, c: char) -> (r: bool)
    ensures
        r == class_accepts(class@, c),
{
    match class {
        CharClass::Any => true,
        CharClass::Char(expected) => c == *expected,
        CharClass::Digit => '0' <= c && c <= '9',
        CharClass::NonDigit => !('0' <= c && c <= '9'),
        CharClass::Word => ('0' <= c && c <= '9') || ('a' <= c && c <= 'z') || ('A' <= c && c
            <= 'Z') || c == '_',
        CharClass::NonWord => !(('0' <= c && c <= '9') || ('a' <= c && c <= 'z') || ('A' <= c
            && c <= 'Z') || c == '_'),
        CharClass::Whitespace => is_white_space(c),
        CharClass::NonWhitespace => !is_white_space(c),
        CharClass::Bracket { negated, items } => {
            let mut hit = false;
            let mut k: usize = 0;
            while k < items.len()
                invariant
                    0 <= k <= items.len(),
                    hit == exists|m: int| 0 <= m < k && #[trigger] item_matches(items@[m], c),
                decreases items.len() - k,
            {
                let h = match items[k] {
                    SetItem::Char(x) => c == x,
                    SetItem::Range(lo, hi) => c >= lo && c <= hi,
                };
                proof {
                    assert(h == item_matches(items@[k as int], c));
                    if h {
                        assert(item_matches(items@[k as int], c));
                    }
                }
                hit = hit || h;
                k = k + 1;
            }
            let r = hit != *negated;
            proof {
                assert(hit == bracket_hit(items@, c));
            }
            r
        },
    }
}

/// Backtracking match of `atoms[ai..]` against `chars[ci..]`, anchored at
/// both ends. Quantifiers are greedy: the longest run is tried first, then
/// shorter ones while the rest of the pattern cannot follow.
pub fn match_from(atoms: &Vec<Atom>, ai: usize, chars: &Vec<char>, ci: usize) -> (r: bool)
    requires
        ai <= atoms.len(),
        ci <= chars.len(),
    ensures
        r == atoms_match(atom_models(atoms@).skip(ai as int), chars@.skip(ci as int)),
    decreases atoms.len() - ai,
{
    let ghost am = atom_models(atoms@).skip(ai as int);
    let ghost cs = chars@.skip(ci as int);
    if ai == atoms.len() {
        proof {
            assert(am == Seq::<AtomModel>::empty());
            lemma_match_no_atoms(cs);
        }
        return ci == chars.len();
    }
    let atom = &atoms[ai];
    let ghost cl = atom.class@;
    proof {
        assert(am[0] == atom@);
        assert(am.drop_first() == atom_models(atoms@).skip(ai + 1));
    }
    match atom.quantifier {
        Quantifier::One => {
            if ci < chars.len() && class_matches(&atom.class, chars[ci]) {
                let r = match_from(atoms, ai + 1, chars, ci + 1);
                proof {
                    assert(cs.skip(1) == chars@.skip(ci + 1));
                    assert(cs.take(1)[0] == chars@[ci as int]);
                    if r {
                        lemma_match_prepend(am, cs, 1);
                    } else if atoms_match(am, cs) {
                        let n = lemma_match_first_run(am, cs);
                    }
                }
                r
            } else {
                proof {
                    if atoms_match(am, cs) {
                        let n = lemma_match_first_run(am, cs);
                        assert(cs.take(1)[0] == chars@[ci as int]);
                    }
                }
                false
            }
        },
        Quantifier::ZeroOrOne => {
            if ci < chars.len() && class_matches(&atom.class, chars[ci]) {
                if match_from(atoms, ai + 1, chars, ci + 1) {
                    proof {
                        assert(cs.skip(1) == chars@.skip(ci + 1));
                        assert(cs.take(1)[0] == chars@[ci as int]);
                        lemma_match_prepend(am, cs, 1);
                    }
                    return true;
                }
            }
            let r = match_from(atoms, ai + 1, chars, ci);
            proof {
                assert(cs.skip(0) == cs);
                assert(cs.take(0).len() == 0);
                if r {
                    lemma_match_prepend(am, cs, 0);
                } else if atoms_match(am, cs) {
                    let n = lemma_match_first_run(am, cs);
                    if n == 1 {
                        assert(cs.take(1)[0] == chars@[ci as int]);
                        assert(cs.skip(1) == chars@.skip(ci + 1));
                    }
                }
            }
            r
        },
        _ => {
            let mut max: usize = 0;
            while ci + max < chars.len() && class_matches(&atom.class, chars[ci + max])
                invariant
                    ci + max <= chars.len(),
                    cl == atom.class@,
                    forall|k: int| 0 <= k < max ==> class_accepts(cl, #[trigger] chars@[ci + k]),
                decreases chars.len() - (ci + max),
            {
                max = max + 1;
            }
            let min: usize = match atom.quantifier {
                Quantifier::OneOrMore => 1,
                _ => 0,
            };
            proof {
                assert forall|n: int|
                    0 <= n <= cs.len() && run_in_class(cl, #[trigger] cs.take(n)) implies n
                    <= max by {
                    if n > max {
                        assert(cs.take(n)[max as int] == chars@[ci + max]);
                    }
                }
                assert forall|n: int| 0 <= n <= max implies run_in_class(cl, #[trigger] cs.take(n)) by {
                    assert forall|k: int| 0 <= k < n implies class_accepts(
                        cl,
                        #[trigger] cs.take(n)[k],
                    ) by {
                        assert(cs.take(n)[k] == chars@[ci + k]);
                    }
                }
            }
            proof {
                assert(am[0].quantifier == atom.quantifier);
                assert forall|m: int| min <= m <==> count_allowed(am[0].quantifier, m) by {}
            }
            if max < min {
                proof {
                    if atoms_match(am, cs) {
                        let n = lemma_match_first_run(am, cs);
                    }
                }
                return false;
            }
            let mut n = max;
            loop
                invariant
                    min <= n <= max,
                    ai < atoms.len(),
                    ci + max <= chars.len(),
                    am == atom_models(atoms@).skip(ai as int),
                    cs == chars@.skip(ci as int),
                    am.len() > 0,
                    am[0].class == cl,
                    forall|m: int| min <= m <==> count_allowed(am[0].quantifier, m),
                    forall|m: int| 0 <= m <= max ==> run_in_class(cl, #[trigger] cs.take(m)),
                    forall|m: int| n < m <= max ==> !atoms_match(am.drop_first(), #[trigger] cs.skip(m)),
                    am.drop_first() == atom_models(atoms@).skip(ai + 1),
                ensures
                    forall|m: int| min <= m <= max ==> !atoms_match(am.drop_first(), #[trigger] cs.skip(m)),
                decreases n,
            {
                let found = match_from(atoms, ai + 1, chars, ci + n);
                proof {
                    assert(cs.skip(n as int) == chars@.skip(ci + n));
                }
                if found {
                    proof {
                        lemma_match_prepend(am, cs, n as int);
                    }
                    return true;
                }
                if n == min {
                    break;
                }
                n = n - 1;
            }
            proof {
                if atoms_match(am, cs) {
                    let w = lemma_match_first_run(am, cs);
                    assert(w <= max);
                    assert(!atoms_match(am.drop_first(), cs.skip(w)));
                }
            }
            false
        },
    }
}

} // verus!
