use vstd::prelude::*;
use crate::sexp::{Sexp, SexpV, sexp_parse, parse_sexp};

verus! {

/// A pattern: a variable, or an operator applied to sub-patterns.
#[derive(Hash, Debug)]
pub enum Pattern {
    PatVar(String),
    PatTerm(String, Vec<Box<Pattern>>),
}

/// The value of a pattern.
pub enum PatternV {
    Var(Seq<char>),
    Term(Seq<char>, Seq<PatternV>),
}

/// The value of a pattern, structurally.
pub open spec fn pattern_view(p: Pattern) -> PatternV
    decreases p,
{
    match p {
        Pattern::PatVar(s) => PatternV::Var(s@),
        Pattern::PatTerm(h, args) => PatternV::Term(
            h@,
            Seq::new(
                args@.len(),
                |i: int|
                    if 0 <= i < args@.len() {
                        pattern_view(*args@[i])
                    } else {
                        PatternV::Var(Seq::empty())
                    },
            ),
        ),
    }
}

impl View for Pattern {
    type V = PatternV;

    open spec fn view(&self) -> PatternV {
        pattern_view(*self)
    }
}

/// A copy of a pattern.
pub fn clone_pattern(p: &Pattern) -> (r: Pattern)
    ensures
        r@ == p@,
    decreases p,
{
    match p {
        Pattern::PatVar(s) => Pattern::PatVar(s.clone()),
        Pattern::PatTerm(h, args) => {
            let mut v: Vec<Box<Pattern>> = Vec::new();
            let mut i: usize = 0;
            while i < args.len()
                invariant
                    *p == Pattern::PatTerm(*h, *args),
                    i <= args.len(),
                    v@.len() == i,
                    forall|k: int| 0 <= k < i ==> pattern_view(*#[trigger] v@[k]) == pattern_view(*args@[k]),
                decreases args.len() - i,
            {
                proof {
                    assert(decreases_to!(*p => (*p)->PatTerm_1));
                    assert((*p)->PatTerm_1 == *args);
                    assert(decreases_to!(*args => args@));
                    assert(decreases_to!(args@ => args@[i as int]));
                }
                let c = clone_pattern(&args[i]);
                v.push(Box::new(c));
                i = i + 1;
            }
            let r = Pattern::PatTerm(h.clone(), v);
            assert(pattern_view(r)->Term_1 =~= pattern_view(*p)->Term_1);
            r
        },
    }
}

impl Clone for Pattern {
    fn clone(&self) -> (r: Pattern)
        ensures
            r@ == self@,
    {
        clone_pattern(self)
    }
}

/// Whether two patterns are equal: the same variable, or the same head
/// with equal sub-patterns.
pub fn patterns_equal(a: &Pattern, b: &Pattern) -> (r: bool)
    ensures
        r == (a@ == b@),
    decreases a,
{
    match a {
        Pattern::PatVar(x) => match b {
            Pattern::PatVar(y) => *x == *y,
            Pattern::PatTerm(_, _) => false,
        },
        Pattern::PatTerm(h1, a1) => match b {
            Pattern::PatVar(_) => false,
            Pattern::PatTerm(h2, a2) => {
                let ghost s1 = a@->Term_1;
                let ghost s2 = b@->Term_1;
                if *h1 != *h2 || a1.len() != a2.len() {
                    assert(s1.len() == a1@.len() && s2.len() == a2@.len());
                    return false;
                }
                let mut i: usize = 0;
                while i < a1.len()
                    invariant
                        *a == Pattern::PatTerm(*h1, *a1),
                        *b == Pattern::PatTerm(*h2, *a2),
                        s1 == a@->Term_1,
                        s2 == b@->Term_1,
                        a1@.len() == a2@.len(),
                        i <= a1.len(),
                        forall|k: int| 0 <= k < i ==> s1[k] == s2[k],
                    decreases a1.len() - i,
                {
                    proof {
                        assert(decreases_to!(*a => (*a)->PatTerm_1));
                        assert((*a)->PatTerm_1 == *a1);
                        assert(decreases_to!(*a1 => a1@));
                        assert(decreases_to!(a1@ => a1@[i as int]));
                    }
                    assert(s1[i as int] == a1@[i as int]@);
                    assert(s2[i as int] == a2@[i as int]@);
                    if !patterns_equal(&a1[i], &a2[i]) {
                        return false;
                    }
                    i = i + 1;
                }
                assert(s1 =~= s2);
                true
            },
        },
    }
}

impl PartialEq for Pattern {
    fn eq(&self, other: &Pattern) -> (r: bool) {
        patterns_equal(self, other)
    }
}

impl Eq for Pattern {
}

impl vstd::std_specs::cmp::PartialEqSpecImpl for Pattern {
    open spec fn obeys_eq_spec() -> bool {
        true
    }

    open spec fn eq_spec(&self, other: &Pattern) -> bool {
        self@ == other@
    }
}

/// A rewrite rule: what matches `lhs` is made equal to `rhs`.
#[derive(Debug, Clone)]
pub struct Rule {
    pub lhs: Pattern,
    pub rhs: Pattern,
}

/// Whether an atom names a pattern variable: it starts with `P_`.
pub open spec fn is_var_name(s: Seq<char>) -> bool {
    s.len() >= 2 && s[0] == 'P' && s[1] == '_'
}

/// The pattern an expression denotes: an atom starting with `P_` is a
/// variable, another atom a constant; a list whose first item is an atom
/// is that operator applied to the patterns of the other items; anything
/// else denotes none.
pub open spec fn pattern_of(x: SexpV) -> Option<PatternV>
    decreases x,
{
    match x {
        SexpV::Atom(s) => if is_var_name(s) {
            Some(PatternV::Var(s))
        } else {
            Some(PatternV::Term(s, Seq::empty()))
        },
        SexpV::List(v) => if v.len() >= 1 && v[0] is Atom {
            Some(
                PatternV::Term(
                    v[0]->Atom_0,
                    Seq::new(
                        (v.len() - 1) as nat,
                        |i: int|
                            if 0 <= i && i + 1 < v.len() {
                                match pattern_of(v[i + 1]) {
                                    Some(p) => p,
                                    None => PatternV::Var(Seq::empty()),
                                }
                            } else {
                                PatternV::Var(Seq::empty())
                            },
                    ),
                ),
            )
        } else {
            None
        },
        SexpV::Empty => None,
    }
}

/// Whether building the pattern of an expression goes through: every list
/// is non-empty, and every item after the first of a list denotes a
/// pattern and builds.
pub open spec fn pattern_builds(x: SexpV) -> bool
    decreases x, 0nat,
{
    match x {
        SexpV::List(v) => v.len() >= 1 && items_build(v, v.len()),
        _ => true,
    }
}

/// Whether the items of `v` from the second to the `n`-th each denote a
/// pattern and build.
pub open spec fn items_build(v: Seq<SexpV>, n: nat) -> bool
    decreases v, n,
{
    if n <= 1 || n > v.len() {
        true
    } else {
        items_build(v, (n - 1) as nat) && pattern_of(v[n - 1]) is Some && pattern_builds(v[n - 1])
    }
}

proof fn lemma_items_build(v: Seq<SexpV>, n: nat, k: int)
    requires
        items_build(v, n),
        n <= v.len(),
        1 <= k < n,
    ensures
        pattern_of(v[k]) is Some,
        pattern_builds(v[k]),
    decreases n,
{
    if k < n - 1 {
        lemma_items_build(v, (n - 1) as nat, k);
    }
}

/// The value of an optional pattern.
pub open spec fn opt_pattern_view(r: Option<Pattern>) -> Option<PatternV> {
    match r {
        Some(p) => Some(p@),
        None => None,
    }
}

/// Whether a string starts with `P_`.
fn starts_with_var_prefix(s: &String) -> (b: bool)
    ensures
        b == is_var_name(s@),
{
    let n = s.as_str().unicode_len();
    n >= 2 && s.as_str().get_char(0) == 'P' && s.as_str().get_char(1) == '_'
}

fn pattern_from_sexp(x: &Sexp) -> (r: Option<Pattern>)
    requires
        pattern_builds(x@),
    ensures
        opt_pattern_view(r) == pattern_of(x@),
    decreases x,
{
    match x {
        Sexp::List(l) => {
            let ghost vv = x@->List_0;
            let mut vec: Vec<Box<Pattern>> = Vec::new();
            let mut i: usize = 1;
            while i < l.len()
                invariant
                    *x == Sexp::List(*l),
                    vv == x@->List_0,
                    vv.len() == l@.len(),
                    l@.len() >= 1,
                    items_build(vv, vv.len()),
                    1 <= i <= l.len(),
                    vec@.len() == i - 1,
                    forall|k: int|
                        0 <= k < i - 1 ==> pattern_of(vv[k + 1]) == Some(pattern_view(*#[trigger] vec@[k])),
                decreases l.len() - i,
            {
                proof {
                    assert(decreases_to!(*x => (*x)->List_0));
                    assert((*x)->List_0 == *l);
                    assert(decreases_to!(*l => l@));
                    assert(decreases_to!(l@ => l@[i as int]));
                    lemma_items_build(vv, vv.len(), i as int);
                    assert(vv[i as int] == l@[i as int]@);
                }
                match pattern_from_sexp(&l[i]) {
                    Some(a) => {
                        vec.push(Box::new(a));
                    },
                    None => {
                        proof {
                            assert(false);
                        }
                        return None;
                    },
                }
                i = i + 1;
            }
            assert(vv[0] == l@[0]@);
            match &l[0] {
                Sexp::Atom(s) => {
                    let r = Pattern::PatTerm(s.clone(), vec);
                    proof {
                        let want = pattern_of(x@)->Some_0;
                        assert(pattern_view(r)->Term_1 =~= want->Term_1);
                    }
                    Some(r)
                },
                _ => None,
            }
        },
        Sexp::Atom(s) => {
            if starts_with_var_prefix(s) {
                Some(Pattern::PatVar(s.clone()))
            } else {
                let r = Pattern::PatTerm(s.clone(), Vec::new());
                assert(pattern_view(r)->Term_1 =~= Seq::<PatternV>::empty());
                Some(r)
            }
        },
        Sexp::Empty => None,
    }
}

/// Builds the pattern an expression denotes: atoms starting with `P_` are
/// variables, other atoms constants, and a list whose first item is an
/// atom is that operator applied to the patterns of its other items.
/// Returns `None` for the empty expression and for a list whose first item
/// is not an atom.
pub fn new_pattern(sexpr: Sexp) -> (r: Option<Pattern>)
    requires
        pattern_builds(sexpr@),
    ensures
        opt_pattern_view(r) == pattern_of(sexpr@),
{
    pattern_from_sexp(&sexpr)
}

impl Rule {
    /// The rule from the patterns of two expressions, or `None` when
    /// either denotes no pattern.
    pub fn new_rule(lhs: Sexp, rhs: Sexp) -> (r: Option<Rule>)
        requires
            pattern_builds(lhs@),
            pattern_of(lhs@) is Some ==> pattern_builds(rhs@),
        ensures
            r is Some <==> pattern_of(lhs@) is Some && pattern_of(rhs@) is Some,
            r matches Some(rule) ==> Some(rule.lhs@) == pattern_of(lhs@) && Some(rule.rhs@) == pattern_of(
                rhs@,
            ),
    {
        if let Some(lhs) = new_pattern(lhs) {
            if let Some(rhs) = new_pattern(rhs) {
                let r = Rule { lhs, rhs };
                return Some(r);
            }
        }
        return None;
    }
}

/// The pieces of `s` between the occurrences of `sep`, in order; there is
/// always one more piece than there are separators.
pub open spec fn split_char(s: Seq<char>, sep: char) -> Seq<Seq<char>>
    decreases s.len(),
{
    if s.len() == 0 {
        seq![Seq::empty()]
    } else {
        let p = split_char(s.drop_last(), sep);
        if s.last() == sep {
            p.push(Seq::empty())
        } else {
            p.update(p.len() - 1, p.last().push(s.last()))
        }
    }
}

/// `s` without one trailing carriage return.
pub open spec fn strip_cr(s: Seq<char>) -> Seq<char> {
    if s.len() > 0 && s.last() == '\r' {
        s.drop_last()
    } else {
        s
    }
}

/// The lines of a text: the pieces between line feeds, without a final
/// empty piece, each line that ended in a line feed without one carriage
/// return before it.
pub open spec fn text_lines(s: Seq<char>) -> Seq<Seq<char>> {
    let p = split_char(s, '\n');
    let body = if p.last().len() == 0 {
        p.drop_last()
    } else {
        p
    };
    Seq::new(
        body.len(),
        |i: int|
            if i < p.len() - 1 {
                strip_cr(body[i])
            } else {
                body[i]
            },
    )
}

/// Whether `->` starts at position `k` of `s`.
pub open spec fn arrow_at(s: Seq<char>, k: int) -> bool {
    0 <= k && k + 1 < s.len() && s[k] == '-' && s[k + 1] == '>'
}

/// The first position from `from` on where `->` starts, or -1.
pub open spec fn next_arrow(s: Seq<char>, from: int) -> int
    decreases s.len() - from,
{
    if from < 0 || from + 1 >= s.len() {
        -1
    } else if arrow_at(s, from) {
        from
    } else {
        next_arrow(s, from + 1)
    }
}

/// The two sides of a rule line: the text before the first `->`, and the
/// text after it up to the next `->` or the end.  `None` for an empty line
/// or one without `->`.
pub open spec fn rule_sides(line: Seq<char>) -> Option<(Seq<char>, Seq<char>)> {
    let k = next_arrow(line, 0);
    if line.len() == 0 || k < 0 {
        None
    } else {
        let e = next_arrow(line, k + 2);
        Some(
            (
                line.subrange(0, k),
                if e < 0 {
                    line.subrange(k + 2, line.len() as int)
                } else {
                    line.subrange(k + 2, e)
                },
            ),
        )
    }
}

/// The rule a line gives: both sides read as expressions and turned into
/// patterns; `None` when the line has no sides or a side does not read.
pub open spec fn line_rule(line: Seq<char>) -> Option<(PatternV, PatternV)> {
    match rule_sides(line) {
        Some((a, b)) => match (sexp_parse(a), sexp_parse(b)) {
            (Some(x), Some(y)) => Some((pattern_of(x)->Some_0, pattern_of(y)->Some_0)),
            _ => None,
        },
        None => None,
    }
}

/// Whether a line can be taken: where both sides read, both denote
/// patterns and build.
pub open spec fn line_ok(line: Seq<char>) -> bool {
    match rule_sides(line) {
        Some((a, b)) => match (sexp_parse(a), sexp_parse(b)) {
            (Some(x), Some(y)) => pattern_builds(x) && pattern_of(x) is Some && pattern_builds(y)
                && pattern_of(y) is Some,
            _ => true,
        },
        None => true,
    }
}

/// The rules of a sequence of lines, in order.
pub open spec fn rules_of_lines(ls: Seq<Seq<char>>) -> Seq<(PatternV, PatternV)>
    decreases ls.len(),
{
    if ls.len() == 0 {
        Seq::empty()
    } else {
        rules_of_lines(ls.drop_last()) + match line_rule(ls.last()) {
            Some(r) => seq![r],
            None => Seq::empty(),
        }
    }
}

/// Whether every line of a rule text can be taken.
pub open spec fn ruleset_ok(text: Seq<char>) -> bool {
    forall|i: int| 0 <= i < text_lines(text).len() ==> line_ok(#[trigger] text_lines(text)[i])
}

/// The values of a sequence of strings.
pub open spec fn strings_view(v: Seq<String>) -> Seq<Seq<char>> {
    v.map_values(|s: String| s@)
}

/// The values of a sequence of rules.
pub open spec fn rules_view(v: Seq<Rule>) -> Seq<(PatternV, PatternV)> {
    v.map_values(|r: Rule| (r.lhs@, r.rhs@))
}

proof fn lemma_split_len(s: Seq<char>, sep: char)
    ensures
        split_char(s, sep).len() >= 1,
    decreases s.len(),
{
    if s.len() > 0 {
        lemma_split_len(s.drop_last(), sep);
    }
}

/// `s` without one trailing carriage return.
fn strip_carriage_return(s: &str) -> (r: String)
    ensures
        r@ == strip_cr(s@),
{
    let n = s.unicode_len();
    if n > 0 && s.get_char(n - 1) == '\r' {
        let t = s.substring_char(0, n - 1);
        assert(t@ =~= s@.drop_last());
        String::from_str(t)
    } else {
        assert(s@.subrange(0, n as int) =~= s@);
        String::from_str(s.substring_char(0, n))
    }
}

/// The lines of a text, as `str::lines` gives them.
pub fn split_lines(text: &str) -> (r: Vec<String>)
    ensures
        strings_view(r@) == text_lines(text@),
{
    let n = text.unicode_len();
    let mut pieces: Vec<String> = Vec::new();
    let mut start: usize = 0;
    let mut i: usize = 0;
    proof {
        assert(text@.take(0).len() == 0);
        assert(text@.subrange(0, 0) =~= Seq::<char>::empty());
        assert(strings_view(pieces@) =~= Seq::<Seq<char>>::empty());
        assert(split_char(text@.take(0), '\n') =~= strings_view(pieces@).push(text@.subrange(0, 0)));
    }
    while i < n
        invariant
            n == text@.len(),
            start <= i <= n,
            split_char(text@.take(i as int), '\n') == strings_view(pieces@).push(
                text@.subrange(start as int, i as int),
            ),
        decreases n - i,
    {
        let ghost before = strings_view(pieces@);
        let ghost old_pieces = pieces@;
        let ghost cur = text@.subrange(start as int, i as int);
        assert(text@.take(i + 1).drop_last() =~= text@.take(i as int));
        assert(text@.take(i + 1).last() == text@[i as int]);
        assert(text@.take(i + 1).len() > 0);
        if text.get_char(i) == '\n' {
            let t = String::from_str(text.substring_char(start, i));
            pieces.push(t);
            start = i + 1;
            proof {
                assert(pieces@ == old_pieces.push(t));
                assert(strings_view(pieces@) =~= before.push(cur));
                assert(text@.subrange(start as int, i + 1) =~= Seq::<char>::empty());
                assert(split_char(text@.take(i + 1), '\n') =~= before.push(cur).push(Seq::<char>::empty()));
            }
        } else {
            proof {
                assert(text@.subrange(start as int, i + 1) =~= cur.push(text@[i as int]));
                assert(split_char(text@.take(i + 1), '\n') =~= before.push(cur.push(text@[i as int])));
            }
        }
        i = i + 1;
    }
    assert(text@.take(n as int) =~= text@);
    let last = String::from_str(text.substring_char(start, n));
    let ghost p = split_char(text@, '\n');
    assert(p == strings_view(pieces@).push(last@));
    let mut lines: Vec<String> = Vec::new();
    let mut k: usize = 0;
    while k < pieces.len()
        invariant
            p == strings_view(pieces@).push(last@),
            k <= pieces@.len(),
            lines@.len() == k,
            forall|j: int| 0 <= j < k ==> (#[trigger] lines@[j])@ == strip_cr(p[j]),
        decreases pieces.len() - k,
    {
        assert(pieces@[k as int]@ == p[k as int]);
        let l = strip_carriage_return(pieces[k].as_str());
        lines.push(l);
        k = k + 1;
    }
    if last.as_str().unicode_len() > 0 {
        let ghost before = lines@;
        lines.push(last);
        assert(lines@[k as int] == last);
    }
    proof {
        let t = text_lines(text@);
        assert(strings_view(lines@).len() == t.len());
        assert forall|j: int| 0 <= j < t.len() implies #[trigger] strings_view(lines@)[j] == t[j] by {
            if j < k {
                assert(lines@[j]@ == strip_cr(p[j]));
            }
        }
        assert(strings_view(lines@) =~= t);
    }
    lines
}

proof fn lemma_next_arrow(s: Seq<char>, from: int)
    ensures
        next_arrow(s, from) >= 0 ==> from <= next_arrow(s, from) && arrow_at(s, next_arrow(s, from)),
        next_arrow(s, from) < 0 ==> next_arrow(s, from) == -1,
    decreases s.len() - from,
{
    if !(from < 0 || from + 1 >= s.len()) && !arrow_at(s, from) {
        lemma_next_arrow(s, from + 1);
    }
}

/// The first position from `from` on where `->` starts in `s`, or the
/// length of `s` when there is none.
fn find_arrow(s: &str, n: usize, from: usize) -> (r: usize)
    requires
        n == s@.len(),
        from <= n,
    ensures
        next_arrow(s@, from as int) < 0 ==> r == n,
        next_arrow(s@, from as int) >= 0 ==> r == next_arrow(s@, from as int),
        r <= n,
{
    proof {
        lemma_next_arrow(s@, from as int);
    }
    let mut i: usize = from;
    while n > 1 && i < n - 1
        invariant
            n == s@.len(),
            from <= i <= n,
            next_arrow(s@, from as int) == next_arrow(s@, i as int),
        decreases n - i,
    {
        if s.get_char(i) == '-' && s.get_char(i + 1) == '>' {
            return i;
        }
        i = i + 1;
    }
    n
}

/// The two sides of a rule line, as `rule_sides` describes them.
pub fn split_rule_line(line: &str) -> (r: Option<(String, String)>)
    ensures
        match r {
            Some((a, b)) => rule_sides(line@) == Some((a@, b@)),
            None => rule_sides(line@) is None,
        },
{
    let n = line.unicode_len();
    if n == 0 {
        return None;
    }
    let k = find_arrow(line, n, 0);
    proof {
        lemma_next_arrow(line@, 0);
    }
    if k == n {
        return None;
    }
    proof {
        lemma_next_arrow(line@, k + 2);
    }
    let e = find_arrow(line, n, k + 2);
    let a = String::from_str(line.substring_char(0, k));
    let b = String::from_str(line.substring_char(k + 2, e));
    Some((a, b))
}

/// The rules of a rule text, one per line whose two sides read as
/// expressions (see `line_rule`); other lines are skipped.
pub fn parse_ruleset(text: &str) -> (rules: Vec<Rule>)
    requires
        ruleset_ok(text@),
    ensures
        rules_view(rules@) == rules_of_lines(text_lines(text@)),
{
    let lines = split_lines(text);
    let ghost ls = text_lines(text@);
    let mut res: Vec<Rule> = Vec::new();
    let mut i: usize = 0;
    while i < lines.len()
        invariant
            ls == text_lines(text@),
            strings_view(lines@) == ls,
            ruleset_ok(text@),
            i <= lines@.len(),
            rules_view(res@) == rules_of_lines(ls.take(i as int)),
        decreases lines.len() - i,
    {
        let ghost line = ls[i as int];
        assert(lines@[i as int]@ == line);
        assert(line_ok(line));
        assert(ls.take(i + 1).drop_last() =~= ls.take(i as int));
        assert(ls.take(i + 1).last() == line);
        let ghost before = rules_view(res@);
        if let Some((a, b)) = split_rule_line(lines[i].as_str()) {
            if let Ok(lhs) = parse_sexp(a.as_str()) {
                if let Ok(rhs) = parse_sexp(b.as_str()) {
                    match Rule::new_rule(lhs, rhs) {
                        Some(r) => {
                            res.push(r);
                            assert(rules_view(res@) =~= before.push((r.lhs@, r.rhs@)));
                        },
                        None => {
                            proof {
                                assert(false);
                            }
                        },
                    }
                }
            }
        }
        i = i + 1;
    }
    assert(ls.take(lines@.len() as int) =~= ls);
    res
}

/// Whether an expression denotes a pattern and building it goes through.
pub fn pattern_ok(x: &Sexp) -> (b: bool)
    ensures
        b == (pattern_builds(x@) && pattern_of(x@) is Some),
    decreases x,
{
    match x {
        Sexp::List(l) => {
            if l.len() == 0 {
                return false;
            }
            let ghost vv = x@->List_0;
            let mut i: usize = 1;
            while i < l.len()
                invariant
                    *x == Sexp::List(*l),
                    vv == x@->List_0,
                    vv.len() == l@.len(),
                    1 <= i <= l.len(),
                    items_build(vv, i as nat),
                decreases l.len() - i,
            {
                proof {
                    assert(decreases_to!(*x => (*x)->List_0));
                    assert((*x)->List_0 == *l);
                    assert(decreases_to!(*l => l@));
                    assert(decreases_to!(l@ => l@[i as int]));
                    assert(vv[i as int] == l@[i as int]@);
                }
                if !pattern_ok(&l[i]) {
                    proof {
                        if pattern_builds(x@) {
                            lemma_items_build(vv, vv.len(), i as int);
                        }
                    }
                    return false;
                }
                i = i + 1;
            }
            assert(vv[0] == l@[0]@);
            match &l[0] {
                Sexp::Atom(_) => true,
                _ => false,
            }
        },
        Sexp::Atom(_) => true,
        Sexp::Empty => false,
    }
}

/// Whether a rule line can be taken (see `line_ok`).
pub fn rule_line_ok(line: &str) -> (b: bool)
    ensures
        b == line_ok(line@),
{
    if let Some((a, b)) = split_rule_line(line) {
        if let Ok(lhs) = parse_sexp(a.as_str()) {
            if let Ok(rhs) = parse_sexp(b.as_str()) {
                return pattern_ok(&lhs) && pattern_ok(&rhs);
            }
        }
    }
    true
}

/// The rules of a rule text, or `None` when a line has two sides that read
/// as expressions of which one does not denote a pattern or does not
/// build.
pub fn try_parse_ruleset(text: &str) -> (r: Option<Vec<Rule>>)
    ensures
        r is Some <==> ruleset_ok(text@),
        r matches Some(rules) ==> rules_view(rules@) == rules_of_lines(text_lines(text@)),
{
    let lines = split_lines(text);
    let ghost ls = text_lines(text@);
    let mut i: usize = 0;
    while i < lines.len()
        invariant
            ls == text_lines(text@),
            strings_view(lines@) == ls,
            i <= lines@.len(),
            forall|j: int| 0 <= j < i ==> line_ok(#[trigger] ls[j]),
        decreases lines.len() - i,
    {
        assert(lines@[i as int]@ == ls[i as int]);
        if !rule_line_ok(lines[i].as_str()) {
            return None;
        }
        i = i + 1;
    }
    Some(parse_ruleset(text))
}

} // verus!
