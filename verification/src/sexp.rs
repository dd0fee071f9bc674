//! Symbolic expressions: atoms and parenthesized lists, read by the parser
//! of the `symbolic_expressions` crate and printed as that crate prints
//! them.
use vstd::prelude::*;
use symbolic_expressions::SexpError;
use symbolic_expressions::Sexp as SymbolicExpr;

verus! {

/// A symbolic expression: an atom, a list of expressions, or nothing.
#[derive(Debug, PartialEq)]
pub enum Sexp {
    Atom(String),
    List(Vec<Sexp>),
    Empty,
}

/// The value of a symbolic expression.
pub enum SexpV {
    Atom(Seq<char>),
    List(Seq<SexpV>),
    Empty,
}

/// The value of a symbolic expression, structurally.
pub open spec fn sexp_view(x: Sexp) -> SexpV
    decreases x,
{
    match x {
        Sexp::Atom(s) => SexpV::Atom(s@),
        Sexp::List(v) => SexpV::List(
            Seq::new(
                v@.len(),
                |i: int|
                    if 0 <= i < v@.len() {
                        sexp_view(v@[i])
                    } else {
                        SexpV::Empty
                    },
            ),
        ),
        Sexp::Empty => SexpV::Empty,
    }
}

impl View for Sexp {
    type V = SexpV;

    open spec fn view(&self) -> SexpV {
        sexp_view(*self)
    }
}

impl Clone for Sexp {
    /// A copy of the expression.
    fn clone(&self) -> (r: Sexp)
        ensures
            r@ == self@,
        decreases self,
    {
        match self {
            Sexp::Atom(s) => Sexp::Atom(s.clone()),
            Sexp::List(v) => {
                let ghost vv = self@->List_0;
                let mut items: Vec<Sexp> = Vec::new();
                let mut i: usize = 0;
                while i < v.len()
                    invariant
                        *self == Sexp::List(*v),
                        vv == self@->List_0,
                        vv.len() == v@.len(),
                        i <= v.len(),
                        items@.len() == i,
                        forall|k: int| 0 <= k < i ==> #[trigger] items@[k]@ == vv[k],
                    decreases v.len() - i,
                {
                    proof {
                        assert(decreases_to!(*self => (*self)->List_0));
                        assert((*self)->List_0 == *v);
                        assert(decreases_to!(*v => v@));
                        assert(decreases_to!(v@ => v@[i as int]));
                    }
                    let t = v[i].clone();
                    assert(vv[i as int] == v@[i as int]@);
                    items.push(t);
                    i = i + 1;
                }
                let r = Sexp::List(items);
                assert forall|k: int| 0 <= k < vv.len() implies #[trigger] r@->List_0[k] == vv[k] by {
                    assert(items@[k]@ == vv[k]);
                }
                assert(r@->List_0 =~= vv);
                r
            },
            Sexp::Empty => Sexp::Empty,
        }
    }
}

/// A character that forces an atom to be printed in double quotes.
pub open spec fn is_special(c: char) -> bool {
    c == '(' || c == ' ' || c == ')' || c == '\t' || c == '{' || c == '}' || c == '%'
}

/// How an atom is printed: in double quotes when it is empty or holds a
/// special character, as it is otherwise.
pub open spec fn encode_atom(s: Seq<char>) -> Seq<char> {
    if s.len() == 0 || exists|i: int| 0 <= i < s.len() && is_special(#[trigger] s[i]) {
        seq!['"'] + s + seq!['"']
    } else {
        s
    }
}

/// How an expression is printed: an atom encoded, a list as its items
/// separated by single spaces inside parentheses, nothing as nothing.
pub open spec fn sexp_text(x: SexpV) -> Seq<char>
    decreases x, 0nat,
{
    match x {
        SexpV::Atom(s) => encode_atom(s),
        SexpV::List(v) => seq!['('] + items_text(v, v.len()) + seq![')'],
        SexpV::Empty => Seq::empty(),
    }
}

/// The first `n` of `v` printed, separated by single spaces.
pub open spec fn items_text(v: Seq<SexpV>, n: nat) -> Seq<char>
    decreases v, n,
{
    if n == 0 || n > v.len() {
        Seq::empty()
    } else if n == 1 {
        sexp_text(v[0])
    } else {
        items_text(v, (n - 1) as nat) + seq![' '] + sexp_text(v[n - 1])
    }
}

/// `s` without its leading double quotes.
pub open spec fn trim_front(s: Seq<char>) -> Seq<char>
    decreases s.len(),
{
    if s.len() > 0 && s[0] == '"' {
        trim_front(s.drop_first())
    } else {
        s
    }
}

/// `s` without its trailing double quotes.
pub open spec fn trim_back(s: Seq<char>) -> Seq<char>
    decreases s.len(),
{
    if s.len() > 0 && s.last() == '"' {
        trim_back(s.drop_last())
    } else {
        s
    }
}

/// `s` without its leading and trailing double quotes.
pub open spec fn trim_quotes(s: Seq<char>) -> Seq<char> {
    trim_back(trim_front(s))
}

/// The text of an atom as it is printed: in double quotes when it is
/// empty or holds one of `( ) { } %`, a space or a tab.
pub fn encode_string(s: &String) -> (r: String)
    ensures
        r@ == encode_atom(s@),
{
    let n = s.as_str().unicode_len();
    let mut special = false;
    let mut i: usize = 0;
    while i < n
        invariant
            n == s@.len(),
            i <= n,
            special == exists|k: int| 0 <= k < i && is_special(#[trigger] s@[k]),
        decreases n - i,
    {
        let c = s.as_str().get_char(i);
        if c == '(' || c == ' ' || c == ')' || c == '\t' || c == '{' || c == '}' || c == '%' {
            special = true;
        }
        i = i + 1;
    }
    if n == 0 || special {
        let mut r = String::new();
        r.append("\"");
        r.append(s.as_str());
        r.append("\"");
        proof {
            reveal_strlit("\"");
            assert(r@ =~= seq!['"'] + s@ + seq!['"']);
        }
        r
    } else {
        s.clone()
    }
}

/// `s` without its leading and trailing double quotes.
pub fn trim_quote_chars(s: &str) -> (r: String)
    ensures
        r@ == trim_quotes(s@),
{
    let n = s.unicode_len();
    let mut lo: usize = 0;
    assert(s@.subrange(0, n as int) =~= s@);
    while lo < n && s.get_char(lo) == '"'
        invariant
            n == s@.len(),
            lo <= n,
            trim_front(s@) == trim_front(s@.subrange(lo as int, n as int)),
        decreases n - lo,
    {
        assert(s@.subrange(lo as int, n as int).drop_first() =~= s@.subrange(lo + 1, n as int));
        lo = lo + 1;
    }
    assert(trim_front(s@) == s@.subrange(lo as int, n as int));
    let mut hi: usize = n;
    while hi > lo && s.get_char(hi - 1) == '"'
        invariant
            n == s@.len(),
            lo <= hi <= n,
            trim_quotes(s@) == trim_back(s@.subrange(lo as int, hi as int)),
        decreases hi - lo,
    {
        assert(s@.subrange(lo as int, hi as int).drop_last() =~= s@.subrange(lo as int, hi - 1));
        hi = hi - 1;
    }
    let t = s.substring_char(lo, hi);
    String::from_str(t)
}

impl Sexp {
    /// The expression printed: atoms encoded, lists as their items
    /// separated by single spaces inside parentheses, nothing as the empty
    /// text.
    pub fn to_string(&self) -> (r: String)
        ensures
            r@ == sexp_text(self@),
        decreases self,
    {
        match self {
            Sexp::Atom(s) => encode_string(s),
            Sexp::List(v) => {
                let ghost vv = self@->List_0;
                let mut r = String::new();
                r.append("(");
                proof {
                    reveal_strlit("(");
                    assert(r@ =~= seq!['('] + items_text(vv, 0));
                }
                let mut i: usize = 0;
                while i < v.len()
                    invariant
                        *self == Sexp::List(*v),
                        vv == self@->List_0,
                        vv.len() == v@.len(),
                        i <= v.len(),
                        r@ == seq!['('] + items_text(vv, i as nat),
                    decreases v.len() - i,
                {
                    proof {
                        assert(decreases_to!(*self => (*self)->List_0));
                        assert((*self)->List_0 == *v);
                        assert(decreases_to!(*v => v@));
                        assert(decreases_to!(v@ => v@[i as int]));
                    }
                    let t = v[i].to_string();
                    assert(vv[i as int] == v@[i as int]@);
                    if i > 0 {
                        r.append(" ");
                        proof {
                            reveal_strlit(" ");
                        }
                    }
                    r.append(t.as_str());
                    i = i + 1;
                }
                r.append(")");
                proof {
                    reveal_strlit(")");
                }
                r
            },
            Sexp::Empty => String::new(),
        }
    }
}

/// Why a text could not be read as a symbolic expression.
pub struct ParseError {
    pub message: String,
}

#[verifier::external_type_specification]
#[verifier::external_body]
pub struct ExSexpError(SexpError);

#[verifier::external_type_specification]
#[verifier::external_body]
pub struct ExSymbolicExpr(SymbolicExpr);

/// What the parser of the `symbolic_expressions` crate reads from a text:
/// the expression, or `None` when it reports an error.
pub uninterp spec fn sexp_parse(s: Seq<char>) -> Option<SexpV>;

/// Converts an expression of the `symbolic_expressions` crate into one of
/// this library, variant by variant.
#[verifier::external_body]
fn sexp_from_outside(x: SymbolicExpr) -> Sexp {
    match x {
        SymbolicExpr::String(s) => Sexp::Atom(s),
        SymbolicExpr::List(v) => Sexp::List(v.into_iter().map(sexp_from_outside).collect()),
        SymbolicExpr::Empty => Sexp::Empty,
    }
}

/// Reads a symbolic expression from a text.
///
/// Calls `symbolic_expressions::parser::parse_str`; the contract claims that
/// what it returns is `sexp_parse` of the text.
#[verifier::external_body]
fn parse_str_outside(s: &str) -> (r: Result<Sexp, SexpError>)
    ensures
        r matches Ok(x) ==> sexp_parse(s@) == Some(x@),
        r is Err ==> sexp_parse(s@) is None,
{
    match symbolic_expressions::parser::parse_str(s) {
        Ok(x) => Ok(sexp_from_outside(x)),
        Err(e) => Err(e),
    }
}

/// The message of a parse error.
///
/// Calls the `Display` of `SexpError`; nothing is claimed of the text.
#[verifier::external_body]
fn sexp_error_message(e: &SexpError) -> String {
    format!("{}", e)
}

/// Reads a symbolic expression from a text: what the parser of the
/// `symbolic_expressions` crate reads, or an error exactly when it reports
/// one.
pub fn parse_sexp(s: &str) -> (r: Result<Sexp, ParseError>)
    ensures
        r matches Ok(x) ==> sexp_parse(s@) == Some(x@),
        r is Err <==> sexp_parse(s@) is None,
{
    match parse_str_outside(s) {
        Ok(x) => Ok(x),
        Err(e) => Err(ParseError { message: sexp_error_message(&e) }),
    }
}

} // verus!
