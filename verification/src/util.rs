//! Helpers: a duplicate check over e-nodes, and the indented layout of
//! symbolic expressions.
use vstd::prelude::*;
use hashbrown::HashSet;
use crate::enode::{Enode, EnodeV};
use crate::sexp::{Sexp, SexpV, sexp_text, trim_quotes, trim_quote_chars};

verus! {

/// The e-nodes seen so far, held in a `hashbrown::HashSet`.
#[verifier::external_body]
pub struct SeenNodes {
    set: HashSet<Enode>,
}

/// The values of the e-nodes held in a `SeenNodes`.
pub uninterp spec fn seen_items(s: SeenNodes) -> Set<EnodeV>;

/// An empty set of e-nodes.
///
/// Calls `hashbrown::HashSet::new`; the contract claims the set holds
/// nothing.
#[verifier::external_body]
fn seen_new() -> (s: SeenNodes)
    ensures
        seen_items(s) == Set::<EnodeV>::empty(),
{
    SeenNodes { set: HashSet::new() }
}

/// Adds an e-node.
///
/// Calls `hashbrown::HashSet::insert`; the contract claims it returns
/// `true` exactly when no equal e-node was held (e-node equality is equality
/// of views, as the `PartialEq` of `Enode` proves, and the derived `Hash`
/// hashes the same fields), and that afterwards the set holds `n` besides
/// what it held.
#[verifier::external_body]
fn seen_insert(s: &mut SeenNodes, n: Enode) -> (b: bool)
    ensures
        b == !seen_items(*old(s)).contains(n@),
        seen_items(*final(s)) == seen_items(*old(s)).insert(n@),
{
    s.set.insert(n)
}

/// The values of a sequence of e-nodes.
pub open spec fn nodes_view(s: Seq<Enode>) -> Seq<EnodeV> {
    s.map_values(|n: Enode| n@)
}

/// Whether no e-node occurs twice among `items`; stops at the first
/// repeat.
pub fn has_unique_elements(items: Vec<Enode>) -> (b: bool)
    ensures
        b == nodes_view(items@).no_duplicates(),
{
    let ghost vs = nodes_view(items@);
    let mut uniq = seen_new();
    let mut i: usize = 0;
    while i < items.len()
        invariant
            vs == nodes_view(items@),
            i <= items.len(),
            forall|v: EnodeV| seen_items(uniq).contains(v) <==> exists|k: int| 0 <= k < i && #[trigger] vs[k] == v,
            forall|a: int, c: int| 0 <= a < c < i ==> #[trigger] vs[a] != #[trigger] vs[c],
        decreases items.len() - i,
    {
        let x = items[i].clone();
        assert(x@ == vs[i as int]);
        if !seen_insert(&mut uniq, x) {
            proof {
                let k = choose|k: int| 0 <= k < i && #[trigger] vs[k] == vs[i as int];
                assert(vs[k] == vs[i as int] && k != i);
            }
            return false;
        }
        proof {
            assert forall|a: int, c: int| 0 <= a < c < i + 1 implies #[trigger] vs[a] != #[trigger] vs[c] by {
                if c == i {
                    if vs[a] == vs[c] {
                        assert(exists|k: int| 0 <= k < i && #[trigger] vs[k] == vs[i as int]);
                    }
                }
            }
        }
        i = i + 1;
    }
    true
}

/// How deep `level` grows below an expression: one more for each list
/// that has items.
pub open spec fn sexp_depth(x: SexpV) -> nat
    decreases x, 0nat,
{
    match x {
        SexpV::List(v) => if v.len() == 0 {
            0
        } else {
            1 + items_depth(v, v.len())
        },
        _ => 0,
    }
}

/// The greatest depth among the first `n` items of `v`.
pub open spec fn items_depth(v: Seq<SexpV>, n: nat) -> nat
    decreases v, n,
{
    if n == 0 || n > v.len() {
        0
    } else {
        let a = items_depth(v, (n - 1) as nat);
        let b = sexp_depth(v[n - 1]);
        if a < b {
            b
        } else {
            a
        }
    }
}

/// `k` spaces.
pub open spec fn spaces(k: nat) -> Seq<char> {
    Seq::new(k, |i: int| ' ')
}

/// The length in bytes of a text.
pub open spec fn byte_len(s: Seq<char>) -> usize {
    vstd::utf8::encode_utf8(s).len() as usize
}

/// The indented layout of an expression at depth `level`: a list whose
/// printed text is longer (in bytes) than `width` puts each item after the
/// first on a new line indented by three spaces per level; a shorter list
/// separates its items by two spaces; an atom is printed without its
/// surrounding double quotes.
pub open spec fn pretty_text(x: SexpV, width: usize, level: nat) -> Seq<char>
    decreases x, 0nat,
{
    match x {
        SexpV::List(v) => seq!['('] + pretty_items(v, v.len(), width, level, byte_len(sexp_text(x)) > width)
            + seq![')'],
        _ => trim_quotes(sexp_text(x)),
    }
}

/// The layout of the first `n` items of a list at depth `level`, indented
/// or not.
pub open spec fn pretty_items(v: Seq<SexpV>, n: nat, width: usize, level: nat, indent: bool) -> Seq<char>
    decreases v, n,
{
    if n == 0 || n > v.len() {
        Seq::empty()
    } else {
        pretty_items(v, (n - 1) as nat, width, level, indent) + (if indent && n - 1 > 0 {
            seq!['\n'] + spaces(3 * level)
        } else {
            Seq::empty()
        }) + pretty_text(v[n - 1], width, level + 1) + (if !indent && n < v.len() {
            seq![' ', ' ']
        } else {
            Seq::empty()
        })
    }
}

proof fn lemma_items_depth(v: Seq<SexpV>, n: nat, k: int)
    requires
        n <= v.len(),
        0 <= k < n,
    ensures
        sexp_depth(v[k]) <= items_depth(v, n),
    decreases n,
{
    if k < n - 1 {
        lemma_items_depth(v, (n - 1) as nat, k);
    }
}

/// Appends to `buf` the indented layout of `sexp` at depth `level`, with
/// lists longer than `width` bytes broken over lines (see `pretty_text`).
pub fn format_pretty_string(buf: &mut String, sexp: &Sexp, width: usize, level: usize) -> (r: std::fmt::Result)
    requires
        level + sexp_depth(sexp@) <= usize::MAX,
    ensures
        final(buf)@ == old(buf)@ + pretty_text(sexp@, width, level as nat),
        r is Ok,
    decreases sexp,
{
    match sexp {
        Sexp::List(list) => {
            let ghost vv = sexp@->List_0;
            let ghost start = buf@;
            let indent = sexp.to_string().as_str().len() > width;
            buf.append("(");
            proof {
                reveal_strlit("(");
            }
            let mut i: usize = 0;
            while i < list.len()
                invariant
                    *sexp == Sexp::List(*list),
                    vv == sexp@->List_0,
                    vv.len() == list@.len(),
                    level + sexp_depth(sexp@) <= usize::MAX,
                    indent == (byte_len(sexp_text(sexp@)) > width),
                    i <= list.len(),
                    buf@ == start + seq!['('] + pretty_items(vv, i as nat, width, level as nat, indent),
                decreases list.len() - i,
            {
                proof {
                    assert(decreases_to!(*sexp => (*sexp)->List_0));
                    assert((*sexp)->List_0 == *list);
                    assert(decreases_to!(*list => list@));
                    assert(decreases_to!(list@ => list@[i as int]));
                    assert(vv[i as int] == list@[i as int]@);
                    lemma_items_depth(vv, vv.len(), i as int);
                }
                let ghost before = buf@;
                if indent && i > 0 {
                    buf.append("\n");
                    proof {
                        reveal_strlit("\n");
                        assert(buf@ =~= before + seq!['\n'] + spaces(0));
                    }
                    let mut k: usize = 0;
                    while k < level
                        invariant
                            k <= level,
                            buf@ == before + seq!['\n'] + spaces(3 * k as nat),
                        decreases level - k,
                    {
                        buf.append("   ");
                        proof {
                            reveal_strlit("   ");
                            assert(spaces(3 * (k + 1) as nat) =~= spaces(3 * k as nat) + "   "@);
                        }
                        k = k + 1;
                    }
                }
                let ghost mid = buf@;
                let _ = format_pretty_string(buf, &list[i], width, level + 1);
                if !indent && i < list.len() - 1 {
                    buf.append("  ");
                    proof {
                        reveal_strlit("  ");
                        assert("  "@ =~= seq![' ', ' ']);
                    }
                }
                i = i + 1;
                proof {
                    assert(buf@ =~= start + seq!['('] + pretty_items(vv, i as nat, width, level as nat, indent));
                }
            }
            buf.append(")");
            proof {
                reveal_strlit(")");
            }
        },
        _ => {
            let t = sexp.to_string();
            let u = trim_quote_chars(t.as_str());
            buf.append(u.as_str());
        },
    }
    Ok(())
}

/// Whether a text holds no bracket, no line break and no space.
pub open spec fn text_plain(t: Seq<char>) -> bool {
    forall|j: int| 0 <= j < t.len() ==> #[trigger] t[j] != '(' && t[j] != ')' && t[j] != '\n' && t[j] != ' '
}

/// Whether every atom of `x`, as the layout prints it, is plain text.
pub open spec fn plain_atoms(x: SexpV) -> bool
    decreases x, 0nat,
{
    match x {
        SexpV::List(v) => plain_items(v, v.len()),
        _ => text_plain(trim_quotes(sexp_text(x))) && trim_quotes(sexp_text(x)).len() > 0,
    }
}

/// Whether the first `n` items of `v` have plain atoms only.
pub open spec fn plain_items(v: Seq<SexpV>, n: nat) -> bool
    decreases v, n,
{
    if n == 0 || n > v.len() {
        true
    } else {
        plain_items(v, (n - 1) as nat) && plain_atoms(v[n - 1])
    }
}

/// How many brackets a text leaves open: `(` counts one, `)` minus one.
pub open spec fn open_brackets(s: Seq<char>) -> int
    decreases s.len(),
{
    if s.len() == 0 {
        0
    } else {
        open_brackets(s.drop_last()) + if s.last() == '(' {
            1int
        } else if s.last() == ')' {
            -1int
        } else {
            0int
        }
    }
}

/// Every line break of `s` is followed by exactly three spaces for each
/// bracket open before it, plus `3 * base`, and then by more text.
pub open spec fn breaks_indented(s: Seq<char>, base: int) -> bool {
    forall|i: int|
        0 <= i < s.len() && #[trigger] s[i] == '\n' ==> {
            let k = 3 * (base + open_brackets(s.take(i)));
            &&& 0 <= k
            &&& i + 1 + k < s.len()
            &&& forall|j: int| i + 1 <= j < i + 1 + k ==> s[j] == ' '
            &&& s[i + 1 + k] != ' '
        }
}

proof fn lemma_open_brackets_add(a: Seq<char>, b: Seq<char>)
    ensures
        open_brackets(a + b) == open_brackets(a) + open_brackets(b),
    decreases b.len(),
{
    if b.len() > 0 {
        lemma_open_brackets_add(a, b.drop_last());
        assert((a + b).drop_last() =~= a + b.drop_last());
    } else {
        assert(a + b =~= a);
    }
}

proof fn lemma_plain_no_brackets(t: Seq<char>)
    requires
        text_plain(t),
    ensures
        open_brackets(t) == 0,
        breaks_indented(t, 0),
    decreases t.len(),
{
    if t.len() > 0 {
        assert(text_plain(t.drop_last())) by {
            assert forall|j: int| 0 <= j < t.drop_last().len() implies #[trigger] t.drop_last()[j] != '('
                && t.drop_last()[j] != ')' && t.drop_last()[j] != '\n' by {
                assert(t.drop_last()[j] == t[j]);
            }
        }
        lemma_plain_no_brackets(t.drop_last());
        assert(t[t.len() - 1] != '(' && t[t.len() - 1] != ')');
    }
}

proof fn lemma_open_one(c: char)
    ensures
        open_brackets(seq![c]) == if c == '(' {
            1int
        } else if c == ')' {
            -1int
        } else {
            0int
        },
{
    assert(seq![c].drop_last() =~= Seq::<char>::empty());
    assert(open_brackets(Seq::<char>::empty()) == 0);
}

proof fn lemma_breaks_concat(a: Seq<char>, b: Seq<char>, base: int)
    requires
        breaks_indented(a, base),
        breaks_indented(b, base + open_brackets(a)),
    ensures
        breaks_indented(a + b, base),
{
    let s = a + b;
    assert forall|i: int| 0 <= i < s.len() && #[trigger] s[i] == '\n' implies {
        let k = 3 * (base + open_brackets(s.take(i)));
        &&& 0 <= k
        &&& i + 1 + k < s.len()
        &&& forall|j: int| i + 1 <= j < i + 1 + k ==> s[j] == ' '
        &&& s[i + 1 + k] != ' '
    } by {
        if i < a.len() {
            assert(s.take(i) =~= a.take(i));
            assert(a[i] == '\n');
            let k = 3 * (base + open_brackets(a.take(i)));
            assert forall|j: int| i + 1 <= j < i + 1 + k implies s[j] == ' ' by {
                assert(s[j] == a[j]);
            }
            assert(s[i + 1 + k] == a[i + 1 + k]);
        } else {
            let i2 = i - a.len();
            assert(s.take(i) =~= a + b.take(i2));
            lemma_open_brackets_add(a, b.take(i2));
            assert(b[i2] == '\n');
            let k = 3 * (base + open_brackets(s.take(i)));
            assert(k == 3 * (base + open_brackets(a) + open_brackets(b.take(i2))));
            assert forall|j: int| i + 1 <= j < i + 1 + k implies s[j] == ' ' by {
                assert(s[j] == b[j - a.len()]);
            }
            assert(s[i + 1 + k] == b[i + 1 + k - a.len()]);
        }
    }
}

/// A line break and the indentation `3 * level` before a text that starts
/// with no space.
proof fn lemma_breaks_after_sep(level: nat, item: Seq<char>)
    requires
        item.len() > 0,
        item[0] != ' ',
        breaks_indented(item, level as int),
    ensures
        breaks_indented(seq!['\n'] + spaces(3 * level) + item, level as int),
        open_brackets(seq!['\n'] + spaces(3 * level)) == 0,
{
    let sp = spaces(3 * level);
    let sep = seq!['\n'] + sp;
    let s = sep + item;
    lemma_open_one('\n');
    lemma_spaces_no_brackets(3 * level);
    lemma_open_brackets_add(seq!['\n'], sp);
    assert forall|i: int| 0 <= i < s.len() && #[trigger] s[i] == '\n' implies {
        let k = 3 * (level + open_brackets(s.take(i)));
        &&& 0 <= k
        &&& i + 1 + k < s.len()
        &&& forall|j: int| i + 1 <= j < i + 1 + k ==> s[j] == ' '
        &&& s[i + 1 + k] != ' '
    } by {
        if i == 0 {
            assert(s.take(0) =~= Seq::<char>::empty());
            assert forall|j: int| 1 <= j < 1 + 3 * level implies s[j] == ' ' by {
                assert(s[j] == sp[j - 1]);
            }
            assert(s[(1 + 3 * level) as int] == item[0]);
        } else if i < sep.len() {
            assert(s[i] == sp[i - 1]);
        } else {
            let i2 = i - sep.len();
            assert(s.take(i) =~= sep + item.take(i2));
            lemma_open_brackets_add(sep, item.take(i2));
            assert(item[i2] == '\n');
            let k = 3 * (level + open_brackets(s.take(i)));
            assert forall|j: int| i + 1 <= j < i + 1 + k implies s[j] == ' ' by {
                assert(s[j] == item[j - sep.len()]);
            }
            assert(s[i + 1 + k] == item[i + 1 + k - sep.len()]);
        }
    }
}

proof fn lemma_spaces_no_brackets(k: nat)
    ensures
        open_brackets(spaces(k)) == 0,
    decreases k,
{
    if k > 0 {
        lemma_spaces_no_brackets((k - 1) as nat);
        assert(spaces(k).drop_last() =~= spaces((k - 1) as nat));
    } else {
        assert(spaces(k) =~= Seq::<char>::empty());
    }
}

proof fn lemma_no_break_text(t: Seq<char>, base: int)
    requires
        forall|j: int| 0 <= j < t.len() ==> #[trigger] t[j] != '\n',
    ensures
        breaks_indented(t, base),
{
}

/// The indented layout shows the nesting: at depth `level`, each line
/// break is followed by exactly three spaces per level of nesting, that is
/// `3 * (level - 1 + d)` where `d` is the number of lists open at that
/// point of the text, and then by an item; and the brackets of the text
/// balance.  (It holds of expressions whose atoms print as non-empty text
/// without brackets, spaces or line breaks.)
pub proof fn lemma_pretty_indents_nesting(x: SexpV, width: usize, level: nat)
    requires
        plain_atoms(x),
    ensures
        breaks_indented(pretty_text(x, width, level), level - 1),
        open_brackets(pretty_text(x, width, level)) == 0,
        pretty_text(x, width, level).len() > 0,
        pretty_text(x, width, level)[0] != ' ',
    decreases x, 0nat,
{
    match x {
        SexpV::List(v) => {
            let ind = byte_len(sexp_text(x)) > width;
            let items = pretty_items(v, v.len(), width, level, ind);
            lemma_pretty_items_nesting(v, v.len(), width, level, ind);
            lemma_no_break_text(seq!['('], level - 1);
            lemma_no_break_text(seq![')'], level - 1);
            lemma_open_one('(');
            lemma_open_one(')');
            lemma_breaks_concat(seq!['('], items, level - 1);
            lemma_open_brackets_add(seq!['('], items);
            lemma_breaks_concat(seq!['('] + items, seq![')'], level - 1);
            lemma_open_brackets_add(seq!['('] + items, seq![')']);
            assert(pretty_text(x, width, level)[0] == '(');
        },
        _ => {
            let t = trim_quotes(sexp_text(x));
            lemma_plain_no_brackets(t);
            assert forall|j: int| 0 <= j < t.len() implies #[trigger] t[j] != '\n' by {
            }
            lemma_no_break_text(t, level - 1);
            assert(t[0] != ' ');
        },
    }
}

proof fn lemma_pretty_items_nesting(v: Seq<SexpV>, n: nat, width: usize, level: nat, indent: bool)
    requires
        plain_items(v, v.len()),
        n <= v.len(),
    ensures
        breaks_indented(pretty_items(v, n, width, level, indent), level as int),
        open_brackets(pretty_items(v, n, width, level, indent)) == 0,
    decreases v, n,
{
    if n > 0 {
        lemma_pretty_items_nesting(v, (n - 1) as nat, width, level, indent);
        lemma_plain_item(v, v.len(), (n - 1) as int);
        assert(decreases_to!(v => v[n - 1]));
        lemma_pretty_indents_nesting(v[n - 1], width, level + 1);
        let prev = pretty_items(v, (n - 1) as nat, width, level, indent);
        let sep: Seq<char> = if indent && n - 1 > 0 {
            seq!['\n'] + spaces(3 * level)
        } else {
            Seq::empty()
        };
        let item = pretty_text(v[n - 1], width, level + 1);
        let tail: Seq<char> = if !indent && n < v.len() {
            seq![' ', ' ']
        } else {
            Seq::empty()
        };
        assert(pretty_items(v, n, width, level, indent) == prev + sep + item + tail);
        assert(open_brackets(tail) == 0 && breaks_indented(tail, level as int)) by {
            if !indent && n < v.len() {
                assert(tail =~= spaces(2));
                lemma_spaces_no_brackets(2);
            } else {
                assert(tail =~= Seq::<char>::empty());
            }
        }
        assert((level + 1) - 1 == level as int);
        if indent && n - 1 > 0 {
            lemma_breaks_after_sep(level, item);
            lemma_open_brackets_add(sep, item);
            assert(prev + sep + item =~= prev + (sep + item));
            lemma_breaks_concat(prev, sep + item, level as int);
            lemma_open_brackets_add(prev, sep + item);
        } else {
            assert(sep =~= Seq::<char>::empty());
            assert(prev + sep + item =~= prev + item);
            lemma_breaks_concat(prev, item, level as int);
            lemma_open_brackets_add(prev, item);
        }
        lemma_breaks_concat(prev + sep + item, tail, level as int);
        lemma_open_brackets_add(prev + sep + item, tail);
    } else {
        assert(pretty_items(v, n, width, level, indent) =~= Seq::<char>::empty());
    }
}

proof fn lemma_plain_item(v: Seq<SexpV>, n: nat, k: int)
    requires
        plain_items(v, n),
        n <= v.len(),
        0 <= k < n,
    ensures
        plain_atoms(v[k]),
    decreases n,
{
    if k < n - 1 {
        lemma_plain_item(v, (n - 1) as nat, k);
    }
}

/// `std::fmt::Error`, the error of writing formatted text, declared so
/// that it can stand in signatures; nothing is claimed of its values.
#[verifier::external_type_specification]
#[verifier::external_body]
pub struct ExFmtError(std::fmt::Error);

} // verus!
