use egs::pattern::{new_pattern, split_lines, split_rule_line};
use egs::sexp::{encode_string, parse_sexp, trim_quote_chars, Sexp};
use egs::terms::Term;
use egs::test::build_node;
use egs::util::{format_pretty_string, has_unique_elements};
use egs::{Enode, Id, Pattern, Rule};

fn term(s: &str) -> Sexp {
    parse_sexp(s).ok().unwrap()
}

#[test]
fn parse_and_print_round() {
    let x = term("(a (b c) \"d e\")");
    match &x {
        Sexp::List(v) => {
            assert_eq!(v.len(), 3);
            assert!(matches!(&v[0], Sexp::Atom(s) if s == "a"));
            assert!(matches!(&v[2], Sexp::Atom(s) if s == "d e"));
        }
        _ => panic!("not a list"),
    }
    assert_eq!(x.to_string(), "(a (b c) \"d e\")");
    assert!(matches!(term(""), Sexp::Empty));
    assert_eq!(Sexp::Empty.to_string(), "");
    assert_eq!(Sexp::List(Vec::new()).to_string(), "()");
}

#[test]
fn parse_errors_are_reported() {
    assert!(parse_sexp(")").is_err());
    assert!(parse_sexp("(a b").is_err());
    assert!(!parse_sexp("(a b").err().unwrap().message.is_empty());
}

#[test]
fn atoms_are_quoted_when_needed() {
    assert_eq!(encode_string(&String::from("abc")), "abc");
    assert_eq!(encode_string(&String::from("")), "\"\"");
    assert_eq!(encode_string(&String::from("a b")), "\"a b\"");
    assert_eq!(encode_string(&String::from("x%")), "\"x%\"");
    assert_eq!(encode_string(&String::from("{")), "\"{\"");
}

#[test]
fn quotes_are_trimmed_at_both_ends() {
    assert_eq!(trim_quote_chars("\"\"x\"y\""), "x\"y");
    assert_eq!(trim_quote_chars("\"\"\""), "");
    assert_eq!(trim_quote_chars("plain"), "plain");
}

#[test]
fn pretty_layout_breaks_long_lists() {
    let mut buf = String::new();
    assert!(format_pretty_string(&mut buf, &term("(+ (* a 2) (/ b 3))"), 10, 1).is_ok());
    assert_eq!(buf, "(+\n   (*  a  2)\n   (/  b  3))");
    let mut short = String::from(">");
    assert!(format_pretty_string(&mut short, &term("(f x)"), 10, 1).is_ok());
    assert_eq!(short, ">(f  x)");
    let mut atom = String::new();
    assert!(format_pretty_string(&mut atom, &term("\"a b\""), 10, 0).is_ok());
    assert_eq!(atom, "a b");
}

#[test]
fn duplicate_enodes_are_found() {
    let a = Enode::new(String::from("a"));
    let b = Enode::new(String::from("b"));
    assert!(has_unique_elements(vec![a.clone(), b.clone()]));
    assert!(!has_unique_elements(vec![a.clone(), b, a]));
    assert!(has_unique_elements(Vec::new()));
}

#[test]
fn patterns_from_expressions() {
    let p = new_pattern(term("(* P_a 2)")).unwrap();
    let two = Pattern::PatTerm(String::from("2"), Vec::new());
    assert_eq!(
        p,
        Pattern::PatTerm(
            String::from("*"),
            vec![Box::new(Pattern::PatVar(String::from("P_a"))), Box::new(two)]
        )
    );
    assert_eq!(new_pattern(term("P_")), Some(Pattern::PatVar(String::from("P_"))));
    assert_eq!(new_pattern(term("P")), Some(Pattern::PatTerm(String::from("P"), Vec::new())));
    assert_eq!(new_pattern(term("((a) b)")), None);
    assert_eq!(new_pattern(Sexp::Empty), None);
    assert!(Rule::new_rule(term("((a) b)"), term("c")).is_none());
    let r = Rule::new_rule(term("(f P_x)"), term("P_x")).unwrap();
    assert_eq!(r.rhs, Pattern::PatVar(String::from("P_x")));
}

#[test]
fn lines_and_rule_sides() {
    assert_eq!(split_lines("a\r\nb\n\nc"), vec!["a", "b", "", "c"]);
    assert_eq!(split_lines("x\n"), vec!["x"]);
    assert_eq!(split_lines("x\r"), vec!["x\r"]);
    assert!(split_lines("").is_empty());
    assert_eq!(
        split_rule_line("(+ a b) -> c -> d"),
        Some((String::from("(+ a b) "), String::from(" c ")))
    );
    assert_eq!(split_rule_line("a->b"), Some((String::from("a"), String::from("b"))));
    assert_eq!(split_rule_line("no arrow"), None);
    assert_eq!(split_rule_line(""), None);
}

#[test]
fn terms_and_nodes() {
    let t = Term::new(String::from("x"));
    assert_eq!(t.head, "x");
    assert!(t.args.is_empty());
    assert_eq!(t.clone(), t);
    let n = build_node(String::from("root"));
    assert!(n.child.is_none());
    assert_eq!(n.strn, "root");
    let mut e = Enode::new(String::from("f"));
    assert_eq!(e.len(), 0);
    e.args.push(Id(3));
    assert_eq!(e.len(), 1);
    assert_ne!(e, Enode::new(String::from("f")));
}
