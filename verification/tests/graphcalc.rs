use oxvoid::graphcalc::{is_ascii_digit, numeral_is_valid, parse_expr, Expr, Number, Parser};

fn show(input: &str) -> String {
    match parse_expr(input) {
        Some(e) => format!("{:?}", e),
        None => String::from("none"),
    }
}

#[test]
fn parses_the_variable() {
    assert_eq!(show("x"), "Var");
    assert_eq!(show("X"), "Var");
}

#[test]
fn parses_a_function_call() {
    assert_eq!(show("sin(x)"), "Fn1(['s', 'i', 'n'], Var)");
}

#[test]
fn function_names_are_lowercased() {
    assert_eq!(show("SIN(x)"), "Fn1(['s', 'i', 'n'], Var)");
    assert_eq!(show("Cos(X)"), "Fn1(['c', 'o', 's'], Var)");
}

#[test]
fn power_then_division() {
    assert_eq!(show("x^2/10"), "Div(Pow(Var, Num(Literal(['2']))), Num(Literal(['1', '0'])))");
}

#[test]
fn call_times_number() {
    assert_eq!(show("cos(x)*2"), "Mul(Fn1(['c', 'o', 's'], Var), Num(Literal(['2'])))");
}

#[test]
fn addition_is_left_associative() {
    assert_eq!(show("x-1+2"), "Add(Sub(Var, Num(Literal(['1']))), Num(Literal(['2'])))");
}

#[test]
fn multiplication_binds_tighter_than_addition() {
    assert_eq!(show("1+2*x"), "Add(Num(Literal(['1'])), Mul(Num(Literal(['2'])), Var))");
}

#[test]
fn implicit_product_after_a_number() {
    assert_eq!(show("2x"), "Mul(Num(Literal(['2'])), Var)");
    assert_eq!(show("2 x"), "Mul(Num(Literal(['2'])), Var)");
    assert_eq!(show("2(x+1)"), "Mul(Num(Literal(['2'])), Add(Var, Num(Literal(['1']))))");
    assert_eq!(show("2pi"), "Mul(Num(Literal(['2'])), Num(Pi))");
}

#[test]
fn implicit_product_after_a_call() {
    assert_eq!(show("sin(x)x"), "Mul(Fn1(['s', 'i', 'n'], Var), Var)");
}

#[test]
fn constants() {
    assert_eq!(show("pi"), "Num(Pi)");
    assert_eq!(show("PI"), "Num(Pi)");
    assert_eq!(show("e"), "Num(E)");
    assert_eq!(show("E"), "Num(E)");
    assert_eq!(show("e+1"), "Add(Num(E), Num(Literal(['1'])))");
    assert_eq!(show("2e"), "Mul(Num(Literal(['2'])), Num(E))");
}

#[test]
fn e_followed_by_a_letter_is_a_name() {
    assert_eq!(show("exp(x)"), "Fn1(['e', 'x', 'p'], Var)");
    assert_eq!(show("ex"), "none");
}

#[test]
fn names_starting_with_p_must_be_pi() {
    assert_eq!(show("pow(x)"), "none");
    assert_eq!(show("p"), "none");
}

#[test]
fn unknown_constant_fails() {
    assert_eq!(show("foo"), "none");
    assert_eq!(show("sin x"), "none");
}

#[test]
fn numerals() {
    assert_eq!(show("3.25"), "Num(Literal(['3', '.', '2', '5']))");
    assert_eq!(show("3."), "Num(Literal(['3', '.']))");
    assert_eq!(show(".5"), "Num(Literal(['.', '5']))");
    assert_eq!(show("1.2.3"), "none");
    assert_eq!(show("."), "none");
}

#[test]
fn negation() {
    assert_eq!(show("-x"), "Neg(Var)");
    assert_eq!(show("2^-x"), "Pow(Num(Literal(['2'])), Neg(Var))");
    assert_eq!(show("--x"), "none");
}

#[test]
fn power_is_not_chained() {
    assert_eq!(show("x^2^3"), "Pow(Var, Num(Literal(['2'])))");
}

#[test]
fn whitespace_is_skipped() {
    assert_eq!(show("  x + 1"), "Add(Var, Num(Literal(['1'])))");
    assert_eq!(show("\tx\n*\r2"), "Mul(Var, Num(Literal(['2'])))");
}

#[test]
fn missing_closing_parenthesis_is_allowed() {
    assert_eq!(show("(x+1"), "Add(Var, Num(Literal(['1'])))");
    assert_eq!(show("sin(x"), "Fn1(['s', 'i', 'n'], Var)");
}

#[test]
fn trailing_input_is_ignored() {
    assert_eq!(show("x)"), "Var");
    assert_eq!(show("x y"), "Var");
}

#[test]
fn incomplete_input_fails() {
    assert_eq!(show(""), "none");
    assert_eq!(show("   "), "none");
    assert_eq!(show("x-"), "none");
    assert_eq!(show("x*"), "none");
    assert_eq!(show("()"), "none");
    assert_eq!(show("+x"), "none");
}

#[test]
fn expression_values_can_be_inspected() {
    match parse_expr("2x") {
        Some(Expr::Mul(a, b)) => {
            assert!(matches!(*a, Expr::Num(Number::Literal(ref d)) if d == &vec!['2']));
            assert!(matches!(*b, Expr::Var));
        }
        other => panic!("unexpected {:?}", other),
    }
}

#[test]
fn parser_steps() {
    let mut p = Parser::new("  ab");
    assert_eq!(p.chars, vec![' ', ' ', 'a', 'b']);
    assert_eq!(p.peek(), Some(' '));
    p.skip_ws();
    assert_eq!(p.pos, 2);
    assert_eq!(p.next(), Some('a'));
    assert_eq!(p.next(), Some('b'));
    assert_eq!(p.next(), None);
    assert_eq!(p.pos, 5);
    assert_eq!(p.peek(), None);
}

#[test]
fn parser_parse_from_position() {
    let mut p = Parser::new("x+1");
    p.pos = 2;
    assert_eq!(format!("{:?}", p.parse().unwrap()), "Num(Literal(['1']))");
}

#[test]
fn digits_and_numerals() {
    assert!(is_ascii_digit('0'));
    assert!(is_ascii_digit('9'));
    assert!(!is_ascii_digit('a'));
    assert!(!is_ascii_digit('.'));
    assert!(numeral_is_valid(&vec!['1', '.', '5']));
    assert!(!numeral_is_valid(&vec!['.']));
    assert!(!numeral_is_valid(&vec!['1', '.', '.']));
    assert!(!numeral_is_valid(&vec![]));
}

#[test]
fn failed_atom_stops_where_it_failed() {
    let mut p = Parser::new("pi");
    assert_eq!(format!("{:?}", p.parse_atom().unwrap()), "Num(Pi)");
    assert_eq!(p.pos, 2);
    // A `p` not followed by `i` goes back to the `p`, after the whitespace.
    let mut q = Parser::new("pa");
    assert!(q.parse_atom().is_none());
    assert_eq!(q.pos, 0);
    let mut q2 = Parser::new(" pa");
    assert!(q2.parse_atom().is_none());
    assert_eq!(q2.pos, 1);
    let mut z = Parser::new("");
    assert!(z.parse_atom().is_none());
    assert_eq!(z.pos, 0);
    // An unknown name stops after the name and the whitespace after it.
    let mut w = Parser::new("  foo  +");
    assert!(w.parse_atom().is_none());
    assert_eq!(w.pos, 7);
    // An invalid numeral stops after the numeral.
    let mut n = Parser::new("1.2.3 x");
    assert!(n.parse_atom().is_none());
    assert_eq!(n.pos, 5);
    // Any other character stops after the whitespace before it.
    let mut o = Parser::new("   +");
    assert!(o.parse_atom().is_none());
    assert_eq!(o.pos, 3);
}

#[test]
fn failed_parse_stops_where_the_innermost_rule_failed() {
    let mut p = Parser::new("x+(1*");
    assert!(p.parse().is_none());
    assert_eq!(p.pos, 5);
    let mut q = Parser::new("x + 1 )");
    assert!(q.parse().is_some());
    assert_eq!(q.pos, 6);
    let mut r = Parser::new("sin(x)pa");
    assert!(r.parse().is_none());
    assert_eq!(r.pos, 6);
}

#[test]
fn unicode_whitespace_and_letters() {
    assert_eq!(show("\u{3000}x"), "Var");
    assert_eq!(show("\u{2003}x\u{00A0}+1"), "Add(Var, Num(Literal(['1'])))");
    assert_eq!(show("ÉXP(x)"), "Fn1(['é', 'x', 'p'], Var)");
}
