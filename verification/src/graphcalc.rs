//! Expressions in one variable `x` and their recursive-descent parser.
//!
//! Grammar, whitespace allowed between tokens:
//!
//! ```text
//! add   := mul (('+' | '-') mul)*
//! mul   := pow (('*' | '/') pow)*
//! pow   := unary ('^' unary)?
//! unary := '-' atom | atom
//! atom  := '(' add ')'?            -- the closing parenthesis may be missing
//!        | 'x' | 'X'
//!        | ('p' | 'P') ('i' | 'I')  -- pi
//!        | 'e'                      -- when no letter follows
//!        | name '(' add ')'? atom?  -- function call, then implicit product
//!        | name                     -- "pi" or "e", in any case
//!        | numeral atom?            -- number, then implicit product
//! ```
//!
//! Numbers are kept as their digits: evaluating an expression is floating
//! point and is the host's work.
use vstd::prelude::*;

verus! {

// ── Characters ────────────────────────────────────────────────────

/// Whether `c` has the Unicode Alphabetic property (`char::is_alphabetic`).
pub uninterp spec fn is_alphabetic(c: char) -> bool;

/// The lower-case form of a string (`str::to_lowercase`).
pub uninterp spec fn lowercase(s: Seq<char>) -> Seq<char>;

/// Whether `c` has the Unicode White_Space property: tab to carriage
/// return, space, next line, no-break space, ogham space mark, the spaces
/// U+2000 to U+200A, line and paragraph separators, narrow no-break space,
/// medium mathematical space and ideographic space.
pub open spec fn is_whitespace(c: char) -> bool {
    let u = c as u32;
    ||| 0x09 <= u <= 0x0D
    ||| u == 0x20
    ||| u == 0x85
    ||| u == 0xA0
    ||| u == 0x1680
    ||| 0x2000 <= u <= 0x200A
    ||| u == 0x2028
    ||| u == 0x2029
    ||| u == 0x202F
    ||| u == 0x205F
    ||| u == 0x3000
}

/// Whether `c` is a letter to the parser: among ASCII characters exactly
/// `a` to `z` and `A` to `Z`, beyond ASCII the Alphabetic property.
pub open spec fn alpha_char(c: char) -> bool {
    if (c as u32) < 128 {
        'a' <= c <= 'z' || 'A' <= c <= 'Z'
    } else {
        is_alphabetic(c)
    }
}

/// The ASCII lower-case form of `c`: `A` to `Z` become `a` to `z`.
pub open spec fn ascii_lower(c: char) -> char {
    if 'A' <= c <= 'Z' {
        ((c as u32) + 32) as char
    } else {
        c
    }
}

/// The lower-case form of a name: letter by letter for ASCII text, the
/// Unicode lower-case mapping otherwise.
pub open spec fn lower_name(s: Seq<char>) -> Seq<char> {
    if forall|i: int| 0 <= i < s.len() ==> (#[trigger] s[i] as u32) < 128 {
        s.map_values(|c: char| ascii_lower(c))
    } else {
        lowercase(s)
    }
}

/// Calls `char::is_alphabetic`: whether `c` has the Alphabetic property.
/// Among ASCII characters exactly the letters have it.
#[verifier::external_body]
fn char_is_alphabetic(c: char) -> (r: bool)
    ensures
        r == is_alphabetic(c),
        r == alpha_char(c),
{
    c.is_alphabetic()
}

/// Calls `char::is_whitespace`: whether `c` has the White_Space property.
#[verifier::external_body]
fn char_is_whitespace(c: char) -> (r: bool)
    ensures
        r == is_whitespace(c),
{
    c.is_whitespace()
}

/// Calls `str::to_lowercase` on the string made of `s`, and returns the
/// characters of the result.  On ASCII text the Unicode lower-case mapping
/// turns `A` to `Z` into `a` to `z`, one for one, and keeps the rest.
#[verifier::external_body]
fn lowercase_of(s: &[char]) -> (r: Vec<char>)
    ensures
        r@ == lowercase(s@),
        r@ == lower_name(s@),
{
    let text: String = s.iter().collect();
    text.to_lowercase().chars().collect()
}

/// An ASCII decimal digit.
pub open spec fn is_digit(c: char) -> bool {
    '0' <= c <= '9'
}

/// A character of a numeral: a digit or a point.
pub open spec fn is_numeral_char(c: char) -> bool {
    is_digit(c) || c == '.'
}

/// A character that starts an implicit product after a number or a call.
pub open spec fn starts_factor(c: char) -> bool {
    c == 'x' || c == '(' || alpha_char(c)
}

/// A run of digits and points reads as a floating-point number: it has a
/// digit and at most one point.
pub open spec fn valid_numeral(t: Seq<char>) -> bool {
    &&& exists|i: int| 0 <= i < t.len() && is_digit(#[trigger] t[i])
    &&& forall|i: int, j: int| 0 <= i < t.len() && 0 <= j < t.len() && t[i] == '.' && t[j] == '.' ==> i == j
}

// ── Expressions ───────────────────────────────────────────────────

/// A number in an expression.
#[derive(Debug)]
pub enum Number {
    /// A numeral, by its characters (digits and at most one point).
    Literal(Vec<char>),
    /// The constant pi.
    Pi,
    /// The constant e.
    E,
}

/// An expression in `x`.
#[derive(Debug)]
pub enum Expr {
    Num(Number),
    Var,
    Add(Box<Expr>, Box<Expr>),
    Sub(Box<Expr>, Box<Expr>),
    Mul(Box<Expr>, Box<Expr>),
    Div(Box<Expr>, Box<Expr>),
    Pow(Box<Expr>, Box<Expr>),
    Neg(Box<Expr>),
    /// A function applied to an argument; the name is in lower case.
    Fn1(Vec<char>, Box<Expr>),
}

/// Abstract number.
pub enum NumberModel {
    Literal(Seq<char>),
    Pi,
    E,
}

/// Abstract expression.
pub enum ExprModel {
    Num(NumberModel),
    Var,
    Add(Box<ExprModel>, Box<ExprModel>),
    Sub(Box<ExprModel>, Box<ExprModel>),
    Mul(Box<ExprModel>, Box<ExprModel>),
    Div(Box<ExprModel>, Box<ExprModel>),
    Pow(Box<ExprModel>, Box<ExprModel>),
    Neg(Box<ExprModel>),
    Fn1(Seq<char>, Box<ExprModel>),
}

impl Number {
    pub open spec fn model(&self) -> NumberModel {
        match self {
            Number::Literal(t) => NumberModel::Literal(t@),
            Number::Pi => NumberModel::Pi,
            Number::E => NumberModel::E,
        }
    }
}

impl Expr {
    pub open spec fn model(&self) -> ExprModel
        decreases self,
    {
        match self {
            Expr::Num(n) => ExprModel::Num(n.model()),
            Expr::Var => ExprModel::Var,
            Expr::Add(a, b) => ExprModel::Add(Box::new(a.model()), Box::new(b.model())),
            Expr::Sub(a, b) => ExprModel::Sub(Box::new(a.model()), Box::new(b.model())),
            Expr::Mul(a, b) => ExprModel::Mul(Box::new(a.model()), Box::new(b.model())),
            Expr::Div(a, b) => ExprModel::Div(Box::new(a.model()), Box::new(b.model())),
            Expr::Pow(a, b) => ExprModel::Pow(Box::new(a.model()), Box::new(b.model())),
            Expr::Neg(a) => ExprModel::Neg(Box::new(a.model())),
            Expr::Fn1(name, a) => ExprModel::Fn1(name@, Box::new(a.model())),
        }
    }
}

// ── Grammar ───────────────────────────────────────────────────────

/// The character at `p`, if any.
pub open spec fn char_at(s: Seq<char>, p: int) -> Option<char> {
    if 0 <= p < s.len() {
        Some(s[p])
    } else {
        None
    }
}

/// How many whitespace characters start at `p`.
#[verifier::opaque]
pub open spec fn ws_run(s: Seq<char>, p: int) -> nat
    decreases s.len() - p,
{
    if 0 <= p < s.len() && is_whitespace(s[p]) {
        1 + ws_run(s, p + 1)
    } else {
        0
    }
}

/// The whitespace run ends within the text.
pub proof fn lemma_ws_run_bound(s: Seq<char>, p: int)
    ensures
        p <= s.len() ==> p + ws_run(s, p) <= s.len(),
        p < 0 ==> ws_run(s, p) == 0,
    decreases s.len() - p,
{
    reveal_with_fuel(ws_run, 1);
    if 0 <= p < s.len() && is_whitespace(s[p]) {
        lemma_ws_run_bound(s, p + 1);
    }
}

/// The position after the whitespace that starts at `p`.
pub open spec fn skip_ws(s: Seq<char>, p: int) -> int {
    p + ws_run(s, p)
}

/// How many alphabetic characters start at `p`.
#[verifier::opaque]
pub open spec fn alpha_run(s: Seq<char>, p: int) -> nat
    decreases s.len() - p,
{
    if 0 <= p < s.len() && alpha_char(s[p]) {
        1 + alpha_run(s, p + 1)
    } else {
        0
    }
}

/// How many digits and points start at `p`.
#[verifier::opaque]
pub open spec fn numeral_run(s: Seq<char>, p: int) -> nat
    decreases s.len() - p,
{
    if 0 <= p < s.len() && is_numeral_char(s[p]) {
        1 + numeral_run(s, p + 1)
    } else {
        0
    }
}

/// A parse result: the expression and how many characters it took.
pub type Parsed = Option<(ExprModel, nat)>;

/// Grammar symbols: `add`, the tail of `add`, `mul`, the tail of `mul`,
/// `pow`, `unary`, `atom`.
pub open spec fn ADD() -> nat { 6 }
pub open spec fn ADD_REST() -> nat { 5 }
pub open spec fn MUL() -> nat { 4 }
pub open spec fn MUL_REST() -> nat { 3 }
pub open spec fn POW() -> nat { 2 }
pub open spec fn UNARY() -> nat { 1 }
pub open spec fn ATOM() -> nat { 0 }

/// Symbol `sym` at `p`; for the tails, `left` is what precedes them.
#[verifier::opaque]
pub open spec fn parse_sym(s: Seq<char>, p: int, sym: nat, left: ExprModel) -> Parsed
    decreases s.len() - p, sym,
{
    if p > s.len() || sym > 6 {
        None
    } else if sym == 6 {
        match parse_sym(s, p, 4, ExprModel::Var) {
            None => None,
            Some((l, c)) => if p + c <= s.len() {
                match parse_sym(s, p + c, 5, l) {
                    None => None,
                    Some((e, c2)) => Some((e, c + c2)),
                }
            } else {
                None
            },
        }
    } else if sym == 5 || sym == 3 {
        let q = skip_ws(s, p);
        let (op1, op2) = if sym == 5 { ('+', '-') } else { ('*', '/') };
        if char_at(s, q) == Some(op1) || char_at(s, q) == Some(op2) {
            match parse_sym(s, q + 1, (sym - 1) as nat, ExprModel::Var) {
                None => None,
                Some((right, c)) => if q + 1 + c <= s.len() {
                    let e = if char_at(s, q) == Some('+') {
                        ExprModel::Add(Box::new(left), Box::new(right))
                    } else if char_at(s, q) == Some('-') {
                        ExprModel::Sub(Box::new(left), Box::new(right))
                    } else if char_at(s, q) == Some('*') {
                        ExprModel::Mul(Box::new(left), Box::new(right))
                    } else {
                        ExprModel::Div(Box::new(left), Box::new(right))
                    };
                    match parse_sym(s, q + 1 + c, sym, e) {
                        None => None,
                        Some((e2, c2)) => Some((e2, (q + 1 + c + c2 - p) as nat)),
                    }
                } else {
                    None
                },
            }
        } else {
            Some((left, (q - p) as nat))
        }
    } else if sym == 4 {
        match parse_sym(s, p, 2, ExprModel::Var) {
            None => None,
            Some((l, c)) => if p + c <= s.len() {
                match parse_sym(s, p + c, 3, l) {
                    None => None,
                    Some((e, c2)) => Some((e, c + c2)),
                }
            } else {
                None
            },
        }
    } else if sym == 2 {
        match parse_sym(s, p, 1, ExprModel::Var) {
            None => None,
            Some((base, c)) => if p + c <= s.len() {
                let q = skip_ws(s, p + c);
                if char_at(s, q) == Some('^') {
                    match parse_sym(s, q + 1, 1, ExprModel::Var) {
                        None => None,
                        Some((ex, c2)) => Some((ExprModel::Pow(Box::new(base), Box::new(ex)), (q + 1 + c2 - p) as nat)),
                    }
                } else {
                    Some((base, (q - p) as nat))
                }
            } else {
                None
            },
        }
    } else if sym == 1 {
        let q = skip_ws(s, p);
        proof {
            lemma_ws_run_bound(s, p);
        }
        if char_at(s, q) == Some('-') {
            match parse_sym(s, q + 1, 0, ExprModel::Var) {
                None => None,
                Some((a, c)) => Some((ExprModel::Neg(Box::new(a)), (q + 1 + c - p) as nat)),
            }
        } else {
            match parse_sym(s, q, 0, ExprModel::Var) {
                None => None,
                Some((a, c)) => Some((a, (q + c - p) as nat)),
            }
        }
    } else {
            let q = skip_ws(s, p);
            match char_at(s, q) {
                None => None,
                Some(c) => if c == '(' {
                    match parse_sym(s, q + 1, 6, ExprModel::Var) {
                        None => None,
                        Some((e, c1)) => {
                            let r = skip_ws(s, q + 1 + c1);
                            if char_at(s, r) == Some(')') {
                                Some((e, (r + 1 - p) as nat))
                            } else {
                                Some((e, (r - p) as nat))
                            }
                        },
                    }
                } else if c == 'x' || c == 'X' {
                    Some((ExprModel::Var, (q + 1 - p) as nat))
                } else if c == 'p' || c == 'P' {
                    if char_at(s, q + 1) == Some('i') || char_at(s, q + 1) == Some('I') {
                        Some((ExprModel::Num(NumberModel::Pi), (q + 2 - p) as nat))
                    } else {
                        None
                    }
                } else if c == 'e' && !(char_at(s, q + 1) matches Some(d) && alpha_char(d)) {
                    Some((ExprModel::Num(NumberModel::E), (q + 1 - p) as nat))
                } else if alpha_char(c) {
                    let end = q + alpha_run(s, q);
                    let name = s.subrange(q, end);
                    let r = skip_ws(s, end);
                    if char_at(s, r) == Some('(') {
                        match parse_sym(s, r + 1, 6, ExprModel::Var) {
                            None => None,
                            Some((arg, c1)) => {
                                let t = skip_ws(s, r + 1 + c1);
                                let t2 = if char_at(s, t) == Some(')') { t + 1 } else { t };
                                let call = ExprModel::Fn1(lower_name(name), Box::new(arg));
                                let u = skip_ws(s, t2);
                                if char_at(s, u) matches Some(d) && starts_factor(d) {
                                    match parse_sym(s, u, 0, ExprModel::Var) {
                                        None => None,
                                        Some((right, c2)) => Some((ExprModel::Mul(Box::new(call), Box::new(right)), (u + c2 - p) as nat)),
                                    }
                                } else {
                                    Some((call, (u - p) as nat))
                                }
                            },
                        }
                    } else if lower_name(name) == seq!['p', 'i'] {
                        Some((ExprModel::Num(NumberModel::Pi), (r - p) as nat))
                    } else if lower_name(name) == seq!['e'] {
                        Some((ExprModel::Num(NumberModel::E), (r - p) as nat))
                    } else {
                        None
                    }
                } else if is_numeral_char(c) {
                    let end = q + numeral_run(s, q);
                    let text = s.subrange(q, end);
                    if !valid_numeral(text) {
                        None
                    } else {
                        let num = ExprModel::Num(NumberModel::Literal(text));
                        let r = skip_ws(s, end);
                        if char_at(s, r) matches Some(d) && starts_factor(d) {
                            match parse_sym(s, r, 0, ExprModel::Var) {
                                None => None,
                                Some((right, c2)) => Some((ExprModel::Mul(Box::new(num), Box::new(right)), (r + c2 - p) as nat)),
                            }
                        } else {
                            Some((num, (r - p) as nat))
                        }
                    }
                } else {
                    None
                },
            }
    }
}

/// Where the parser stands after symbol `sym` fails at `p` (for the tails,
/// after `left`): a failure is passed up unchanged, so this is where the
/// innermost failing rule stopped.  An atom stops after the whitespace
/// before it when the input ends, when a `p` is not followed by `i`, or when
/// its first character starts nothing; after a name that is neither called
/// nor a constant, and the whitespace after it; after a numeral that does
/// not read as a number.
#[verifier::opaque]
pub open spec fn fail_sym(s: Seq<char>, p: int, sym: nat, left: ExprModel) -> int
    decreases s.len() - p, sym,
{
    if p > s.len() || sym > 6 {
        p
    } else if sym == 6 || sym == 4 {
        let (first, rest) = if sym == 6 { (4nat, 5nat) } else { (2nat, 3nat) };
        match parse_sym(s, p, first, ExprModel::Var) {
            None => fail_sym(s, p, first, ExprModel::Var),
            Some((l, c)) => if p + c <= s.len() {
                fail_sym(s, p + c, rest, l)
            } else {
                p
            },
        }
    } else if sym == 5 || sym == 3 {
        let q = skip_ws(s, p);
        let (op1, op2) = if sym == 5 { ('+', '-') } else { ('*', '/') };
        if char_at(s, q) == Some(op1) || char_at(s, q) == Some(op2) {
            match parse_sym(s, q + 1, (sym - 1) as nat, ExprModel::Var) {
                None => fail_sym(s, q + 1, (sym - 1) as nat, ExprModel::Var),
                Some((right, c)) => if q + 1 + c <= s.len() {
                    let e = if char_at(s, q) == Some('+') {
                        ExprModel::Add(Box::new(left), Box::new(right))
                    } else if char_at(s, q) == Some('-') {
                        ExprModel::Sub(Box::new(left), Box::new(right))
                    } else if char_at(s, q) == Some('*') {
                        ExprModel::Mul(Box::new(left), Box::new(right))
                    } else {
                        ExprModel::Div(Box::new(left), Box::new(right))
                    };
                    fail_sym(s, q + 1 + c, sym, e)
                } else {
                    p
                },
            }
        } else {
            p
        }
    } else if sym == 2 {
        match parse_sym(s, p, 1, ExprModel::Var) {
            None => fail_sym(s, p, 1, ExprModel::Var),
            Some((base, c)) => if p + c <= s.len() {
                let q = skip_ws(s, p + c);
                if char_at(s, q) == Some('^') {
                    fail_sym(s, q + 1, 1, ExprModel::Var)
                } else {
                    p
                }
            } else {
                p
            },
        }
    } else if sym == 1 {
        let q = skip_ws(s, p);
        proof {
            lemma_ws_run_bound(s, p);
        }
        if char_at(s, q) == Some('-') {
            fail_sym(s, q + 1, 0, ExprModel::Var)
        } else {
            fail_sym(s, q, 0, ExprModel::Var)
        }
    } else {
        let q = skip_ws(s, p);
        match char_at(s, q) {
            None => q,
            Some(c) => if c == '(' {
                fail_sym(s, q + 1, 6, ExprModel::Var)
            } else if c == 'x' || c == 'X' || c == 'p' || c == 'P' {
                q
            } else if c == 'e' && !(char_at(s, q + 1) matches Some(d) && alpha_char(d)) {
                q
            } else if alpha_char(c) {
                let end = q + alpha_run(s, q);
                let r = skip_ws(s, end);
                if char_at(s, r) == Some('(') {
                    match parse_sym(s, r + 1, 6, ExprModel::Var) {
                        None => fail_sym(s, r + 1, 6, ExprModel::Var),
                        Some((arg, c1)) => {
                            let t = skip_ws(s, r + 1 + c1);
                            let t2 = if char_at(s, t) == Some(')') { t + 1 } else { t };
                            let u = skip_ws(s, t2);
                            if char_at(s, u) matches Some(d) && starts_factor(d) {
                                fail_sym(s, u, 0, ExprModel::Var)
                            } else {
                                q
                            }
                        },
                    }
                } else {
                    r
                }
            } else if is_numeral_char(c) {
                let end = q + numeral_run(s, q);
                if !valid_numeral(s.subrange(q, end)) {
                    end
                } else {
                    let r = skip_ws(s, end);
                    if char_at(s, r) matches Some(d) && starts_factor(d) {
                        fail_sym(s, r, 0, ExprModel::Var)
                    } else {
                        q
                    }
                }
            } else {
                q
            },
        }
    }
}

/// `add` at `p`.
pub open spec fn parse_add_at(s: Seq<char>, p: int) -> Parsed {
    parse_sym(s, p, ADD(), ExprModel::Var)
}

/// The `(('+' | '-') mul)*` tail of `add` at `p`, after `left`.
pub open spec fn add_rest_at(s: Seq<char>, p: int, left: ExprModel) -> Parsed {
    parse_sym(s, p, ADD_REST(), left)
}

/// `mul` at `p`.
pub open spec fn parse_mul_at(s: Seq<char>, p: int) -> Parsed {
    parse_sym(s, p, MUL(), ExprModel::Var)
}

/// The `(('*' | '/') pow)*` tail of `mul` at `p`, after `left`.
pub open spec fn mul_rest_at(s: Seq<char>, p: int, left: ExprModel) -> Parsed {
    parse_sym(s, p, MUL_REST(), left)
}

/// `pow` at `p`.
pub open spec fn parse_pow_at(s: Seq<char>, p: int) -> Parsed {
    parse_sym(s, p, POW(), ExprModel::Var)
}

/// `unary` at `p`.
pub open spec fn parse_unary_at(s: Seq<char>, p: int) -> Parsed {
    parse_sym(s, p, UNARY(), ExprModel::Var)
}

/// `atom` at `p`.
pub open spec fn parse_atom_at(s: Seq<char>, p: int) -> Parsed {
    parse_sym(s, p, ATOM(), ExprModel::Var)
}

/// `add`: a `mul`, then its tail.
pub proof fn lemma_add_unfold(s: Seq<char>, p: int)
    requires
        0 <= p <= s.len(),
    ensures
        parse_add_at(s, p) == match parse_mul_at(s, p) {
            None => None,
            Some((l, c)) => if p + c <= s.len() {
                match add_rest_at(s, p + c, l) {
                    None => None,
                    Some((e, c2)) => Some((e, c + c2)),
                }
            } else {
                None
            },
        },
{
    reveal_with_fuel(parse_sym, 1);
}

/// `mul`: a `pow`, then its tail.
pub proof fn lemma_mul_unfold(s: Seq<char>, p: int)
    requires
        0 <= p <= s.len(),
    ensures
        parse_mul_at(s, p) == match parse_pow_at(s, p) {
            None => None,
            Some((l, c)) => if p + c <= s.len() {
                match mul_rest_at(s, p + c, l) {
                    None => None,
                    Some((e, c2)) => Some((e, c + c2)),
                }
            } else {
                None
            },
        },
{
    reveal_with_fuel(parse_sym, 1);
}

/// The tail of `add`: an operator and a `mul`, then the tail again; or
/// nothing but whitespace.
pub proof fn lemma_add_rest_unfold(s: Seq<char>, p: int, left: ExprModel)
    requires
        0 <= p <= s.len(),
    ensures
        add_rest_at(s, p, left) == ({
            let q = skip_ws(s, p);
            if char_at(s, q) == Some('+') || char_at(s, q) == Some('-') {
                match parse_mul_at(s, q + 1) {
                    None => None,
                    Some((right, c)) => if q + 1 + c <= s.len() {
                        let e = if char_at(s, q) == Some('+') {
                            ExprModel::Add(Box::new(left), Box::new(right))
                        } else {
                            ExprModel::Sub(Box::new(left), Box::new(right))
                        };
                        match add_rest_at(s, q + 1 + c, e) {
                            None => None,
                            Some((e2, c2)) => Some((e2, (q + 1 + c + c2 - p) as nat)),
                        }
                    } else {
                        None
                    },
                }
            } else {
                Some((left, (q - p) as nat))
            }
        }),
{
    reveal_with_fuel(parse_sym, 1);
}

/// The tail of `mul`: an operator and a `pow`, then the tail again; or
/// nothing but whitespace.
pub proof fn lemma_mul_rest_unfold(s: Seq<char>, p: int, left: ExprModel)
    requires
        0 <= p <= s.len(),
    ensures
        mul_rest_at(s, p, left) == ({
            let q = skip_ws(s, p);
            if char_at(s, q) == Some('*') || char_at(s, q) == Some('/') {
                match parse_pow_at(s, q + 1) {
                    None => None,
                    Some((right, c)) => if q + 1 + c <= s.len() {
                        let e = if char_at(s, q) == Some('*') {
                            ExprModel::Mul(Box::new(left), Box::new(right))
                        } else {
                            ExprModel::Div(Box::new(left), Box::new(right))
                        };
                        match mul_rest_at(s, q + 1 + c, e) {
                            None => None,
                            Some((e2, c2)) => Some((e2, (q + 1 + c + c2 - p) as nat)),
                        }
                    } else {
                        None
                    },
                }
            } else {
                Some((left, (q - p) as nat))
            }
        }),
{
    reveal_with_fuel(parse_sym, 1);
}

/// `pow`: a `unary`, then optionally `^` and a `unary`.
pub proof fn lemma_pow_unfold(s: Seq<char>, p: int)
    requires
        0 <= p <= s.len(),
    ensures
        parse_pow_at(s, p) == match parse_unary_at(s, p) {
            None => None,
            Some((base, c)) => if p + c <= s.len() {
                let q = skip_ws(s, p + c);
                if char_at(s, q) == Some('^') {
                    match parse_unary_at(s, q + 1) {
                        None => None,
                        Some((ex, c2)) => Some((ExprModel::Pow(Box::new(base), Box::new(ex)), (q + 1 + c2 - p) as nat)),
                    }
                } else {
                    Some((base, (q - p) as nat))
                }
            } else {
                None
            },
        },
{
    reveal_with_fuel(parse_sym, 1);
}

/// `unary`: optionally `-`, then an `atom`.
pub proof fn lemma_unary_unfold(s: Seq<char>, p: int)
    requires
        0 <= p <= s.len(),
    ensures
        parse_unary_at(s, p) == ({
            let q = skip_ws(s, p);
            if char_at(s, q) == Some('-') {
                match parse_atom_at(s, q + 1) {
                    None => None,
                    Some((a, c)) => Some((ExprModel::Neg(Box::new(a)), (q + 1 + c - p) as nat)),
                }
            } else {
                match parse_atom_at(s, q) {
                    None => None,
                    Some((a, c)) => Some((a, (q + c - p) as nat)),
                }
            }
        }),
{
    reveal_with_fuel(parse_sym, 1);
}

/// `atom`, by cases on its first character.
pub proof fn lemma_atom_unfold(s: Seq<char>, p: int)
    requires
        0 <= p <= s.len(),
    ensures
        parse_atom_at(s, p) == ({
            let q = skip_ws(s, p);
            match char_at(s, q) {
                None => None,
                Some(c) => if c == '(' {
                    match parse_add_at(s, q + 1) {
                        None => None,
                        Some((e, c1)) => {
                            let r = skip_ws(s, q + 1 + c1);
                            if char_at(s, r) == Some(')') {
                                Some((e, (r + 1 - p) as nat))
                            } else {
                                Some((e, (r - p) as nat))
                            }
                        },
                    }
                } else if c == 'x' || c == 'X' {
                    Some((ExprModel::Var, (q + 1 - p) as nat))
                } else if c == 'p' || c == 'P' {
                    if char_at(s, q + 1) == Some('i') || char_at(s, q + 1) == Some('I') {
                        Some((ExprModel::Num(NumberModel::Pi), (q + 2 - p) as nat))
                    } else {
                        None
                    }
                } else if c == 'e' && !(char_at(s, q + 1) matches Some(d) && alpha_char(d)) {
                    Some((ExprModel::Num(NumberModel::E), (q + 1 - p) as nat))
                } else if alpha_char(c) {
                    let end = q + alpha_run(s, q);
                    let name = s.subrange(q, end);
                    let r = skip_ws(s, end);
                    if char_at(s, r) == Some('(') {
                        match parse_add_at(s, r + 1) {
                            None => None,
                            Some((arg, c1)) => {
                                let t = skip_ws(s, r + 1 + c1);
                                let t2 = if char_at(s, t) == Some(')') { t + 1 } else { t };
                                let call = ExprModel::Fn1(lower_name(name), Box::new(arg));
                                let u = skip_ws(s, t2);
                                if char_at(s, u) matches Some(d) && starts_factor(d) {
                                    match parse_atom_at(s, u) {
                                        None => None,
                                        Some((right, c2)) => Some((ExprModel::Mul(Box::new(call), Box::new(right)), (u + c2 - p) as nat)),
                                    }
                                } else {
                                    Some((call, (u - p) as nat))
                                }
                            },
                        }
                    } else if lower_name(name) == seq!['p', 'i'] {
                        Some((ExprModel::Num(NumberModel::Pi), (r - p) as nat))
                    } else if lower_name(name) == seq!['e'] {
                        Some((ExprModel::Num(NumberModel::E), (r - p) as nat))
                    } else {
                        None
                    }
                } else if is_numeral_char(c) {
                    let end = q + numeral_run(s, q);
                    let text = s.subrange(q, end);
                    if !valid_numeral(text) {
                        None
                    } else {
                        let num = ExprModel::Num(NumberModel::Literal(text));
                        let r = skip_ws(s, end);
                        if char_at(s, r) matches Some(d) && starts_factor(d) {
                            match parse_atom_at(s, r) {
                                None => None,
                                Some((right, c2)) => Some((ExprModel::Mul(Box::new(num), Box::new(right)), (r + c2 - p) as nat)),
                            }
                        } else {
                            Some((num, (r - p) as nat))
                        }
                    }
                } else {
                    None
                },
            }
        }),
{
    reveal_with_fuel(parse_sym, 1);
}

/// Where a failing `add` or `mul` stops: where its first operand failed,
/// or where its tail failed.
pub proof fn lemma_sum_fail_unfold(s: Seq<char>, p: int, sym: nat)
    requires
        0 <= p <= s.len(),
        sym == ADD() || sym == MUL(),
    ensures
        fail_sym(s, p, sym, ExprModel::Var) == ({
            let (first, rest) = if sym == ADD() { (MUL(), ADD_REST()) } else { (POW(), MUL_REST()) };
            match parse_sym(s, p, first, ExprModel::Var) {
                None => fail_sym(s, p, first, ExprModel::Var),
                Some((l, c)) => if p + c <= s.len() {
                    fail_sym(s, p + c, rest, l)
                } else {
                    p
                },
            }
        }),
{
    reveal_with_fuel(fail_sym, 1);
}

/// Where a failing tail of `add` or `mul` stops: where the operand after
/// an operator failed, or where the rest of the tail failed.
pub proof fn lemma_rest_fail_unfold(s: Seq<char>, p: int, sym: nat, left: ExprModel)
    requires
        0 <= p <= s.len(),
        sym == ADD_REST() || sym == MUL_REST(),
    ensures
        fail_sym(s, p, sym, left) == ({
            let q = skip_ws(s, p);
            let (op1, op2) = if sym == ADD_REST() { ('+', '-') } else { ('*', '/') };
            if char_at(s, q) == Some(op1) || char_at(s, q) == Some(op2) {
                match parse_sym(s, q + 1, (sym - 1) as nat, ExprModel::Var) {
                    None => fail_sym(s, q + 1, (sym - 1) as nat, ExprModel::Var),
                    Some((right, c)) => if q + 1 + c <= s.len() {
                        let e = if char_at(s, q) == Some('+') {
                            ExprModel::Add(Box::new(left), Box::new(right))
                        } else if char_at(s, q) == Some('-') {
                            ExprModel::Sub(Box::new(left), Box::new(right))
                        } else if char_at(s, q) == Some('*') {
                            ExprModel::Mul(Box::new(left), Box::new(right))
                        } else {
                            ExprModel::Div(Box::new(left), Box::new(right))
                        };
                        fail_sym(s, q + 1 + c, sym, e)
                    } else {
                        p
                    },
                }
            } else {
                p
            }
        }),
{
    reveal_with_fuel(fail_sym, 1);
}

/// Where a failing `pow` stops: where its base failed, or where its
/// exponent failed.
pub proof fn lemma_pow_fail_unfold(s: Seq<char>, p: int)
    requires
        0 <= p <= s.len(),
    ensures
        fail_sym(s, p, POW(), ExprModel::Var) == match parse_unary_at(s, p) {
            None => fail_sym(s, p, UNARY(), ExprModel::Var),
            Some((base, c)) => if p + c <= s.len() {
                let q = skip_ws(s, p + c);
                if char_at(s, q) == Some('^') {
                    fail_sym(s, q + 1, UNARY(), ExprModel::Var)
                } else {
                    p
                }
            } else {
                p
            },
        },
{
    reveal_with_fuel(fail_sym, 1);
}

/// Where a failing `unary` stops: where its atom failed.
pub proof fn lemma_unary_fail_unfold(s: Seq<char>, p: int)
    requires
        0 <= p <= s.len(),
    ensures
        fail_sym(s, p, UNARY(), ExprModel::Var) == ({
            let q = skip_ws(s, p);
            if char_at(s, q) == Some('-') {
                fail_sym(s, q + 1, ATOM(), ExprModel::Var)
            } else {
                fail_sym(s, q, ATOM(), ExprModel::Var)
            }
        }),
{
    reveal_with_fuel(fail_sym, 1);
}

/// Where a failing `atom` stops, by cases on its first character.
pub proof fn lemma_atom_fail_unfold(s: Seq<char>, p: int)
    requires
        0 <= p <= s.len(),
    ensures
        fail_sym(s, p, ATOM(), ExprModel::Var) == ({
            let q = skip_ws(s, p);
            match char_at(s, q) {
                None => q,
                Some(c) => if c == '(' {
                    fail_sym(s, q + 1, ADD(), ExprModel::Var)
                } else if c == 'x' || c == 'X' || c == 'p' || c == 'P' {
                    q
                } else if c == 'e' && !(char_at(s, q + 1) matches Some(d) && alpha_char(d)) {
                    q
                } else if alpha_char(c) {
                    let end = q + alpha_run(s, q);
                    let r = skip_ws(s, end);
                    if char_at(s, r) == Some('(') {
                        match parse_add_at(s, r + 1) {
                            None => fail_sym(s, r + 1, ADD(), ExprModel::Var),
                            Some((arg, c1)) => {
                                let t = skip_ws(s, r + 1 + c1);
                                let t2 = if char_at(s, t) == Some(')') { t + 1 } else { t };
                                let u = skip_ws(s, t2);
                                if char_at(s, u) matches Some(d) && starts_factor(d) {
                                    fail_sym(s, u, ATOM(), ExprModel::Var)
                                } else {
                                    q
                                }
                            },
                        }
                    } else {
                        r
                    }
                } else if is_numeral_char(c) {
                    let end = q + numeral_run(s, q);
                    if !valid_numeral(s.subrange(q, end)) {
                        end
                    } else {
                        let r = skip_ws(s, end);
                        if char_at(s, r) matches Some(d) && starts_factor(d) {
                            fail_sym(s, r, ATOM(), ExprModel::Var)
                        } else {
                            q
                        }
                    }
                } else {
                    q
                },
            }
        }),
{
    reveal_with_fuel(fail_sym, 1);
}

/// The expression that `s` reads as, if any; characters after it are
/// ignored.
pub open spec fn parse_spec(s: Seq<char>) -> Option<ExprModel> {
    match parse_add_at(s, 0) {
        Some((e, c)) => Some(e),
        None => None,
    }
}

/// Whether `c` is an ASCII decimal digit.
pub fn is_ascii_digit(c: char) -> (r: bool)
    ensures
        r == is_digit(c),
{
    c >= '0' && c <= '9'
}

/// Whether a run of digits and points reads as a floating-point number.
pub fn numeral_is_valid(t: &Vec<char>) -> (r: bool)
    ensures
        r == valid_numeral(t@),
{
    let mut digit = false;
    let mut dots: usize = 0;
    let ghost mut dot_at: int = 0;
    let mut i: usize = 0;
    while i < t.len()
        invariant
            i <= t.len(),
            dots <= 1,
            digit == exists|j: int| 0 <= j < i && is_digit(#[trigger] t@[j]),
            dots == 0 ==> forall|j: int| 0 <= j < i ==> #[trigger] t@[j] != '.',
            dots == 1 ==> 0 <= dot_at < i && t@[dot_at] == '.' && forall|j: int| 0 <= j < i && #[trigger] t@[j] == '.' ==> j == dot_at,
        decreases t.len() - i,
    {
        if t[i] == '.' {
            if dots == 1 {
                proof {
                    assert(t@[dot_at] == '.' && t@[i as int] == '.' && dot_at != i);
                }
                return false;
            }
            dots = 1;
            proof {
                dot_at = i as int;
            }
        } else if is_ascii_digit(t[i]) {
            digit = true;
        }
        i = i + 1;
    }
    digit
}

/// The characters of a numeral run are digits and points.
pub proof fn lemma_numeral_run_chars(s: Seq<char>, p: int, i: int)
    requires
        p <= i < p + numeral_run(s, p),
    ensures
        0 <= i < s.len(),
        is_numeral_char(s[i]),
    decreases s.len() - p,
{
    reveal_with_fuel(numeral_run, 1);
    if i > p {
        lemma_numeral_run_chars(s, p + 1, i);
    }
}

// ── Parser ────────────────────────────────────────────────────────

/// `r` with `k` more characters counted as taken.
pub open spec fn shifted(r: Parsed, k: int) -> Parsed {
    match r {
        None => None,
        Some((e, c)) => Some((e, (c + k) as nat)),
    }
}

/// A recursive-descent parser over the characters of an input.
pub struct Parser {
    pub chars: Vec<char>,
    pub pos: usize,
}

impl Parser {
    /// A parser at the start of `input`.
    pub fn new(input: &str) -> (p: Parser)
        ensures
            p.chars@ == input@,
            p.pos == 0,
    {
        let n = input.unicode_len();
        let mut chars: Vec<char> = Vec::new();
        let mut i: usize = 0;
        while i < n
            invariant
                n == input@.len(),
                i <= n,
                chars@ == input@.take(i as int),
            decreases n - i,
        {
            chars.push(input.get_char(i));
            proof {
                assert(input@.take(i + 1) =~= input@.take(i as int).push(input@[i as int]));
            }
            i = i + 1;
        }
        proof {
            assert(input@.take(n as int) =~= input@);
        }
        Parser { chars, pos: 0 }
    }

    /// The character at the position, if any.
    pub fn peek(&self) -> (c: Option<char>)
        ensures
            c == char_at(self.chars@, self.pos as int),
    {
        if self.pos < self.chars.len() {
            Some(self.chars[self.pos])
        } else {
            None
        }
    }

    /// The character at the position, if any; the position advances by one.
    pub fn next(&mut self) -> (c: Option<char>)
        requires
            old(self).pos < usize::MAX,
        ensures
            c == char_at(old(self).chars@, old(self).pos as int),
            final(self).pos == old(self).pos + 1,
            final(self).chars == old(self).chars,
    {
        let c = self.peek();
        self.pos = self.pos + 1;
        c
    }

    /// Moves past the whitespace at the position.
    pub fn skip_ws(&mut self)
        requires
            old(self).pos <= old(self).chars.len(),
        ensures
            final(self).pos == skip_ws(old(self).chars@, old(self).pos as int),
            final(self).pos <= final(self).chars.len(),
            final(self).chars == old(self).chars,
    {
        let ghost s = self.chars@;
        let ghost p0 = self.pos as int;
        while self.pos < self.chars.len() && char_is_whitespace(self.chars[self.pos])
            invariant
                self.chars@ == s,
                self.chars == old(self).chars,
                p0 <= self.pos <= self.chars.len(),
                skip_ws(s, p0) == skip_ws(s, self.pos as int),
            decreases self.chars.len() - self.pos,
        {
            proof {
                reveal_with_fuel(ws_run, 1);
            }
            self.pos = self.pos + 1;
        }
        proof {
            reveal_with_fuel(ws_run, 1);
        }
    }

    /// Parses an expression at the position.
    pub fn parse(&mut self) -> (r: Option<Expr>)
        requires
            old(self).pos <= old(self).chars.len(),
        ensures
            final(self).chars == old(self).chars,
            match r {
                Some(e) => parse_add_at(old(self).chars@, old(self).pos as int) == Some((e.model(), (final(self).pos - old(self).pos) as nat)),
                None => parse_add_at(old(self).chars@, old(self).pos as int) is None
                    && final(self).pos == fail_sym(old(self).chars@, old(self).pos as int, ADD(), ExprModel::Var),
            },
    {
        self.parse_add()
    }

    /// Parses `add` at the position.
    pub fn parse_add(&mut self) -> (r: Option<Expr>)
        requires
            old(self).pos <= old(self).chars.len(),
        ensures
            final(self).chars == old(self).chars,
            old(self).pos <= final(self).pos <= final(self).chars.len(),
            match r {
                Some(e) => parse_add_at(old(self).chars@, old(self).pos as int) == Some((e.model(), (final(self).pos - old(self).pos) as nat)),
                None => parse_add_at(old(self).chars@, old(self).pos as int) is None
                    && final(self).pos == fail_sym(old(self).chars@, old(self).pos as int, ADD(), ExprModel::Var),
            },
        decreases old(self).chars@.len() - old(self).pos, 6nat,
    {
        let ghost s = self.chars@;
        let ghost p0 = self.pos as int;
        proof {
            lemma_add_unfold(s, p0);
            lemma_sum_fail_unfold(s, p0, ADD());
        }
        let mut left = match self.parse_mul() {
            Some(e) => e,
            None => return None,
        };
        loop
            invariant_except_break
                parse_add_at(s, p0) == shifted(add_rest_at(s, self.pos as int, left.model()), self.pos - p0),
                fail_sym(s, p0, ADD(), ExprModel::Var) == fail_sym(s, self.pos as int, ADD_REST(), left.model()),
            invariant
                self.chars == old(self).chars,
                self.chars@ == s,
                p0 == old(self).pos,
                p0 <= self.pos <= self.chars.len(),
            ensures
                parse_add_at(s, p0) == Some((left.model(), (self.pos - p0) as nat)),
            decreases self.chars.len() - self.pos,
        {
            let ghost p1 = self.pos as int;
            proof {
                lemma_add_rest_unfold(s, p1, left.model());
                lemma_rest_fail_unfold(s, p1, ADD_REST(), left.model());
            }
            self.skip_ws();
            let c = self.peek();
            if c == Some('+') || c == Some('-') {
                self.next();
                let right = match self.parse_mul() {
                    Some(e) => e,
                    None => return None,
                };
                if c == Some('+') {
                    left = Expr::Add(Box::new(left), Box::new(right));
                } else {
                    left = Expr::Sub(Box::new(left), Box::new(right));
                }
            } else {
                break;
            }
        }
        Some(left)
    }

    /// Parses `mul` at the position.
    pub fn parse_mul(&mut self) -> (r: Option<Expr>)
        requires
            old(self).pos <= old(self).chars.len(),
        ensures
            final(self).chars == old(self).chars,
            old(self).pos <= final(self).pos <= final(self).chars.len(),
            match r {
                Some(e) => parse_mul_at(old(self).chars@, old(self).pos as int) == Some((e.model(), (final(self).pos - old(self).pos) as nat)),
                None => parse_mul_at(old(self).chars@, old(self).pos as int) is None
                    && final(self).pos == fail_sym(old(self).chars@, old(self).pos as int, MUL(), ExprModel::Var),
            },
        decreases old(self).chars@.len() - old(self).pos, 4nat,
    {
        let ghost s = self.chars@;
        let ghost p0 = self.pos as int;
        proof {
            lemma_mul_unfold(s, p0);
            lemma_sum_fail_unfold(s, p0, MUL());
        }
        let mut left = match self.parse_pow() {
            Some(e) => e,
            None => return None,
        };
        loop
            invariant_except_break
                parse_mul_at(s, p0) == shifted(mul_rest_at(s, self.pos as int, left.model()), self.pos - p0),
                fail_sym(s, p0, MUL(), ExprModel::Var) == fail_sym(s, self.pos as int, MUL_REST(), left.model()),
            invariant
                self.chars == old(self).chars,
                self.chars@ == s,
                p0 == old(self).pos,
                p0 <= self.pos <= self.chars.len(),
            ensures
                parse_mul_at(s, p0) == Some((left.model(), (self.pos - p0) as nat)),
            decreases self.chars.len() - self.pos,
        {
            let ghost p1 = self.pos as int;
            proof {
                lemma_mul_rest_unfold(s, p1, left.model());
                lemma_rest_fail_unfold(s, p1, MUL_REST(), left.model());
            }
            self.skip_ws();
            let c = self.peek();
            if c == Some('*') || c == Some('/') {
                self.next();
                let right = match self.parse_pow() {
                    Some(e) => e,
                    None => return None,
                };
                if c == Some('*') {
                    left = Expr::Mul(Box::new(left), Box::new(right));
                } else {
                    left = Expr::Div(Box::new(left), Box::new(right));
                }
            } else {
                break;
            }
        }
        Some(left)
    }

    /// Parses `pow` at the position.
    #[verifier::rlimit(100)]
    pub fn parse_pow(&mut self) -> (r: Option<Expr>)
        requires
            old(self).pos <= old(self).chars.len(),
        ensures
            final(self).chars == old(self).chars,
            old(self).pos <= final(self).pos <= final(self).chars.len(),
            match r {
                Some(e) => parse_pow_at(old(self).chars@, old(self).pos as int) == Some((e.model(), (final(self).pos - old(self).pos) as nat)),
                None => parse_pow_at(old(self).chars@, old(self).pos as int) is None
                    && final(self).pos == fail_sym(old(self).chars@, old(self).pos as int, POW(), ExprModel::Var),
            },
        decreases old(self).chars@.len() - old(self).pos, 2nat,
    {
        let ghost s = self.chars@;
        let ghost p0 = self.pos as int;
        proof {
            lemma_pow_unfold(s, p0);
            lemma_pow_fail_unfold(s, p0);
        }
        let base = match self.parse_unary() {
            Some(e) => e,
            None => {
                assert(parse_pow_at(s, p0) is None);
                return None;
            },
        };
        let ghost p1 = self.pos as int;
        self.skip_ws();
        let ghost q = self.pos as int;
        if self.peek() == Some('^') {
            self.next();
            let exp = match self.parse_unary() {
                Some(e) => e,
                None => return None,
            };
            let r = Expr::Pow(Box::new(base), Box::new(exp));
            assert(parse_pow_at(s, p0) == Some((r.model(), (self.pos - p0) as nat)));
            Some(r)
        } else {
            assert(parse_unary_at(s, p0) == Some((base.model(), (p1 - p0) as nat)));
            assert(q == skip_ws(s, p1));
            assert(char_at(s, q) != Some('^'));
            assert(parse_pow_at(s, p0) == Some((base.model(), (q - p0) as nat)));
            Some(base)
        }
    }

    /// Parses `unary` at the position.
    pub fn parse_unary(&mut self) -> (r: Option<Expr>)
        requires
            old(self).pos <= old(self).chars.len(),
        ensures
            final(self).chars == old(self).chars,
            old(self).pos <= final(self).pos <= final(self).chars.len(),
            match r {
                Some(e) => parse_unary_at(old(self).chars@, old(self).pos as int) == Some((e.model(), (final(self).pos - old(self).pos) as nat)),
                None => parse_unary_at(old(self).chars@, old(self).pos as int) is None
                    && final(self).pos == fail_sym(old(self).chars@, old(self).pos as int, UNARY(), ExprModel::Var),
            },
        decreases old(self).chars@.len() - old(self).pos, 1nat,
    {
        proof {
            lemma_unary_unfold(self.chars@, self.pos as int);
            lemma_unary_fail_unfold(self.chars@, self.pos as int);
        }
        self.skip_ws();
        if self.peek() == Some('-') {
            self.next();
            let a = match self.parse_atom() {
                Some(e) => e,
                None => return None,
            };
            Some(Expr::Neg(Box::new(a)))
        } else {
            self.parse_atom()
        }
    }

    /// The characters from `start` up to the position.
    fn taken_since(&self, start: usize) -> (t: Vec<char>)
        requires
            start <= self.pos <= self.chars.len(),
        ensures
            t@ == self.chars@.subrange(start as int, self.pos as int),
    {
        let mut t: Vec<char> = Vec::new();
        let mut i = start;
        while i < self.pos
            invariant
                start <= i <= self.pos <= self.chars.len(),
                t@ == self.chars@.subrange(start as int, i as int),
            decreases self.pos - i,
        {
            t.push(self.chars[i]);
            proof {
                assert(self.chars@.subrange(start as int, i + 1) =~= self.chars@.subrange(start as int, i as int).push(self.chars@[i as int]));
            }
            i = i + 1;
        }
        t
    }

    /// Moves past the alphabetic characters at the position.
    fn skip_alphabetic(&mut self)
        requires
            old(self).pos <= old(self).chars.len(),
        ensures
            final(self).pos == old(self).pos + alpha_run(old(self).chars@, old(self).pos as int),
            final(self).pos <= final(self).chars.len(),
            final(self).chars == old(self).chars,
    {
        let ghost s = self.chars@;
        let ghost p0 = self.pos as int;
        while self.pos < self.chars.len() && char_is_alphabetic(self.chars[self.pos])
            invariant
                self.chars@ == s,
                self.chars == old(self).chars,
                p0 <= self.pos <= self.chars.len(),
                p0 + alpha_run(s, p0) == self.pos + alpha_run(s, self.pos as int),
            decreases self.chars.len() - self.pos,
        {
            proof {
                reveal_with_fuel(alpha_run, 1);
            }
            self.pos = self.pos + 1;
        }
        proof {
            reveal_with_fuel(alpha_run, 1);
        }
    }

    /// Moves past the digits and points at the position.
    fn skip_numeral(&mut self)
        requires
            old(self).pos <= old(self).chars.len(),
        ensures
            final(self).pos == old(self).pos + numeral_run(old(self).chars@, old(self).pos as int),
            final(self).pos <= final(self).chars.len(),
            final(self).chars == old(self).chars,
    {
        let ghost s = self.chars@;
        let ghost p0 = self.pos as int;
        while self.pos < self.chars.len() && (is_ascii_digit(self.chars[self.pos]) || self.chars[self.pos] == '.')
            invariant
                self.chars@ == s,
                self.chars == old(self).chars,
                p0 <= self.pos <= self.chars.len(),
                p0 + numeral_run(s, p0) == self.pos + numeral_run(s, self.pos as int),
            decreases self.chars.len() - self.pos,
        {
            proof {
                reveal_with_fuel(numeral_run, 1);
            }
            self.pos = self.pos + 1;
        }
        proof {
            reveal_with_fuel(numeral_run, 1);
        }
    }

    /// Whether the character at the position starts an implicit product.
    fn at_factor(&self) -> (r: bool)
        ensures
            r == (char_at(self.chars@, self.pos as int) matches Some(d) && starts_factor(d)),
    {
        match self.peek() {
            Some(c) => c == 'x' || c == '(' || char_is_alphabetic(c),
            None => false,
        }
    }

    /// Parses `atom` at the position.
    pub fn parse_atom(&mut self) -> (r: Option<Expr>)
        requires
            old(self).pos <= old(self).chars.len(),
        ensures
            final(self).chars == old(self).chars,
            old(self).pos <= final(self).pos <= final(self).chars.len(),
            match r {
                Some(e) => parse_atom_at(old(self).chars@, old(self).pos as int) == Some((e.model(), (final(self).pos - old(self).pos) as nat)),
                None => parse_atom_at(old(self).chars@, old(self).pos as int) is None
                    && final(self).pos == fail_sym(old(self).chars@, old(self).pos as int, ATOM(), ExprModel::Var),
            },
        decreases old(self).chars@.len() - old(self).pos, 0nat,
    {
        let ghost s = self.chars@;
        let ghost p0 = self.pos as int;
        proof {
            lemma_atom_unfold(s, p0);
            lemma_atom_fail_unfold(s, p0);
        }
        self.skip_ws();
        let q = self.pos;
        let c = match self.peek() {
            Some(c) => c,
            None => return None,
        };
        if c == '(' {
            self.next();
            let e = match self.parse_add() {
                Some(e) => e,
                None => return None,
            };
            self.skip_ws();
            if self.peek() == Some(')') {
                self.next();
            }
            assert(parse_atom_at(s, p0) == Some((e.model(), (self.pos - p0) as nat)));
            Some(e)
        } else if c == 'x' || c == 'X' {
            self.next();
            Some(Expr::Var)
        } else if c == 'p' || c == 'P' {
            let start = self.pos;
            self.next();
            let d = self.peek();
            if d == Some('i') || d == Some('I') {
                self.next();
                Some(Expr::Num(Number::Pi))
            } else {
                self.pos = start;
                None
            }
        } else if c == 'e' && (q + 1 >= self.chars.len() || !char_is_alphabetic(self.chars[q + 1])) {
            self.next();
            Some(Expr::Num(Number::E))
        } else if char_is_alphabetic(c) {
            let start = self.pos;
            self.skip_alphabetic();
            let name = self.taken_since(start);
            self.skip_ws();
            if self.peek() == Some('(') {
                self.next();
                let arg = match self.parse_add() {
                    Some(e) => e,
                    None => return None,
                };
                self.skip_ws();
                if self.peek() == Some(')') {
                    self.next();
                }
                let mut result = Expr::Fn1(lowercase_of(name.as_slice()), Box::new(arg));
                self.skip_ws();
                if self.at_factor() {
                    let right = match self.parse_atom() {
                        Some(e) => e,
                        None => return None,
                    };
                    result = Expr::Mul(Box::new(result), Box::new(right));
                    assert(parse_atom_at(s, p0) == Some((result.model(), (self.pos - p0) as nat)));
                } else {
                    assert(parse_atom_at(s, p0) == Some((result.model(), (self.pos - p0) as nat)));
                }
                Some(result)
            } else {
                let lower = lowercase_of(name.as_slice());
                if lower.len() == 2 && lower[0] == 'p' && lower[1] == 'i' {
                    proof {
                        assert(lower@ =~= seq!['p', 'i']);
                    }
                    Some(Expr::Num(Number::Pi))
                } else if lower.len() == 1 && lower[0] == 'e' {
                    proof {
                        assert(lower@ =~= seq!['e']);
                    }
                    Some(Expr::Num(Number::E))
                } else {
                    proof {
                        if lower@ == seq!['p', 'i'] {
                            assert(lower@[0] == 'p');
                        }
                        if lower@ == seq!['e'] {
                            assert(lower@[0] == 'e');
                        }
                    }
                    None
                }
            }
        } else if is_ascii_digit(c) || c == '.' {
            let start = self.pos;
            self.skip_numeral();
            let text = self.taken_since(start);
            proof {
                reveal_with_fuel(numeral_run, 1);
                assert forall|i: int| 0 <= i < text@.len() implies is_numeral_char(#[trigger] text@[i]) by {
                    lemma_numeral_run_chars(s, start as int, start + i);
                }
            }
            if !numeral_is_valid(&text) {
                return None;
            }
            self.skip_ws();
            let num = Expr::Num(Number::Literal(text));
            if self.at_factor() {
                let right = match self.parse_atom() {
                    Some(e) => e,
                    None => return None,
                };
                let res = Expr::Mul(Box::new(num), Box::new(right));
                assert(parse_atom_at(s, p0) == Some((res.model(), (self.pos - p0) as nat)));
                Some(res)
            } else {
                assert(parse_atom_at(s, p0) == Some((num.model(), (self.pos - p0) as nat)));
                Some(num)
            }
        } else {
            None
        }
    }
}

// ── Laws ──────────────────────────────────────────────────────────

/// Whitespace before the first token changes neither the expression read
/// nor what follows it: only one more character is taken.
#[verifier::spinoff_prover]
#[verifier::rlimit(40)]
pub proof fn law_leading_whitespace(s: Seq<char>, p: int, sym: nat)
    requires
        0 <= p < s.len(),
        is_whitespace(s[p]),
        sym == ADD() || sym == MUL() || sym == POW() || sym == UNARY() || sym == ATOM(),
    ensures
        parse_sym(s, p, sym, ExprModel::Var) == shifted(parse_sym(s, p + 1, sym, ExprModel::Var), 1),
    decreases sym,
{
    reveal_with_fuel(ws_run, 1);
    assert(skip_ws(s, p) == skip_ws(s, p + 1));
    if sym == ADD() {
        law_leading_whitespace(s, p, MUL());
        lemma_add_unfold(s, p);
        lemma_add_unfold(s, p + 1);
    } else if sym == MUL() {
        law_leading_whitespace(s, p, POW());
        lemma_mul_unfold(s, p);
        lemma_mul_unfold(s, p + 1);
    } else if sym == POW() {
        law_leading_whitespace(s, p, UNARY());
        lemma_pow_unfold(s, p);
        lemma_pow_unfold(s, p + 1);
    } else if sym == UNARY() {
        lemma_unary_unfold(s, p);
        lemma_unary_unfold(s, p + 1);
    } else {
        lemma_atom_unfold(s, p);
        lemma_atom_unfold(s, p + 1);
    }
}

/// After a number or a call, an `x`, an opening parenthesis or any letter
/// starts an implicit product.
pub proof fn law_letters_start_products(c: char)
    ensures
        c == 'x' ==> starts_factor(c),
        c == '(' ==> starts_factor(c),
        ('a' <= c <= 'z' || 'A' <= c <= 'Z') ==> starts_factor(c),
        (c as u32) >= 128 && is_alphabetic(c) ==> starts_factor(c),
{
}

/// A number written right before a letter multiplies the atom the letter
/// starts: `2sin(x)` reads as `2 * sin(x)`, `3x` as `3 * x`.
pub proof fn law_number_then_letter_is_product(s: Seq<char>, p: int)
    requires
        0 <= p < s.len(),
        is_digit(s[p]),
        valid_numeral(s.subrange(p, p + numeral_run(s, p))),
        p + numeral_run(s, p) < s.len(),
        'a' <= s[p + numeral_run(s, p)] <= 'z' || 'A' <= s[p + numeral_run(s, p)] <= 'Z',
    ensures
        ({
            let end = p + numeral_run(s, p);
            let num = ExprModel::Num(NumberModel::Literal(s.subrange(p, end)));
            parse_atom_at(s, p) == match parse_atom_at(s, end) {
                None => None,
                Some((right, c)) => Some((ExprModel::Mul(Box::new(num), Box::new(right)), (end - p + c) as nat)),
            }
        }),
{
    let end = p + numeral_run(s, p);
    reveal_with_fuel(ws_run, 1);
    assert(skip_ws(s, p) == p);
    assert(skip_ws(s, end) == end);
    lemma_atom_unfold(s, p);
}

/// Parses `input` as an expression; characters after the expression are
/// ignored.
pub fn parse_expr(input: &str) -> (r: Option<Expr>)
    ensures
        match r {
            Some(e) => parse_spec(input@) == Some(e.model()),
            None => parse_spec(input@) is None,
        },
{
    let mut p = Parser::new(input);
    p.parse()
}

} // verus!
