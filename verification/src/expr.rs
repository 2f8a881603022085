//! A tiny math-expression language for function plotting: one variable (`x`),
//! the usual arithmetic (`+ - * / ^`, `^` right-associative), unary minus,
//! implicit multiplication (`2x`, `x sin(x)`, `2(x+1)`), parentheses, the
//! constants `pi`/`tau`/`e`, and a fixed set of one-argument functions.
//!
//! The text is split into tokens, then parsed by recursive descent. Number
//! literals are kept as their source text; turning them (and the constants)
//! into floating-point values, and evaluating the tree, is left to the caller.

use vstd::prelude::*;

use crate::chars::{chars_of, string_of};

verus! {

/// The one-argument functions an expression may call.
#[derive(Debug, Clone, Copy, PartialEq, Eq, Structural)]
pub enum Func {
    Sin,
    Cos,
    Tan,
    Asin,
    Acos,
    Atan,
    Sinh,
    Cosh,
    Tanh,
    Exp,
    Ln,
    Log10,
    Sqrt,
    Abs,
    Floor,
    Ceil,
    Sign,
}

/// The function a name denotes, if any (`log` is the base-10 logarithm).
pub open spec fn func_named(name: Seq<char>) -> Option<Func> {
    if name == "sin"@ {
        Some(Func::Sin)
    } else if name == "cos"@ {
        Some(Func::Cos)
    } else if name == "tan"@ {
        Some(Func::Tan)
    } else if name == "asin"@ {
        Some(Func::Asin)
    } else if name == "acos"@ {
        Some(Func::Acos)
    } else if name == "atan"@ {
        Some(Func::Atan)
    } else if name == "sinh"@ {
        Some(Func::Sinh)
    } else if name == "cosh"@ {
        Some(Func::Cosh)
    } else if name == "tanh"@ {
        Some(Func::Tanh)
    } else if name == "exp"@ {
        Some(Func::Exp)
    } else if name == "ln"@ {
        Some(Func::Ln)
    } else if name == "log"@ {
        Some(Func::Log10)
    } else if name == "sqrt"@ {
        Some(Func::Sqrt)
    } else if name == "abs"@ {
        Some(Func::Abs)
    } else if name == "floor"@ {
        Some(Func::Floor)
    } else if name == "ceil"@ {
        Some(Func::Ceil)
    } else if name == "sign"@ {
        Some(Func::Sign)
    } else {
        None
    }
}

/// The name by which an expression calls a function: the variant's name in
/// lower case, except that the base-10 logarithm is `log`.
pub open spec fn func_name(f: Func) -> Seq<char> {
    match f {
        Func::Sin => "sin"@,
        Func::Cos => "cos"@,
        Func::Tan => "tan"@,
        Func::Asin => "asin"@,
        Func::Acos => "acos"@,
        Func::Atan => "atan"@,
        Func::Sinh => "sinh"@,
        Func::Cosh => "cosh"@,
        Func::Tanh => "tanh"@,
        Func::Exp => "exp"@,
        Func::Ln => "ln"@,
        Func::Log10 => "log"@,
        Func::Sqrt => "sqrt"@,
        Func::Abs => "abs"@,
        Func::Floor => "floor"@,
        Func::Ceil => "ceil"@,
        Func::Sign => "sign"@,
    }
}

/// Each function has exactly one name, and each name exactly one function:
/// a name denotes `f` if and only if it is `f`'s name.
pub proof fn lemma_function_names(n: Seq<char>, f: Func)
    ensures
        func_named(n) == Some(f) <==> n == func_name(f),
{
    reveal_strlit("sin");
    assert("sin"@ =~= seq!['s', 'i', 'n']);
    reveal_strlit("cos");
    assert("cos"@ =~= seq!['c', 'o', 's']);
    reveal_strlit("tan");
    assert("tan"@ =~= seq!['t', 'a', 'n']);
    reveal_strlit("asin");
    assert("asin"@ =~= seq!['a', 's', 'i', 'n']);
    reveal_strlit("acos");
    assert("acos"@ =~= seq!['a', 'c', 'o', 's']);
    reveal_strlit("atan");
    assert("atan"@ =~= seq!['a', 't', 'a', 'n']);
    reveal_strlit("sinh");
    assert("sinh"@ =~= seq!['s', 'i', 'n', 'h']);
    reveal_strlit("cosh");
    assert("cosh"@ =~= seq!['c', 'o', 's', 'h']);
    reveal_strlit("tanh");
    assert("tanh"@ =~= seq!['t', 'a', 'n', 'h']);
    reveal_strlit("exp");
    assert("exp"@ =~= seq!['e', 'x', 'p']);
    reveal_strlit("ln");
    assert("ln"@ =~= seq!['l', 'n']);
    reveal_strlit("log");
    assert("log"@ =~= seq!['l', 'o', 'g']);
    reveal_strlit("sqrt");
    assert("sqrt"@ =~= seq!['s', 'q', 'r', 't']);
    reveal_strlit("abs");
    assert("abs"@ =~= seq!['a', 'b', 's']);
    reveal_strlit("floor");
    assert("floor"@ =~= seq!['f', 'l', 'o', 'o', 'r']);
    reveal_strlit("ceil");
    assert("ceil"@ =~= seq!['c', 'e', 'i', 'l']);
    reveal_strlit("sign");
    assert("sign"@ =~= seq!['s', 'i', 'g', 'n']);
    if n == func_name(f) {
        assert(func_named(n) == Some(f));
    }
}

/// No two names denote the same function.
pub proof fn lemma_function_names_distinct(a: Seq<char>, b: Seq<char>)
    ensures
        func_named(a) is Some && func_named(a) == func_named(b) ==> a == b,
{
    if func_named(a) is Some && func_named(a) == func_named(b) {
        let f = func_named(a).unwrap();
        lemma_function_names(a, f);
        lemma_function_names(b, f);
    }
}

/// Every function has a name that denotes it.
pub proof fn lemma_every_function_named(f: Func)
    ensures
        func_named(func_name(f)) == Some(f),
{
    lemma_function_names(func_name(f), f);
}

/// Whether the characters `a` spell the literal `lit`.
fn spells(a: &Vec<char>, lit: &str) -> (r: bool)
    ensures
        r == (a@ == lit@),
{
    let b = chars_of(lit);
    if a.len() != b.len() {
        return false;
    }
    let mut i: usize = 0;
    while i < a.len()
        invariant
            i <= a.len(),
            a.len() == b.len(),
            b@ == lit@,
            forall|j: int| 0 <= j < i ==> a[j] == b[j],
        decreases a.len() - i,
    {
        if a[i] != b[i] {
            return false;
        }
        i = i + 1;
    }
    assert(a@ =~= b@);
    true
}

impl Func {
    /// The function a name denotes, if any.
    pub fn from_name(name: &str) -> (r: Option<Func>)
        ensures
            r == func_named(name@),
    {
        Func::from_chars(&chars_of(name))
    }

    fn from_chars(name: &Vec<char>) -> (r: Option<Func>)
        ensures
            r == func_named(name@),
    {
        if spells(name, "sin") {
            Some(Func::Sin)
        } else if spells(name, "cos") {
            Some(Func::Cos)
        } else if spells(name, "tan") {
            Some(Func::Tan)
        } else if spells(name, "asin") {
            Some(Func::Asin)
        } else if spells(name, "acos") {
            Some(Func::Acos)
        } else if spells(name, "atan") {
            Some(Func::Atan)
        } else if spells(name, "sinh") {
            Some(Func::Sinh)
        } else if spells(name, "cosh") {
            Some(Func::Cosh)
        } else if spells(name, "tanh") {
            Some(Func::Tanh)
        } else if spells(name, "exp") {
            Some(Func::Exp)
        } else if spells(name, "ln") {
            Some(Func::Ln)
        } else if spells(name, "log") {
            Some(Func::Log10)
        } else if spells(name, "sqrt") {
            Some(Func::Sqrt)
        } else if spells(name, "abs") {
            Some(Func::Abs)
        } else if spells(name, "floor") {
            Some(Func::Floor)
        } else if spells(name, "ceil") {
            Some(Func::Ceil)
        } else if spells(name, "sign") {
            Some(Func::Sign)
        } else {
            None
        }
    }
}

/// A lexical token. Number literals and names keep their characters.
#[derive(Debug, Clone)]
pub enum Token {
    Num(Vec<char>),
    Ident(Vec<char>),
    Plus,
    Minus,
    Star,
    Slash,
    Caret,
    LParen,
    RParen,
}

/// The mathematical model of a token.
pub enum SpecToken {
    Num(Seq<char>),
    Ident(Seq<char>),
    Plus,
    Minus,
    Star,
    Slash,
    Caret,
    LParen,
    RParen,
}

impl View for Token {
    type V = SpecToken;

    open spec fn view(&self) -> SpecToken {
        match self {
            Token::Num(t) => SpecToken::Num(t@),
            Token::Ident(t) => SpecToken::Ident(t@),
            Token::Plus => SpecToken::Plus,
            Token::Minus => SpecToken::Minus,
            Token::Star => SpecToken::Star,
            Token::Slash => SpecToken::Slash,
            Token::Caret => SpecToken::Caret,
            Token::LParen => SpecToken::LParen,
            Token::RParen => SpecToken::RParen,
        }
    }
}

/// Why an expression was rejected.
#[derive(Debug, Clone)]
pub enum ParseError {
    /// A character that no token starts with.
    UnexpectedChar(char),
    /// A run of digits and dots that is not a number (two dots, or no digit).
    BadNumber(String),
    /// A name that is neither `x`, a constant, nor a function.
    UnknownName(String),
    /// A function name not followed by `(`.
    ExpectedOpenParen(String),
    /// A function argument not closed by `)`.
    MissingCloseAfter(String),
    /// A parenthesised group not closed by `)`.
    MissingClose,
    /// A token that cannot start an operand.
    UnexpectedToken(Token),
    /// The input ended where an operand was expected.
    UnexpectedEnd,
    /// No tokens at all.
    EmptyExpression,
    /// A complete expression followed by more tokens; the number is the
    /// one-based position of the first token left over.
    TrailingInput(usize),
}

pub enum SpecParseError {
    UnexpectedChar(char),
    BadNumber(Seq<char>),
    UnknownName(Seq<char>),
    ExpectedOpenParen(Seq<char>),
    MissingCloseAfter(Seq<char>),
    MissingClose,
    UnexpectedToken(SpecToken),
    UnexpectedEnd,
    EmptyExpression,
    TrailingInput(int),
}

impl View for ParseError {
    type V = SpecParseError;

    open spec fn view(&self) -> SpecParseError {
        match self {
            ParseError::UnexpectedChar(c) => SpecParseError::UnexpectedChar(*c),
            ParseError::BadNumber(t) => SpecParseError::BadNumber(t@),
            ParseError::UnknownName(t) => SpecParseError::UnknownName(t@),
            ParseError::ExpectedOpenParen(t) => SpecParseError::ExpectedOpenParen(t@),
            ParseError::MissingCloseAfter(t) => SpecParseError::MissingCloseAfter(t@),
            ParseError::MissingClose => SpecParseError::MissingClose,
            ParseError::UnexpectedToken(t) => SpecParseError::UnexpectedToken(t@),
            ParseError::UnexpectedEnd => SpecParseError::UnexpectedEnd,
            ParseError::EmptyExpression => SpecParseError::EmptyExpression,
            ParseError::TrailingInput(k) => SpecParseError::TrailingInput(*k as int),
        }
    }
}

// ---------------------------------------------------------------- tokens

pub open spec fn is_digit(c: char) -> bool {
    '0' as u32 <= c as u32 <= '9' as u32
}

pub open spec fn is_alpha(c: char) -> bool {
    ('a' as u32 <= c as u32 <= 'z' as u32) || ('A' as u32 <= c as u32 <= 'Z' as u32)
}

pub open spec fn is_number_char(c: char) -> bool {
    is_digit(c) || c == '.'
}

pub open spec fn is_name_start(c: char) -> bool {
    is_alpha(c) || c == '_'
}

pub open spec fn is_name_char(c: char) -> bool {
    is_alpha(c) || is_digit(c) || c == '_'
}

/// End of the run of number characters starting at `i`.
pub open spec fn number_end(cs: Seq<char>, i: int) -> int
    decreases cs.len() - i,
{
    if 0 <= i < cs.len() && is_number_char(cs[i]) {
        number_end(cs, i + 1)
    } else {
        i
    }
}

/// End of the run of name characters starting at `i`.
pub open spec fn name_end(cs: Seq<char>, i: int) -> int
    decreases cs.len() - i,
{
    if 0 <= i < cs.len() && is_name_char(cs[i]) {
        name_end(cs, i + 1)
    } else {
        i
    }
}

/// Number of dots in `t`.
pub open spec fn dot_count(t: Seq<char>) -> nat
    decreases t.len(),
{
    if t.len() == 0 {
        0
    } else {
        dot_count(t.drop_last()) + if t.last() == '.' { 1nat } else { 0nat }
    }
}

/// A run of digits and dots reads as a decimal number exactly when it holds
/// at least one digit and at most one dot (the digit-and-dot part of the
/// grammar that std documents for `f32::from_str`).
pub open spec fn is_number_text(t: Seq<char>) -> bool {
    dot_count(t) <= 1 && dot_count(t) < t.len()
}

/// The runs of number and name characters end inside the text.
pub proof fn lemma_run_ends(cs: Seq<char>, i: int)
    requires
        0 <= i <= cs.len(),
    ensures
        i <= number_end(cs, i) <= cs.len(),
        i <= name_end(cs, i) <= cs.len(),
        forall|k: int| i <= k < number_end(cs, i) ==> is_number_char(#[trigger] cs[k]),
        forall|k: int| i <= k < name_end(cs, i) ==> is_name_char(#[trigger] cs[k]),
    decreases cs.len() - i,
{
    if i < cs.len() {
        lemma_run_ends(cs, i + 1);
    }
}

/// The single-character token of `c`, if it is one.
pub open spec fn punct_token(c: char) -> Option<SpecToken> {
    if c == '+' {
        Some(SpecToken::Plus)
    } else if c == '-' {
        Some(SpecToken::Minus)
    } else if c == '*' {
        Some(SpecToken::Star)
    } else if c == '/' {
        Some(SpecToken::Slash)
    } else if c == '^' {
        Some(SpecToken::Caret)
    } else if c == '(' {
        Some(SpecToken::LParen)
    } else if c == ')' {
        Some(SpecToken::RParen)
    } else {
        None
    }
}

/// The tokens of `cs` from position `i` on: spaces and tabs separate tokens,
/// operators and parentheses are one character each, a number is a maximal
/// run of digits and dots, a name a maximal run of letters, digits and `_`
/// that starts with a letter or `_`.
pub open spec fn tokens_from(cs: Seq<char>, i: int) -> Result<Seq<SpecToken>, SpecParseError>
    decreases cs.len() - i,
{
    if i < 0 || i >= cs.len() {
        Ok(Seq::empty())
    } else {
        let c = cs[i];
        if c == ' ' || c == '\t' {
            tokens_from(cs, i + 1)
        } else if punct_token(c) is Some {
            match tokens_from(cs, i + 1) {
                Ok(rest) => Ok(seq![punct_token(c).unwrap()] + rest),
                Err(e) => Err(e),
            }
        } else if is_number_char(c) {
            let e = number_end(cs, i + 1);
            proof {
                lemma_run_ends(cs, i + 1);
            }
            let text = cs.subrange(i, e);
            if !is_number_text(text) {
                Err(SpecParseError::BadNumber(text))
            } else if i < e {
                match tokens_from(cs, e) {
                    Ok(rest) => Ok(seq![SpecToken::Num(text)] + rest),
                    Err(err) => Err(err),
                }
            } else {
                Err(SpecParseError::UnexpectedEnd)
            }
        } else if is_name_start(c) {
            let e = name_end(cs, i + 1);
            proof {
                lemma_run_ends(cs, i + 1);
            }
            let text = cs.subrange(i, e);
            if i < e {
                match tokens_from(cs, e) {
                    Ok(rest) => Ok(seq![SpecToken::Ident(text)] + rest),
                    Err(err) => Err(err),
                }
            } else {
                Err(SpecParseError::UnexpectedEnd)
            }
        } else {
            Err(SpecParseError::UnexpectedChar(c))
        }
    }
}

/// Tokens `p` in front of a tokenizer outcome.
pub open spec fn prepend_tokens(
    p: Seq<SpecToken>,
    r: Result<Seq<SpecToken>, SpecParseError>,
) -> Result<Seq<SpecToken>, SpecParseError> {
    match r {
        Ok(rest) => Ok(p + rest),
        Err(e) => Err(e),
    }
}

proof fn lemma_prepend_assoc(
    a: Seq<SpecToken>,
    b: Seq<SpecToken>,
    r: Result<Seq<SpecToken>, SpecParseError>,
)
    ensures
        prepend_tokens(a, prepend_tokens(b, r)) == prepend_tokens(a + b, r),
{
    if let Ok(rest) = r {
        assert(a + (b + rest) =~= (a + b) + rest);
    }
}

pub open spec fn tokens_view(ts: Seq<Token>) -> Seq<SpecToken> {
    ts.map_values(|t: Token| t@)
}

pub(crate) fn is_digit_exec(c: char) -> (r: bool)
    ensures
        r == is_digit(c),
{
    let u = c as u32;
    48 <= u && u <= 57
}

pub(crate) fn is_alpha_exec(c: char) -> (r: bool)
    ensures
        r == is_alpha(c),
{
    let u = c as u32;
    (97 <= u && u <= 122) || (65 <= u && u <= 90)
}

/// The characters `cs[start..end]` and whether they form a number.
fn number_text(cs: &Vec<char>, start: usize, end: usize) -> (r: (Vec<char>, bool))
    requires
        start <= end <= cs.len(),
    ensures
        r.0@ == cs@.subrange(start as int, end as int),
        r.1 == is_number_text(cs@.subrange(start as int, end as int)),
{
    let mut text: Vec<char> = Vec::new();
    let mut dots: usize = 0;
    let mut k = start;
    assert(cs@.subrange(start as int, start as int) =~= Seq::<char>::empty());
    while k < end
        invariant
            start <= k <= end <= cs.len(),
            text@ == cs@.subrange(start as int, k as int),
            dots == dot_count(text@),
            dots <= k - start,
        decreases end - k,
    {
        text.push(cs[k]);
        proof {
            assert(text@.drop_last() =~= cs@.subrange(start as int, k as int));
            assert(text@ =~= cs@.subrange(start as int, k + 1));
        }
        if cs[k] == '.' {
            dots = dots + 1;
        }
        k = k + 1;
    }
    let ok = dots <= 1 && dots < text.len();
    (text, ok)
}

/// Split `src` into tokens.
pub fn tokenize(src: &str) -> (r: Result<Vec<Token>, ParseError>)
    ensures
        match r {
            Ok(ts) => tokens_from(src@, 0) == Ok::<Seq<SpecToken>, SpecParseError>(tokens_view(ts@)),
            Err(e) => tokens_from(src@, 0) == Err::<Seq<SpecToken>, SpecParseError>(e@),
        },
{
    let cs = chars_of(src);
    let mut tokens: Vec<Token> = Vec::new();
    let mut i: usize = 0;
    proof {
        assert(tokens_view(tokens@) =~= Seq::<SpecToken>::empty());
        if let Ok(rest) = tokens_from(cs@, 0) {
            assert(Seq::<SpecToken>::empty() + rest =~= rest);
        }
    }
    while i < cs.len()
        invariant
            i <= cs.len(),
            cs@ == src@,
            // the tokens so far, followed by the tokens of the rest, make up the
            // tokens of the whole text
            tokens_from(cs@, 0) == prepend_tokens(tokens_view(tokens@), tokens_from(cs@, i as int)),
        decreases cs.len() - i,
    {
        let c = cs[i];
        let ghost ti = tokens_from(cs@, i as int);
        let ghost prev = tokens_view(tokens@);
        if c == ' ' || c == '\t' {
            i = i + 1;
        } else if c == '+' || c == '-' || c == '*' || c == '/' || c == '^' || c == '(' || c == ')' {
            let t = if c == '+' {
                Token::Plus
            } else if c == '-' {
                Token::Minus
            } else if c == '*' {
                Token::Star
            } else if c == '/' {
                Token::Slash
            } else if c == '^' {
                Token::Caret
            } else if c == '(' {
                Token::LParen
            } else {
                Token::RParen
            };
            tokens.push(t);
            proof {
                assert(tokens_view(tokens@) =~= prev + seq![t@]);
                lemma_prepend_assoc(prev, seq![t@], tokens_from(cs@, i + 1));
                assert(tokens_from(cs@, i as int) == prepend_tokens(seq![t@], tokens_from(cs@, i + 1)));
            }
            i = i + 1;
        } else if is_digit_exec(c) || c == '.' {
            let mut e = i + 1;
            proof {
                lemma_run_ends(cs@, i + 1);
            }
            while e < cs.len() && (is_digit_exec(cs[e]) || cs[e] == '.')
                invariant
                    i < e <= cs.len(),
                    number_end(cs@, e as int) == number_end(cs@, i + 1),
                decreases cs.len() - e,
            {
                e = e + 1;
            }
            let (text, ok) = number_text(&cs, i, e);
            if !ok {
                return Err(ParseError::BadNumber(string_of(text.as_slice())));
            }
            let ghost tv = text@;
            tokens.push(Token::Num(text));
            proof {
                lemma_run_ends(cs@, e as int);
                assert(tokens_view(tokens@) =~= prev + seq![SpecToken::Num(tv)]);
                lemma_prepend_assoc(prev, seq![SpecToken::Num(tv)], tokens_from(cs@, e as int));
                assert(e == number_end(cs@, i + 1));
                assert(tokens_from(cs@, i as int) == prepend_tokens(seq![SpecToken::Num(tv)], tokens_from(cs@, e as int)));
            }
            i = e;
        } else if is_alpha_exec(c) || c == '_' {
            let mut e = i + 1;
            while e < cs.len() && (is_alpha_exec(cs[e]) || is_digit_exec(cs[e]) || cs[e] == '_')
                invariant
                    i < e <= cs.len(),
                    name_end(cs@, e as int) == name_end(cs@, i + 1),
                decreases cs.len() - e,
            {
                e = e + 1;
            }
            let (text, _) = number_text(&cs, i, e);
            let ghost tv = text@;
            tokens.push(Token::Ident(text));
            proof {
                assert(tokens_view(tokens@) =~= prev + seq![SpecToken::Ident(tv)]);
                lemma_prepend_assoc(prev, seq![SpecToken::Ident(tv)], tokens_from(cs@, e as int));
                assert(e == name_end(cs@, i + 1));
                assert(tokens_from(cs@, i as int) == prepend_tokens(seq![SpecToken::Ident(tv)], tokens_from(cs@, e as int)));
            }
            i = e;
        } else {
            return Err(ParseError::UnexpectedChar(c));
        }
    }
    proof {
        assert(tokens_view(tokens@) + Seq::<SpecToken>::empty() =~= tokens_view(tokens@));
    }
    Ok(tokens)
}


// ---------------------------------------------------------------- trees

/// A number in an expression: a decimal literal, kept as its source text, or
/// one of the named constants.
#[derive(Debug, Clone)]
pub enum Number {
    Literal(String),
    Pi,
    Tau,
    E,
}

/// An expression in the variable `x`.
#[derive(Debug)]
pub enum Expr {
    Num(Number),
    X,
    Add(Box<Expr>, Box<Expr>),
    Sub(Box<Expr>, Box<Expr>),
    Mul(Box<Expr>, Box<Expr>),
    Div(Box<Expr>, Box<Expr>),
    Pow(Box<Expr>, Box<Expr>),
    Neg(Box<Expr>),
    Call(Func, Box<Expr>),
}

pub enum SpecNumber {
    Literal(Seq<char>),
    Pi,
    Tau,
    E,
}

pub enum SpecExpr {
    Num(SpecNumber),
    X,
    Add(Box<SpecExpr>, Box<SpecExpr>),
    Sub(Box<SpecExpr>, Box<SpecExpr>),
    Mul(Box<SpecExpr>, Box<SpecExpr>),
    Div(Box<SpecExpr>, Box<SpecExpr>),
    Pow(Box<SpecExpr>, Box<SpecExpr>),
    Neg(Box<SpecExpr>),
    Call(Func, Box<SpecExpr>),
}

pub open spec fn number_view(n: Number) -> SpecNumber {
    match n {
        Number::Literal(t) => SpecNumber::Literal(t@),
        Number::Pi => SpecNumber::Pi,
        Number::Tau => SpecNumber::Tau,
        Number::E => SpecNumber::E,
    }
}

pub open spec fn expr_view(e: Expr) -> SpecExpr
    decreases e,
{
    match e {
        Expr::Num(n) => SpecExpr::Num(number_view(n)),
        Expr::X => SpecExpr::X,
        Expr::Add(a, b) => SpecExpr::Add(Box::new(expr_view(*a)), Box::new(expr_view(*b))),
        Expr::Sub(a, b) => SpecExpr::Sub(Box::new(expr_view(*a)), Box::new(expr_view(*b))),
        Expr::Mul(a, b) => SpecExpr::Mul(Box::new(expr_view(*a)), Box::new(expr_view(*b))),
        Expr::Div(a, b) => SpecExpr::Div(Box::new(expr_view(*a)), Box::new(expr_view(*b))),
        Expr::Pow(a, b) => SpecExpr::Pow(Box::new(expr_view(*a)), Box::new(expr_view(*b))),
        Expr::Neg(a) => SpecExpr::Neg(Box::new(expr_view(*a))),
        Expr::Call(f, a) => SpecExpr::Call(f, Box::new(expr_view(*a))),
    }
}

impl View for Expr {
    type V = SpecExpr;

    open spec fn view(&self) -> SpecExpr {
        expr_view(*self)
    }
}

// ---------------------------------------------------------------- grammar

/// The outcome of parsing a phrase that starts at some token position: the
/// tree and the position just after the phrase, or the error.
pub type Parsed = Result<(SpecExpr, int), SpecParseError>;

pub open spec fn token_at(ts: Seq<SpecToken>, pos: int) -> Option<SpecToken> {
    if 0 <= pos < ts.len() {
        Some(ts[pos])
    } else {
        None
    }
}

/// A parse that went forward and stayed inside the tokens.
pub open spec fn advanced(r: Parsed, ts: Seq<SpecToken>, pos: int) -> bool {
    r matches Ok((_, p)) ==> pos < p <= ts.len()
}

/// sum := product (("+" | "-") product)*, left-associative.
pub open spec fn p_sum(ts: Seq<SpecToken>, pos: int) -> Parsed
    decreases ts.len() - pos, 6int,
{
    if pos < 0 || pos > ts.len() {
        Err(SpecParseError::UnexpectedEnd)
    } else {
        match p_product(ts, pos) {
            Ok((left, p)) => if pos < p <= ts.len() {
                p_sum_tail(ts, p, left)
            } else {
                Err(SpecParseError::UnexpectedEnd)
            },
            Err(e) => Err(e),
        }
    }
}

/// The `(("+" | "-") product)*` part of a sum, after `left`.
pub open spec fn p_sum_tail(ts: Seq<SpecToken>, pos: int, left: SpecExpr) -> Parsed
    decreases ts.len() - pos, 5int,
{
    if pos < 0 || pos > ts.len() {
        Err(SpecParseError::UnexpectedEnd)
    } else {
        match token_at(ts, pos) {
            Some(SpecToken::Plus) => match p_product(ts, pos + 1) {
                Ok((right, p)) => if pos < p <= ts.len() {
                    p_sum_tail(ts, p, SpecExpr::Add(Box::new(left), Box::new(right)))
                } else {
                    Err(SpecParseError::UnexpectedEnd)
                },
                Err(e) => Err(e),
            },
            Some(SpecToken::Minus) => match p_product(ts, pos + 1) {
                Ok((right, p)) => if pos < p <= ts.len() {
                    p_sum_tail(ts, p, SpecExpr::Sub(Box::new(left), Box::new(right)))
                } else {
                    Err(SpecParseError::UnexpectedEnd)
                },
                Err(e) => Err(e),
            },
            _ => Ok((left, pos)),
        }
    }
}

/// product := unary (("*" | "/") unary | unary)*, left-associative; an
/// operand that directly follows another (a number, a name or `(`) multiplies
/// it.
pub open spec fn p_product(ts: Seq<SpecToken>, pos: int) -> Parsed
    decreases ts.len() - pos, 4int,
{
    if pos < 0 || pos > ts.len() {
        Err(SpecParseError::UnexpectedEnd)
    } else {
        match p_unary(ts, pos) {
            Ok((left, p)) => if pos < p <= ts.len() {
                p_product_tail(ts, p, left)
            } else {
                Err(SpecParseError::UnexpectedEnd)
            },
            Err(e) => Err(e),
        }
    }
}

/// Whether a token starts an operand that multiplies the one before it.
pub open spec fn starts_operand(t: SpecToken) -> bool {
    t is Num || t is Ident || t is LParen
}

/// The repeated part of a product, after `left`.
pub open spec fn p_product_tail(ts: Seq<SpecToken>, pos: int, left: SpecExpr) -> Parsed
    decreases ts.len() - pos, 3int,
{
    if pos < 0 || pos > ts.len() {
        Err(SpecParseError::UnexpectedEnd)
    } else {
        match token_at(ts, pos) {
            Some(SpecToken::Star) => match p_unary(ts, pos + 1) {
                Ok((right, p)) => if pos < p <= ts.len() {
                    p_product_tail(ts, p, SpecExpr::Mul(Box::new(left), Box::new(right)))
                } else {
                    Err(SpecParseError::UnexpectedEnd)
                },
                Err(e) => Err(e),
            },
            Some(SpecToken::Slash) => match p_unary(ts, pos + 1) {
                Ok((right, p)) => if pos < p <= ts.len() {
                    p_product_tail(ts, p, SpecExpr::Div(Box::new(left), Box::new(right)))
                } else {
                    Err(SpecParseError::UnexpectedEnd)
                },
                Err(e) => Err(e),
            },
            Some(t) => if starts_operand(t) {
                match p_unary(ts, pos) {
                    Ok((right, p)) => if pos < p <= ts.len() {
                        p_product_tail(ts, p, SpecExpr::Mul(Box::new(left), Box::new(right)))
                    } else {
                        Err(SpecParseError::UnexpectedEnd)
                    },
                    Err(e) => Err(e),
                }
            } else {
                Ok((left, pos))
            },
            None => Ok((left, pos)),
        }
    }
}

/// unary := "-" unary | power
pub open spec fn p_unary(ts: Seq<SpecToken>, pos: int) -> Parsed
    decreases ts.len() - pos, 2int,
{
    if pos < 0 || pos > ts.len() {
        Err(SpecParseError::UnexpectedEnd)
    } else if token_at(ts, pos) == Some(SpecToken::Minus) {
        match p_unary(ts, pos + 1) {
            Ok((e, p)) => Ok((SpecExpr::Neg(Box::new(e)), p)),
            Err(e) => Err(e),
        }
    } else {
        p_power(ts, pos)
    }
}

/// power := atom ("^" unary)?, so `2^3^2` is `2^(3^2)` and `-2^2` is
/// `-(2^2)`.
pub open spec fn p_power(ts: Seq<SpecToken>, pos: int) -> Parsed
    decreases ts.len() - pos, 1int,
{
    if pos < 0 || pos > ts.len() {
        Err(SpecParseError::UnexpectedEnd)
    } else {
        match p_atom(ts, pos) {
            Ok((base, p)) => if token_at(ts, p) == Some(SpecToken::Caret) {
                if pos <= p < ts.len() {
                    match p_unary(ts, p + 1) {
                        Ok((exp, q)) => Ok((SpecExpr::Pow(Box::new(base), Box::new(exp)), q)),
                        Err(e) => Err(e),
                    }
                } else {
                    Err(SpecParseError::UnexpectedEnd)
                }
            } else {
                Ok((base, p))
            },
            Err(e) => Err(e),
        }
    }
}

/// atom := number | "x" | "pi" | "tau" | "e" | func "(" sum ")" | "(" sum ")"
pub open spec fn p_atom(ts: Seq<SpecToken>, pos: int) -> Parsed
    decreases ts.len() - pos, 0int,
{
    if pos < 0 || pos > ts.len() {
        Err(SpecParseError::UnexpectedEnd)
    } else {
        match token_at(ts, pos) {
            Some(SpecToken::Num(t)) => Ok((SpecExpr::Num(SpecNumber::Literal(t)), pos + 1)),
            Some(SpecToken::Ident(name)) => if name == "x"@ {
                Ok((SpecExpr::X, pos + 1))
            } else if name == "pi"@ {
                Ok((SpecExpr::Num(SpecNumber::Pi), pos + 1))
            } else if name == "tau"@ {
                Ok((SpecExpr::Num(SpecNumber::Tau), pos + 1))
            } else if name == "e"@ {
                Ok((SpecExpr::Num(SpecNumber::E), pos + 1))
            } else {
                match func_named(name) {
                    None => Err(SpecParseError::UnknownName(name)),
                    Some(f) => if token_at(ts, pos + 1) != Some(SpecToken::LParen) {
                        Err(SpecParseError::ExpectedOpenParen(name))
                    } else {
                        match p_sum(ts, pos + 2) {
                            Ok((arg, p)) => if token_at(ts, p) == Some(SpecToken::RParen) {
                                Ok((SpecExpr::Call(f, Box::new(arg)), p + 1))
                            } else {
                                Err(SpecParseError::MissingCloseAfter(name))
                            },
                            Err(e) => Err(e),
                        }
                    },
                }
            },
            Some(SpecToken::LParen) => match p_sum(ts, pos + 1) {
                Ok((inner, p)) => if token_at(ts, p) == Some(SpecToken::RParen) {
                    Ok((inner, p + 1))
                } else {
                    Err(SpecParseError::MissingClose)
                },
                Err(e) => Err(e),
            },
            Some(other) => Err(SpecParseError::UnexpectedToken(other)),
            None => Err(SpecParseError::UnexpectedEnd),
        }
    }
}

/// What `parse` gives for the source characters `cs`.
pub open spec fn parse_spec(cs: Seq<char>) -> Result<SpecExpr, SpecParseError> {
    match tokens_from(cs, 0) {
        Err(e) => Err(e),
        Ok(ts) => if ts.len() == 0 {
            Err(SpecParseError::EmptyExpression)
        } else {
            match p_sum(ts, 0) {
                Err(e) => Err(e),
                Ok((e, p)) => if p != ts.len() {
                    Err(SpecParseError::TrailingInput(p + 1))
                } else {
                    Ok(e)
                },
            }
        },
    }
}

// ---------------------------------------------------------------- literals

/// Every number literal in the tree is a well-formed decimal.
pub open spec fn literals_ok(e: SpecExpr) -> bool
    decreases e,
{
    match e {
        SpecExpr::Num(SpecNumber::Literal(t)) => is_number_text(t),
        SpecExpr::Num(_) => true,
        SpecExpr::X => true,
        SpecExpr::Add(a, b) => literals_ok(*a) && literals_ok(*b),
        SpecExpr::Sub(a, b) => literals_ok(*a) && literals_ok(*b),
        SpecExpr::Mul(a, b) => literals_ok(*a) && literals_ok(*b),
        SpecExpr::Div(a, b) => literals_ok(*a) && literals_ok(*b),
        SpecExpr::Pow(a, b) => literals_ok(*a) && literals_ok(*b),
        SpecExpr::Neg(a) => literals_ok(*a),
        SpecExpr::Call(_, a) => literals_ok(*a),
    }
}

/// Every number token is a well-formed decimal.
pub open spec fn number_tokens_ok(ts: Seq<SpecToken>) -> bool {
    forall|i: int| 0 <= i < ts.len() ==> (#[trigger] ts[i] matches SpecToken::Num(t) ==> is_number_text(t))
}

pub open spec fn parsed_literals_ok(r: Parsed) -> bool {
    r matches Ok((e, _)) ==> literals_ok(e)
}

proof fn lemma_tokens_numbers_ok(cs: Seq<char>, i: int)
    ensures
        tokens_from(cs, i) matches Ok(ts) ==> number_tokens_ok(ts),
    decreases cs.len() - i,
{
    if 0 <= i < cs.len() {
        let c = cs[i];
        if c == ' ' || c == '\t' {
            lemma_tokens_numbers_ok(cs, i + 1);
        } else if punct_token(c) is Some {
            lemma_tokens_numbers_ok(cs, i + 1);
            if let Ok(rest) = tokens_from(cs, i + 1) {
                let ts = seq![punct_token(c).unwrap()] + rest;
                assert forall|k: int| 0 <= k < ts.len() implies (#[trigger] ts[k] matches SpecToken::Num(
                    t,
                ) ==> is_number_text(t)) by {
                    if k > 0 {
                        assert(ts[k] == rest[k - 1]);
                    }
                }
            }
        } else if is_number_char(c) {
            lemma_run_ends(cs, i + 1);
            let e = number_end(cs, i + 1);
            if i < e && is_number_text(cs.subrange(i, e)) {
                lemma_tokens_numbers_ok(cs, e);
                if let Ok(rest) = tokens_from(cs, e) {
                    let ts = seq![SpecToken::Num(cs.subrange(i, e))] + rest;
                    assert forall|k: int| 0 <= k < ts.len() implies (#[trigger] ts[k] matches SpecToken::Num(
                        t,
                    ) ==> is_number_text(t)) by {
                        if k > 0 {
                            assert(ts[k] == rest[k - 1]);
                        }
                    }
                }
            }
        } else if is_name_start(c) {
            lemma_run_ends(cs, i + 1);
            let e = name_end(cs, i + 1);
            if i < e {
                lemma_tokens_numbers_ok(cs, e);
                if let Ok(rest) = tokens_from(cs, e) {
                    let ts = seq![SpecToken::Ident(cs.subrange(i, e))] + rest;
                    assert forall|k: int| 0 <= k < ts.len() implies (#[trigger] ts[k] matches SpecToken::Num(
                        t,
                    ) ==> is_number_text(t)) by {
                        if k > 0 {
                            assert(ts[k] == rest[k - 1]);
                        }
                    }
                }
            }
        }
    }
}

proof fn lemma_sum_literals(ts: Seq<SpecToken>, pos: int)
    requires
        number_tokens_ok(ts),
    ensures
        parsed_literals_ok(p_sum(ts, pos)),
    decreases ts.len() - pos, 6int,
{
    if 0 <= pos <= ts.len() {
        lemma_product_literals(ts, pos);
        if let Ok((left, p)) = p_product(ts, pos) {
            if pos < p <= ts.len() {
                lemma_sum_tail_literals(ts, p, left);
            }
        }
    }
}

proof fn lemma_sum_tail_literals(ts: Seq<SpecToken>, pos: int, left: SpecExpr)
    requires
        number_tokens_ok(ts),
        literals_ok(left),
    ensures
        parsed_literals_ok(p_sum_tail(ts, pos, left)),
    decreases ts.len() - pos, 5int,
{
    if 0 <= pos < ts.len() {
        let t = ts[pos];
        if t is Plus || t is Minus {
            lemma_product_literals(ts, pos + 1);
            if let Ok((right, p)) = p_product(ts, pos + 1) {
                if pos < p <= ts.len() {
                    lemma_sum_tail_literals(ts, p, SpecExpr::Add(Box::new(left), Box::new(right)));
                    lemma_sum_tail_literals(ts, p, SpecExpr::Sub(Box::new(left), Box::new(right)));
                }
            }
        }
    }
}

proof fn lemma_product_literals(ts: Seq<SpecToken>, pos: int)
    requires
        number_tokens_ok(ts),
    ensures
        parsed_literals_ok(p_product(ts, pos)),
    decreases ts.len() - pos, 4int,
{
    if 0 <= pos <= ts.len() {
        lemma_unary_literals(ts, pos);
        if let Ok((left, p)) = p_unary(ts, pos) {
            if pos < p <= ts.len() {
                lemma_product_tail_literals(ts, p, left);
            }
        }
    }
}

proof fn lemma_product_tail_literals(ts: Seq<SpecToken>, pos: int, left: SpecExpr)
    requires
        number_tokens_ok(ts),
        literals_ok(left),
    ensures
        parsed_literals_ok(p_product_tail(ts, pos, left)),
    decreases ts.len() - pos, 3int,
{
    if 0 <= pos < ts.len() {
        let t = ts[pos];
        if t is Star || t is Slash {
            lemma_unary_literals(ts, pos + 1);
            if let Ok((right, p)) = p_unary(ts, pos + 1) {
                if pos < p <= ts.len() {
                    lemma_product_tail_literals(ts, p, SpecExpr::Mul(Box::new(left), Box::new(right)));
                    lemma_product_tail_literals(ts, p, SpecExpr::Div(Box::new(left), Box::new(right)));
                }
            }
        } else if starts_operand(t) {
            lemma_unary_literals(ts, pos);
            if let Ok((right, p)) = p_unary(ts, pos) {
                if pos < p <= ts.len() {
                    lemma_product_tail_literals(ts, p, SpecExpr::Mul(Box::new(left), Box::new(right)));
                }
            }
        }
    }
}

proof fn lemma_unary_literals(ts: Seq<SpecToken>, pos: int)
    requires
        number_tokens_ok(ts),
    ensures
        parsed_literals_ok(p_unary(ts, pos)),
    decreases ts.len() - pos, 2int,
{
    if 0 <= pos <= ts.len() {
        if token_at(ts, pos) == Some(SpecToken::Minus) {
            lemma_unary_literals(ts, pos + 1);
        } else {
            lemma_power_literals(ts, pos);
        }
    }
}

proof fn lemma_power_literals(ts: Seq<SpecToken>, pos: int)
    requires
        number_tokens_ok(ts),
    ensures
        parsed_literals_ok(p_power(ts, pos)),
    decreases ts.len() - pos, 1int,
{
    if 0 <= pos <= ts.len() {
        lemma_atom_literals(ts, pos);
        if let Ok((base, p)) = p_atom(ts, pos) {
            if token_at(ts, p) == Some(SpecToken::Caret) && pos <= p < ts.len() {
                lemma_unary_literals(ts, p + 1);
            }
        }
    }
}

proof fn lemma_atom_literals(ts: Seq<SpecToken>, pos: int)
    requires
        number_tokens_ok(ts),
    ensures
        parsed_literals_ok(p_atom(ts, pos)),
    decreases ts.len() - pos, 0int,
{
    if 0 <= pos < ts.len() {
        let t = ts[pos];
        if t is Ident || t is LParen {
            lemma_sum_literals(ts, pos + 1);
            if pos + 2 <= ts.len() {
                lemma_sum_literals(ts, pos + 2);
            }
        }
    }
}

/// Every number literal of a parsed expression is a well-formed decimal (at
/// least one digit, at most one dot), so reading its value cannot fail.
pub proof fn lemma_parsed_literals_are_numbers(cs: Seq<char>)
    ensures
        parse_spec(cs) matches Ok(e) ==> literals_ok(e),
{
    lemma_tokens_numbers_ok(cs, 0);
    if let Ok(ts) = tokens_from(cs, 0) {
        lemma_sum_literals(ts, 0);
    }
}

// ---------------------------------------------------------------- parser

pub open spec fn parsed_view(r: Result<(Expr, usize), ParseError>) -> Parsed {
    match r {
        Ok((e, p)) => Ok((e@, p as int)),
        Err(e) => Err(e@),
    }
}

fn parse_sum(tokens: &Vec<Token>, pos: usize) -> (r: Result<(Expr, usize), ParseError>)
    requires
        pos <= tokens.len(),
    ensures
        parsed_view(r) == p_sum(tokens_view(tokens@), pos as int),
        advanced(parsed_view(r), tokens_view(tokens@), pos as int),
    decreases tokens.len() - pos, 6int,
{
    let ghost ts = tokens_view(tokens@);
    let (mut left, mut p) = match parse_product(tokens, pos) {
        Ok(lp) => lp,
        Err(e) => return Err(e),
    };
    while p < tokens.len()
        invariant
            pos < p <= tokens.len(),
            ts == tokens_view(tokens@),
            p_sum(ts, pos as int) == p_sum_tail(ts, p as int, left@),
        decreases tokens.len() - p,
    {
        let plus = match &tokens[p] {
            Token::Plus => true,
            Token::Minus => false,
            _ => {
                assert(ts[p as int] == tokens[p as int]@);
                return Ok((left, p));
            },
        };
        assert(ts[p as int] == tokens[p as int]@);
        match parse_product(tokens, p + 1) {
            Ok((right, q)) => {
                left = if plus {
                    Expr::Add(Box::new(left), Box::new(right))
                } else {
                    Expr::Sub(Box::new(left), Box::new(right))
                };
                p = q;
            },
            Err(e) => return Err(e),
        }
    }
    Ok((left, p))
}

fn parse_product(tokens: &Vec<Token>, pos: usize) -> (r: Result<(Expr, usize), ParseError>)
    requires
        pos <= tokens.len(),
    ensures
        parsed_view(r) == p_product(tokens_view(tokens@), pos as int),
        advanced(parsed_view(r), tokens_view(tokens@), pos as int),
    decreases tokens.len() - pos, 4int,
{
    let ghost ts = tokens_view(tokens@);
    let (mut left, mut p) = match parse_unary(tokens, pos) {
        Ok(lp) => lp,
        Err(e) => return Err(e),
    };
    while p < tokens.len()
        invariant
            pos < p <= tokens.len(),
            ts == tokens_view(tokens@),
            p_product(ts, pos as int) == p_product_tail(ts, p as int, left@),
        decreases tokens.len() - p,
    {
        assert(ts[p as int] == tokens[p as int]@);
        // 0: '*', 1: '/', 2: implicit multiplication
        let kind: u8 = match &tokens[p] {
            Token::Star => 0,
            Token::Slash => 1,
            Token::Num(_) => 2,
            Token::Ident(_) => 2,
            Token::LParen => 2,
            _ => return Ok((left, p)),
        };
        let start = if kind == 2 { p } else { p + 1 };
        match parse_unary(tokens, start) {
            Ok((right, q)) => {
                left = if kind == 1 {
                    Expr::Div(Box::new(left), Box::new(right))
                } else {
                    Expr::Mul(Box::new(left), Box::new(right))
                };
                p = q;
            },
            Err(e) => return Err(e),
        }
    }
    Ok((left, p))
}

fn parse_unary(tokens: &Vec<Token>, pos: usize) -> (r: Result<(Expr, usize), ParseError>)
    requires
        pos <= tokens.len(),
    ensures
        parsed_view(r) == p_unary(tokens_view(tokens@), pos as int),
        advanced(parsed_view(r), tokens_view(tokens@), pos as int),
    decreases tokens.len() - pos, 2int,
{
    let ghost ts = tokens_view(tokens@);
    if pos < tokens.len() {
        assert(ts[pos as int] == tokens[pos as int]@);
        if let Token::Minus = &tokens[pos] {
            return match parse_unary(tokens, pos + 1) {
                Ok((e, p)) => Ok((Expr::Neg(Box::new(e)), p)),
                Err(e) => Err(e),
            };
        }
    }
    parse_power(tokens, pos)
}

fn parse_power(tokens: &Vec<Token>, pos: usize) -> (r: Result<(Expr, usize), ParseError>)
    requires
        pos <= tokens.len(),
    ensures
        parsed_view(r) == p_power(tokens_view(tokens@), pos as int),
        advanced(parsed_view(r), tokens_view(tokens@), pos as int),
    decreases tokens.len() - pos, 1int,
{
    let ghost ts = tokens_view(tokens@);
    let (base, p) = match parse_atom(tokens, pos) {
        Ok(bp) => bp,
        Err(e) => return Err(e),
    };
    if p < tokens.len() {
        assert(ts[p as int] == tokens[p as int]@);
        if let Token::Caret = &tokens[p] {
            return match parse_unary(tokens, p + 1) {
                Ok((exp, q)) => Ok((Expr::Pow(Box::new(base), Box::new(exp)), q)),
                Err(e) => Err(e),
            };
        }
    }
    Ok((base, p))
}

/// Whether `tokens[pos]` exists and is `(` (when `open`) or `)`.
fn paren_at(tokens: &Vec<Token>, pos: usize, open: bool) -> (r: bool)
    ensures
        r == (token_at(tokens_view(tokens@), pos as int) == Some(
            if open { SpecToken::LParen } else { SpecToken::RParen },
        )),
{
    if pos < tokens.len() {
        assert(tokens_view(tokens@)[pos as int] == tokens[pos as int]@);
        match &tokens[pos] {
            Token::LParen => open,
            Token::RParen => !open,
            _ => false,
        }
    } else {
        false
    }
}

fn parse_atom(tokens: &Vec<Token>, pos: usize) -> (r: Result<(Expr, usize), ParseError>)
    requires
        pos <= tokens.len(),
    ensures
        parsed_view(r) == p_atom(tokens_view(tokens@), pos as int),
        advanced(parsed_view(r), tokens_view(tokens@), pos as int),
    decreases tokens.len() - pos, 0int,
{
    let ghost ts = tokens_view(tokens@);
    if pos >= tokens.len() {
        return Err(ParseError::UnexpectedEnd);
    }
    assert(ts[pos as int] == tokens[pos as int]@);
    match &tokens[pos] {
        Token::Num(t) => Ok((Expr::Num(Number::Literal(string_of(t.as_slice()))), pos + 1)),
        Token::Ident(name) => {
            if spells(name, "x") {
                Ok((Expr::X, pos + 1))
            } else if spells(name, "pi") {
                Ok((Expr::Num(Number::Pi), pos + 1))
            } else if spells(name, "tau") {
                Ok((Expr::Num(Number::Tau), pos + 1))
            } else if spells(name, "e") {
                Ok((Expr::Num(Number::E), pos + 1))
            } else {
                match Func::from_chars(name) {
                    None => Err(ParseError::UnknownName(string_of(name.as_slice()))),
                    Some(f) => {
                        if !paren_at(tokens, pos + 1, true) {
                            return Err(ParseError::ExpectedOpenParen(string_of(name.as_slice())));
                        }
                        match parse_sum(tokens, pos + 2) {
                            Ok((arg, p)) => {
                                if paren_at(tokens, p, false) {
                                    Ok((Expr::Call(f, Box::new(arg)), p + 1))
                                } else {
                                    Err(ParseError::MissingCloseAfter(string_of(name.as_slice())))
                                }
                            },
                            Err(e) => Err(e),
                        }
                    },
                }
            }
        },
        Token::LParen => match parse_sum(tokens, pos + 1) {
            Ok((inner, p)) => {
                if paren_at(tokens, p, false) {
                    Ok((inner, p + 1))
                } else {
                    Err(ParseError::MissingClose)
                }
            },
            Err(e) => Err(e),
        },
        Token::Plus => Err(ParseError::UnexpectedToken(Token::Plus)),
        Token::Minus => Err(ParseError::UnexpectedToken(Token::Minus)),
        Token::Star => Err(ParseError::UnexpectedToken(Token::Star)),
        Token::Slash => Err(ParseError::UnexpectedToken(Token::Slash)),
        Token::Caret => Err(ParseError::UnexpectedToken(Token::Caret)),
        Token::RParen => Err(ParseError::UnexpectedToken(Token::RParen)),
    }
}

/// Parse an expression in the variable `x`.
pub fn parse(src: &str) -> (r: Result<Expr, ParseError>)
    ensures
        match r {
            Ok(e) => parse_spec(src@) == Ok::<SpecExpr, SpecParseError>(e@),
            Err(e) => parse_spec(src@) == Err::<SpecExpr, SpecParseError>(e@),
        },
{
    let tokens = match tokenize(src) {
        Ok(ts) => ts,
        Err(e) => return Err(e),
    };
    if tokens.len() == 0 {
        return Err(ParseError::EmptyExpression);
    }
    match parse_sum(&tokens, 0) {
        Ok((e, p)) => {
            if p != tokens.len() {
                Err(ParseError::TrailingInput(p + 1))
            } else {
                Ok(e)
            }
        },
        Err(e) => Err(e),
    }
}

} // verus!
