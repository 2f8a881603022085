use rs_namin::expr::{parse, tokenize, Expr, Func, Number, ParseError, Token};

fn value(n: &Number) -> f32 {
    match n {
        Number::Literal(t) => t.parse().unwrap(),
        Number::Pi => std::f32::consts::PI,
        Number::Tau => std::f32::consts::TAU,
        Number::E => std::f32::consts::E,
    }
}

fn apply(f: Func, v: f32) -> f32 {
    match f {
        Func::Sin => v.sin(),
        Func::Cos => v.cos(),
        Func::Tan => v.tan(),
        Func::Asin => v.asin(),
        Func::Acos => v.acos(),
        Func::Atan => v.atan(),
        Func::Sinh => v.sinh(),
        Func::Cosh => v.cosh(),
        Func::Tanh => v.tanh(),
        Func::Exp => v.exp(),
        Func::Ln => v.ln(),
        Func::Log10 => v.log10(),
        Func::Sqrt => v.sqrt(),
        Func::Abs => v.abs(),
        Func::Floor => v.floor(),
        Func::Ceil => v.ceil(),
        Func::Sign => v.signum(),
    }
}

fn run(e: &Expr, x: f32) -> f32 {
    match e {
        Expr::Num(n) => value(n),
        Expr::X => x,
        Expr::Add(a, b) => run(a, x) + run(b, x),
        Expr::Sub(a, b) => run(a, x) - run(b, x),
        Expr::Mul(a, b) => run(a, x) * run(b, x),
        Expr::Div(a, b) => run(a, x) / run(b, x),
        Expr::Pow(a, b) => run(a, x).powf(run(b, x)),
        Expr::Neg(a) => -run(a, x),
        Expr::Call(f, a) => apply(*f, run(a, x)),
    }
}

fn eval(src: &str, x: f32) -> f32 {
    run(&parse(src).unwrap(), x)
}

#[test]
fn arithmetic_and_precedence() {
    assert_eq!(eval("1 + 2 * 3", 0.0), 7.0);
    assert_eq!(eval("(1 + 2) * 3", 0.0), 9.0);
    assert_eq!(eval("10 - 4 - 3", 0.0), 3.0); // left-assoc
    assert_eq!(eval("12 / 4 / 3", 0.0), 1.0);
}

#[test]
fn power_is_right_associative_and_binds_tighter_than_neg() {
    assert_eq!(eval("2^3^2", 0.0), 512.0);
    assert_eq!(eval("-2^2", 0.0), -4.0);
    assert_eq!(eval("2^-1", 0.0), 0.5);
}

#[test]
fn variable_and_constants() {
    assert_eq!(eval("x^2 + 1", 3.0), 10.0);
    assert!((eval("pi", 0.0) - std::f32::consts::PI).abs() < 1e-6);
    assert!((eval("tau / 2 - pi", 0.0)).abs() < 1e-6);
    assert!((eval("ln(e)", 0.0) - 1.0).abs() < 1e-6);
}

#[test]
fn functions() {
    assert!((eval("sin(pi / 2)", 0.0) - 1.0).abs() < 1e-6);
    assert!((eval("sqrt(x)", 16.0) - 4.0).abs() < 1e-6);
    assert!((eval("abs(-3)", 0.0) - 3.0).abs() < 1e-6);
    assert!((eval("log(100)", 0.0) - 2.0).abs() < 1e-5);
}

#[test]
fn implicit_multiplication() {
    assert_eq!(eval("2x", 3.0), 6.0);
    assert_eq!(eval("2(x + 1)", 3.0), 8.0);
    assert!((eval("x sin(pi/2)", 5.0) - 5.0).abs() < 1e-6);
    assert_eq!(eval("(x+1)(x-1)", 3.0), 8.0);
}

#[test]
fn unary_minus() {
    assert_eq!(eval("-x", 2.0), -2.0);
    assert_eq!(eval("3 - -x", 2.0), 5.0);
    assert_eq!(eval("--x", 2.0), 2.0);
}

#[test]
fn domain_errors_are_nonfinite_not_panics() {
    assert!(eval("1 / x", 0.0).is_infinite());
    assert!(eval("ln(x)", -1.0).is_nan());
    assert!(eval("sqrt(x)", -4.0).is_nan());
}

#[test]
fn parse_errors() {
    assert!(parse("").is_err());
    assert!(parse("x +").is_err());
    assert!(parse("(x").is_err());
    assert!(parse("x)").is_err());
    assert!(parse("foo(x)").is_err());
    assert!(parse("sin x").is_err());
    assert!(parse("1..2").is_err());
    assert!(parse("x $ 2").is_err());
}

#[test]
fn each_error_kind() {
    assert!(matches!(parse(""), Err(ParseError::EmptyExpression)));
    assert!(matches!(parse("   "), Err(ParseError::EmptyExpression)));
    assert!(matches!(parse("x +"), Err(ParseError::UnexpectedEnd)));
    assert!(matches!(parse("(x"), Err(ParseError::MissingClose)));
    assert!(matches!(parse("x)"), Err(ParseError::TrailingInput(2))));
    assert!(matches!(parse("foo(x)"), Err(ParseError::UnknownName(ref n)) if n == "foo"));
    assert!(matches!(parse("sin x"), Err(ParseError::ExpectedOpenParen(ref n)) if n == "sin"));
    assert!(matches!(parse("sqrt(x"), Err(ParseError::MissingCloseAfter(ref n)) if n == "sqrt"));
    assert!(matches!(parse("1..2"), Err(ParseError::BadNumber(ref t)) if t == "1..2"));
    assert!(matches!(parse("."), Err(ParseError::BadNumber(ref t)) if t == "."));
    assert!(matches!(parse("x $ 2"), Err(ParseError::UnexpectedChar('$'))));
    assert!(matches!(parse("* 2"), Err(ParseError::UnexpectedToken(Token::Star))));
}

#[test]
fn tree_shapes() {
    match parse("2^3^2").unwrap() {
        Expr::Pow(a, b) => {
            assert!(matches!(*a, Expr::Num(Number::Literal(ref t)) if t == "2"));
            assert!(matches!(*b, Expr::Pow(_, _)));
        }
        _ => panic!("expected a power"),
    }
    assert!(matches!(parse("-2^2").unwrap(), Expr::Neg(_)));
    assert!(matches!(parse("2x").unwrap(), Expr::Mul(_, _)));
    assert!(matches!(parse("10 - 4 - 3").unwrap(), Expr::Sub(ref a, _) if matches!(**a, Expr::Sub(_, _))));
    assert!(matches!(parse("e").unwrap(), Expr::Num(Number::E)));
    assert!(matches!(parse("tan(x)").unwrap(), Expr::Call(Func::Tan, _)));
}

#[test]
fn tokens_of_a_formula() {
    let ts = tokenize("3.5x_1+(y)").unwrap();
    assert_eq!(ts.len(), 6);
    assert!(matches!(&ts[0], Token::Num(t) if t.iter().collect::<String>() == "3.5"));
    assert!(matches!(&ts[1], Token::Ident(t) if t.iter().collect::<String>() == "x_1"));
    assert!(matches!(ts[2], Token::Plus));
    assert!(matches!(ts[3], Token::LParen));
    assert!(matches!(ts[5], Token::RParen));
}

#[test]
fn function_names() {
    assert_eq!(Func::from_name("log"), Some(Func::Log10));
    assert_eq!(Func::from_name("sign"), Some(Func::Sign));
    assert_eq!(Func::from_name("Sin"), None);
    assert_eq!(Func::from_name(""), None);
}

fn literals(e: &Expr, out: &mut Vec<String>) {
    match e {
        Expr::Num(Number::Literal(t)) => out.push(t.clone()),
        Expr::Num(_) | Expr::X => {}
        Expr::Add(a, b) | Expr::Sub(a, b) | Expr::Mul(a, b) | Expr::Div(a, b) | Expr::Pow(a, b) => {
            literals(a, out);
            literals(b, out);
        }
        Expr::Neg(a) | Expr::Call(_, a) => literals(a, out),
    }
}

#[test]
fn parsed_literals_read_as_numbers() {
    let e = parse("1.5x + .5 - 7. * sqrt(0.25) ^ 3").unwrap();
    let mut found = Vec::new();
    literals(&e, &mut found);
    assert_eq!(found, vec!["1.5", ".5", "7.", "0.25", "3"]);
    for t in &found {
        assert!(t.parse::<f32>().is_ok(), "{t} should read as a number");
    }
    assert!(matches!(parse("1..2"), Err(ParseError::BadNumber(_))));
    assert!(matches!(parse("."), Err(ParseError::BadNumber(_))));
}
