use syntxt::automation::{lookup, BinOp, BuiltInVar, EvalError, Expr, UnOp};

/// Evaluate with both built-in times at zero, reading constants as numbers.
fn evaluate(e: &Expr, env: &[f64]) -> Result<f64, EvalError> {
    match e {
        Expr::Const(text) => Ok(text.parse().unwrap()),
        Expr::Var(v) => lookup(env, *v),
        Expr::BuiltInVar(_) => Ok(0.0),
        Expr::BinOp(op, x, y) => {
            let x = evaluate(x, env)?;
            let y = evaluate(y, env)?;
            Ok(match op {
                BinOp::Add => x + y,
                BinOp::Sub => x - y,
                BinOp::Mul => x * y,
                BinOp::Div => x / y,
                BinOp::Rem => x % y,
                BinOp::Pow => x.powf(y),
            })
        }
        Expr::UnOp(op, x) => {
            let x = evaluate(x, env)?;
            Ok(match op {
                UnOp::Sin => x.sin(),
                UnOp::Cos => x.cos(),
            })
        }
    }
}

fn run(input: &str, env: &[f64]) -> Option<Result<f64, EvalError>> {
    Expr::parse(input).map(|x| evaluate(&x, env))
}

fn var(index: &str) -> syntxt::automation::Var {
    match Expr::parse(index) {
        Some(Expr::Var(v)) => v,
        other => panic!("not a variable: {:?}", other),
    }
}

fn constant(text: &str) -> Box<Expr> {
    Box::new(Expr::Const(text.to_string()))
}

#[test]
fn simple() {
    assert_eq!(run("+ 1 2", &[]), Some(Ok(3.0)));
    assert_eq!(run("+ 2 * 3 4", &[]), Some(Ok(14.0)));
    assert_eq!(run("/ + 2 * 3 4 5", &[]), Some(Ok(14.0 / 5.0)));
    assert_eq!(run("% 9 4", &[]), Some(Ok(1.0)));
    assert_eq!(run("^ 3 2", &[]), Some(Ok(9.0)));
}

#[test]
fn variables() {
    let env = &[2.0, 5.0, 10.0];
    assert_eq!(run("/ - $1 $2 $0", env), Some(Ok(-2.5)));
}

#[test]
fn undefined_variables() {
    let env = &[2.0];
    assert_eq!(run("- $1 $0", env), Some(Err(EvalError::UnknownVariable { var: var("$1") })));
}

#[test]
fn trigonometry() {
    assert_eq!(run("sin 0", &[]), Some(Ok(0.0)));
    assert_eq!(run("cos 0", &[]), Some(Ok(1.0)));
}

#[test]
fn prefix_structure() {
    assert_eq!(
        Expr::parse("+ 2 * 3 4"),
        Some(Expr::BinOp(BinOp::Add, constant("2"), Box::new(Expr::BinOp(BinOp::Mul, constant("3"), constant("4")))))
    );
    assert_eq!(
        Expr::parse("  cos\t\ttime\n"),
        Some(Expr::UnOp(UnOp::Cos, Box::new(Expr::BuiltInVar(BuiltInVar::GlobalTimeSeconds))))
    );
    assert_eq!(Expr::parse("note_time"), Some(Expr::BuiltInVar(BuiltInVar::NoteTimeSeconds)));
    assert_eq!(Expr::parse("-5"), Some(Expr::Const("-5".to_string())));
}

#[test]
fn words_after_the_expression_are_ignored() {
    assert_eq!(Expr::parse("+ 1 2 3"), Expr::parse("+ 1 2"));
}

#[test]
fn incomplete_expressions_fail() {
    assert_eq!(Expr::parse(""), None);
    assert_eq!(Expr::parse("   "), None);
    assert_eq!(Expr::parse("+ 1"), None);
    assert_eq!(Expr::parse("sin"), None);
}

#[test]
fn variable_indices() {
    assert_eq!(var("$0").index(), 0);
    assert_eq!(var("$+7").index(), 7);
    assert_eq!(var("$0042").index(), 42);
    assert_eq!(Expr::parse("$"), None);
    assert_eq!(Expr::parse("$-1"), None);
    assert_eq!(Expr::parse("$x"), None);
    assert_eq!(Expr::parse("$99999999999999999999999"), None);
}

#[test]
fn lookup_reads_inputs() {
    assert_eq!(lookup(&[4, 5], var("$1")), Ok(5));
    assert_eq!(lookup(&[4, 5], var("$2")), Err(EvalError::UnknownVariable { var: var("$2") }));
}
