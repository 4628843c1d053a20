use cmdlang::ast::{BinOp, Cmd, Expr};
use cmdlang::interp::{eval, i64_to_string, materialize, u64_to_string, Env, Failure, Value};
use cmdlang::parse::parse;

fn no_commands(_n: String, _a: Vec<String>) -> Result<String, Failure> {
    Err(Failure::SpawnFailure)
}

fn run(line: &str, env: &mut Env) -> Result<Value, Failure> {
    let e = parse(line)?;
    eval(env, &e, &no_commands)
}

#[test]
fn scenario_assignment() {
    let mut env = Env::new();
    assert_eq!(run("let x = 3 + 4", &mut env), Ok(Value::Whole(7)));
    assert_eq!(env.get(&"x".to_string()), Some(Value::Whole(7)));
}

#[test]
fn scenario_conditional() {
    let mut env = Env::new();
    let line = format!("if 0 th{} 1 else 2", "en");
    assert_eq!(run(&line, &mut env), Ok(Value::Whole(2)));
}

#[test]
fn scenario_unbound_name() {
    let mut env = Env::new();
    assert_eq!(run("y", &mut env), Err(Failure::UnboundName));
}

#[test]
fn scenario_command_invocation() {
    let mut env = Env::new();
    let e = parse("echo hello").unwrap();
    let invoker = |n: String, a: Vec<String>| -> Result<String, Failure> {
        assert_eq!(n, "echo".to_string());
        assert_eq!(a, vec!["hello".to_string()]);
        Ok("hello\n".to_string())
    };
    // a bare word in argument position is an identifier, so bind it first
    env.set("hello".to_string(), Value::Str("hello".to_string()));
    assert_eq!(
        eval(&mut env, &e, &invoker),
        Ok(Value::Str("hello\n".to_string()))
    );
}

#[test]
fn scenario_division_by_zero() {
    let mut env = Env::new();
    assert_eq!(run("3 / 0", &mut env), Err(Failure::ArithmeticFailure));
}

#[test]
fn scenario_parenthesized() {
    let mut env = Env::new();
    assert_eq!(run("(1 + 2) * 3", &mut env), Ok(Value::Whole(9)));
}

#[test]
fn division_truncates() {
    let mut env = Env::new();
    assert_eq!(run("84 / 2", &mut env), Ok(Value::Whole(42)));
    assert_eq!(run("7 / 2", &mut env), Ok(Value::Whole(3)));
}

#[test]
fn arithmetic_wraps_around() {
    let mut env = Env::new();
    assert_eq!(
        run("18446744073709551615 + 1", &mut env),
        Ok(Value::Whole(0))
    );
    assert_eq!(run("0 - 1", &mut env), Ok(Value::Whole(u64::MAX)));
    assert_eq!(
        run("18446744073709551615 * 2", &mut env),
        Ok(Value::Whole(u64::MAX - 1))
    );
}

#[test]
fn type_mismatch_on_cross_variants() {
    let mut env = Env::new();
    let e = Expr::BinOp(
        BinOp::Add,
        Box::new(Expr::UInt64(1)),
        Box::new(Expr::Str("a".to_string())),
    );
    assert_eq!(eval(&mut env, &e, &no_commands), Err(Failure::TypeMismatch));
    let e2 = Expr::BinOp(
        BinOp::Mul,
        Box::new(Expr::Str("a".to_string())),
        Box::new(Expr::Str("b".to_string())),
    );
    assert_eq!(
        eval(&mut env, &e2, &no_commands),
        Err(Failure::TypeMismatch)
    );
}

#[test]
fn truthiness_of_strings() {
    let mut env = Env::new();
    let pick = |s: &str| {
        Expr::Cond(
            Box::new(Expr::Str(s.to_string())),
            Box::new(Expr::UInt64(1)),
            Box::new(Expr::UInt64(2)),
        )
    };
    let mut e = pick("");
    assert_eq!(eval(&mut env, &e, &no_commands), Ok(Value::Whole(2)));
    e = pick("x");
    assert_eq!(eval(&mut env, &e, &no_commands), Ok(Value::Whole(1)));
}

#[test]
fn truthiness_of_numbers() {
    let mut env = Env::new();
    let one = format!("if 1 th{} 10 else 20", "en");
    let zero = format!("if 0 th{} 10 else 20", "en");
    assert_eq!(run(&one, &mut env), Ok(Value::Whole(10)));
    assert_eq!(run(&zero, &mut env), Ok(Value::Whole(20)));
}

#[test]
fn unbound_despite_other_bindings() {
    let mut env = Env::new();
    assert_eq!(run("let a = 1", &mut env), Ok(Value::Whole(1)));
    assert_eq!(run("b", &mut env), Err(Failure::UnboundName));
}

#[test]
fn last_write_wins() {
    let mut env = Env::new();
    assert_eq!(run("let x = 1", &mut env), Ok(Value::Whole(1)));
    assert_eq!(run("let x = 2", &mut env), Ok(Value::Whole(2)));
    assert_eq!(run("x", &mut env), Ok(Value::Whole(2)));
}

#[test]
fn assignment_returns_its_value() {
    let mut env = Env::new();
    assert_eq!(run("let y = 5 * 8", &mut env), Ok(Value::Whole(40)));
    assert_eq!(run("y + 2", &mut env), Ok(Value::Whole(42)));
}

#[test]
fn command_arguments_are_materialized() {
    let mut env = Env::new();
    let e = parse("report 5 \"up\"").unwrap();
    let invoker = |n: String, a: Vec<String>| -> Result<String, Failure> {
        assert_eq!(n, "report".to_string());
        assert_eq!(a, vec!["5".to_string(), "up".to_string()]);
        Ok("done".to_string())
    };
    assert_eq!(
        eval(&mut env, &e, &invoker),
        Ok(Value::Str("done".to_string()))
    );
}

#[test]
fn command_failure_passes_through() {
    let mut env = Env::new();
    let e = parse("missing 1").unwrap();
    assert_eq!(
        eval(&mut env, &e, &no_commands),
        Err(Failure::SpawnFailure)
    );
    let decode = |_n: String, _a: Vec<String>| -> Result<String, Failure> {
        Err(Failure::DecodeFailure)
    };
    assert_eq!(eval(&mut env, &e, &decode), Err(Failure::DecodeFailure));
}

#[test]
fn untaken_branch_is_not_evaluated() {
    // the untaken branch holds a command; the invoker refuses every call,
    // so reaching it would fail the evaluation
    let mut env = Env::new();
    let line = format!("if 1 th{} 7 else boom 1", "en");
    assert_eq!(run(&line, &mut env), Ok(Value::Whole(7)));
}

#[test]
fn materialization_formats() {
    assert_eq!(u64_to_string(0), "0".to_string());
    assert_eq!(u64_to_string(1234567890), "1234567890".to_string());
    assert_eq!(u64_to_string(u64::MAX), "18446744073709551615".to_string());
    assert_eq!(i64_to_string(-5), "-5".to_string());
    assert_eq!(i64_to_string(i64::MIN), "-9223372036854775808".to_string());
    assert_eq!(materialize(&Value::Integer(-42)), "-42".to_string());
    assert_eq!(materialize(&Value::Str("as is".to_string())), "as is".to_string());
}

#[test]
fn environment_get_and_set() {
    let mut env = Env::new();
    assert_eq!(env.get(&"k".to_string()), None);
    env.set("k".to_string(), Value::Integer(-3));
    assert_eq!(env.get(&"k".to_string()), Some(Value::Integer(-3)));
    env.set("k".to_string(), Value::Str("s".to_string()));
    assert_eq!(env.get(&"k".to_string()), Some(Value::Str("s".to_string())));
}

#[test]
fn assignments_persist_after_later_failure() {
    let mut env = Env::new();
    // the left operand assigns, the right operand fails; the binding stays
    let e = Expr::BinOp(
        BinOp::Add,
        Box::new(Expr::Assign("p".to_string(), Box::new(Expr::UInt64(9)))),
        Box::new(Expr::Iden("missing".to_string())),
    );
    assert_eq!(eval(&mut env, &e, &no_commands), Err(Failure::UnboundName));
    assert_eq!(env.get(&"p".to_string()), Some(Value::Whole(9)));
}

#[test]
fn nested_command_argument() {
    let mut env = Env::new();
    let e = parse("outer (inner 1)").unwrap();
    match &e {
        Expr::Cmd(Cmd { cmd, args }) => {
            assert_eq!(cmd, &"outer".to_string());
            assert_eq!(args.len(), 1);
        }
        _ => assert_eq!(true, false),
    }
    let invoker = |n: String, a: Vec<String>| -> Result<String, Failure> {
        if n == "inner" {
            assert_eq!(a, vec!["1".to_string()]);
            Ok("two".to_string())
        } else {
            assert_eq!(n, "outer".to_string());
            assert_eq!(a, vec!["two".to_string()]);
            Ok("three".to_string())
        }
    };
    assert_eq!(
        eval(&mut env, &e, &invoker),
        Ok(Value::Str("three".to_string()))
    );
}

#[test]
fn assignment_of_command_output() {
    let mut env = Env::new();
    let e = parse("let out = fetch 3").unwrap();
    let invoker = |n: String, a: Vec<String>| -> Result<String, Failure> {
        assert_eq!(n, "fetch".to_string());
        assert_eq!(a, vec!["3".to_string()]);
        Ok("three\n".to_string())
    };
    assert_eq!(
        eval(&mut env, &e, &invoker),
        Ok(Value::Str("three\n".to_string()))
    );
    assert_eq!(
        env.get(&"out".to_string()),
        Some(Value::Str("three\n".to_string()))
    );
}

#[test]
fn conditional_selects_command_branch() {
    let mut env = Env::new();
    let e = Expr::Cond(
        Box::new(Expr::UInt64(1)),
        Box::new(Expr::Cmd(Cmd {
            cmd: "ping".to_string(),
            args: vec![Expr::UInt64(7)],
        })),
        Box::new(Expr::UInt64(0)),
    );
    let invoker = |n: String, a: Vec<String>| -> Result<String, Failure> {
        assert_eq!(n, "ping".to_string());
        assert_eq!(a, vec!["7".to_string()]);
        Ok("pong".to_string())
    };
    assert_eq!(
        eval(&mut env, &e, &invoker),
        Ok(Value::Str("pong".to_string()))
    );
}

#[test]
fn command_as_predicate() {
    // a command's captured output drives truthiness: non-empty text is true
    let mut env = Env::new();
    let line = format!("if (probe 1) th{} 8 else 9", "en");
    let e = parse(&line).unwrap();
    let yes = |_n: String, _a: Vec<String>| -> Result<String, Failure> { Ok("y".to_string()) };
    let no = |_n: String, _a: Vec<String>| -> Result<String, Failure> { Ok("".to_string()) };
    assert_eq!(eval(&mut env, &e, &yes), Ok(Value::Whole(8)));
    let e2 = parse(&line).unwrap();
    assert_eq!(eval(&mut env, &e2, &no), Ok(Value::Whole(9)));
}

#[test]
fn command_in_operand_position() {
    // a command's string value entering arithmetic is a type mismatch,
    // and the command itself still runs first
    let mut env = Env::new();
    let e = parse("(num 1) + 1").unwrap();
    let invoker = |n: String, a: Vec<String>| -> Result<String, Failure> {
        assert_eq!(n, "num".to_string());
        assert_eq!(a, vec!["1".to_string()]);
        Ok("5".to_string())
    };
    assert_eq!(eval(&mut env, &e, &invoker), Err(Failure::TypeMismatch));
}
