use cmdlang::ast::{BinOp, Cmd, Expr};
use cmdlang::interp::Failure;
use cmdlang::parse::{expression, identifier, parse};

#[test]
fn parse_id() {
    assert_eq!(identifier("foo", 0), Some(("foo".to_string(), 3)));
}

#[test]
fn parse_i64() {
    assert_eq!(parse("42"), Ok(Expr::UInt64(42)));
}

#[test]
fn parse_simple_expr() {
    assert_eq!(expression("foo", 0), Some((Expr::Iden("foo".to_string()), 3)));
    assert_eq!(expression("42", 0), Some((Expr::UInt64(42), 2)));
}

#[test]
fn parse_binop() {
    let res = parse("foo + 42");
    match res {
        Ok(Expr::BinOp(op, e1, e2)) => {
            assert_eq!(op, BinOp::Add);
            assert_eq!(*e1, Expr::Iden("foo".to_string()));
            assert_eq!(*e2, Expr::UInt64(42));
        }
        _ => assert_eq!(true, false),
    };
}

#[test]
fn parse_apply() {
    let res = parse("foo 42");
    match res {
        Ok(Expr::Cmd(Cmd { cmd, args })) => {
            assert_eq!(cmd, "foo".to_string());
            assert_eq!(args, vec![Expr::UInt64(42)]);
        }
        _ => assert_eq!(true, false),
    };
}

#[test]
fn parse_string_literal() {
    assert_eq!(parse("\"hi there\""), Ok(Expr::Str("hi there".to_string())));
}

#[test]
fn parse_assignment() {
    let res = parse("let x = 5");
    match res {
        Ok(Expr::Assign(name, e)) => {
            assert_eq!(name, "x".to_string());
            assert_eq!(*e, Expr::UInt64(5));
        }
        _ => assert_eq!(true, false),
    };
}

#[test]
fn parse_conditional() {
    let line = format!("if x th{} 1 else 2", "en");
    let res = parse(&line);
    match res {
        Ok(Expr::Cond(p, t, e)) => {
            assert_eq!(*p, Expr::Iden("x".to_string()));
            assert_eq!(*t, Expr::UInt64(1));
            assert_eq!(*e, Expr::UInt64(2));
        }
        _ => assert_eq!(true, false),
    };
}

#[test]
fn parse_parenthesized() {
    let res = parse("(1 + 2) * 3");
    match res {
        Ok(Expr::BinOp(op, e1, e2)) => {
            assert_eq!(op, BinOp::Mul);
            assert_eq!(
                *e1,
                Expr::BinOp(
                    BinOp::Add,
                    Box::new(Expr::UInt64(1)),
                    Box::new(Expr::UInt64(2))
                )
            );
            assert_eq!(*e2, Expr::UInt64(3));
        }
        _ => assert_eq!(true, false),
    };
}

#[test]
fn parse_chain_left_associative() {
    // 10 - 3 - 2 groups as (10 - 3) - 2
    let res = parse("10 - 3 - 2");
    match res {
        Ok(Expr::BinOp(op, e1, e2)) => {
            assert_eq!(op, BinOp::Sub);
            assert_eq!(
                *e1,
                Expr::BinOp(
                    BinOp::Sub,
                    Box::new(Expr::UInt64(10)),
                    Box::new(Expr::UInt64(3))
                )
            );
            assert_eq!(*e2, Expr::UInt64(2));
        }
        _ => assert_eq!(true, false),
    };
}

#[test]
fn parse_command_with_expression_argument() {
    // the first argument of a command is a full expression
    let res = parse("echo 1 + 2");
    match res {
        Ok(Expr::Cmd(Cmd { cmd, args })) => {
            assert_eq!(cmd, "echo".to_string());
            assert_eq!(
                args,
                vec![Expr::BinOp(
                    BinOp::Add,
                    Box::new(Expr::UInt64(1)),
                    Box::new(Expr::UInt64(2))
                )]
            );
        }
        _ => assert_eq!(true, false),
    };
}

#[test]
fn parse_trailing_text_fails() {
    assert_eq!(parse("42abc"), Err(Failure::ParseFailure));
    assert_eq!(parse("x )"), Err(Failure::ParseFailure));
}

#[test]
fn parse_unclosed_string_fails() {
    assert_eq!(parse("\"oops"), Err(Failure::ParseFailure));
}

#[test]
fn parse_oversized_number_fails() {
    assert_eq!(parse("99999999999999999999999"), Err(Failure::ParseFailure));
}

#[test]
fn parse_u64_max_number() {
    assert_eq!(parse("18446744073709551615"), Ok(Expr::UInt64(u64::MAX)));
}

#[test]
fn parse_keyword_is_not_identifier() {
    assert_eq!(parse("if"), Err(Failure::ParseFailure));
    assert_eq!(parse("let"), Err(Failure::ParseFailure));
}

#[test]
fn parse_empty_line_fails() {
    assert_eq!(parse(""), Err(Failure::ParseFailure));
}
