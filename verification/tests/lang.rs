use ccp_agent::error::Error;
use ccp_agent::lang::ast::{check_expr, Command, Expr, Op, Prim};
use ccp_agent::lang::parser;
use ccp_agent::lang::parser::{exprs, Parsed};

fn num_atom(n: u64) -> Expr {
    Expr::Atom(Prim::Num(n))
}

fn name_atom(n: &str) -> Expr {
    Expr::Atom(Prim::Name(String::from(n)))
}

fn sexp(op: Op, left: Expr, right: Expr) -> Expr {
    Expr::Sexp(op, Box::new(left), Box::new(right))
}

#[test]
fn atom() {
    let foo = b"1";
    let er = Expr::new(foo);
    let e = er.unwrap();
    assert_eq!(e, vec![Expr::Atom(Prim::Num(1))]);

    let foo = b"1 ";
    let er = Expr::new(foo);
    let e = er.unwrap();
    assert_eq!(e, vec![Expr::Atom(Prim::Num(1))]);

    let foo = b"+";
    let er = Expr::new(foo);
    match er {
        Ok(e) => panic!("false ok: {:?}", e),
        Err(_) => (),
    }

    let foo = b"true";
    let er = Expr::new(foo);
    let e = er.unwrap();
    assert_eq!(e, vec![Expr::Atom(Prim::Bool(true))]);

    let foo = b"false";
    let er = Expr::new(foo);
    let e = er.unwrap();
    assert_eq!(e, vec![Expr::Atom(Prim::Bool(false))]);

    let foo = b"x";
    let er = Expr::new(foo);
    let e = er.unwrap();
    assert_eq!(e, vec![Expr::Atom(Prim::Name(String::from("x")))]);

    let foo = b"acbdefg";
    let er = Expr::new(foo);
    let e = er.unwrap();
    assert_eq!(e, vec![Expr::Atom(Prim::Name(String::from("acbdefg")))]);

    let foo = b"blah 10 20";
    let er = Expr::new(foo);
    let e = er.unwrap();
    assert_eq!(
        e,
        vec![
            Expr::Atom(Prim::Name(String::from("blah"))),
            Expr::Atom(Prim::Num(10)),
            Expr::Atom(Prim::Num(20)),
        ]
    );
}

#[test]
fn simple_exprs() {
    let foo = b"(+ 10 20)";
    let er = Expr::new(foo);
    let e = er.unwrap();
    assert_eq!(
        e,
        vec![Expr::Sexp(
            Op::Add,
            Box::new(Expr::Atom(Prim::Num(10))),
            Box::new(Expr::Atom(Prim::Num(20)))
        ),]
    );

    let foo = b"(blah 10 20)";
    let er = Expr::new(foo);
    match er {
        Ok(e) => panic!("false ok: {:?}", e),
        Err(_) => (),
    }

    let foo = b"(blah 10 20";
    let er = Expr::new(foo);
    match er {
        Ok(e) => panic!("false ok: {:?}", e),
        Err(_) => (),
    }
}

#[test]
fn bool_ops() {
    let foo = b"(&& true false)";
    let er = Expr::new(foo);
    let e = er.unwrap();
    assert_eq!(
        e,
        vec![Expr::Sexp(
            Op::And,
            Box::new(Expr::Atom(Prim::Bool(true))),
            Box::new(Expr::Atom(Prim::Bool(false))),
        ),]
    );

    let foo = b"(|| 10 20)";
    let er = Expr::new(foo);
    let e = er.unwrap();
    assert_eq!(
        e,
        vec![Expr::Sexp(
            Op::Or,
            Box::new(Expr::Atom(Prim::Num(10))),
            Box::new(Expr::Atom(Prim::Num(20)))
        ),]
    );
}

#[test]
fn expr_leftover() {
    let foo = b"(+ 10 20))";
    match exprs(foo) {
        Ok((r, me)) => {
            assert_eq!(r, b")");
            assert_eq!(
                me,
                vec![Expr::Sexp(
                    Op::Add,
                    Box::new(Expr::Atom(Prim::Num(10))),
                    Box::new(Expr::Atom(Prim::Num(20)))
                ),],
            );
        }
        Err(e) => panic!("{:?}", e),
    }
}

#[test]
fn maxtest() {
    let foo = b"(wrapped_max 10 20)";
    let er = Expr::new(foo);
    let e = er.unwrap();
    assert_eq!(
        e,
        vec![Expr::Sexp(
            Op::MaxWrap,
            Box::new(Expr::Atom(Prim::Num(10))),
            Box::new(Expr::Atom(Prim::Num(20)))
        ),]
    );
}

#[test]
fn tree() {
    let foo = b"(+ (+ 7 3) (+ 4 6))";
    let er = Expr::new(foo);
    let e = er.unwrap();
    assert_eq!(
        e,
        vec![Expr::Sexp(
            Op::Add,
            Box::new(Expr::Sexp(
                Op::Add,
                Box::new(Expr::Atom(Prim::Num(7))),
                Box::new(Expr::Atom(Prim::Num(3))),
            )),
            Box::new(Expr::Sexp(
                Op::Add,
                Box::new(Expr::Atom(Prim::Num(4))),
                Box::new(Expr::Atom(Prim::Num(6))),
            ))
        ),]
    );

    let foo = b"(+ (- 17 7) (+ 4 (- 26 20)))";
    let er = Expr::new(foo);
    let e = er.unwrap();
    assert_eq!(
        e,
        vec![Expr::Sexp(
            Op::Add,
            Box::new(Expr::Sexp(
                Op::Sub,
                Box::new(Expr::Atom(Prim::Num(17))),
                Box::new(Expr::Atom(Prim::Num(7))),
            )),
            Box::new(Expr::Sexp(
                Op::Add,
                Box::new(Expr::Atom(Prim::Num(4))),
                Box::new(Expr::Sexp(
                    Op::Sub,
                    Box::new(Expr::Atom(Prim::Num(26))),
                    Box::new(Expr::Atom(Prim::Num(20))),
                )),
            ))
        ),]
    );
}

#[test]
fn whitespace() {
    let foo = b"
            (
                +
                (
                    -
                    17
                    7
                )
                (
                    +
                    4
                    (
                        -
                        26
                        20
                    )
                )
            )";
    let er = Expr::new(foo);
    let e = er.unwrap();
    assert_eq!(
        e,
        vec![Expr::Sexp(
            Op::Add,
            Box::new(Expr::Sexp(
                Op::Sub,
                Box::new(Expr::Atom(Prim::Num(17))),
                Box::new(Expr::Atom(Prim::Num(7))),
            )),
            Box::new(Expr::Sexp(
                Op::Add,
                Box::new(Expr::Atom(Prim::Num(4))),
                Box::new(Expr::Sexp(
                    Op::Sub,
                    Box::new(Expr::Atom(Prim::Num(26))),
                    Box::new(Expr::Atom(Prim::Num(20))),
                )),
            ))
        ),]
    );
}

#[test]
fn commands() {
    let foo = b"
            (report)
            (reset)
            (fallthrough)
        ";

    let e = Expr::new(foo).unwrap();
    assert_eq!(
        e,
        vec![
            Expr::Cmd(Command::Report),
            Expr::Cmd(Command::Reset),
            Expr::Cmd(Command::Fallthrough),
        ]
    );
}

#[test]
fn commands_desugared() {
    let mut es = Expr::new(b"(report) (reset) (fallthrough)").unwrap();
    assert_eq!(
        es,
        vec![
            Expr::Cmd(Command::Report),
            Expr::Cmd(Command::Reset),
            Expr::Cmd(Command::Fallthrough),
        ]
    );
    for e in es.iter_mut() {
        e.desugar();
    }
    assert_eq!(
        es,
        vec![
            sexp(Op::Bind, name_atom("__shouldReport"), Expr::Atom(Prim::Bool(true))),
            sexp(Op::Reset, Expr::Atom(Prim::Bool(false)), Expr::Atom(Prim::Bool(false))),
            sexp(Op::Bind, name_atom("__shouldContinue"), Expr::Atom(Prim::Bool(true))),
        ]
    );
}

#[test]
fn desugar_reaches_nested_commands() {
    let mut e = sexp(
        Op::If,
        sexp(Op::Lt, name_atom("rtt"), num_atom(10)),
        Expr::Cmd(Command::Report),
    );
    e.desugar();
    assert_eq!(
        e,
        sexp(
            Op::If,
            sexp(Op::Lt, name_atom("rtt"), num_atom(10)),
            sexp(Op::Bind, name_atom("__shouldReport"), Expr::Atom(Prim::Bool(true))),
        )
    );
}

#[test]
fn desugar_twice_is_desugar_once() {
    let mut once = Expr::new(b"(if (> a 1) (report)) (reset) x").unwrap();
    for e in once.iter_mut() {
        e.desugar();
    }
    let mut twice = once.clone();
    for e in twice.iter_mut() {
        e.desugar();
    }
    assert_eq!(once, twice);
}

fn has_cmd(e: &Expr) -> bool {
    match e {
        Expr::Atom(_) => false,
        Expr::Cmd(_) => true,
        Expr::Sexp(_, l, r) => has_cmd(l) || has_cmd(r),
    }
}

#[test]
fn desugar_leaves_no_command() {
    let mut es = Expr::new(b"(:= x (report)) (+ (reset) (fallthrough)) (report)").unwrap();
    assert!(es.iter().all(|e| has_cmd(e)));
    for e in es.iter_mut() {
        e.desugar();
    }
    assert!(es.iter().all(|e| !has_cmd(e)));
}

#[test]
fn plus_alone_is_a_parse_error() {
    assert_eq!(Expr::new(b"+"), Err(Error::Parse));
}

#[test]
fn unknown_operator_is_a_parse_error() {
    assert_eq!(Expr::new(b"(blah 10 20)"), Err(Error::Parse));
    assert_eq!(Expr::new(b"(blah 10 20"), Err(Error::Parse));
    assert_eq!(Expr::new(b"(10 20 30)"), Err(Error::Parse));
}

#[test]
fn source_that_ends_early_is_incomplete() {
    assert_eq!(Expr::new(b""), Err(Error::Incomplete));
    assert_eq!(Expr::new(b" \t\r\n"), Err(Error::Incomplete));
    assert_eq!(Expr::new(b"("), Err(Error::Incomplete));
    assert_eq!(Expr::new(b"(+"), Err(Error::Incomplete));
    assert_eq!(Expr::new(b"(+ 10"), Err(Error::Incomplete));
    assert_eq!(Expr::new(b"(+ 10 20"), Err(Error::Incomplete));
    assert_eq!(Expr::new(b"(+ 10 20  "), Err(Error::Incomplete));
    assert_eq!(Expr::new(b"(+ 10 (- 3 1)"), Err(Error::Incomplete));
    assert_eq!(Expr::new(b"1 (+ 2"), Err(Error::Incomplete));
}

#[test]
fn wrong_byte_inside_parentheses_is_a_parse_error() {
    assert_eq!(Expr::new(b"(+ 10 20 30)"), Err(Error::Parse));
    assert_eq!(Expr::new(b"(+ 10)"), Err(Error::Parse));
    assert_eq!(Expr::new(b"(+ # 1)"), Err(Error::Parse));
    assert_eq!(Expr::new(b"()"), Err(Error::Parse));
    assert_eq!(Expr::new(b")"), Err(Error::Parse));
    assert_eq!(Expr::new(b"(report 1 2)"), Err(Error::Parse));
}

#[test]
fn number_too_large_is_a_parse_error() {
    assert_eq!(Expr::new(b"18446744073709551615"), Ok(vec![num_atom(u64::MAX)]));
    assert_eq!(Expr::new(b"18446744073709551616"), Err(Error::Parse));
    assert_eq!(Expr::new(b"99999999999999999999999"), Err(Error::Parse));
    assert_eq!(Expr::new(b"(+ 1 340282366920938463463374607431768211456)"), Err(Error::Parse));
    assert_eq!(Expr::new(b"007"), Ok(vec![num_atom(7)]));
}

#[test]
fn infinity_is_the_largest_number() {
    assert_eq!(Expr::new(b"+infinity"), Ok(vec![num_atom(u64::MAX)]));
    assert_eq!(
        Expr::new(b"(min cwnd +infinity)"),
        Ok(vec![sexp(Op::Min, name_atom("cwnd"), num_atom(u64::MAX))])
    );
}

#[test]
fn reserved_names_are_refused() {
    assert_eq!(Expr::new(b"__x"), Err(Error::Reserved));
    assert_eq!(Expr::new(b"__"), Err(Error::Reserved));
    assert_eq!(Expr::new(b"(+ __shouldReport 1)"), Err(Error::Reserved));
    assert_eq!(Expr::new(b"(+ 1 __x)"), Err(Error::Reserved));
    assert_eq!(Expr::new(b"(:= __shouldContinue true)"), Err(Error::Reserved));
    assert_eq!(Expr::new(b"(__x 1 2)"), Err(Error::Reserved));
    assert_eq!(Expr::new(b"1 2 __x"), Err(Error::Reserved));
    assert_eq!(Expr::new(b"(+ __x"), Err(Error::Reserved));
    assert_eq!(Expr::new(b"_x"), Ok(vec![name_atom("_x")]));
    assert_eq!(Expr::new(b"x__"), Ok(vec![name_atom("x__")]));
}

#[test]
fn reserved_name_after_the_end_of_the_program_is_not_read() {
    let (left, es) = exprs(b"(+ 1 2)) __x").unwrap();
    assert_eq!(es, vec![sexp(Op::Add, num_atom(1), num_atom(2))]);
    assert_eq!(left, b") __x");
}

#[test]
fn conditional_cannot_be_a_left_operand() {
    assert_eq!(Expr::new(b"(+ (if a b) c)"), Err(Error::StaticType));
    assert_eq!(Expr::new(b"(+ (!if a b) c)"), Err(Error::StaticType));
    assert_eq!(Expr::new(b"(if (if a b) c)"), Err(Error::StaticType));
    assert_eq!(Expr::new(b"(max (if true 1) 2)"), Err(Error::StaticType));
    assert_eq!(
        Expr::new(b"(:= x (if a b))"),
        Ok(vec![sexp(
            Op::Bind,
            name_atom("x"),
            sexp(Op::If, name_atom("a"), name_atom("b"))
        )])
    );
    assert_eq!(Expr::new(b"(bind (if a b) c)"), Err(Error::StaticType));
    assert_eq!(Expr::new(b"(:= (!if a b) c)"), Err(Error::StaticType));
    assert_eq!(
        Expr::new(b"(:= x (!if a b))"),
        Ok(vec![sexp(
            Op::Bind,
            name_atom("x"),
            sexp(Op::NotIf, name_atom("a"), name_atom("b"))
        )])
    );
    assert_eq!(
        Expr::new(b"(+ c (if a b))"),
        Ok(vec![sexp(
            Op::Add,
            name_atom("c"),
            sexp(Op::If, name_atom("a"), name_atom("b"))
        )])
    );
}

#[test]
fn check_expr_applies_the_rule() {
    let cond = || sexp(Op::NotIf, name_atom("a"), num_atom(1));
    assert_eq!(check_expr(Op::Mul, cond(), num_atom(2)), Err(Error::StaticType));
    assert_eq!(check_expr(Op::Bind, cond(), num_atom(2)), Err(Error::StaticType));
    assert_eq!(
        check_expr(Op::Bind, name_atom("x"), cond()),
        Ok(sexp(Op::Bind, name_atom("x"), cond()))
    );
    assert_eq!(
        check_expr(Op::Mul, num_atom(2), cond()),
        Ok(sexp(Op::Mul, num_atom(2), cond()))
    );
}

#[test]
fn every_operator_has_its_spellings() {
    let cases: Vec<(&str, Op)> = vec![
        ("+", Op::Add),
        ("add", Op::Add),
        ("&&", Op::And),
        ("and", Op::And),
        (":=", Op::Bind),
        ("bind", Op::Bind),
        ("if", Op::If),
        ("/", Op::Div),
        ("div", Op::Div),
        ("==", Op::Equiv),
        ("eq", Op::Equiv),
        ("ewma", Op::Ewma),
        (">", Op::Gt),
        ("gt", Op::Gt),
        ("<", Op::Lt),
        ("lt", Op::Lt),
        ("wrapped_max", Op::MaxWrap),
        ("max", Op::Max),
        ("min", Op::Min),
        ("*", Op::Mul),
        ("mul", Op::Mul),
        ("||", Op::Or),
        ("or", Op::Or),
        ("!if", Op::NotIf),
        ("-", Op::Sub),
        ("sub", Op::Sub),
    ];
    for (word, op) in cases {
        let src = format!("({} 1 2)", word);
        assert_eq!(
            Expr::new(src.as_bytes()),
            Ok(vec![sexp(op, num_atom(1), num_atom(2))])
        );
    }
}

#[test]
fn whitespace_between_tokens_does_not_matter() {
    let plain = Expr::new(b"(+ (- 17 7) (+ 4 (- 26 20)))").unwrap();
    let spread = Expr::new(b" \t( +\n(\r\n-  17\t7 )( + 4 ( - 26 20 ) ) ) \n").unwrap();
    assert_eq!(plain, spread);
    let tight = Expr::new(b"(+(- 17 7)(+ 4(- 26 20)))").unwrap();
    assert_eq!(plain, tight);
}

#[test]
fn words_are_recognised_wherever_the_input_begins_with_them() {
    assert_eq!(
        Expr::new(b"trueish"),
        Ok(vec![Expr::Atom(Prim::Bool(true)), name_atom("ish")])
    );
    assert_eq!(Expr::new(b"10abc"), Ok(vec![num_atom(10), name_atom("abc")]));
    assert_eq!(Expr::new(b"tru"), Ok(vec![name_atom("tru")]));
    assert_eq!(
        Expr::new(b"(+infinity 1)"),
        Ok(vec![sexp(Op::Add, name_atom("infinity"), num_atom(1))])
    );
    assert_eq!(Expr::new(b"a.b_c9"), Ok(vec![name_atom("a.b_c9")]));
}

#[test]
fn what_follows_the_program_is_handed_back() {
    let (left, es) = exprs(b"1 2 # rest").unwrap();
    assert_eq!(es, vec![num_atom(1), num_atom(2)]);
    assert_eq!(left, b"# rest");
    let (left, es) = exprs(b"x  \n").unwrap();
    assert_eq!(es, vec![name_atom("x")]);
    assert_eq!(left, b"");
    let (left, es) = exprs(b"(report) +").unwrap();
    assert_eq!(es, vec![Expr::Cmd(Command::Report)]);
    assert_eq!(left, b"+");
}

#[test]
fn single_rules() {
    assert_eq!(parser::num(b"42 "), Parsed::Done(42, 2));
    assert_eq!(parser::num(b"x"), Parsed::Miss);
    assert_eq!(parser::num(b""), Parsed::Miss);
    assert_eq!(parser::name(b"cwnd)"), Parsed::Done(String::from("cwnd"), 4));
    assert_eq!(parser::name(b"__cwnd"), Parsed::Fail(Error::Reserved));
    assert_eq!(parser::name(b"(x"), Parsed::Miss);
    assert_eq!(parser::atom(b"  false)"), Parsed::Done(Prim::Bool(false), 7));
    assert_eq!(parser::atom(b"  )"), Parsed::Miss);
    assert_eq!(parser::expr(b" (reset ) x"), Parsed::Done(Expr::Cmd(Command::Reset), 9));
    assert_eq!(parser::expr(b""), Parsed::Miss);
    assert_eq!(
        parser::expr(b"(* a 2)rest"),
        Parsed::Done(sexp(Op::Mul, name_atom("a"), num_atom(2)), 7)
    );
}

#[test]
fn one_more_byte_of_whitespace_between_tokens_changes_nothing() {
    let sources: Vec<&[u8]> = vec![
        b"(+ (- 17 7) (+ 4 (- 26 20)))",
        b"(report) (reset) (fallthrough)",
        b"(:= x (if (> rtt 10) (min cwnd +infinity)))",
        b"a 1 true",
        b"(+ 1 2)) left over",
        b"(blah 10 20)",
        b"(+ 10",
        b"(+ __x 1)",
        b"(+ (if a b) c)",
        b"",
        b"(wrapped_max 99999999999999999999 1)",
        b"(+10 20)",
        b"(+(*2 3)(-5 +infinity))",
        b"(+infinity 1)",
        b"(!if(&&a b)(:=c 1))",
        b"(>= 1 2)",
        b"10+20",
    ];
    let name_byte = |b: u8| b.is_ascii_alphanumeric() || b == b'.' || b == b'_';
    let joined = |x: u8, y: u8| {
        (name_byte(x) && name_byte(y))
            || matches!(
                (x, y),
                (b'+', b'i') | (b'!', b'i') | (b'&', b'&') | (b'|', b'|') | (b'=', b'=') | (b':', b'=')
            )
    };
    for src in sources {
        let (plain_trees, plain_left) = match exprs(src) {
            Ok((left, es)) => (Ok(es), left.to_vec()),
            Err(e) => (Err(e), Vec::new()),
        };
        for at in 0..=src.len() {
            let gap = at == 0 || at == src.len() || !joined(src[at - 1], src[at]);
            if !gap {
                continue;
            }
            for w in [b' ', b'\t', b'\n', b'\r'] {
                let mut wide = src[..at].to_vec();
                wide.push(w);
                wide.extend_from_slice(&src[at..]);
                match exprs(&wide) {
                    Ok((left, es)) => {
                        assert_eq!(Ok(es), plain_trees);
                        let read = src.len() - plain_left.len();
                        if read >= at {
                            assert_eq!(left, &plain_left[..]);
                        }
                    }
                    Err(e) => assert_eq!(Err(e), plain_trees),
                }
            }
        }
    }
}

#[test]
fn number_at_the_limit_of_sixty_four_bits() {
    assert_eq!(parser::num(b"18446744073709551615"), Parsed::Done(u64::MAX, 20));
    assert_eq!(parser::num(b"18446744073709551616"), Parsed::Fail(Error::Parse));
    assert_eq!(parser::num(b"0"), Parsed::Done(0, 1));
    assert_eq!(parser::num(b"00000000000000000000000000042"), Parsed::Done(42, 29));
}

#[test]
fn error_reasons() {
    assert_eq!(Error::Malformed.reason(), "malformed message");
    assert_eq!(
        Error::Reserved.reason(),
        "names that begin with \"__\" are reserved for internal use"
    );
    assert_eq!(Error::Io.reason(), "the transport failed");
    assert_eq!(Error::Utf8.reason(), "a byte string is not valid UTF-8");
    assert_eq!(Error::Parse.reason(), "the source is not in the grammar");
    assert_eq!(
        Error::StaticType.reason(),
        "a conditional cannot be a left operand"
    );
    assert_eq!(Error::Incomplete.reason(), "the source ends in the middle of an expression");
}

#[test]
fn clone_keeps_the_tree() {
    let e = sexp(Op::Ewma, num_atom(3), sexp(Op::Div, name_atom("a.b"), num_atom(2)));
    assert_eq!(e.clone(), e);
}

#[test]
fn whitespace_where_a_token_ends_without_a_delimiter() {
    // the place is where the reading ends one token and the next begins
    let cases: Vec<(&[u8], usize)> = vec![
        (b"10abc", 2),
        (b"truex", 4),
        (b"falsey 1", 5),
        (b"+infinityx", 9),
        (b"(max1 2)", 4),
        (b"(+infinity 1)", 2),
        (b"(add1 2)", 4),
        (b"(+ 10abc)", 5),
        (b"(if1 (report))", 3),
        (b"(&&true false)", 3),
        (b"(- 1 2)3x", 8),
        (b"(+ 1 true2", 9),
        (b"(* 7x", 4),
    ];
    for (src, at) in cases {
        let plain = exprs(src).map(|(left, es)| (left.to_vec(), es));
        for w in [b' ', b'\t', b'\n', b'\r'] {
            let mut wide = src[..at].to_vec();
            wide.push(w);
            wide.extend_from_slice(&src[at..]);
            let read = exprs(&wide).map(|(left, es)| (left.to_vec(), es));
            match (&plain, &read) {
                (Ok((_, es)), Ok((_, fs))) => assert_eq!(es, fs),
                (Err(e), Err(f)) => assert_eq!(e, f),
                _ => panic!("{:?} and {:?}", plain, read),
            }
        }
    }
}

#[test]
fn whitespace_inside_a_token_matters() {
    assert_eq!(Expr::new(b"(+ 10 20)"), Ok(vec![sexp(Op::Add, num_atom(10), num_atom(20))]));
    assert_eq!(Expr::new(b"(+ 1 0 20)"), Err(Error::Parse));
    assert_eq!(Expr::new(b"ab"), Ok(vec![name_atom("ab")]));
    assert_eq!(Expr::new(b"a b"), Ok(vec![name_atom("a"), name_atom("b")]));
}
