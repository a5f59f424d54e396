use bf2c::cast::{Atom, Expr, GStmt, LStmt, Type};
use bf2c::renamer::{decimal_text, symbolify, type_text, SStmt, ScopedStmt};

#[test]
fn integration_test() {
    let (stmts, map) = symbolify(vec![
        GStmt::VarDec(Type::Int, "x", None, Some(Expr::Atom(Atom::Num(5)))),
        GStmt::VarDec(Type::Char, "x", None, None),
        GStmt::FuncDec(
            Type::Fn(Box::new(Type::Char), vec![Type::Int]),
            "foo",
            vec![(Type::Int, "a", None)],
            vec![
                LStmt::Expr(Expr::Atom(Atom::Var("a"))),
                LStmt::VarDec(Type::Int, "x", None, Some(Expr::Atom(Atom::Num(10)))),
            ],
        ),
        GStmt::VarDec(Type::Char, "y", None, None),
    ]);
    println!("{:#?}", stmts);
    println!("{:#?}", map);
}

#[test]
fn integration_test_1() {
    let (stmts, map) = symbolify(vec![
        GStmt::VarDec(Type::Int, "x", None, Some(Expr::Atom(Atom::Num(5)))),
        GStmt::VarDec(Type::Char, "x", None, None),
        GStmt::FuncDec(
            Type::Fn(Box::new(Type::Char), vec![Type::Int]),
            "foo",
            vec![(Type::Int, "a", None)],
            vec![
                LStmt::Expr(Expr::Atom(Atom::Var("a"))),
                LStmt::VarDec(Type::Int, "x", None, None),
                LStmt::Ifs(
                    (
                        Expr::Atom(Atom::Var("x")),
                        vec![LStmt::Expr(Expr::Atom(Atom::Num(10)))],
                    ),
                    vec![],
                    None,
                ),
                LStmt::Ifs(
                    (Expr::Atom(Atom::Var("x")), vec![]),
                    vec![(
                        Expr::Atom(Atom::Num(20)),
                        vec![LStmt::Expr(Expr::Atom(Atom::Num(30)))],
                    )],
                    None,
                ),
            ],
        ),
        GStmt::VarDec(Type::Char, "y", None, None),
    ]);
    println!("{:#?}", stmts);
    println!("{:#?}", map);
}

#[test]
fn redefinitions_are_reported_with_the_earlier_type() {
    let (_stmts, ctx) = symbolify(vec![
        GStmt::VarDec(Type::Int, "x", None, Some(Expr::Atom(Atom::Num(5)))),
        GStmt::VarDec(Type::Char, "x", None, None),
        GStmt::FuncDec(
            Type::Fn(Box::new(Type::Char), vec![Type::Int]),
            "foo",
            vec![(Type::Int, "a", None)],
            vec![LStmt::VarDec(Type::Int, "x", None, None)],
        ),
    ]);
    assert_eq!(
        ctx.errors(),
        &vec![
            String::from("x is previously defined with type: int"),
            String::from("x is previously defined with type: char"),
        ]
    );
}

#[test]
fn scopes_get_fresh_keys() {
    let (stmts, _ctx) = symbolify(vec![GStmt::FuncDec(
        Type::Int,
        "main",
        vec![],
        vec![
            LStmt::While(Expr::Atom(Atom::Num(1)), vec![]),
            LStmt::Ifs(
                (Expr::Atom(Atom::Num(1)), vec![]),
                vec![(Expr::Atom(Atom::Num(2)), vec![])],
                Some(vec![]),
            ),
        ],
    )]);
    match stmts {
        SStmt::ScopedStmt(keys, ScopedStmt::Global, body) => {
            assert!(keys.is_empty());
            assert_eq!(body.len(), 1);
            match &body[0] {
                SStmt::ScopedStmt(keys, ScopedStmt::FuncDec, inner) => {
                    assert_eq!(keys, &vec![String::from("0")]);
                    assert_eq!(inner.len(), 2);
                    match &inner[0] {
                        SStmt::ScopedStmt(k, ScopedStmt::While(_), _) => {
                            assert_eq!(k, &vec![String::from("0"), String::from("1")]);
                        }
                        _ => panic!("expected a while scope"),
                    }
                    match &inner[1] {
                        SStmt::ScopedStmt(k, ScopedStmt::Carrier, branches) => {
                            assert_eq!(k, &vec![String::from("0"), String::from("2")]);
                            assert_eq!(branches.len(), 3);
                            match &branches[2] {
                                SStmt::ScopedStmt(k, ScopedStmt::Else, _) => {
                                    assert_eq!(
                                        k,
                                        &vec![String::from("0"), String::from("2"), String::from("5")]
                                    );
                                }
                                _ => panic!("expected an else scope"),
                            }
                        }
                        _ => panic!("expected a carrier scope"),
                    }
                }
                _ => panic!("expected a function scope"),
            }
        }
        _ => panic!("expected the global scope"),
    }
}

#[test]
fn type_text_reads_like_c() {
    assert_eq!(type_text(&Type::Char), "char");
    assert_eq!(
        type_text(&Type::Fn(Box::new(Type::Int), vec![Type::Char, Type::Int])),
        "fn(char, int) -> int"
    );
    assert_eq!(type_text(&Type::Fn(Box::new(Type::Char), vec![])), "fn() -> char");
}

#[test]
fn decimal_text_of_counters() {
    assert_eq!(decimal_text(0), "0");
    assert_eq!(decimal_text(7), "7");
    assert_eq!(decimal_text(1204), "1204");
    assert_eq!(decimal_text(u64::MAX), "18446744073709551615");
}
