use bf2c::cast::{Atom, Expr, GStmt, LStmt, Type};
use bf2c::display::{
    atom_debug_text, expr_debug_text, expr_text, gstmt_text, lstmt_text, type_debug_text,
};

fn var(name: &str) -> Expr<'_> {
    Expr::Atom(Atom::Var(name))
}

fn num(n: u32) -> Expr<'static> {
    Expr::Atom(Atom::Num(n))
}

#[test]
fn debug_forms_match_derived_debug() {
    let e = Expr::Call(
        Box::new(var("f")),
        vec![num(1), Expr::Neg(Box::new(var("q\"uote")))],
    );
    assert_eq!(expr_debug_text(&e), format!("{:?}", e));
    let a = Atom::Array(Box::new(Atom::Var("arr")), Box::new(num(7)));
    assert_eq!(atom_debug_text(&a), format!("{:?}", a));
    let t = Type::Fn(Box::new(Type::Int), vec![Type::Char, Type::Int]);
    assert_eq!(type_debug_text(&t), format!("{:?}", t));
    assert_eq!(type_debug_text(&t), "Fn(Int, [Char, Int])");
}

#[test]
fn quoted_names_in_atoms() {
    assert_eq!(atom_debug_text(&Atom::Var("x")), "Var(\"x\")");
    assert_eq!(atom_debug_text(&Atom::Num(42)), "Num(42)");
}

#[test]
fn expressions_read_like_source() {
    let sum = Expr::Add(Box::new(num(1)), Box::new(var("x")));
    assert_eq!(expr_text(&sum), "(Num(1)) + (Var(\"x\"))");
    let call = Expr::Call(Box::new(var("f")), vec![num(1), num(2)]);
    assert_eq!(expr_text(&call), "Var(\"f\")(Num(1), Num(2))");
    let assign = Expr::Assignment(Box::new(var("a")), Box::new(Expr::Neg(Box::new(num(3)))));
    assert_eq!(expr_text(&assign), "Var(\"a\") = -(Num(3))");
    let index = Expr::Array(Box::new(var("v")), Box::new(Expr::Inc(Box::new(var("i")))));
    assert_eq!(expr_text(&index), "Var(\"v\")[++(Var(\"i\"))]");
}

#[test]
fn statements_read_like_source() {
    let w = LStmt::While(num(1), vec![LStmt::Expr(Expr::Inc(Box::new(var("i"))))]);
    assert_eq!(lstmt_text(&w), "while (Num(1)) {\n    ++(Var(\"i\"));\n}");
    let d = LStmt::VarDec(Type::Int, "x", Some(Some(num(3))), Some(num(0)));
    assert_eq!(lstmt_text(&d), "Int x[Num(3)] = Num(0);");
    let f = LStmt::For(None, None, None, vec![]);
    assert_eq!(lstmt_text(&f), "// Unsupported statement for display");
}

#[test]
fn declarations_read_like_source() {
    let g = GStmt::FuncDec(
        Type::Int,
        "main",
        vec![(Type::Int, "a", None), (Type::Char, "b", Some(None))],
        vec![LStmt::Expr(var("a"))],
    );
    assert_eq!(gstmt_text(&g), "Int main(Int a, Char b[]) {\n    Var(\"a\");\n}");
    let v = GStmt::VarDec(Type::Char, "c", None, None);
    assert_eq!(gstmt_text(&v), "Char c;");
}
