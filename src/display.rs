//! How syntax trees of the front end read as text: the debug form of atoms,
//! expressions and types, and the source-like form of expressions and
//! statements.
use vstd::prelude::*;
use vstd::string::StringExecFns;
use crate::cast::{Atom, Expr, GStmt, LStmt, Type};
use crate::renamer::{decimal, decimal_text};

verus! {

/// What std's debug formatting makes of a string: quoted and escaped.
pub uninterp spec fn str_debug(s: Seq<char>) -> Seq<char>;

/// Relies on `<str as Debug>::fmt` for the quoted, escaped form of a
/// string; the result depends on the characters alone.
#[verifier::external_body]
fn quoted(s: &str) -> (r: String)
    ensures
        r@ == str_debug(s@),
{
    format!("{:?}", s)
}

/// The debug form of a type: `Char`, `Int` or `Fn(<ret>, [<params>])`.
pub open spec fn type_debug(t: Type) -> Seq<char>
    decreases t,
{
    match t {
        Type::Char => "Char"@,
        Type::Int => "Int"@,
        Type::Fn(ret, args) => "Fn("@ + type_debug(*ret) + ", ["@ + types_debug(args@) + "])"@,
    }
}

/// Debug forms of types separated by `, `.
pub open spec fn types_debug(v: Seq<Type>) -> Seq<char>
    decreases v,
{
    if v.len() == 0 {
        Seq::empty()
    } else if v.len() == 1 {
        type_debug(v[0])
    } else {
        types_debug(v.drop_last()) + ", "@ + type_debug(v.last())
    }
}

/// The debug form of an atom.
pub open spec fn atom_debug(a: Atom) -> Seq<char>
    decreases a,
{
    match a {
        Atom::Num(n) => tagged1("Num"@, decimal(n as nat)),
        Atom::Var(s) => tagged1("Var"@, str_debug(s@)),
        Atom::Array(b, e) => tagged2("Array"@, atom_debug(*b), expr_debug(*e)),
    }
}

/// A variant name with one field in debug form.
pub open spec fn tagged1(tag: Seq<char>, x: Seq<char>) -> Seq<char> {
    tag + "("@ + x + ")"@
}

/// A variant name with two fields in debug form.
pub open spec fn tagged2(tag: Seq<char>, x: Seq<char>, y: Seq<char>) -> Seq<char> {
    tag + "("@ + x + ", "@ + y + ")"@
}

/// The debug form of an expression.
pub open spec fn expr_debug(e: Expr) -> Seq<char>
    decreases e,
{
    match e {
        Expr::Atom(a) => tagged1("Atom"@, atom_debug(a)),
        Expr::Neg(x) => tagged1("Neg"@, expr_debug(*x)),
        Expr::Add(x, y) => tagged2("Add"@, expr_debug(*x), expr_debug(*y)),
        Expr::Mul(x, y) => tagged2("Mul"@, expr_debug(*x), expr_debug(*y)),
        Expr::Lt(x, y) => tagged2("Lt"@, expr_debug(*x), expr_debug(*y)),
        Expr::Gt(x, y) => tagged2("Gt"@, expr_debug(*x), expr_debug(*y)),
        Expr::Eq(x, y) => tagged2("Eq"@, expr_debug(*x), expr_debug(*y)),
        Expr::Inc(x) => tagged1("Inc"@, expr_debug(*x)),
        Expr::Dec(x) => tagged1("Dec"@, expr_debug(*x)),
        Expr::Call(f, args) => tagged2("Call"@, expr_debug(*f), "["@ + exprs_debug(args@) + "]"@),
        Expr::Array(x, y) => tagged2("Array"@, expr_debug(*x), expr_debug(*y)),
        Expr::Assignment(x, y) => tagged2("Assignment"@, expr_debug(*x), expr_debug(*y)),
    }
}

/// Debug forms of expressions separated by `, `.
pub open spec fn exprs_debug(v: Seq<Expr>) -> Seq<char>
    decreases v,
{
    if v.len() == 0 {
        Seq::empty()
    } else if v.len() == 1 {
        expr_debug(v[0])
    } else {
        exprs_debug(v.drop_last()) + ", "@ + expr_debug(v.last())
    }
}

/// Two operands around an infix operator, each in parentheses.
pub open spec fn infix(x: Seq<char>, op: Seq<char>, y: Seq<char>) -> Seq<char> {
    "("@ + x + ") "@ + op + " ("@ + y + ")"@
}

/// How an expression reads in source-like form.
pub open spec fn expr_str(e: Expr) -> Seq<char>
    decreases e,
{
    match e {
        Expr::Atom(a) => atom_debug(a),
        Expr::Neg(x) => "-("@ + expr_str(*x) + ")"@,
        Expr::Add(x, y) => infix(expr_str(*x), "+"@, expr_str(*y)),
        Expr::Mul(x, y) => infix(expr_str(*x), "*"@, expr_str(*y)),
        Expr::Lt(x, y) => infix(expr_str(*x), "<"@, expr_str(*y)),
        Expr::Gt(x, y) => infix(expr_str(*x), ">"@, expr_str(*y)),
        Expr::Eq(x, y) => infix(expr_str(*x), "=="@, expr_str(*y)),
        Expr::Inc(x) => "++("@ + expr_str(*x) + ")"@,
        Expr::Dec(x) => "--("@ + expr_str(*x) + ")"@,
        Expr::Call(f, args) => expr_str(*f) + "("@ + exprs_str(args@) + ")"@,
        Expr::Array(x, y) => expr_str(*x) + "["@ + expr_str(*y) + "]"@,
        Expr::Assignment(x, y) => expr_str(*x) + " = "@ + expr_str(*y),
    }
}

/// Source-like forms of expressions separated by `, `.
pub open spec fn exprs_str(v: Seq<Expr>) -> Seq<char>
    decreases v,
{
    if v.len() == 0 {
        Seq::empty()
    } else if v.len() == 1 {
        expr_str(v[0])
    } else {
        exprs_str(v.drop_last()) + ", "@ + expr_str(v.last())
    }
}

/// The array part of a declaration: nothing, `[]`, or `[<size>]`.
pub open spec fn arr_str(arr: Option<Option<Expr>>) -> Seq<char> {
    match arr {
        None => Seq::empty(),
        Some(None) => "[]"@,
        Some(Some(size)) => "["@ + expr_str(size) + "]"@,
    }
}

/// The initialiser part of a declaration: nothing, or ` = <expr>`.
pub open spec fn init_str(exp: Option<Expr>) -> Seq<char> {
    match exp {
        None => Seq::empty(),
        Some(e) => " = "@ + expr_str(e),
    }
}

/// How a variable declaration reads.
pub open spec fn var_dec_str(ty: Type, name: Seq<char>, arr: Option<Option<Expr>>, exp: Option<Expr>) -> Seq<char> {
    type_debug(ty) + " "@ + name + arr_str(arr) + init_str(exp) + ";"@
}

/// How a statement reads; only declarations, `while` loops and expressions
/// have a form of their own.
pub open spec fn lstmt_str(s: LStmt) -> Seq<char>
    decreases s,
{
    match s {
        LStmt::VarDec(ty, name, arr, exp) => var_dec_str(ty, name@, arr, exp),
        LStmt::While(cond, body) => "while ("@ + expr_str(cond) + ") {\n"@ + lines_str(body@) + "}"@,
        LStmt::Expr(e) => expr_str(e) + ";"@,
        _ => "// Unsupported statement for display"@,
    }
}

/// Statements as indented lines.
pub open spec fn lines_str(v: Seq<LStmt>) -> Seq<char>
    decreases v,
{
    if v.len() == 0 {
        Seq::empty()
    } else {
        lines_str(v.drop_last()) + "    "@ + lstmt_str(v.last()) + "\n"@
    }
}

/// One parameter of a function declaration.
pub open spec fn param_str(p: (Type, &str, Option<Option<Expr>>)) -> Seq<char> {
    type_debug(p.0) + " "@ + p.1@ + arr_str(p.2)
}

/// Parameters separated by `, `.
pub open spec fn params_display(v: Seq<(Type, &str, Option<Option<Expr>>)>) -> Seq<char>
    decreases v.len(),
{
    if v.len() == 0 {
        Seq::empty()
    } else if v.len() == 1 {
        param_str(v[0])
    } else {
        params_display(v.drop_last()) + ", "@ + param_str(v.last())
    }
}

/// How a top-level declaration reads.
pub open spec fn gstmt_str(g: GStmt) -> Seq<char> {
    match g {
        GStmt::VarDec(ty, name, arr, exp) => var_dec_str(ty, name@, arr, exp),
        GStmt::FuncDec(ty, name, params, body) => type_debug(ty) + " "@ + name@ + "("@
            + params_display(params@) + ") {\n"@ + lines_str(body@) + "}"@,
    }
}

fn tagged1_text(tag: &str, x: String) -> (r: String)
    ensures
        r@ == tagged1(tag@, x@),
{
    let mut out = String::from_str(tag);
    out.append("(");
    out.append(x.as_str());
    out.append(")");
    out
}

fn tagged2_text(tag: &str, x: String, y: String) -> (r: String)
    ensures
        r@ == tagged2(tag@, x@, y@),
{
    let mut out = String::from_str(tag);
    out.append("(");
    out.append(x.as_str());
    out.append(", ");
    out.append(y.as_str());
    out.append(")");
    out
}

fn infix_text(x: String, op: &str, y: String) -> (r: String)
    ensures
        r@ == infix(x@, op@, y@),
{
    let mut out = String::from_str("(");
    out.append(x.as_str());
    out.append(") ");
    out.append(op);
    out.append(" (");
    out.append(y.as_str());
    out.append(")");
    out
}

/// The debug form of a type.
pub fn type_debug_text(t: &Type) -> (r: String)
    ensures
        r@ == type_debug(*t),
    decreases t,
{
    match t {
        Type::Char => String::from_str("Char"),
        Type::Int => String::from_str("Int"),
        Type::Fn(ret, args) => {
            let mut out = String::from_str("Fn(");
            out.append(type_debug_text(ret).as_str());
            out.append(", [");
            let mut i: usize = 0;
            let ghost start = out@;
            proof {
                assert(args@.take(0) == Seq::<Type>::empty());
                assert forall|j: int| 0 <= j < args.len() implies #[trigger] decreases_to!(*t => args@[j]) by {
                    vstd::std_specs::vec::axiom_vec_index_decreases(*args, j);
                }
            }
            while i < args.len()
                invariant
                    0 <= i <= args.len(),
                    out@ == start + types_debug(args@.take(i as int)),
                    forall|j: int| 0 <= j < args.len() ==> #[trigger] decreases_to!(*t => args@[j]),
                decreases args.len() - i,
            {
                proof {
                    assert(args@.take(i + 1).drop_last() == args@.take(i as int));
                    assert(args@.take(i + 1).last() == args@[i as int]);
                    if i == 0 {
                        assert(args@.take(1) == seq![args@[0]]);
                    }
                }
                if i != 0 {
                    out.append(", ");
                }
                out.append(type_debug_text(&args[i]).as_str());
                i = i + 1;
            }
            proof {
                assert(args@.take(args@.len() as int) == args@);
            }
            out.append("])");
            out
        },
    }
}

/// The debug form of an atom.
pub fn atom_debug_text(a: &Atom) -> (r: String)
    ensures
        r@ == atom_debug(*a),
    decreases a,
{
    match a {
        Atom::Num(n) => {
            let d = decimal_text(*n as u64);
            assert((*n as u64) as nat == *n as nat);
            tagged1_text("Num", d)
        },
        Atom::Var(v) => tagged1_text("Var", quoted(v)),
        Atom::Array(b, e) => tagged2_text("Array", atom_debug_text(b), expr_debug_text(e)),
    }
}

/// The debug form of an expression.
pub fn expr_debug_text(e: &Expr) -> (r: String)
    ensures
        r@ == expr_debug(*e),
    decreases e,
{
    match e {
        Expr::Atom(a) => tagged1_text("Atom", atom_debug_text(a)),
        Expr::Neg(x) => tagged1_text("Neg", expr_debug_text(x)),
        Expr::Add(x, y) => tagged2_text("Add", expr_debug_text(x), expr_debug_text(y)),
        Expr::Mul(x, y) => tagged2_text("Mul", expr_debug_text(x), expr_debug_text(y)),
        Expr::Lt(x, y) => tagged2_text("Lt", expr_debug_text(x), expr_debug_text(y)),
        Expr::Gt(x, y) => tagged2_text("Gt", expr_debug_text(x), expr_debug_text(y)),
        Expr::Eq(x, y) => tagged2_text("Eq", expr_debug_text(x), expr_debug_text(y)),
        Expr::Inc(x) => tagged1_text("Inc", expr_debug_text(x)),
        Expr::Dec(x) => tagged1_text("Dec", expr_debug_text(x)),
        Expr::Call(f, args) => {
            let mut list = String::from_str("[");
            list.append(exprs_debug_text(args).as_str());
            list.append("]");
            tagged2_text("Call", expr_debug_text(f), list)
        },
        Expr::Array(x, y) => tagged2_text("Array", expr_debug_text(x), expr_debug_text(y)),
        Expr::Assignment(x, y) => tagged2_text("Assignment", expr_debug_text(x), expr_debug_text(y)),
    }
}

fn exprs_debug_text(v: &Vec<Expr>) -> (r: String)
    ensures
        r@ == exprs_debug(v@),
    decreases v,
{
    let mut out = String::new();
    let mut i: usize = 0;
    proof {
        assert(v@.take(0) == Seq::<Expr>::empty());
        assert forall|j: int| 0 <= j < v.len() implies #[trigger] decreases_to!(*v => v@[j]) by {
            vstd::std_specs::vec::axiom_vec_index_decreases(*v, j);
        }
    }
    while i < v.len()
        invariant
            0 <= i <= v.len(),
            out@ == exprs_debug(v@.take(i as int)),
            forall|j: int| 0 <= j < v.len() ==> #[trigger] decreases_to!(*v => v@[j]),
        decreases v.len() - i,
    {
        proof {
            assert(v@.take(i + 1).drop_last() == v@.take(i as int));
            assert(v@.take(i + 1).last() == v@[i as int]);
            if i == 0 {
                assert(v@.take(1) == seq![v@[0]]);
            }
        }
        if i != 0 {
            out.append(", ");
        }
        out.append(expr_debug_text(&v[i]).as_str());
        i = i + 1;
    }
    proof {
        assert(v@.take(v@.len() as int) == v@);
    }
    out
}

/// How an expression reads in source-like form.
pub fn expr_text(e: &Expr) -> (r: String)
    ensures
        r@ == expr_str(*e),
    decreases e,
{
    match e {
        Expr::Atom(a) => atom_debug_text(a),
        Expr::Neg(x) => {
            let mut out = String::from_str("-(");
            out.append(expr_text(x).as_str());
            out.append(")");
            out
        },
        Expr::Add(x, y) => infix_text(expr_text(x), "+", expr_text(y)),
        Expr::Mul(x, y) => infix_text(expr_text(x), "*", expr_text(y)),
        Expr::Lt(x, y) => infix_text(expr_text(x), "<", expr_text(y)),
        Expr::Gt(x, y) => infix_text(expr_text(x), ">", expr_text(y)),
        Expr::Eq(x, y) => infix_text(expr_text(x), "==", expr_text(y)),
        Expr::Inc(x) => {
            let mut out = String::from_str("++(");
            out.append(expr_text(x).as_str());
            out.append(")");
            out
        },
        Expr::Dec(x) => {
            let mut out = String::from_str("--(");
            out.append(expr_text(x).as_str());
            out.append(")");
            out
        },
        Expr::Call(f, args) => {
            let mut out = expr_text(f);
            out.append("(");
            out.append(exprs_text(args).as_str());
            out.append(")");
            out
        },
        Expr::Array(x, y) => {
            let mut out = expr_text(x);
            out.append("[");
            out.append(expr_text(y).as_str());
            out.append("]");
            out
        },
        Expr::Assignment(x, y) => {
            let mut out = expr_text(x);
            out.append(" = ");
            out.append(expr_text(y).as_str());
            out
        },
    }
}

fn exprs_text(v: &Vec<Expr>) -> (r: String)
    ensures
        r@ == exprs_str(v@),
    decreases v,
{
    let mut out = String::new();
    let mut i: usize = 0;
    proof {
        assert(v@.take(0) == Seq::<Expr>::empty());
        assert forall|j: int| 0 <= j < v.len() implies #[trigger] decreases_to!(*v => v@[j]) by {
            vstd::std_specs::vec::axiom_vec_index_decreases(*v, j);
        }
    }
    while i < v.len()
        invariant
            0 <= i <= v.len(),
            out@ == exprs_str(v@.take(i as int)),
            forall|j: int| 0 <= j < v.len() ==> #[trigger] decreases_to!(*v => v@[j]),
        decreases v.len() - i,
    {
        proof {
            assert(v@.take(i + 1).drop_last() == v@.take(i as int));
            assert(v@.take(i + 1).last() == v@[i as int]);
            if i == 0 {
                assert(v@.take(1) == seq![v@[0]]);
            }
        }
        if i != 0 {
            out.append(", ");
        }
        out.append(expr_text(&v[i]).as_str());
        i = i + 1;
    }
    proof {
        assert(v@.take(v@.len() as int) == v@);
    }
    out
}

fn arr_text(arr: &Option<Option<Expr>>) -> (r: String)
    ensures
        r@ == arr_str(*arr),
{
    match arr {
        None => String::new(),
        Some(None) => String::from_str("[]"),
        Some(Some(size)) => {
            let mut out = String::from_str("[");
            out.append(expr_text(size).as_str());
            out.append("]");
            out
        },
    }
}

fn var_dec_text(ty: &Type, name: &str, arr: &Option<Option<Expr>>, exp: &Option<Expr>) -> (r: String)
    ensures
        r@ == var_dec_str(*ty, name@, *arr, *exp),
{
    let mut out = type_debug_text(ty);
    out.append(" ");
    out.append(name);
    out.append(arr_text(arr).as_str());
    match exp {
        None => {},
        Some(e) => {
            out.append(" = ");
            out.append(expr_text(e).as_str());
        },
    }
    out.append(";");
    proof {
        if exp.is_none() {
            assert(init_str(*exp) == Seq::<char>::empty());
        }
    }
    out
}

fn lines_text(v: &Vec<LStmt>) -> (r: String)
    ensures
        r@ == lines_str(v@),
    decreases v,
{
    let mut out = String::new();
    let mut i: usize = 0;
    proof {
        assert(v@.take(0) == Seq::<LStmt>::empty());
        assert forall|j: int| 0 <= j < v.len() implies #[trigger] decreases_to!(*v => v@[j]) by {
            vstd::std_specs::vec::axiom_vec_index_decreases(*v, j);
        }
    }
    while i < v.len()
        invariant
            0 <= i <= v.len(),
            out@ == lines_str(v@.take(i as int)),
            forall|j: int| 0 <= j < v.len() ==> #[trigger] decreases_to!(*v => v@[j]),
        decreases v.len() - i,
    {
        proof {
            assert(v@.take(i + 1).drop_last() == v@.take(i as int));
            assert(v@.take(i + 1).last() == v@[i as int]);
        }
        out.append("    ");
        out.append(lstmt_text(&v[i]).as_str());
        out.append("\n");
        i = i + 1;
    }
    proof {
        assert(v@.take(v@.len() as int) == v@);
    }
    out
}

/// How a statement reads.
pub fn lstmt_text(s: &LStmt) -> (r: String)
    ensures
        r@ == lstmt_str(*s),
    decreases s,
{
    match s {
        LStmt::VarDec(ty, name, arr, exp) => var_dec_text(ty, name, arr, exp),
        LStmt::While(cond, body) => {
            let mut out = String::from_str("while (");
            out.append(expr_text(cond).as_str());
            out.append(") {\n");
            out.append(lines_text(body).as_str());
            out.append("}");
            out
        },
        LStmt::Expr(e) => {
            let mut out = expr_text(e);
            out.append(";");
            out
        },
        _ => String::from_str("// Unsupported statement for display"),
    }
}

/// How a top-level declaration reads.
pub fn gstmt_text(g: &GStmt) -> (r: String)
    ensures
        r@ == gstmt_str(*g),
{
    match g {
        GStmt::VarDec(ty, name, arr, exp) => var_dec_text(ty, name, arr, exp),
        GStmt::FuncDec(ty, name, params, body) => {
            let mut out = type_debug_text(ty);
            out.append(" ");
            out.append(name);
            out.append("(");
            let ghost start = out@;
            let mut i: usize = 0;
            proof {
                assert(params@.take(0) =~= Seq::<(Type, &str, Option<Option<Expr>>)>::empty());
            }
            while i < params.len()
                invariant
                    0 <= i <= params.len(),
                    out@ == start + params_display(params@.take(i as int)),
                decreases params.len() - i,
            {
                proof {
                    assert(params@.take(i + 1).drop_last() == params@.take(i as int));
                    assert(params@.take(i + 1).last() == params@[i as int]);
                    if i == 0 {
                        assert(params@.take(1) == seq![params@[0]]);
                    }
                }
                if i != 0 {
                    out.append(", ");
                }
                let p = &params[i];
                out.append(type_debug_text(&p.0).as_str());
                out.append(" ");
                out.append(p.1);
                out.append(arr_text(&p.2).as_str());
                i = i + 1;
            }
            proof {
                assert(params@.take(params@.len() as int) == params@);
            }
            out.append(") {\n");
            out.append(lines_text(body).as_str());
            out.append("}");
            out
        },
    }
}

} // verus!
