//! Name resolution for the C-like front end: every declared name is
//! recorded in a trie of scopes, and each scoped construct gets a fresh
//! scope key.
use vstd::prelude::*;
use vstd::string::StringExecFns;
use std::collections::HashMap;
use crate::cast::{Atom, Expr, GStmt, LStmt, Type};

verus! {

/// The type a name was declared with, when it is known.
#[derive(Debug)]
pub enum SemType {
    UnknownType,
    KnownType(Type),
}

/// The text of one decimal digit.
pub open spec fn digit_char(d: nat) -> char {
    if d == 0 {
        '0'
    } else if d == 1 {
        '1'
    } else if d == 2 {
        '2'
    } else if d == 3 {
        '3'
    } else if d == 4 {
        '4'
    } else if d == 5 {
        '5'
    } else if d == 6 {
        '6'
    } else if d == 7 {
        '7'
    } else if d == 8 {
        '8'
    } else {
        '9'
    }
}

/// The decimal text of a natural number, without leading zeros.
pub open spec fn decimal(n: nat) -> Seq<char>
    decreases n,
{
    if n < 10 {
        seq![digit_char(n)]
    } else {
        decimal(n / 10).push(digit_char(n % 10))
    }
}

fn digit_text(d: u64) -> (r: &'static str)
    requires
        d < 10,
    ensures
        r@ == seq![digit_char(d as nat)],
{
    let r = if d == 0 {
        "0"
    } else if d == 1 {
        "1"
    } else if d == 2 {
        "2"
    } else if d == 3 {
        "3"
    } else if d == 4 {
        "4"
    } else if d == 5 {
        "5"
    } else if d == 6 {
        "6"
    } else if d == 7 {
        "7"
    } else if d == 8 {
        "8"
    } else {
        "9"
    };
    proof {
        reveal_strlit("0");
        reveal_strlit("1");
        reveal_strlit("2");
        reveal_strlit("3");
        reveal_strlit("4");
        reveal_strlit("5");
        reveal_strlit("6");
        reveal_strlit("7");
        reveal_strlit("8");
        reveal_strlit("9");
        assert(r@ =~= seq![digit_char(d as nat)]);
    }
    r
}

/// The decimal text of a counter value.
pub fn decimal_text(n: u64) -> (r: String)
    ensures
        r@ == decimal(n as nat),
    decreases n,
{
    if n < 10 {
        String::from_str(digit_text(n))
    } else {
        let mut s = decimal_text(n / 10);
        s.append(digit_text(n % 10));
        proof {
            assert(decimal(n as nat) == decimal((n / 10) as nat).push(digit_char((n % 10) as nat)));
        }
        s
    }
}

/// How a type reads: `char`, `int`, or `fn(<params>) -> <ret>`.
pub open spec fn type_str(t: Type) -> Seq<char>
    decreases t,
{
    match t {
        Type::Char => "char"@,
        Type::Int => "int"@,
        Type::Fn(ret, args) => "fn("@ + params_str(args@) + ") -> "@ + type_str(*ret),
    }
}

/// Parameter types separated by `, `.
pub open spec fn params_str(args: Seq<Type>) -> Seq<char>
    decreases args,
{
    if args.len() == 0 {
        Seq::empty()
    } else if args.len() == 1 {
        type_str(args[0])
    } else {
        params_str(args.drop_last()) + ", "@ + type_str(args.last())
    }
}

/// How a declared type reads in a diagnostic.
pub open spec fn sem_type_str(s: SemType) -> Seq<char> {
    match s {
        SemType::UnknownType => "Unknown type"@,
        SemType::KnownType(t) => type_str(t),
    }
}

/// The text of a type.
pub fn type_text(t: &Type) -> (r: String)
    ensures
        r@ == type_str(*t),
    decreases t,
{
    match t {
        Type::Char => String::from_str("char"),
        Type::Int => String::from_str("int"),
        Type::Fn(ret, args) => {
            let mut out = String::from_str("fn(");
            let mut i: usize = 0;
            proof {
                assert forall|j: int| 0 <= j < args.len() implies #[trigger] decreases_to!(*t => args@[j]) by {
                    vstd::std_specs::vec::axiom_vec_index_decreases(*args, j);
                }
            }
            proof {
                assert(args@.take(0) == Seq::<Type>::empty());
            }
            while i < args.len()
                invariant
                    0 <= i <= args.len(),
                    out@ == "fn("@ + params_str(args@.take(i as int)),
                    forall|j: int| 0 <= j < args.len() ==> #[trigger] decreases_to!(*t => args@[j]),
                decreases args.len() - i,
            {
                proof {
                    assert(args@.take(i + 1).drop_last() == args@.take(i as int));
                    assert(args@.take(i + 1).last() == args@[i as int]);
                    if i == 0 {
                        assert(args@.take(1) == seq![args@[0]]);
                    }
                }
                if i != 0 {
                    out.append(", ");
                }
                let a = type_text(&args[i]);
                out.append(a.as_str());
                i = i + 1;
            }
            proof {
                assert(args@.take(args@.len() as int) == args@);
            }
            out.append(") -> ");
            let r = type_text(ret);
            out.append(r.as_str());
            out
        },
    }
}

/// The text of a declared type.
pub fn sem_type_text(s: &SemType) -> (r: String)
    ensures
        r@ == sem_type_str(*s),
{
    match s {
        SemType::UnknownType => String::from_str("Unknown type"),
        SemType::KnownType(t) => type_text(t),
    }
}

/// Two types are the same type.
pub open spec fn same_type(a: Type, b: Type) -> bool
    decreases a,
{
    match a {
        Type::Char => b == Type::Char,
        Type::Int => b == Type::Int,
        Type::Fn(ra, aa) => match b {
            Type::Fn(rb, ab) => same_type(*ra, *rb) && same_types(aa@, ab@),
            _ => false,
        },
    }
}

/// Two sequences of types agree position by position.
pub open spec fn same_types(a: Seq<Type>, b: Seq<Type>) -> bool
    decreases a,
{
    if a.len() == 0 {
        b.len() == 0
    } else {
        b.len() == a.len() && same_types(a.drop_last(), b.drop_last()) && same_type(a.last(), b.last())
    }
}

proof fn lemma_same_types(a: Seq<Type>, b: Seq<Type>)
    requires
        a.len() == b.len(),
        forall|j: int| 0 <= j < a.len() ==> same_type(#[trigger] a[j], b[j]),
    ensures
        same_types(a, b),
    decreases a.len(),
{
    if a.len() > 0 {
        assert forall|j: int| 0 <= j < a.len() - 1 implies same_type(#[trigger] a.drop_last()[j], b.drop_last()[j]) by {
            assert(same_type(a[j], b[j]));
        }
        lemma_same_types(a.drop_last(), b.drop_last());
        assert(same_type(a[a.len() - 1], b[b.len() - 1]));
    }
}

/// A copy of a type.
pub fn copy_type(t: &Type) -> (r: Type)
    ensures
        same_type(r, *t),
    decreases t,
{
    match t {
        Type::Char => Type::Char,
        Type::Int => Type::Int,
        Type::Fn(ret, args) => {
            let mut v: Vec<Type> = Vec::new();
            let mut i: usize = 0;
            proof {
                assert forall|j: int| 0 <= j < args.len() implies #[trigger] decreases_to!(*t => args@[j]) by {
                    vstd::std_specs::vec::axiom_vec_index_decreases(*args, j);
                }
            }
            while i < args.len()
                invariant
                    0 <= i <= args.len(),
                    v@.len() == i,
                    forall|j: int| 0 <= j < args.len() ==> #[trigger] decreases_to!(*t => args@[j]),
                    forall|j: int| 0 <= j < i ==> same_type(#[trigger] v@[j], args@[j]),
                decreases args.len() - i,
            {
                let c = copy_type(&args[i]);
                v.push(c);
                i = i + 1;
            }
            let r = Type::Fn(Box::new(copy_type(ret)), v);
            proof {
                lemma_same_types(v@, args@);
            }
            r
        },
    }
}

/// Two declared types are the same.
pub open spec fn same_sem_type(a: SemType, b: SemType) -> bool {
    match a {
        SemType::UnknownType => b is UnknownType,
        SemType::KnownType(ta) => b matches SemType::KnownType(tb) && same_type(ta, tb),
    }
}

/// A copy of a declared type.
pub fn copy_sem_type(s: &SemType) -> (r: SemType)
    ensures
        same_sem_type(r, *s),
{
    match s {
        SemType::UnknownType => SemType::UnknownType,
        SemType::KnownType(t) => SemType::KnownType(copy_type(t)),
    }
}

/// A name qualified by the scope path it was declared in.
#[derive(Debug, PartialEq, Eq, Hash)]
pub struct QualifiedName {
    name: String,
    path: Vec<String>,
}

fn to_qualified_name(name: String, path: Vec<String>) -> (r: QualifiedName)
    ensures
        r.name == name,
        r.path == path,
{
    QualifiedName { name: name, path: path }
}

/// The declared types of one name, by scope path: each node holds the type
/// declared at its path, if any, and its child scopes by key.
#[derive(Debug)]
pub struct Trie {
    member: Option<SemType>,
    map: Vec<(String, Trie)>,
}

/// The text of each scope key of a path.
pub open spec fn path_view(v: Seq<String>) -> Seq<Seq<char>> {
    v.map_values(|s: String| s@)
}

/// The first position whose key reads `k`, or -1.
spec fn child_index(entries: Seq<(String, Trie)>, k: Seq<char>) -> int
    decreases entries.len(),
{
    if entries.len() == 0 {
        -1
    } else {
        let i = child_index(entries.drop_last(), k);
        if i >= 0 {
            i
        } else if entries.last().0@ == k {
            entries.len() - 1
        } else {
            -1
        }
    }
}

proof fn lemma_child_index(entries: Seq<(String, Trie)>, k: Seq<char>)
    ensures
        -1 <= child_index(entries, k) < entries.len(),
        child_index(entries, k) == -1 ==> forall|j: int| 0 <= j < entries.len() ==> (#[trigger] entries[j]).0@ != k,
        child_index(entries, k) >= 0 ==> entries[child_index(entries, k)].0@ == k && forall|j: int|
            0 <= j < child_index(entries, k) ==> (#[trigger] entries[j]).0@ != k,
    decreases entries.len(),
{
    if entries.len() > 0 {
        lemma_child_index(entries.drop_last(), k);
        let i = child_index(entries.drop_last(), k);
        if i >= 0 {
            assert(entries[i] == entries.drop_last()[i]);
            assert forall|j: int| 0 <= j < i implies (#[trigger] entries[j]).0@ != k by {
                assert(entries[j] == entries.drop_last()[j]);
            }
        } else {
            assert forall|j: int| 0 <= j < entries.len() - 1 implies (#[trigger] entries[j]).0@ != k by {
                assert(entries[j] == entries.drop_last()[j]);
            }
        }
    }
}

proof fn lemma_child_index_same_keys(a: Seq<(String, Trie)>, b: Seq<(String, Trie)>, k: Seq<char>)
    requires
        a.len() == b.len(),
        forall|j: int| 0 <= j < a.len() ==> (#[trigger] a[j]).0@ == b[j].0@,
    ensures
        child_index(a, k) == child_index(b, k),
    decreases a.len(),
{
    if a.len() > 0 {
        assert forall|j: int| 0 <= j < a.len() - 1 implies (#[trigger] a.drop_last()[j]).0@ == b.drop_last()[j].0@ by {
            assert(a[j].0@ == b[j].0@);
        }
        lemma_child_index_same_keys(a.drop_last(), b.drop_last(), k);
        assert(a[a.len() - 1].0@ == b[b.len() - 1].0@);
    }
}

/// The type declared exactly at `path`, if any.
spec fn member_at(t: Trie, path: Seq<Seq<char>>) -> Option<SemType>
    decreases path.len(),
{
    if path.len() == 0 {
        t.member
    } else {
        let i = child_index(t.map@, path[0]);
        if 0 <= i < t.map@.len() {
            member_at(t.map@[i].1, path.drop_first())
        } else {
            None
        }
    }
}

/// The type that `path` sees: the one declared at the outermost scope along
/// the path that declares one.
spec fn visible(t: Trie, path: Seq<Seq<char>>) -> Option<SemType>
    decreases path.len(),
{
    if t.member is Some || path.len() == 0 {
        t.member
    } else {
        let i = child_index(t.map@, path[0]);
        if 0 <= i < t.map@.len() {
            visible(t.map@[i].1, path.drop_first())
        } else {
            None
        }
    }
}

/// Both absent, or both present and the same declared type.
pub open spec fn same_opt_sem_type(a: Option<SemType>, b: Option<SemType>) -> bool {
    match a {
        None => b is None,
        Some(x) => b matches Some(y) && same_sem_type(x, y),
    }
}

impl Trie {
    /// The type visible from scope path `scope[from..]`.
    fn get_name(&self, scope: &Vec<String>, from: usize) -> (r: Option<SemType>)
        requires
            from <= scope.len(),
        ensures
            same_opt_sem_type(r, visible(*self, path_view(scope@).skip(from as int))),
        decreases scope.len() - from,
    {
        let ghost p = path_view(scope@).skip(from as int);
        match &self.member {
            Some(m) => Some(copy_sem_type(m)),
            None => {
                if from == scope.len() {
                    return None;
                }
                assert(p[0] == scope@[from as int]@);
                let mut i: usize = 0;
                while i < self.map.len()
                    invariant
                        0 <= i <= self.map@.len(),
                        from < scope.len(),
                        self.member is None,
                        p == path_view(scope@).skip(from as int),
                        p[0] == scope@[from as int]@,
                        forall|j: int| 0 <= j < i ==> (#[trigger] self.map@[j]).0@ != scope@[from as int]@,
                    decreases self.map.len() - i,
                {
                    if self.map[i].0 == scope[from] {
                        proof {
                            lemma_child_index(self.map@, scope@[from as int]@);
                            assert(p.drop_first() =~= path_view(scope@).skip(from + 1));
                        }
                        return self.map[i].1.get_name(scope, from + 1);
                    }
                    i = i + 1;
                }
                proof {
                    lemma_child_index(self.map@, scope@[from as int]@);
                }
                None
            },
        }
    }

    /// Records `ty` as declared exactly at scope path `path[from..]`.
    fn insert(&mut self, path: &Vec<String>, from: usize, ty: SemType)
        requires
            from <= path.len(),
        ensures
            forall|q: Seq<Seq<char>>| #[trigger] member_at(*final(self), q) == if q == path_view(path@).skip(from as int) {
                Some(ty)
            } else {
                member_at(*old(self), q)
            },
        decreases path.len() - from,
    {
        let ghost p = path_view(path@).skip(from as int);
        if from == path.len() {
            self.member = Some(ty);
            proof {
                assert(p =~= Seq::<Seq<char>>::empty());
                assert forall|q: Seq<Seq<char>>| #[trigger] member_at(*self, q) == if q == p {
                    Some(ty)
                } else {
                    member_at(*old(self), q)
                } by {
                    if q.len() == 0 {
                        assert(q =~= p);
                    }
                }
            }
            return;
        }
        let ghost k = path@[from as int]@;
        assert(p[0] == k);
        let mut i: usize = 0;
        let mut found = false;
        while i < self.map.len() && !found
            invariant
                0 <= i <= self.map@.len(),
                from < path.len(),
                k == path@[from as int]@,
                found ==> i < self.map@.len() && self.map@[i as int].0@ == k,
                *self == *old(self),
                forall|j: int| 0 <= j < i ==> (#[trigger] self.map@[j]).0@ != k,
            decreases self.map.len() - i + if found { 0int } else { 1int },
        {
            if self.map[i].0 == path[from] {
                found = true;
            } else {
                i = i + 1;
            }
        }
        let ghost old_map = self.map@;
        proof {
            lemma_child_index(old_map, k);
            assert(old_map == old(self).map@);
            assert(self.member == old(self).member);
        }
        if found {
            assert(child_index(old_map, k) == i);
            let (key, child) = self.map.remove(i);
            let mut child = child;
            let ghost old_child = child;
            assert(old_map[i as int] == (key, old_child));
            child.insert(path, from + 1, ty);
            self.map.insert(i, (key, child));
            proof {
                assert(self.map@[i as int] == (key, child));
                assert(key@ == k);
                assert(self.map@ =~= old_map.update(i as int, (key, child)));
                assert(p.drop_first() =~= path_view(path@).skip(from + 1));
                assert forall|q: Seq<Seq<char>>| #[trigger] member_at(*self, q) == if q == p {
                    Some(ty)
                } else {
                    member_at(*old(self), q)
                } by {
                    lemma_split_path(q, p);
                    if q.len() > 0 {
                        lemma_child_index_same_keys(self.map@, old_map, q[0]);
                        lemma_child_index(self.map@, q[0]);
                        let ci = child_index(self.map@, q[0]);
                        if ci >= 0 {
                            if ci == i {
                                assert(member_at(*self, q) == member_at(child, q.drop_first()));
                                assert(member_at(*old(self), q) == member_at(old_child, q.drop_first()));
                            } else {
                                assert(self.map@[ci] == old_map[ci]);
                                assert(q[0] != k);
                            }
                        } else {
                            assert(q[0] != k);
                        }
                    }
                }
            }
        } else {
            let mut child = Trie::empty();
            let ghost empty_child = child;
            child.insert(path, from + 1, ty);
            let key = path[from].clone();
            self.map.push((key, child));
            proof {
                assert(self.map@ == old_map.push((key, child)));
                assert(self.map@.drop_last() == old_map);
                assert forall|j: int| 0 <= j < old_map.len() implies #[trigger] self.map@[j] == old_map[j] by {}
                assert(self.map@[old_map.len() as int] == (key, child));
                assert(p.drop_first() =~= path_view(path@).skip(from + 1));
                assert forall|q: Seq<Seq<char>>| #[trigger] member_at(*self, q) == if q == p {
                    Some(ty)
                } else {
                    member_at(*old(self), q)
                } by {
                    lemma_split_path(q, p);
                    if q.len() > 0 {
                        lemma_child_index(self.map@, q[0]);
                        lemma_child_index(old_map, q[0]);
                        if q[0] == k {
                            assert(child_index(self.map@, k) == old_map.len());
                            lemma_empty_trie_has_nothing(empty_child, q.drop_first());
                            assert(member_at(*self, q) == member_at(child, q.drop_first()));
                        } else {
                            let ci = child_index(old_map, q[0]);
                            if ci >= 0 {
                                assert(self.map@[ci] == old_map[ci]);
                                assert(child_index(self.map@, q[0]) == ci);
                            } else {
                                assert(child_index(self.map@, q[0]) == -1);
                            }
                        }
                    }
                }
            }
        }
    }

    /// A trie with no declarations.
    fn empty() -> (r: Self)
        ensures
            r.member is None,
            r.map@.len() == 0,
    {
        Trie { member: None, map: Vec::new() }
    }
}

proof fn lemma_split_path(q: Seq<Seq<char>>, p: Seq<Seq<char>>)
    requires
        p.len() > 0,
    ensures
        (q == p) <==> (q.len() > 0 && q[0] == p[0] && q.drop_first() == p.drop_first()),
{
    if q.len() > 0 && q[0] == p[0] && q.drop_first() == p.drop_first() {
        assert(q.drop_first().len() == p.drop_first().len());
        assert(q.len() == p.len());
        assert forall|j: int| 0 <= j < q.len() implies q[j] == p[j] by {
            if j > 0 {
                assert(q[j] == q.drop_first()[j - 1]);
                assert(p[j] == p.drop_first()[j - 1]);
            }
        }
        assert(q =~= p);
    }
}

proof fn lemma_empty_trie_has_nothing(t: Trie, q: Seq<Seq<char>>)
    requires
        t.member is None,
        t.map@.len() == 0,
    ensures
        member_at(t, q) is None,
{
}

/// What a scope was opened by.
#[derive(Debug)]
pub enum ScopedStmt<'src> {
    Global,
    FuncDec,
    /// Holds the `if`, `else if` and `else` scopes of one conditional.
    Carrier,
    If(Expr<'src>),
    Elif(Expr<'src>),
    Else,
    /// Initialiser, condition, step.
    For(Option<Expr<'src>>, Option<Expr<'src>>, Option<Expr<'src>>),
    While(Expr<'src>),
}

/// A statement after name resolution: a scope with its key path and the
/// statements inside it, or an expression.
#[derive(Debug)]
pub enum SStmt<'src> {
    ScopedStmt(Vec<String>, ScopedStmt<'src>, Vec<Self>),
    Stmt(Expr<'src>),
}

/// The state of name resolution: the declared names, each with its trie of
/// scopes (held as the children of one root), the diagnostics so far, and
/// the next fresh scope key.
#[derive(Debug)]
pub struct RenamerCTX<E> {
    mapping: Trie,
    errs: Vec<E>,
    counter: u64,
}

/// The path under the root trie for a name declared at `path`.
pub open spec fn name_path(name: Seq<char>, path: Seq<String>) -> Seq<Seq<char>> {
    seq![name] + path_view(path)
}

/// The diagnostic for a name declared again where an earlier type is visible.
pub open spec fn redefinition_message(name: Seq<char>, earlier: SemType) -> Seq<char> {
    name + " is previously defined with type: "@ + sem_type_str(earlier)
}

impl<E> RenamerCTX<E> {
    /// The counter from which the next fresh scope key is made.
    pub closed spec fn next_key(&self) -> nat {
        self.counter as nat
    }

    /// The diagnostics recorded so far.
    pub closed spec fn diagnostics(&self) -> Seq<E> {
        self.errs@
    }

    /// The diagnostics recorded so far, in order.
    pub fn errors(&self) -> (r: &Vec<E>)
        ensures
            r@ == self.diagnostics(),
    {
        &self.errs
    }

    /// No declaration at a name path of at most `depth` parts (the name,
    /// then its scope keys) changed between `earlier` and this state.
    pub closed spec fn declared_within(&self, earlier: &Self, depth: int) -> bool {
        forall|q: Seq<Seq<char>>| q.len() <= depth ==> #[trigger] member_at(self.mapping, q) == member_at(earlier.mapping, q)
    }

    /// The type declared for `name` at the global scope, if any.
    pub closed spec fn global_type(&self, name: Seq<char>) -> Option<SemType> {
        member_at(self.mapping, seq![name])
    }

    /// Records a diagnostic.
    fn err(&mut self, err: E)
        ensures
            final(self).errs@ == old(self).errs@.push(err),
            final(self).mapping == old(self).mapping,
            final(self).counter == old(self).counter,
    {
        self.errs.push(err);
    }
}

impl RenamerCTX<String> {
    /// Declares `name` with type `ty`. When an earlier declaration of the
    /// name is visible from the name's scope, the new type is still recorded
    /// and a diagnostic names the earlier type.
    fn add_name(&mut self, name: QualifiedName, ty: SemType)
        ensures
            forall|q: Seq<Seq<char>>| #[trigger] member_at(final(self).mapping, q) == if q == name_path(name.name@, name.path@) {
                Some(ty)
            } else {
                member_at(old(self).mapping, q)
            },
            final(self).counter == old(self).counter,
            extends(final(self).errs@, old(self).errs@),
            final(self).declared_within(old(self), name.path@.len() as int),
            match visible(old(self).mapping, name_path(name.name@, name.path@)) {
                Some(earlier) => exists|m: String| #[trigger] final(self).errs@ == old(self).errs@.push(m)
                    && m@ == redefinition_message(name.name@, earlier),
                None => final(self).errs@ == old(self).errs@,
            },
    {
        let mut full: Vec<String> = Vec::new();
        full.push(name.name.clone());
        let mut i: usize = 0;
        while i < name.path.len()
            invariant
                0 <= i <= name.path@.len(),
                full@.len() == i + 1,
                full@[0]@ == name.name@,
                forall|j: int| 0 < j <= i ==> (#[trigger] full@[j])@ == name.path@[j - 1]@,
            decreases name.path.len() - i,
        {
            full.push(name.path[i].clone());
            i = i + 1;
        }
        proof {
            assert(path_view(full@) =~= name_path(name.name@, name.path@));
        }
        let prior = self.mapping.get_name(&full, 0);
        proof {
            assert(path_view(full@).skip(0) == path_view(full@));
        }
        match prior {
            Some(earlier) => {
                self.mapping.insert(&full, 0, ty);
                let mut m = String::from_str(name.name.as_str());
                m.append(" is previously defined with type: ");
                let t = sem_type_text(&earlier);
                m.append(t.as_str());
                proof {
                    lemma_same_sem_type_str(earlier, visible(old(self).mapping, name_path(name.name@, name.path@))->0);
                }
                self.err(m);
                proof {
                    lemma_extends_push(old(self).errs@, m);
                }
            },
            None => {
                self.mapping.insert(&full, 0, ty);
                proof {
                    lemma_extends_refl(self.errs@);
                }
            },
        }
    }

    /// A fresh scope key: the counter's decimal text; the counter advances.
    fn get_next_ctx(&mut self) -> (r: String)
        requires
            old(self).counter < u64::MAX,
        ensures
            r@ == decimal(old(self).counter as nat),
            final(self).counter == old(self).counter + 1,
            final(self).mapping == old(self).mapping,
            final(self).errs == old(self).errs,
    {
        let tmp = decimal_text(self.counter);
        self.counter = self.counter + 1;
        tmp
    }
}

proof fn lemma_same_type_str(a: Type, b: Type)
    requires
        same_type(a, b),
    ensures
        type_str(a) == type_str(b),
    decreases a,
{
    match a {
        Type::Fn(ra, aa) => {
            let rb = b->0;
            let ab = b->1;
            lemma_same_type_str(*ra, *rb);
            lemma_same_params_str(aa@, ab@);
        },
        _ => {},
    }
}

proof fn lemma_same_params_str(a: Seq<Type>, b: Seq<Type>)
    requires
        same_types(a, b),
    ensures
        params_str(a) == params_str(b),
    decreases a,
{
    if a.len() > 0 {
        lemma_same_params_str(a.drop_last(), b.drop_last());
        lemma_same_type_str(a.last(), b.last());
        if a.len() == 1 {
            assert(a[0] == a.last());
            assert(b[0] == b.last());
        }
    }
}

proof fn lemma_same_sem_type_str(a: SemType, b: SemType)
    requires
        same_sem_type(a, b),
    ensures
        sem_type_str(a) == sem_type_str(b),
{
    match a {
        SemType::KnownType(ta) => {
            lemma_same_type_str(ta, b->0);
        },
        _ => {},
    }
}

/// A context with nothing declared.
fn new_renamer_ctx() -> (r: RenamerCTX<String>)
    ensures
        forall|q: Seq<Seq<char>>| #[trigger] member_at(r.mapping, q) is None,
        r.errs@.len() == 0,
        r.counter == 0,
{
    let r = RenamerCTX { mapping: Trie::empty(), errs: Vec::new(), counter: 0 };
    proof {
        assert forall|q: Seq<Seq<char>>| #[trigger] member_at(r.mapping, q) is None by {
            lemma_empty_trie_has_nothing(r.mapping, q);
        }
    }
    r
}

/// How many fresh scope keys resolving a statement takes.
pub open spec fn lstmt_scopes(s: LStmt) -> nat
    decreases s,
{
    match s {
        LStmt::VarDec(_, _, _, _) => 0,
        LStmt::While(_, body) => 1 + lstmts_scopes(body@),
        LStmt::Ifs(first, elifs, els) => 2 + lstmts_scopes(first.1@) + elif_scopes(elifs@) + match els {
            Some(e) => 1 + lstmts_scopes(e@),
            None => 0,
        },
        LStmt::For(_, _, _, body) => 1 + lstmts_scopes(body@),
        LStmt::FuncDec(_, _, _, body) => lstmts_scopes(body@),
        LStmt::Expr(_) => 0,
    }
}

/// How many fresh scope keys resolving a statement list takes.
pub open spec fn lstmts_scopes(v: Seq<LStmt>) -> nat
    decreases v,
{
    if v.len() == 0 {
        0
    } else {
        lstmts_scopes(v.drop_last()) + lstmt_scopes(v.last())
    }
}

/// How many fresh scope keys the `else if` branches take.
pub open spec fn elif_scopes(v: Seq<(Expr, Vec<LStmt>)>) -> nat
    decreases v,
{
    if v.len() == 0 {
        0
    } else {
        elif_scopes(v.drop_last()) + 1 + lstmts_scopes(v.last().1@)
    }
}

/// A declaration without an initialiser leaves no statement behind.
pub open spec fn leaves_stmt(s: LStmt) -> bool {
    !(s matches LStmt::VarDec(_, _, _, None))
}

/// How many statements resolution leaves of a list.
pub open spec fn kept(v: Seq<LStmt>) -> nat
    decreases v.len(),
{
    if v.len() == 0 {
        0
    } else {
        kept(v.drop_last()) + if leaves_stmt(v.last()) { 1nat } else { 0nat }
    }
}

/// `a` starts with `b`.
pub open spec fn extends<T>(a: Seq<T>, b: Seq<T>) -> bool {
    b.len() <= a.len() && a.subrange(0, b.len() as int) == b
}

proof fn lemma_extends_refl<T>(a: Seq<T>)
    ensures
        extends(a, a),
{
    assert(a.subrange(0, a.len() as int) =~= a);
}

proof fn lemma_extends_trans<T>(a: Seq<T>, b: Seq<T>, c: Seq<T>)
    requires
        extends(a, b),
        extends(b, c),
    ensures
        extends(a, c),
{
    assert(a.subrange(0, c.len() as int) =~= b.subrange(0, c.len() as int));
}

proof fn lemma_extends_push<T>(a: Seq<T>, x: T)
    ensures
        extends(a.push(x), a),
{
    assert(a.push(x).subrange(0, a.len() as int) =~= a);
}

proof fn lemma_within_trans(a: RenamerCTX<String>, b: RenamerCTX<String>, c: RenamerCTX<String>, d1: int, d2: int, d: int)
    requires
        a.declared_within(&b, d1),
        b.declared_within(&c, d2),
        d <= d1,
        d <= d2,
    ensures
        a.declared_within(&c, d),
{
    assert forall|q: Seq<Seq<char>>| q.len() <= d implies #[trigger] member_at(a.mapping, q) == member_at(c.mapping, q) by {
        assert(member_at(a.mapping, q) == member_at(b.mapping, q));
    }
}

proof fn lemma_within_refl(a: RenamerCTX<String>, d: int)
    ensures
        a.declared_within(&a, d),
{
}

proof fn lemma_scopes_prefix(v: Seq<LStmt>, k: int)
    requires
        0 <= k <= v.len(),
    ensures
        lstmts_scopes(v.take(k)) <= lstmts_scopes(v),
    decreases v.len(),
{
    if k < v.len() {
        lemma_scopes_prefix(v.drop_last(), k);
        assert(v.drop_last().take(k) == v.take(k));
    } else {
        assert(v.take(k) == v);
    }
}

proof fn lemma_elif_prefix(v: Seq<(Expr, Vec<LStmt>)>, k: int)
    requires
        0 <= k <= v.len(),
    ensures
        elif_scopes(v.take(k)) <= elif_scopes(v),
    decreases v.len(),
{
    if k < v.len() {
        lemma_elif_prefix(v.drop_last(), k);
        assert(v.drop_last().take(k) == v.take(k));
    } else {
        assert(v.take(k) == v);
    }
}

/// Resolves the names of a statement list in scope `scope`: declarations are
/// recorded, declarations with an initialiser become assignments, and each
/// function, loop and conditional branch becomes a scope of its own.
pub fn symbolify_lstmts<'a>(stmts: Vec<LStmt<'a>>, ctx: &mut RenamerCTX<String>, scope: Vec<String>) -> (r: Vec<SStmt<'a>>)
    requires
        old(ctx).next_key() + lstmts_scopes(stmts@) <= u64::MAX,
    ensures
        r@.len() == kept(stmts@),
        final(ctx).next_key() == old(ctx).next_key() + lstmts_scopes(stmts@),
        extends(final(ctx).diagnostics(), old(ctx).diagnostics()),
        final(ctx).declared_within(old(ctx), scope@.len() as int),
    decreases stmts@,
{
    let ghost all = stmts@;
    let ghost start = ctx.counter;
    let mut v: Vec<SStmt<'a>> = Vec::new();
    proof {
        assert(all.take(0) == Seq::<LStmt>::empty());
        lemma_extends_refl(ctx.errs@);
    }
    for stmt in it: stmts
        invariant
            it.seq() == all,
            all == stmts@,
            start == old(ctx).counter,
            start + lstmts_scopes(all) <= u64::MAX,
            v@.len() == kept(all.take(it.index() as int)),
            ctx.counter == start + lstmts_scopes(all.take(it.index() as int)),
            extends(ctx.errs@, old(ctx).errs@),
            ctx.declared_within(old(ctx), scope@.len() as int),
    {
        let ghost k = it.index() as int;
        proof {
            assert(all.take(k + 1).drop_last() == all.take(k));
            assert(all.take(k + 1).last() == stmt);
            lemma_scopes_prefix(all, k + 1);
            assert(decreases_to!(stmts@ => stmt));
        }
        let ghost before = ctx.errs@;
        let ghost mark = *ctx;
        proof { lemma_within_refl(*ctx, scope@.len() as int); }
        let ghost sg = stmt;
        proof {
            assert(lstmts_scopes(all.take(k + 1)) == lstmts_scopes(all.take(k)) + lstmt_scopes(sg));
        }
        match stmt {
            LStmt::VarDec(ty, name, _arr_info, Some(expr1)) => {
                ctx.add_name(to_qualified_name(name.to_owned(), scope.clone()), SemType::KnownType(ty));
                proof {
                    lemma_extends_trans(ctx.errs@, before, old(ctx).errs@);
                    lemma_within_trans(*ctx, mark, *old(ctx), scope@.len() as int, scope@.len() as int, scope@.len() as int);
                }
                v.push(SStmt::Stmt(Expr::Assignment(Box::new(Expr::Atom(Atom::Var(name))), Box::new(expr1))));
            },
            LStmt::VarDec(ty, name, _arr_info, None) => {
                ctx.add_name(to_qualified_name(name.to_owned(), scope.clone()), SemType::KnownType(ty));
                proof {
                    lemma_extends_trans(ctx.errs@, before, old(ctx).errs@);
                    lemma_within_trans(*ctx, mark, *old(ctx), scope@.len() as int, scope@.len() as int, scope@.len() as int);
                }
            },
            LStmt::FuncDec(_ty, name, items, lstmts) => {
                ctx.add_name(to_qualified_name(name.to_owned(), scope.clone()), SemType::UnknownType);
                proof {
                    lemma_extends_trans(ctx.errs@, before, old(ctx).errs@);
                    lemma_within_trans(*ctx, mark, *old(ctx), scope@.len() as int, scope@.len() as int, scope@.len() as int);
                }
                let mut new_scope = scope.clone();
                new_scope.push(name.to_owned());
                let ghost body_scopes = lstmts_scopes(lstmts@);
                assert(lstmts_scopes(all.take(k + 1)) == lstmts_scopes(all.take(k)) + body_scopes);
                for item in items
                    invariant
                        ctx.counter == start + lstmts_scopes(all.take(k)),
                        start + lstmts_scopes(all.take(k)) + body_scopes <= u64::MAX,
                        extends(ctx.errs@, old(ctx).errs@),
                        new_scope@.len() == scope@.len() + 1,
                        ctx.declared_within(old(ctx), scope@.len() as int),
                {
                    let (arg_ty, arg_name, _arg_arr) = item;
                    let arg_qname = to_qualified_name(arg_name.to_owned(), new_scope.clone());
                    let ghost b2 = ctx.errs@;
                    let ghost m2 = *ctx;
                    ctx.add_name(arg_qname, SemType::KnownType(arg_ty));
                    proof {
                        lemma_extends_trans(ctx.errs@, b2, old(ctx).errs@);
                        lemma_within_trans(*ctx, m2, *old(ctx), (scope@.len() + 1) as int, scope@.len() as int, scope@.len() as int);
                    }
                }
                let ghost pre = ctx.errs@;
                let ghost pre_ctx = *ctx;
                let inner = symbolify_lstmts(lstmts, ctx, new_scope.clone());
                proof {
                    lemma_extends_trans(ctx.errs@, pre, old(ctx).errs@);
                    lemma_within_trans(*ctx, pre_ctx, *old(ctx), scope@.len() as int, scope@.len() as int, scope@.len() as int);
                }
                v.push(SStmt::ScopedStmt(new_scope, ScopedStmt::FuncDec, inner));
            },
            LStmt::For(init, cond, step, body) => {
                let mut new_scope = scope.clone();
                new_scope.push(ctx.get_next_ctx());
                let ghost pre = ctx.errs@;
                let ghost pre_ctx = *ctx;
                let inner = symbolify_lstmts(body, ctx, new_scope.clone());
                proof {
                    lemma_extends_trans(ctx.errs@, pre, old(ctx).errs@);
                    lemma_within_trans(*ctx, pre_ctx, *old(ctx), scope@.len() as int, scope@.len() as int, scope@.len() as int);
                }
                v.push(SStmt::ScopedStmt(new_scope, ScopedStmt::For(init, cond, step), inner));
            },
            LStmt::While(cond, body) => {
                let mut new_scope = scope.clone();
                new_scope.push(ctx.get_next_ctx());
                let ghost pre = ctx.errs@;
                let ghost pre_ctx = *ctx;
                let inner = symbolify_lstmts(body, ctx, new_scope.clone());
                proof {
                    lemma_extends_trans(ctx.errs@, pre, old(ctx).errs@);
                    lemma_within_trans(*ctx, pre_ctx, *old(ctx), scope@.len() as int, scope@.len() as int, scope@.len() as int);
                }
                v.push(SStmt::ScopedStmt(new_scope, ScopedStmt::While(cond), inner));
            },
            LStmt::Ifs(first, then_branch, else_branch) => {
                let (if_cond, if_stmts) = first;
                let mut new_scope = scope.clone();
                new_scope.push(ctx.get_next_ctx());
                let mut if_scope = new_scope.clone();
                if_scope.push(ctx.get_next_ctx());
                let ghost pre = ctx.errs@;
                let ghost pre_ctx = *ctx;
                let inner = symbolify_lstmts(if_stmts, ctx, if_scope.clone());
                proof {
                    lemma_extends_trans(ctx.errs@, pre, old(ctx).errs@);
                    lemma_within_trans(*ctx, pre_ctx, *old(ctx), scope@.len() as int, scope@.len() as int, scope@.len() as int);
                }
                let mut branches: Vec<SStmt<'a>> = Vec::new();
                branches.push(SStmt::ScopedStmt(if_scope, ScopedStmt::If(if_cond), inner));
                let ghost elifs = then_branch@;
                let ghost base = ctx.counter;
                proof {
                    assert(elifs.take(0) == Seq::<(Expr, Vec<LStmt>)>::empty());
                    assert forall|j: int| 0 <= j < elifs.len() implies #[trigger] decreases_to!(stmts@ => elifs[j].1@) by {
                        vstd::std_specs::vec::axiom_vec_decreases_to_view(then_branch);
                        vstd::seq::axiom_seq_index_decreases(elifs, j);
                        vstd::std_specs::vec::axiom_vec_decreases_to_view(elifs[j].1);
                    }
                }
                for branch in bi: then_branch
                    invariant
                        bi.seq() == elifs,
                        base + elif_scopes(elifs) + match else_branch {
                            Some(e) => 1 + lstmts_scopes(e@),
                            None => 0,
                        } <= u64::MAX,
                        ctx.counter == base + elif_scopes(elifs.take(bi.index() as int)),
                        extends(ctx.errs@, old(ctx).errs@),
                        ctx.declared_within(old(ctx), scope@.len() as int),
                        new_scope@.len() == scope@.len() + 1,
                        forall|j: int| 0 <= j < elifs.len() ==> #[trigger] decreases_to!(stmts@ => elifs[j].1@),
                {
                    let ghost j = bi.index() as int;
                    proof {
                        assert(elifs.take(j + 1).drop_last() == elifs.take(j));
                        assert(elifs.take(j + 1).last() == branch);
                        lemma_elif_prefix(elifs, j + 1);
                    }
                    let (elif_cond, elif_stmts) = branch;
                    let mut elif_scope = new_scope.clone();
                    elif_scope.push(ctx.get_next_ctx());
                    let ghost pre = ctx.errs@;
                let ghost pre_ctx = *ctx;
                    let inner = symbolify_lstmts(elif_stmts, ctx, elif_scope.clone());
                    proof {
                    lemma_extends_trans(ctx.errs@, pre, old(ctx).errs@);
                    lemma_within_trans(*ctx, pre_ctx, *old(ctx), scope@.len() as int, scope@.len() as int, scope@.len() as int);
                }
                    branches.push(SStmt::ScopedStmt(elif_scope, ScopedStmt::Elif(elif_cond), inner));
                }
                proof {
                    assert(elifs.take(elifs.len() as int) == elifs);
                }
                match else_branch {
                    Some(else_stmts) => {
                        let mut else_scope = new_scope.clone();
                        else_scope.push(ctx.get_next_ctx());
                        let ghost pre = ctx.errs@;
                let ghost pre_ctx = *ctx;
                        let inner = symbolify_lstmts(else_stmts, ctx, else_scope.clone());
                        proof {
                    lemma_extends_trans(ctx.errs@, pre, old(ctx).errs@);
                    lemma_within_trans(*ctx, pre_ctx, *old(ctx), scope@.len() as int, scope@.len() as int, scope@.len() as int);
                }
                        branches.push(SStmt::ScopedStmt(else_scope, ScopedStmt::Else, inner));
                    },
                    None => {},
                }
                v.push(SStmt::ScopedStmt(new_scope, ScopedStmt::Carrier, branches));
            },
            LStmt::Expr(expr) => {
                v.push(SStmt::Stmt(expr));
            },
        }
    }
    proof {
        assert(all.take(all.len() as int) == all);
    }
    v
}

/// How many fresh scope keys resolving a top-level declaration takes.
pub open spec fn gstmt_scopes(s: GStmt) -> nat {
    match s {
        GStmt::VarDec(_, _, _, _) => 0,
        GStmt::FuncDec(_, _, _, body) => 1 + lstmts_scopes(body@),
    }
}

/// How many fresh scope keys resolving a program takes.
pub open spec fn gstmts_scopes(v: Seq<GStmt>) -> nat
    decreases v.len(),
{
    if v.len() == 0 {
        0
    } else {
        gstmts_scopes(v.drop_last()) + gstmt_scopes(v.last())
    }
}

/// The type of the last top-level declaration of `name`, if any.
pub open spec fn last_global_type(v: Seq<GStmt>, name: Seq<char>) -> Option<SemType>
    decreases v.len(),
{
    if v.len() == 0 {
        None
    } else {
        match v.last() {
            GStmt::VarDec(ty, n, _, _) => if n@ == name {
                Some(SemType::KnownType(ty))
            } else {
                last_global_type(v.drop_last(), name)
            },
            GStmt::FuncDec(ty, n, _, _) => if n@ == name {
                Some(SemType::KnownType(ty))
            } else {
                last_global_type(v.drop_last(), name)
            },
        }
    }
}

/// How many statements resolution leaves of a program.
pub open spec fn gkept(v: Seq<GStmt>) -> nat
    decreases v.len(),
{
    if v.len() == 0 {
        0
    } else {
        gkept(v.drop_last()) + if v.last() matches GStmt::VarDec(_, _, _, None) { 0nat } else { 1nat }
    }
}

proof fn lemma_gscopes_prefix(v: Seq<GStmt>, k: int)
    requires
        0 <= k <= v.len(),
    ensures
        gstmts_scopes(v.take(k)) <= gstmts_scopes(v),
    decreases v.len(),
{
    if k < v.len() {
        lemma_gscopes_prefix(v.drop_last(), k);
        assert(v.drop_last().take(k) == v.take(k));
    } else {
        assert(v.take(k) == v);
    }
}

proof fn lemma_global_declared(before: RenamerCTX<String>, after: RenamerCTX<String>, name: Seq<char>, ty: SemType)
    requires
        forall|q: Seq<Seq<char>>| #[trigger] member_at(after.mapping, q) == if q == name_path(name, Seq::<String>::empty()) {
            Some(ty)
        } else {
            member_at(before.mapping, q)
        },
    ensures
        forall|n: Seq<char>| #[trigger] after.global_type(n) == if n == name { Some(ty) } else { before.global_type(n) },
{
    assert(name_path(name, Seq::<String>::empty()) =~= seq![name]);
    assert forall|n: Seq<char>| #[trigger] after.global_type(n) == if n == name { Some(ty) } else { before.global_type(n) } by {
        if n != name {
            assert(seq![n][0] != seq![name][0]);
            assert(seq![n] != seq![name]);
        }
    }
}

/// Resolves the names of a program: top-level declarations are recorded at
/// the global scope, each function body gets a fresh scope, and the result
/// is the global scope holding what is left of each declaration, together
/// with the final resolution state and its diagnostics.
pub fn symbolify(stmts: Vec<GStmt>) -> (r: (SStmt, RenamerCTX<String>))
    requires
        gstmts_scopes(stmts@) <= u64::MAX,
    ensures
        r.0 matches SStmt::ScopedStmt(keys, kind, v) && keys@.len() == 0 && kind is Global
            && v@.len() == gkept(stmts@),
        r.1.next_key() == gstmts_scopes(stmts@),
        forall|name: Seq<char>| #[trigger] r.1.global_type(name) == last_global_type(stmts@, name),
{
    let ghost all = stmts@;
    let mut ctx = new_renamer_ctx();
    let mut v: Vec<SStmt> = Vec::new();
    proof {
        assert(all.take(0) == Seq::<GStmt>::empty());
    }
    for stmt in it: stmts
        invariant
            it.seq() == all,
            gstmts_scopes(all) <= u64::MAX,
            v@.len() == gkept(all.take(it.index() as int)),
            ctx.counter == gstmts_scopes(all.take(it.index() as int)),
            forall|name: Seq<char>| #[trigger] ctx.global_type(name) == last_global_type(all.take(it.index() as int), name),
    {
        let ghost k = it.index() as int;
        let ghost sg = stmt;
        let ghost mark = ctx;
        proof {
            assert(all.take(k + 1).drop_last() == all.take(k));
            assert(all.take(k + 1).last() == sg);
            lemma_gscopes_prefix(all, k + 1);
        }
        match stmt {
            GStmt::VarDec(ty, name, _arr_info, Some(expr1)) => {
                let ghost t = ty;
                ctx.add_name(to_qualified_name(name.to_owned(), Vec::new()), SemType::KnownType(ty));
                proof { lemma_global_declared(mark, ctx, name@, SemType::KnownType(t)); }
                v.push(SStmt::Stmt(Expr::Assignment(Box::new(Expr::Atom(Atom::Var(name))), Box::new(expr1))));
            },
            GStmt::VarDec(ty, name, _arr_info, None) => {
                let ghost t = ty;
                ctx.add_name(to_qualified_name(name.to_owned(), Vec::new()), SemType::KnownType(ty));
                proof { lemma_global_declared(mark, ctx, name@, SemType::KnownType(t)); }
            },
            GStmt::FuncDec(ty, name, items, lstmts) => {
                let ghost t = ty;
                ctx.add_name(to_qualified_name(name.to_owned(), Vec::new()), SemType::KnownType(ty));
                proof { lemma_global_declared(mark, ctx, name@, SemType::KnownType(t)); }
                let ghost declared = ctx;
                let mut scope: Vec<String> = Vec::new();
                scope.push(ctx.get_next_ctx());
                let ghost at = ctx.counter;
                proof { lemma_within_refl(ctx, 1); }
                for item in items
                    invariant
                        ctx.counter == at,
                        at + lstmts_scopes(lstmts@) <= u64::MAX,
                        scope@.len() == 1,
                        ctx.declared_within(&declared, 1),
                {
                    let (arg_ty, arg_name, _arg_arr) = item;
                    let arg_qname = to_qualified_name(arg_name.to_owned(), scope.clone());
                    let ghost m2 = ctx;
                    ctx.add_name(arg_qname, SemType::KnownType(arg_ty));
                    proof { lemma_within_trans(ctx, m2, declared, 1, 1, 1); }
                }
                let ghost m3 = ctx;
                let inner = symbolify_lstmts(lstmts, &mut ctx, scope.clone());
                proof {
                    lemma_within_trans(ctx, m3, declared, 1, 1, 1);
                    assert forall|n: Seq<char>| #[trigger] ctx.global_type(n) == declared.global_type(n) by {
                        assert(seq![n].len() == 1);
                    }
                }
                v.push(SStmt::ScopedStmt(scope, ScopedStmt::FuncDec, inner));
            },
        }
    }
    proof {
        assert(all.take(all.len() as int) == all);
    }
    (SStmt::ScopedStmt(Vec::new(), ScopedStmt::Global, v), ctx)
}

} // verus!
