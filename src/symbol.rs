//! Instruction symbols and the tokenizer that produces them from source text.
use vstd::prelude::*;

verus! {

/// One instruction of the tape language.
#[derive(Debug, Copy, Clone, PartialEq, Eq, Structural)]
pub enum BfSymbol {
    Left,
    Right,
    Plus,
    Minus,
    Period,
    Comma,
    OpenBracket,
    CloseBracket,
}

/// The instruction that a source character stands for, if any.
pub open spec fn symbol_of(c: char) -> Option<BfSymbol> {
    if c == '<' {
        Some(BfSymbol::Left)
    } else if c == '>' {
        Some(BfSymbol::Right)
    } else if c == '+' {
        Some(BfSymbol::Plus)
    } else if c == '-' {
        Some(BfSymbol::Minus)
    } else if c == '.' {
        Some(BfSymbol::Period)
    } else if c == ',' {
        Some(BfSymbol::Comma)
    } else if c == '[' {
        Some(BfSymbol::OpenBracket)
    } else if c == ']' {
        Some(BfSymbol::CloseBracket)
    } else {
        None
    }
}

/// The instructions of a source text, in order; every other character is a comment.
pub open spec fn symbols_of(s: Seq<char>) -> Seq<BfSymbol>
    decreases s.len(),
{
    if s.len() == 0 {
        Seq::empty()
    } else {
        let rest = symbols_of(s.drop_last());
        match symbol_of(s.last()) {
            Some(b) => rest.push(b),
            None => rest,
        }
    }
}

/// Net bracket depth of a symbol sequence: opens minus closes.
pub open spec fn depth(s: Seq<BfSymbol>) -> int
    decreases s.len(),
{
    if s.len() == 0 {
        0
    } else {
        depth(s.drop_last()) + match s.last() {
            BfSymbol::OpenBracket => 1int,
            BfSymbol::CloseBracket => -1int,
            _ => 0int,
        }
    }
}

/// No prefix closes more loops than it has opened.
pub open spec fn never_underflows(s: Seq<BfSymbol>) -> bool {
    forall|i: int| 0 <= i <= s.len() ==> #[trigger] depth(s.take(i)) >= 0
}

/// Every loop that is opened is closed, and none is closed before it is opened.
pub open spec fn balanced(s: Seq<BfSymbol>) -> bool {
    never_underflows(s) && depth(s) == 0
}

proof fn lemma_symbols_concat(a: Seq<char>, b: Seq<char>)
    ensures
        symbols_of(a + b) == symbols_of(a) + symbols_of(b),
    decreases b.len(),
{
    if b.len() == 0 {
        assert(a + b == a);
        assert(symbols_of(b) == Seq::<BfSymbol>::empty());
        assert(symbols_of(a) + symbols_of(b) == symbols_of(a));
    } else {
        lemma_symbols_concat(a, b.drop_last());
        assert((a + b).drop_last() == a + b.drop_last());
        assert((a + b).last() == b.last());
        match symbol_of(b.last()) {
            Some(x) => {
                assert(symbols_of(a) + symbols_of(b.drop_last()).push(x) == (symbols_of(a)
                    + symbols_of(b.drop_last())).push(x));
            },
            None => {},
        }
    }
}

pub proof fn lemma_depth_bounds(s: Seq<BfSymbol>)
    ensures
        -s.len() <= depth(s) <= s.len(),
    decreases s.len(),
{
    if s.len() > 0 {
        lemma_depth_bounds(s.drop_last());
    }
}

/// Extending a sequence that never underflows by one symbol.
proof fn lemma_push_never_underflows(s: Seq<BfSymbol>, x: BfSymbol)
    requires
        never_underflows(s),
        depth(s.push(x)) >= 0,
    ensures
        never_underflows(s.push(x)),
{
    assert forall|i: int| 0 <= i <= s.len() + 1 implies #[trigger] depth(s.push(x).take(i)) >= 0 by {
        if i <= s.len() {
            assert(s.push(x).take(i) == s.take(i));
        } else {
            assert(s.push(x).take(i) == s.push(x));
        }
    }
}

pub const MISSING_OPEN: &'static str = "missing open bracket";

pub const NOT_WELL_FORMED: &'static str = "Brainfuck code is not well-formed (Brackets do not match)";

/// Turns source text into its instruction symbols, dropping every other
/// character. With `verify`, bracket nesting is checked: a close with no open
/// loop fails with `MISSING_OPEN`, and a loop left open at the end fails with
/// `NOT_WELL_FORMED`.
pub fn parse(buf: &str, verify: bool) -> (r: Result<Vec<BfSymbol>, &'static str>)
    ensures
        !verify ==> r == Ok::<Vec<BfSymbol>, &'static str>(r->Ok_0) && r->Ok_0@ == symbols_of(buf@),
        verify ==> match r {
            Ok(v) => v@ == symbols_of(buf@) && balanced(v@),
            Err(e) => !balanced(symbols_of(buf@)) && (
                if never_underflows(symbols_of(buf@)) {
                    e@ == NOT_WELL_FORMED@
                } else {
                    e@ == MISSING_OPEN@
                }),
        },
        verify && balanced(symbols_of(buf@)) ==> r is Ok,
{
    let mut out: Vec<BfSymbol> = Vec::new();
    let mut bracket_depth: usize = 0;
    for c in it: buf.chars()
        invariant
            it.seq() == buf@,
            out@ == symbols_of(buf@.take(it.index())),
            verify ==> never_underflows(out@),
            verify ==> bracket_depth == depth(out@),
            out@.len() <= it.index(),
            it.index() <= buf@.len(),
    {
        let ghost before = out@;
        proof {
            let k = it.index();
            assert(buf@.take(k + 1).drop_last() == buf@.take(k));
            assert(buf@.take(k + 1).last() == c);
            lemma_depth_bounds(out@);
        }
        if c == '<' {
            out.push(BfSymbol::Left);
        } else if c == '>' {
            out.push(BfSymbol::Right);
        } else if c == '+' {
            out.push(BfSymbol::Plus);
        } else if c == '-' {
            out.push(BfSymbol::Minus);
        } else if c == '.' {
            out.push(BfSymbol::Period);
        } else if c == ',' {
            out.push(BfSymbol::Comma);
        } else if c == '[' {
            out.push(BfSymbol::OpenBracket);
            if verify {
                assert(out@.len() == before.len() + 1);
                assert(out.len() <= usize::MAX);
                bracket_depth = bracket_depth + 1;
            }
        } else if c == ']' {
            out.push(BfSymbol::CloseBracket);
            if verify {
                if bracket_depth == 0 {
                    proof {
                        let k = it.index();
                        lemma_symbols_concat(buf@.take(k + 1), buf@.skip(k + 1));
                        assert(buf@.take(k + 1) + buf@.skip(k + 1) == buf@);
                        let all = symbols_of(buf@);
                        assert(all.take(out@.len() as int) == out@);
                        assert(out@.drop_last() == before);
                        assert(depth(all.take(out@.len() as int)) < 0);
                    }
                    return Err(MISSING_OPEN);
                }
                bracket_depth = bracket_depth - 1;
            }
        }
        proof {
            if verify {
                if out@.len() > before.len() {
                    assert(out@.drop_last() == before);
                    lemma_push_never_underflows(before, out@.last());
                    assert(before.push(out@.last()) == out@);
                }
            }
        }
    }
    proof {
        assert(buf@.take(buf@.len() as int) == buf@);
    }
    if verify && bracket_depth != 0 {
        return Err(NOT_WELL_FORMED);
    }
    Ok(out)
}

} // verus!
