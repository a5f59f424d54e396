//! The naive C emitter: one line of C per instruction, indented by loop
//! depth, wrapped in a fixed tape prologue and epilogue.
use vstd::prelude::*;
use vstd::string::StringExecFns;
use crate::symbol::{balanced, depth, never_underflows, parse, symbols_of, BfSymbol};

verus! {

/// The C statement for one instruction.
pub open spec fn line_of(s: BfSymbol) -> Seq<char> {
    match s {
        BfSymbol::Left => "ptr--;"@,
        BfSymbol::Right => "ptr++;"@,
        BfSymbol::Plus => "(*ptr)++;"@,
        BfSymbol::Minus => "(*ptr)--;"@,
        BfSymbol::Period => "putchar(*ptr);"@,
        BfSymbol::Comma => "*ptr = getchar();"@,
        BfSymbol::OpenBracket => "while (*ptr) {"@,
        BfSymbol::CloseBracket => "}"@,
    }
}

/// `n` levels of four-space indentation.
pub open spec fn indent(n: nat) -> Seq<char>
    decreases n,
{
    if n == 0 {
        Seq::empty()
    } else {
        indent((n - 1) as nat) + "    "@
    }
}

/// The indentation level of an instruction that follows `before`: one for
/// the body of `main`, plus the loops open around it (a close stands at the
/// level of its open).
pub open spec fn level_of(before: Seq<BfSymbol>, s: BfSymbol) -> int {
    if s == BfSymbol::CloseBracket {
        depth(before)
    } else {
        1 + depth(before)
    }
}

/// The emitted lines of an instruction sequence.
pub open spec fn emitted(tokens: Seq<BfSymbol>) -> Seq<char>
    decreases tokens.len(),
{
    if tokens.len() == 0 {
        Seq::empty()
    } else {
        let before = tokens.drop_last();
        emitted(before) + indent(level_of(before, tokens.last()) as nat) + line_of(tokens.last())
            + "\n"@
    }
}

pub const PROLOGUE: &'static str = "#include <stdio.h>\nint main() {\n   char tape[200000];\n   for (int i = 0; i < 200000; i++) tape[i] = 0;\n   char *ptr = tape;\n";

pub const EPILOGUE: &'static str = "   return 0;\n}\n";

/// The C statement text for one instruction.
fn line_text(s: BfSymbol) -> (r: &'static str)
    ensures
        r@ == line_of(s),
{
    match s {
        BfSymbol::Left => "ptr--;",
        BfSymbol::Right => "ptr++;",
        BfSymbol::Plus => "(*ptr)++;",
        BfSymbol::Minus => "(*ptr)--;",
        BfSymbol::Period => "putchar(*ptr);",
        BfSymbol::Comma => "*ptr = getchar();",
        BfSymbol::OpenBracket => "while (*ptr) {",
        BfSymbol::CloseBracket => "}",
    }
}

/// The lines of C for an instruction sequence, without prologue or epilogue.
pub fn emit_without_boilerplate(tokens: &Vec<BfSymbol>) -> (r: String)
    requires
        never_underflows(tokens@),
    ensures
        r@ == emitted(tokens@),
{
    let mut out = String::new();
    let mut open_loops: usize = 0;
    let mut i: usize = 0;
    proof {
        assert(tokens@.take(0) == Seq::<BfSymbol>::empty());
    }
    while i < tokens.len()
        invariant
            0 <= i <= tokens.len(),
            never_underflows(tokens@),
            open_loops == depth(tokens@.take(i as int)),
            out@ == emitted(tokens@.take(i as int)),
        decreases tokens.len() - i,
    {
        let t = tokens[i];
        let ghost before = tokens@.take(i as int);
        proof {
            assert(tokens@.take(i + 1).drop_last() == before);
            assert(tokens@.take(i + 1).last() == t);
            assert(depth(tokens@.take(i + 1)) >= 0);
            crate::symbol::lemma_depth_bounds(tokens@.take(i + 1));
            crate::symbol::lemma_depth_bounds(before);
        }
        let level: usize = if t == BfSymbol::CloseBracket {
            open_loops
        } else {
            open_loops + 1
        };
        let mut k: usize = 0;
        let ghost start = out@;
        while k < level
            invariant
                k <= level,
                out@ == start + indent(k as nat),
            decreases level - k,
        {
            out.append("    ");
            k = k + 1;
        }
        out.append(line_text(t));
        out.append("\n");
        if t == BfSymbol::OpenBracket {
            open_loops = open_loops + 1;
        } else if t == BfSymbol::CloseBracket {
            open_loops = open_loops - 1;
        }
        i = i + 1;
    }
    proof {
        assert(tokens@.take(tokens@.len() as int) == tokens@);
    }
    out
}

/// Wraps emitted lines in the tape prologue and the closing epilogue.
pub fn wrap_boilerplate(code: String) -> (r: String)
    ensures
        r@ == PROLOGUE@ + code@ + EPILOGUE@,
{
    let mut out = String::new();
    out.append(PROLOGUE);
    out.append(code.as_str());
    out.append(EPILOGUE);
    proof {
        assert(Seq::<char>::empty() + PROLOGUE@ == PROLOGUE@);
    }
    out
}

/// The complete C program for an instruction sequence.
pub fn emit(tokens: &Vec<BfSymbol>) -> (r: String)
    requires
        never_underflows(tokens@),
    ensures
        r@ == PROLOGUE@ + emitted(tokens@) + EPILOGUE@,
{
    wrap_boilerplate(emit_without_boilerplate(tokens))
}

/// The instructions of a source text, without checking bracket balance.
pub fn parse_without_verification(buf: &str) -> (r: Vec<BfSymbol>)
    ensures
        r@ == symbols_of(buf@),
{
    match parse(buf, false) {
        Ok(v) => v,
        Err(_) => Vec::new(),
    }
}

/// Translates source text to a C program; fails with the tokenizer's message
/// when brackets do not balance.
pub fn bf2cify(input: String) -> (r: Result<String, String>)
    ensures
        balanced(symbols_of(input@)) <==> r is Ok,
        r matches Ok(c) ==> c@ == PROLOGUE@ + emitted(symbols_of(input@)) + EPILOGUE@,
        r matches Err(e) ==> e@ == (if never_underflows(symbols_of(input@)) {
            crate::symbol::NOT_WELL_FORMED@
        } else {
            crate::symbol::MISSING_OPEN@
        }),
{
    match parse(input.as_str(), true) {
        Ok(parsed) => Ok(emit(&parsed)),
        Err(e) => Err(e.to_owned()),
    }
}

/// Whether no prefix of the sequence closes more loops than it opened.
pub fn closes_never_exceed_opens(tokens: &Vec<BfSymbol>) -> (r: bool)
    ensures
        r == never_underflows(tokens@),
{
    let mut open_loops: usize = 0;
    let mut i: usize = 0;
    proof {
        assert(tokens@.take(0) == Seq::<BfSymbol>::empty());
    }
    while i < tokens.len()
        invariant
            0 <= i <= tokens.len(),
            open_loops == depth(tokens@.take(i as int)),
            forall|j: int| 0 <= j <= i ==> #[trigger] depth(tokens@.take(j)) >= 0,
        decreases tokens.len() - i,
    {
        proof {
            assert(tokens@.take(i + 1).drop_last() == tokens@.take(i as int));
            crate::symbol::lemma_depth_bounds(tokens@.take(i as int));
        }
        if tokens[i] == BfSymbol::OpenBracket {
            open_loops = open_loops + 1;
        } else if tokens[i] == BfSymbol::CloseBracket {
            if open_loops == 0 {
                proof {
                    assert(depth(tokens@.take(i + 1)) < 0);
                }
                return false;
            }
            open_loops = open_loops - 1;
        }
        i = i + 1;
    }
    proof {
        assert(tokens@.take(tokens@.len() as int) == tokens@);
        assert forall|j: int| 0 <= j <= tokens@.len() implies #[trigger] depth(tokens@.take(j)) >= 0 by {
            assert(tokens@.take(j) == tokens@.take(tokens@.len() as int).take(j));
        }
    }
    true
}

/// Translates source text to a C program without checking that every loop
/// is closed. A close with no open loop still fails, with the tokenizer's
/// message for it, since the emitted nesting would have no level to close.
pub fn bf2cify_without_verification(input: String) -> (r: Result<String, String>)
    ensures
        never_underflows(symbols_of(input@)) <==> r is Ok,
        r matches Ok(c) ==> c@ == PROLOGUE@ + emitted(symbols_of(input@)) + EPILOGUE@,
        r matches Err(e) ==> e@ == crate::symbol::MISSING_OPEN@,
{
    let tokens = parse_without_verification(input.as_str());
    if closes_never_exceed_opens(&tokens) {
        Ok(emit(&tokens))
    } else {
        Err(crate::symbol::MISSING_OPEN.to_owned())
    }
}

} // verus!
