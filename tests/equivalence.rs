use std::collections::HashMap;

use bf2c::emit::parse_without_verification;
use bf2c::localop::{optimise_local, Prog, Stmt};
use bf2c::symbol::BfSymbol;

struct Machine {
    tape: HashMap<i64, u8>,
    ptr: i64,
    input: Vec<u8>,
    next_input: usize,
    output: Vec<u8>,
}

impl Machine {
    fn new(input: &[u8]) -> Machine {
        Machine {
            tape: HashMap::new(),
            ptr: 0,
            input: input.to_vec(),
            next_input: 0,
            output: Vec::new(),
        }
    }

    fn cell(&self, at: i64) -> u8 {
        *self.tape.get(&at).unwrap_or(&0)
    }

    fn add(&mut self, at: i64, delta: i64) {
        let v = (self.cell(at) as i64 + delta).rem_euclid(256) as u8;
        self.tape.insert(at, v);
    }

    fn read(&mut self) {
        let v = if self.next_input < self.input.len() {
            self.input[self.next_input]
        } else {
            0
        };
        self.next_input += 1;
        self.tape.insert(self.ptr, v);
    }
}

fn run_symbols(prog: &[BfSymbol], input: &[u8]) -> Vec<u8> {
    let mut jump = vec![0usize; prog.len()];
    let mut open = Vec::new();
    for (i, s) in prog.iter().enumerate() {
        match s {
            BfSymbol::OpenBracket => open.push(i),
            BfSymbol::CloseBracket => {
                let j = open.pop().unwrap();
                jump[i] = j;
                jump[j] = i;
            }
            _ => {}
        }
    }
    let mut m = Machine::new(input);
    let mut pc = 0usize;
    let mut steps = 0u64;
    while pc < prog.len() {
        steps += 1;
        assert!(steps < 10_000_000, "program did not stop");
        match prog[pc] {
            BfSymbol::Left => m.ptr -= 1,
            BfSymbol::Right => m.ptr += 1,
            BfSymbol::Plus => m.add(m.ptr, 1),
            BfSymbol::Minus => m.add(m.ptr, -1),
            BfSymbol::Period => {
                let v = m.cell(m.ptr);
                m.output.push(v);
            }
            BfSymbol::Comma => m.read(),
            BfSymbol::OpenBracket => {
                if m.cell(m.ptr) == 0 {
                    pc = jump[pc];
                }
            }
            BfSymbol::CloseBracket => {
                if m.cell(m.ptr) != 0 {
                    pc = jump[pc];
                }
            }
        }
        pc += 1;
    }
    m.output
}

fn run_stmts(stmts: &[Stmt], m: &mut Machine) {
    for st in stmts {
        match st {
            Stmt::Action(offset, changes) => {
                for (k, v) in changes {
                    m.add(m.ptr + *k as i64, *v as i64);
                }
                m.ptr += *offset as i64;
            }
            Stmt::Output(n) => {
                for _ in 0..*n {
                    let v = m.cell(m.ptr);
                    m.output.push(v);
                }
            }
            Stmt::Input(n) => {
                for _ in 0..*n {
                    m.read();
                }
            }
            Stmt::Loop(Prog::Vec(body)) => {
                while m.cell(m.ptr) != 0 {
                    run_stmts(body, m);
                }
            }
            Stmt::ZeroLoop => {
                m.tape.insert(m.ptr, 0);
            }
            Stmt::ScanLoop(d) => {
                while m.cell(m.ptr) != 0 {
                    m.ptr += *d as i64;
                }
            }
            Stmt::MultiplicationLoop(d, targets) => {
                while m.cell(m.ptr) != 0 {
                    m.add(m.ptr, -(*d as i64));
                    for (k, v) in targets {
                        m.add(m.ptr + *k as i64, *v as i64);
                    }
                }
            }
        }
    }
}

fn run_tree(prog: &Prog, input: &[u8]) -> Vec<u8> {
    let mut m = Machine::new(input);
    let Prog::Vec(stmts) = prog;
    run_stmts(stmts, &mut m);
    m.output
}

fn same_output(text: &str, input: &[u8]) {
    let symbols = parse_without_verification(text);
    let raw = run_symbols(&symbols, input);
    let tree = optimise_local(symbols);
    assert_eq!(run_tree(&tree, input), raw, "program {}", text);
}

#[test]
fn optimised_tree_matches_raw_on_hello_world() {
    same_output(
        "++++++++[>++++[>++>+++>+++>+<<<<-]>+>+>->>+[<]<-]>>.>---.+++++++..+++.>>.<-.<.+++.------.--------.>>+.>++.",
        b"",
    );
}

#[test]
fn optimised_tree_matches_raw_on_multiplication() {
    same_output("+++++[->+++<]>.", b"");
    same_output("+++++[--->+<]>.", b"");
    same_output("++[->+>+<-<]>.>.", b"");
    same_output("++++[-->+<]>.", b"");
}

#[test]
fn optimised_tree_matches_raw_on_scan() {
    same_output("+>+>+>+<<<[>]<.>>>>+[<]>.", b"");
}

#[test]
fn optimised_tree_matches_raw_on_interleaved_io() {
    same_output(",.,.+.-.,[.-]", b"ab\x03");
    same_output(",[.,]", b"hello");
}

#[test]
fn optimised_tree_matches_raw_on_nested_loops() {
    same_output("+++[>++[>+++<-]<-]>>.", b"");
    same_output("++[>++[-]<-]>.+-.", b"");
}
