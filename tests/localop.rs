use std::collections::HashMap;

use bf2c::localop::{optimise_local, Prog, Stmt};
use bf2c::symbol::BfSymbol;

#[test]
fn loop_nesting_1_test() {
    let symbols = vec![
        BfSymbol::OpenBracket,
        BfSymbol::OpenBracket,
        BfSymbol::Comma,
        BfSymbol::CloseBracket,
        BfSymbol::Minus,
        BfSymbol::CloseBracket,
    ];
    let optimized = optimise_local(symbols);
    assert_eq!(
        optimized,
        Prog::Vec(vec![Stmt::Loop(Prog::Vec(vec![
            Stmt::Loop(Prog::Vec(vec![Stmt::Input(1)])),
            Stmt::Action(0, HashMap::from([(0, -1)])),
        ])),])
    );
}

#[test]
fn loop_nesting_2_test() {
    let symbols = vec![
        BfSymbol::Period,
        BfSymbol::OpenBracket,
        BfSymbol::Minus,
        BfSymbol::OpenBracket,
        BfSymbol::Period,
        BfSymbol::CloseBracket,
        BfSymbol::CloseBracket,
    ];
    let optimized = optimise_local(symbols);
    assert_eq!(
        optimized,
        Prog::Vec(vec![
            Stmt::Output(1),
            Stmt::Loop(Prog::Vec(vec![
                Stmt::Action(0, HashMap::from([(0, -1)])),
                Stmt::Loop(Prog::Vec(vec![Stmt::Output(1)]))
            ]))
        ])
    );
}

#[test]
fn add_test() {
    let symbols = vec![BfSymbol::Plus, BfSymbol::Plus, BfSymbol::Plus];
    let optimized = optimise_local(symbols);
    assert_eq!(
        optimized,
        Prog::Vec(vec![Stmt::Action(0, HashMap::from([(0, 3)]))])
    );
}

#[test]
fn subtract_test() {
    let symbols = vec![BfSymbol::Minus, BfSymbol::Minus, BfSymbol::Minus];
    let optimized = optimise_local(symbols);
    assert_eq!(
        optimized,
        Prog::Vec(vec![Stmt::Action(0, HashMap::from([(0, -3)]))])
    );
}

#[test]
fn add_zero_test() {
    let symbols = vec![
        BfSymbol::Plus,
        BfSymbol::Plus,
        BfSymbol::Plus,
        BfSymbol::Minus,
        BfSymbol::Minus,
    ];
    let optimized = optimise_local(symbols);
    assert_eq!(
        optimized,
        Prog::Vec(vec![Stmt::Action(0, HashMap::from([(0, 1)]))])
    );
}

#[test]
fn move_right_test() {
    let symbols = vec![BfSymbol::Right, BfSymbol::Right, BfSymbol::Right];
    let optimized = optimise_local(symbols);
    assert_eq!(optimized, Prog::Vec(vec![Stmt::Action(3, HashMap::new())]));
}

#[test]
fn move_left_test() {
    let symbols = vec![BfSymbol::Left, BfSymbol::Left, BfSymbol::Left];
    let optimized = optimise_local(symbols);
    assert_eq!(optimized, Prog::Vec(vec![Stmt::Action(-3, HashMap::new())]));
}

#[test]
fn move_cancel_test() {
    let symbols = vec![
        BfSymbol::Right,
        BfSymbol::Right,
        BfSymbol::Left,
        BfSymbol::Left,
        BfSymbol::Left,
    ];
    let optimized = optimise_local(symbols);
    assert_eq!(optimized, Prog::Vec(vec![Stmt::Action(-1, HashMap::new())]));
}

#[test]
fn input_output_test() {
    let symbols = vec![
        BfSymbol::Comma,
        BfSymbol::Comma,
        BfSymbol::Period,
        BfSymbol::Period,
    ];
    let optimized = optimise_local(symbols);
    assert_eq!(optimized, Prog::Vec(vec![Stmt::Input(2), Stmt::Output(2)]));
}

#[test]
fn no_cancel_io_test() {
    let symbols = vec![
        BfSymbol::Comma,
        BfSymbol::Period,
        BfSymbol::Comma,
        BfSymbol::Period,
    ];
    let optimized = optimise_local(symbols);
    assert_eq!(
        optimized,
        Prog::Vec(vec![
            Stmt::Input(1),
            Stmt::Output(1),
            Stmt::Input(1),
            Stmt::Output(1)
        ])
    );
}

#[test]
fn no_coalescing_add_move_test() {
    let symbols = vec![
        BfSymbol::Plus,
        BfSymbol::Plus,
        BfSymbol::Right,
        BfSymbol::Right,
        BfSymbol::Plus,
        BfSymbol::Plus,
        BfSymbol::Left,
        BfSymbol::Left,
        BfSymbol::Left,
    ];
    let optimized = optimise_local(symbols);
    assert_eq!(
        optimized,
        Prog::Vec(vec![Stmt::Action(-1, HashMap::from([(0, 2), (2, 2)])),])
    );
}

#[test]
fn no_coalescing_add_io_test() {
    let symbols = vec![
        BfSymbol::Plus,
        BfSymbol::Plus,
        BfSymbol::Comma,
        BfSymbol::Comma,
        BfSymbol::Plus,
        BfSymbol::Plus,
        BfSymbol::Period,
        BfSymbol::Period,
    ];
    let optimized = optimise_local(symbols);
    assert_eq!(
        optimized,
        Prog::Vec(vec![
            Stmt::Action(0, HashMap::from([(0, 2)])),
            Stmt::Input(2),
            Stmt::Action(0, HashMap::from([(0, 2)])),
            Stmt::Output(2)
        ])
    );
}

#[test]
fn no_coalescing_move_io_test() {
    let symbols = vec![
        BfSymbol::Right,
        BfSymbol::Right,
        BfSymbol::Comma,
        BfSymbol::Comma,
        BfSymbol::Left,
        BfSymbol::Left,
        BfSymbol::Period,
        BfSymbol::Period,
    ];
    let optimized = optimise_local(symbols);
    assert_eq!(
        optimized,
        Prog::Vec(vec![
            Stmt::Action(2, HashMap::new()),
            Stmt::Input(2),
            Stmt::Action(-2, HashMap::new()),
            Stmt::Output(2)
        ])
    );
}

#[test]
fn no_coalescing_add_loop_test() {
    let symbols = vec![
        BfSymbol::Plus,
        BfSymbol::Plus,
        BfSymbol::OpenBracket,
        BfSymbol::Plus,
        BfSymbol::Plus,
        BfSymbol::CloseBracket,
    ];
    let optimized = optimise_local(symbols);
    assert_eq!(
        optimized,
        Prog::Vec(vec![
            Stmt::Action(0, HashMap::from([(0, 2)])),
            Stmt::Loop(Prog::Vec(vec![Stmt::Action(0, HashMap::from([(0, 2)]))]))
        ])
    );
}

#[test]
fn no_coalescing_move_loop_test() {
    let symbols = vec![
        BfSymbol::Right,
        BfSymbol::Right,
        BfSymbol::OpenBracket,
        BfSymbol::Right,
        BfSymbol::Right,
        BfSymbol::CloseBracket,
    ];
    let optimized = optimise_local(symbols);
    assert_eq!(
        optimized,
        Prog::Vec(vec![
            Stmt::Action(2, HashMap::new()),
            Stmt::Loop(Prog::Vec(vec![Stmt::Action(2, HashMap::new())]))
        ])
    );
}

#[test]
fn no_coalescing_io_loop_test() {
    let symbols = vec![
        BfSymbol::Comma,
        BfSymbol::Comma,
        BfSymbol::OpenBracket,
        BfSymbol::Comma,
        BfSymbol::Comma,
        BfSymbol::CloseBracket,
    ];
    let optimized = optimise_local(symbols);
    assert_eq!(
        optimized,
        Prog::Vec(vec![
            Stmt::Input(2),
            Stmt::Loop(Prog::Vec(vec![Stmt::Input(2)]))
        ])
    );
}

#[test]
fn scan_loop_test() {
    let symbols = vec![
        BfSymbol::Right,
        BfSymbol::OpenBracket,
        BfSymbol::Right,
        BfSymbol::CloseBracket,
    ];
    let optimized = optimise_local(symbols);
    assert_eq!(
        optimized,
        Prog::Vec(vec![Stmt::Action(1, HashMap::new()), Stmt::ScanLoop(1)])
    );
}

#[test]
fn scan_loop_negative_test() {
    let symbols = vec![
        BfSymbol::Left,
        BfSymbol::OpenBracket,
        BfSymbol::Left,
        BfSymbol::CloseBracket,
    ];
    let optimized = optimise_local(symbols);
    assert_eq!(
        optimized,
        Prog::Vec(vec![Stmt::Action(-1, HashMap::new()), Stmt::ScanLoop(-1)])
    );
}

#[test]
fn not_scan_loop_test() {
    let symbols = vec![
        BfSymbol::Right,
        BfSymbol::OpenBracket,
        BfSymbol::Right,
        BfSymbol::Right,
        BfSymbol::CloseBracket,
    ];
    let optimized = optimise_local(symbols);
    assert_eq!(
        optimized,
        Prog::Vec(vec![
            Stmt::Action(1, HashMap::new()),
            Stmt::Loop(Prog::Vec(vec![Stmt::Action(2, HashMap::new())]))
        ])
    );
}

#[test]
fn subtle_true_scan_loop_test() {
    let symbols = vec![
        BfSymbol::Right,
        BfSymbol::OpenBracket,
        BfSymbol::Right,
        BfSymbol::Left,
        BfSymbol::Left,
        BfSymbol::CloseBracket,
    ];
    let optimized = optimise_local(symbols);
    assert_eq!(
        optimized,
        Prog::Vec(vec![Stmt::Action(1, HashMap::new()), Stmt::ScanLoop(-1)])
    );
}

#[test]
fn ignore_cancelled_operations_in_scan_loop_test() {
    let symbols = vec![
        BfSymbol::Right,
        BfSymbol::OpenBracket,
        BfSymbol::Right,
        BfSymbol::Plus,
        BfSymbol::Minus,
        BfSymbol::CloseBracket,
    ];
    let optimized = optimise_local(symbols);
    assert_eq!(
        optimized,
        Prog::Vec(vec![Stmt::Action(1, HashMap::new()), Stmt::ScanLoop(1)])
    );
}

#[test]
fn simple_multiplication_loop_test() {
    // [->+<]
    let symbols = vec![
        BfSymbol::OpenBracket,
        BfSymbol::Minus,
        BfSymbol::Right,
        BfSymbol::Plus,
        BfSymbol::Left,
        BfSymbol::CloseBracket,
    ];
    let optimized = optimise_local(symbols);
    assert_eq!(
        optimized,
        Prog::Vec(vec![Stmt::MultiplicationLoop(1, HashMap::from([(1, 1)]))])
    );
}

#[test]
fn multiplication_loop_with_larger_offset_test() {
    // [->>++<<]
    let symbols = vec![
        BfSymbol::OpenBracket,
        BfSymbol::Minus,
        BfSymbol::Right,
        BfSymbol::Right,
        BfSymbol::Plus,
        BfSymbol::Plus,
        BfSymbol::Left,
        BfSymbol::Left,
        BfSymbol::CloseBracket,
    ];
    let optimized = optimise_local(symbols);
    assert_eq!(
        optimized,
        Prog::Vec(vec![Stmt::MultiplicationLoop(1, HashMap::from([(2, 2)]))])
    );
}

#[test]
fn multiplication_loop_multiple_targets_test() {
    // [-<+>>+++<]
    let symbols = vec![
        BfSymbol::OpenBracket,
        BfSymbol::Minus,
        BfSymbol::Left,
        BfSymbol::Plus,
        BfSymbol::Right,
        BfSymbol::Right,
        BfSymbol::Plus,
        BfSymbol::Plus,
        BfSymbol::Plus,
        BfSymbol::Left,
        BfSymbol::CloseBracket,
    ];
    let optimized = optimise_local(symbols);
    assert_eq!(
        optimized,
        Prog::Vec(vec![Stmt::MultiplicationLoop(
            1,
            HashMap::from([(-1, 1), (1, 3)])
        )])
    );
}

#[test]
fn multiplication_loop_odd_decrement_test() {
    // [--->>++>>>+++++<<<<<]
    let symbols = vec![
        BfSymbol::OpenBracket,
        BfSymbol::Minus,
        BfSymbol::Minus,
        BfSymbol::Minus,
        BfSymbol::Right,
        BfSymbol::Right,
        BfSymbol::Plus,
        BfSymbol::Plus,
        BfSymbol::Right,
        BfSymbol::Right,
        BfSymbol::Right,
        BfSymbol::Plus,
        BfSymbol::Plus,
        BfSymbol::Plus,
        BfSymbol::Plus,
        BfSymbol::Plus,
        BfSymbol::Left,
        BfSymbol::Left,
        BfSymbol::Left,
        BfSymbol::Left,
        BfSymbol::Left,
        BfSymbol::CloseBracket,
    ];
    let optimized = optimise_local(symbols);
    assert_eq!(
        optimized,
        Prog::Vec(vec![Stmt::MultiplicationLoop(
            3,
            HashMap::from([(2, 2), (5, 5)])
        )])
    );
}

#[test]
fn not_multiplication_loop_even_decrement_test() {
    // [-->>+<<]
    let symbols = vec![
        BfSymbol::OpenBracket,
        BfSymbol::Minus,
        BfSymbol::Minus,
        BfSymbol::Right,
        BfSymbol::Right,
        BfSymbol::Plus,
        BfSymbol::Left,
        BfSymbol::Left,
        BfSymbol::CloseBracket,
    ];
    let optimized = optimise_local(symbols);
    assert_eq!(
        optimized,
        Prog::Vec(vec![Stmt::Loop(Prog::Vec(vec![Stmt::Action(
            0,
            HashMap::from([(0, -2), (2, 1)])
        ),]))])
    );
}

#[test]
fn not_multiplication_loop_even_decrement_large_test() {
    // [---->>+<<]
    let symbols = vec![
        BfSymbol::OpenBracket,
        BfSymbol::Minus,
        BfSymbol::Minus,
        BfSymbol::Minus,
        BfSymbol::Minus,
        BfSymbol::Right,
        BfSymbol::Right,
        BfSymbol::Plus,
        BfSymbol::Left,
        BfSymbol::Left,
        BfSymbol::CloseBracket,
    ];
    let optimized = optimise_local(symbols);
    assert_eq!(
        optimized,
        Prog::Vec(vec![Stmt::Loop(Prog::Vec(vec![Stmt::Action(
            0,
            HashMap::from([(0, -4), (2, 1)])
        ),]))])
    );
}

#[test]
fn declutter_multiplication_loop_test() {
    // [->+>+<-<]
    let symbols = vec![
        BfSymbol::OpenBracket,
        BfSymbol::Minus,
        BfSymbol::Right,
        BfSymbol::Plus,
        BfSymbol::Right,
        BfSymbol::Plus,
        BfSymbol::Left,
        BfSymbol::Minus,
        BfSymbol::Left,
        BfSymbol::CloseBracket,
    ];
    let optimized = optimise_local(symbols);
    assert_eq!(
        optimized,
        Prog::Vec(vec![Stmt::MultiplicationLoop(1, HashMap::from([(2, 1)]))])
    );
}

fn symbols(text: &str) -> Vec<BfSymbol> {
    bf2c::emit::parse_without_verification(text)
}

#[test]
fn declutter_scenario_after_setup() {
    let optimized = optimise_local(symbols("++[->+>+<-<]"));
    assert_eq!(
        optimized,
        Prog::Vec(vec![
            Stmt::Action(0, HashMap::from([(0, 2)])),
            Stmt::MultiplicationLoop(1, HashMap::from([(2, 1)])),
        ])
    );
}

#[test]
fn zero_net_run_emits_nothing() {
    assert_eq!(optimise_local(symbols("++--")), Prog::Vec(vec![]));
    assert_eq!(optimise_local(symbols("><+-")), Prog::Vec(vec![]));
    assert_eq!(
        optimise_local(symbols("+++--")),
        Prog::Vec(vec![Stmt::Action(0, HashMap::from([(0, 1)]))])
    );
}

#[test]
fn decrement_at_fresh_offset_is_recorded() {
    assert_eq!(
        optimise_local(symbols(">-")),
        Prog::Vec(vec![Stmt::Action(1, HashMap::from([(1, -1)]))])
    );
}

#[test]
fn interleaved_moves_and_changes() {
    assert_eq!(
        optimise_local(symbols("+>+<")),
        Prog::Vec(vec![Stmt::Action(0, HashMap::from([(0, 1), (1, 1)]))])
    );
}

#[test]
fn io_runs_stay_apart() {
    assert_eq!(
        optimise_local(symbols(".,.,")),
        Prog::Vec(vec![
            Stmt::Output(1),
            Stmt::Input(1),
            Stmt::Output(1),
            Stmt::Input(1)
        ])
    );
    assert_eq!(
        optimise_local(symbols(".+.")),
        Prog::Vec(vec![
            Stmt::Output(1),
            Stmt::Action(0, HashMap::from([(0, 1)])),
            Stmt::Output(1)
        ])
    );
    assert_eq!(
        optimise_local(symbols(".[.].")),
        Prog::Vec(vec![
            Stmt::Output(1),
            Stmt::Loop(Prog::Vec(vec![Stmt::Output(1)])),
            Stmt::Output(1)
        ])
    );
}

#[test]
fn zeroing_loop_is_multiplication_without_targets() {
    assert_eq!(
        optimise_local(symbols("[-]")),
        Prog::Vec(vec![Stmt::MultiplicationLoop(1, HashMap::new())])
    );
}

#[test]
fn positive_origin_delta_stays_generic() {
    assert_eq!(
        optimise_local(symbols("[+>+<]")),
        Prog::Vec(vec![Stmt::Loop(Prog::Vec(vec![Stmt::Action(
            0,
            HashMap::from([(0, 1), (1, 1)])
        )]))])
    );
}

#[test]
fn large_odd_decrement_wraps() {
    let text = format!("[{}>+<]", "-".repeat(257));
    assert_eq!(
        optimise_local(symbols(&text)),
        Prog::Vec(vec![Stmt::MultiplicationLoop(1, HashMap::from([(1, 1)]))])
    );
}

#[test]
fn scan_loop_with_value_change_stays_generic() {
    assert_eq!(
        optimise_local(symbols("[>+]")),
        Prog::Vec(vec![Stmt::Loop(Prog::Vec(vec![Stmt::Action(
            1,
            HashMap::from([(1, 1)])
        )]))])
    );
}

#[test]
fn io_in_body_keeps_loop_generic() {
    assert_eq!(
        optimise_local(symbols("[->+<.]")),
        Prog::Vec(vec![Stmt::Loop(Prog::Vec(vec![
            Stmt::Action(0, HashMap::from([(0, -1), (1, 1)])),
            Stmt::Output(1)
        ]))])
    );
}

#[test]
fn unmatched_close_is_dropped() {
    assert_eq!(
        optimise_local(symbols("+]+")),
        Prog::Vec(vec![Stmt::Action(0, HashMap::from([(0, 2)]))])
    );
}

#[test]
fn unclosed_loop_loses_its_statements() {
    assert_eq!(
        optimise_local(symbols("+[.")),
        Prog::Vec(vec![Stmt::Action(0, HashMap::from([(0, 1)]))])
    );
    assert_eq!(
        optimise_local(symbols(".[-[>")),
        Prog::Vec(vec![Stmt::Output(1)])
    );
}
