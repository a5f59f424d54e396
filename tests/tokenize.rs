use bf2c::emit::{
    bf2cify, bf2cify_without_verification, emit, emit_without_boilerplate,
    parse_without_verification,
};
use bf2c::symbol::{parse, BfSymbol, MISSING_OPEN, NOT_WELL_FORMED};

#[test]
fn parse_empty() {
    assert!(parse_without_verification("").is_empty());
}

#[test]
fn parse_only_bf() {
    let tokens = parse_without_verification("<>+-.,[]");
    assert_eq!(tokens.len(), 8);
    assert_eq!(tokens[0], BfSymbol::Left);
    assert_eq!(tokens[1], BfSymbol::Right);
    assert_eq!(tokens[2], BfSymbol::Plus);
    assert_eq!(tokens[3], BfSymbol::Minus);
    assert_eq!(tokens[4], BfSymbol::Period);
    assert_eq!(tokens[5], BfSymbol::Comma);
    assert_eq!(tokens[6], BfSymbol::OpenBracket);
    assert_eq!(tokens[7], BfSymbol::CloseBracket);
}

#[test]
fn parse_non_bf() {
    let tokens = parse_without_verification("abcdefg[]");
    assert_eq!(tokens.len(), 2);
    assert_eq!(tokens[0], BfSymbol::OpenBracket);
    assert_eq!(tokens[1], BfSymbol::CloseBracket);
}

#[test]
fn parse_missing_open_bracket() {
    let tokens = parse("]", true);
    assert!(tokens.is_err())
}

#[test]
fn parse_missing_close_bracket() {
    let tokens = parse("[", true);
    assert!(tokens.is_err())
}

#[test]
fn emit_empty_program() {
    let tokens: Vec<BfSymbol> = vec![];
    let expected = "#include <stdio.h>\nint main() {\n   char tape[200000];\n   for (int i = 0; i < 200000; i++) tape[i] = 0;\n   char *ptr = tape;\n   return 0;\n}\n";
    assert_eq!(emit(&tokens), expected);
}

#[test]
fn emit_nested_while_loops_indentation() {
    // BF: [ [ + ] - ]
    let tokens: Vec<BfSymbol> = vec![
        BfSymbol::OpenBracket,
        BfSymbol::OpenBracket,
        BfSymbol::Plus,
        BfSymbol::CloseBracket,
        BfSymbol::Minus,
        BfSymbol::CloseBracket,
    ];

    let expected =
"    while (*ptr) {
        while (*ptr) {
            (*ptr)++;
        }
        (*ptr)--;
    }
";
    assert_eq!(emit_without_boilerplate(&tokens), expected);
}

#[test]
fn parse_error_messages() {
    assert_eq!(parse("+]", true), Err(MISSING_OPEN));
    assert_eq!(parse("[[]", true), Err(NOT_WELL_FORMED));
    assert_eq!(parse("][", true), Err(MISSING_OPEN));
    assert_eq!(parse("][", false).map(|v| v.len()), Ok(2));
}

#[test]
fn parse_balanced_with_comments() {
    let tokens = parse("a[b>c]d\n", true).unwrap();
    assert_eq!(
        tokens,
        vec![BfSymbol::OpenBracket, BfSymbol::Right, BfSymbol::CloseBracket]
    );
}

#[test]
fn emit_each_instruction() {
    let tokens = parse_without_verification("<>+-.,[]");
    let expected = "    ptr--;\n    ptr++;\n    (*ptr)++;\n    (*ptr)--;\n    putchar(*ptr);\n    *ptr = getchar();\n    while (*ptr) {\n    }\n";
    assert_eq!(emit_without_boilerplate(&tokens), expected);
}

#[test]
fn bf2cify_whole_program() {
    let out = bf2cify(String::from("+[-].")).unwrap();
    let expected = "#include <stdio.h>\nint main() {\n   char tape[200000];\n   for (int i = 0; i < 200000; i++) tape[i] = 0;\n   char *ptr = tape;\n    (*ptr)++;\n    while (*ptr) {\n        (*ptr)--;\n    }\n    putchar(*ptr);\n   return 0;\n}\n";
    assert_eq!(out, expected);
}

#[test]
fn bf2cify_reports_unbalanced() {
    assert_eq!(bf2cify(String::from("]")), Err(String::from(MISSING_OPEN)));
    assert_eq!(bf2cify(String::from("[+")), Err(String::from(NOT_WELL_FORMED)));
}

#[test]
fn unchecked_translation_allows_unclosed_loops() {
    let out = bf2cify_without_verification(String::from("[")).unwrap();
    assert!(out.contains("    while (*ptr) {\n   return 0;"));
    assert_eq!(
        bf2cify_without_verification(String::from("+]")),
        Err(String::from(MISSING_OPEN))
    );
}
