use rustbf::ast::{BFCommand, BFProgram};
use rustbf::parse::ParseError;

#[test]
fn parse_empty_source() {
    let p = BFProgram::parse("").unwrap();
    assert_eq!(p.blocks.len(), 1);
    assert_eq!(p.blocks[0].len(), 0);
}

#[test]
fn parse_simple_instructions() {
    let p = BFProgram::parse("+-><.,").unwrap();
    assert_eq!(p.blocks.len(), 1);
    let root = &p.blocks[0];
    assert_eq!(root.len(), 6);
    assert!(matches!(root[0], BFCommand::Inc));
    assert!(matches!(root[1], BFCommand::Dec));
    assert!(matches!(root[2], BFCommand::IncDataPtr));
    assert!(matches!(root[3], BFCommand::DecDataPtr));
    assert!(matches!(root[4], BFCommand::Write));
    assert!(matches!(root[5], BFCommand::Read));
}

#[test]
fn parse_ignores_comments() {
    let p = BFProgram::parse("hello + world - !").unwrap();
    assert_eq!(p.blocks[0].len(), 2);
}

#[test]
fn parse_nested_loops() {
    // root is the last block; loops name earlier blocks
    let p = BFProgram::parse("+[>[-]<]").unwrap();
    assert_eq!(p.blocks.len(), 3);
    let root = &p.blocks[2];
    assert_eq!(root.len(), 2);
    assert!(matches!(root[0], BFCommand::Inc));
    let outer = match root[1] {
        BFCommand::Loop(k) => k,
        _ => panic!("expected a loop"),
    };
    let inner = match p.blocks[outer][1] {
        BFCommand::Loop(k) => k,
        _ => panic!("expected a nested loop"),
    };
    assert_eq!(p.blocks[outer].len(), 3);
    assert_eq!(p.blocks[inner].len(), 1);
    assert!(matches!(p.blocks[inner][0], BFCommand::Dec));
}

#[test]
fn parse_counts_noncomment_characters() {
    // every non-comment character is reflected in the tree: each simple
    // instruction is one node, each bracket pair one loop
    let p = BFProgram::parse("ab+[c-]d>").unwrap();
    let total: usize = p.blocks.iter().map(|b| b.len()).sum();
    // nodes: +, -, >, and one Loop for the bracket pair
    assert_eq!(total, 4);
}

#[test]
fn unmatched_open_bracket_rejected() {
    assert!(matches!(BFProgram::parse("[+"), Err(ParseError::UnmatchedOpenBracket)));
    assert!(matches!(BFProgram::parse("[[]"), Err(ParseError::UnmatchedOpenBracket)));
}

#[test]
fn unmatched_close_bracket_rejected() {
    assert!(matches!(BFProgram::parse("+]"), Err(ParseError::UnmatchedCloseBracket)));
    assert!(matches!(BFProgram::parse("[]]"), Err(ParseError::UnmatchedCloseBracket)));
}
