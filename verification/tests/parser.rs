use dougterpreter::values::tape::ROData;
use dougterpreter::parsing::Parser;
use dougterpreter::parsing::lexer::{LexerError, Token, KeyWord};
use dougterpreter::parsing::parser::{ASTNode, Dialect, Expression, Found, SyntaxError};
use dougterpreter::values::Operator;
use dougterpreter::values::literal::Literal;

fn parse(src: &str) -> Result<Vec<ASTNode>, SyntaxError> {
    Parser::new().run(src.as_bytes().to_vec(), ROData::empty())
}

fn counts(chains: &[dougterpreter::parsing::parser::DougChain]) -> Vec<usize> {
    chains.iter().map(|c| c.count).collect()
}

#[test]
fn parses_an_assignment_and_a_speech() {
    let nodes = parse("Doug set 5\ntts\n").unwrap();
    assert_eq!(nodes.len(), 3);
    match &nodes[0] {
        ASTNode::Doug { chains, reset } => {
            assert_eq!(counts(chains), vec![1]);
            assert!(!reset);
        }
        other => panic!("unexpected {other:?}"),
    }
    match &nodes[1] {
        ASTNode::SetValue { value: Expression::Literal(Literal::Number(n)), op: None } => assert_eq!(n, "5"),
        other => panic!("unexpected {other:?}"),
    }
    assert!(matches!(nodes[2], ASTNode::Tts { msg: None, use_index: true }));
}

#[test]
fn parses_a_move_from_index_zero() {
    let nodes = parse("( DougDoug Doug )\n").unwrap();
    assert_eq!(nodes.len(), 1);
    match &nodes[0] {
        ASTNode::Doug { chains, reset } => {
            assert_eq!(counts(chains), vec![2, 1]);
            assert!(*reset);
        }
        other => panic!("unexpected {other:?}"),
    }
}

#[test]
fn parses_bald() {
    let nodes = parse("Bald\n").unwrap();
    assert!(matches!(&nodes[0], ASTNode::Doug { chains, reset: true } if chains.is_empty()));
}

#[test]
fn parses_a_loop() {
    let nodes = parse("loop [\nbreak\n]\n").unwrap();
    assert_eq!(nodes.len(), 1);
    match &nodes[0] {
        ASTNode::Loop { body } => {
            assert_eq!(body.len(), 1);
            assert!(matches!(body[0], ASTNode::Break));
        }
        other => panic!("unexpected {other:?}"),
    }
}

#[test]
fn parses_a_prediction() {
    let nodes = parse("prediction 1 [ Believers win [ tts \"yes\" ] ]\n").unwrap();
    assert_eq!(nodes.len(), 1);
    match &nodes[0] {
        ASTNode::Prediction { believers_body, doubters_body, condition } => {
            assert!(matches!(condition, Expression::Literal(Literal::Number(n)) if n == "1"));
            assert!(doubters_body.is_empty());
            assert_eq!(believers_body.len(), 1);
            assert!(matches!(
                &believers_body[0],
                ASTNode::Tts { msg: Some(Expression::Literal(Literal::String(s))), use_index: false } if s == "yes"
            ));
        }
        other => panic!("unexpected {other:?}"),
    }
}

#[test]
fn a_doubters_branch_goes_to_the_doubters() {
    let nodes = parse("prediction 0 [ Doubters win [ break ] ]\n").unwrap();
    match &nodes[0] {
        ASTNode::Prediction { believers_body, doubters_body, .. } => {
            assert!(believers_body.is_empty());
            assert_eq!(doubters_body.len(), 1);
        }
        other => panic!("unexpected {other:?}"),
    }
}

#[test]
fn parses_an_expression_with_an_operator() {
    let nodes = parse("Doug set 1 + 2\n").unwrap();
    match &nodes[1] {
        ASTNode::SetValue { value: Expression::RSequence { left, op, right }, op: None } => {
            assert!(matches!(**left, Expression::Literal(Literal::Number(ref n)) if n == "1"));
            assert_eq!(*op, Some(Operator::Plus));
            assert!(matches!(right.as_deref(), Some(Expression::Literal(Literal::Number(n))) if n == "2"));
        }
        other => panic!("unexpected {other:?}"),
    }
}

#[test]
fn an_operator_statement_combines_with_the_cell() {
    let nodes = parse("+ set 1\n").unwrap();
    assert!(matches!(&nodes[0], ASTNode::SetValue { op: Some(Operator::Plus), .. }));
}

#[test]
fn parses_a_variable_declaration_and_use() {
    let nodes = parse("<< x Doug >>\nx set 3\ntts x\n").unwrap();
    assert_eq!(nodes.len(), 3);
    match &nodes[0] {
        ASTNode::Declare { name, ptr } => {
            assert_eq!(name, "x");
            assert_eq!(counts(ptr), vec![1]);
        }
        other => panic!("unexpected {other:?}"),
    }
    assert!(matches!(&nodes[1], ASTNode::Modify { name, op: None, .. } if name == "x"));
    assert!(matches!(&nodes[2], ASTNode::Tts { msg: Some(Expression::Variable(v)), .. } if v == "x"));
}

#[test]
fn the_standard_dialect_wants_a_comparison() {
    let mut p = Parser::with_dialect(Dialect::Standard);
    let nodes = p.run(b"tts 5\n".to_vec(), ROData::empty()).unwrap();
    assert_eq!(nodes.len(), 1);
    assert!(matches!(nodes[0], ASTNode::Tts { msg: None, use_index: true }));
}

#[test]
fn a_closing_bracket_at_the_top_is_unexpected() {
    match parse("]\n") {
        Err(SyntaxError::Unexpected(Found::Text(t), 2, 0)) => assert_eq!(t, "] in top level"),
        other => panic!("unexpected {other:?}"),
    }
}

#[test]
fn a_loop_without_its_bracket_runs_out_of_source() {
    assert!(matches!(parse("loop\n"), Err(SyntaxError::Lexer(LexerError::EOFReached, 3, 0))));
}

#[test]
fn a_loop_body_needs_its_closing_bracket() {
    match parse("loop [\nbreak\n") {
        Err(SyntaxError::Expected(want, Found::Text(got), _, _)) => {
            assert_eq!(want, "]");
            assert_eq!(got, "");
        }
        other => panic!("unexpected {other:?}"),
    }
}

#[test]
fn a_prediction_needs_a_branch_keyword() {
    match parse("prediction 1 [ win\n") {
        Err(SyntaxError::Expected(want, Found::Token(Token::KeyWord(KeyWord::Wins)), _, _)) => {
            assert_eq!(want, "Believers, Doubters")
        }
        other => panic!("unexpected {other:?}"),
    }
}

#[test]
fn an_empty_source_parses_to_nothing() {
    assert!(parse("").unwrap().is_empty());
}

#[test]
fn a_syntax_error_before_a_word_outside_ascii_is_reported() {
    let mut p = Parser::new();
    match p.run("]\n\u{e9}\n".as_bytes().to_vec(), ROData::empty()) {
        Err(SyntaxError::Unexpected(Found::Text(t), 2, 0)) => assert_eq!(t, "] in top level"),
        other => panic!("unexpected {other:?}"),
    }
    assert!(!p.halted());
}

#[test]
fn a_word_outside_ascii_that_is_reached_halts_the_parse() {
    let mut p = Parser::new();
    let _ = p.run("tts \u{e9}\n".as_bytes().to_vec(), ROData::empty());
    assert!(p.halted());
    let mut q = Parser::new();
    let _ = q.run(b"tts 5\n".to_vec(), ROData::empty());
    assert!(!q.halted());
}
