use dougterpreter::values::tape::ROData;
use dougterpreter::parsing::lexer::{KeyWord, Lexer, LexerError, ParenThesis, Token};
use dougterpreter::parsing::literals::{is_float_text, parse_literal};
use dougterpreter::parsing::text::split_whitespace;
use dougterpreter::parsing::words::merge_words;
use dougterpreter::values::Operator;
use dougterpreter::values::literal::Literal;

fn chars(s: &str) -> Vec<char> {
    s.chars().collect()
}

fn words(ws: &[&str]) -> Vec<Vec<char>> {
    ws.iter().map(|w| chars(w)).collect()
}

fn strings(ws: Vec<Vec<char>>) -> Vec<String> {
    ws.into_iter().map(|w| w.into_iter().collect()).collect()
}

fn line(text: &str) -> Result<Vec<Token>, LexerError> {
    Lexer::new(text.as_bytes().to_vec(), ROData::empty()).lex_line()
}

#[test]
fn lexes_a_doug_assignment() {
    let ts = line("Doug set 5\n").unwrap();
    assert_eq!(ts.len(), 3);
    assert!(matches!(ts[0], Token::KeyWord(KeyWord::DougChain(1))));
    assert!(matches!(ts[1], Token::KeyWord(KeyWord::SetValue)));
    assert!(matches!(&ts[2], Token::Literal(Literal::Number(n)) if n == "5"));
}

#[test]
fn counts_a_chain_of_dougs() {
    let ts = line("DougDougDoug").unwrap();
    assert_eq!(ts.len(), 1);
    assert!(matches!(ts[0], Token::KeyWord(KeyWord::DougChain(3))));
}

#[test]
fn merges_a_quoted_text_into_one_literal() {
    let ts = line("tts \"hello world\"\n").unwrap();
    assert_eq!(ts.len(), 2);
    assert!(matches!(ts[0], Token::KeyWord(KeyWord::Tts)));
    assert!(matches!(&ts[1], Token::Literal(Literal::String(s)) if s == "hello world"));
}

#[test]
fn lexes_a_declaration() {
    let ts = line("<< x DougDoug >>").unwrap();
    assert_eq!(ts.len(), 4);
    assert!(matches!(ts[0], Token::Paren(ParenThesis::AngleLeft)));
    assert!(matches!(&ts[1], Token::Variable(v) if v == "x"));
    assert!(matches!(ts[2], Token::KeyWord(KeyWord::DougChain(2))));
    assert!(matches!(ts[3], Token::Paren(ParenThesis::AngleRight)));
}

#[test]
fn rejects_what_follows_a_keyword_in_a_word() {
    match line("Dougxyz") {
        Err(LexerError::InvalidToken(t)) => assert_eq!(t, "xyz"),
        other => panic!("unexpected {other:?}"),
    }
}

#[test]
fn splits_a_word_into_its_tokens() {
    let ts = line("tts+").unwrap();
    assert_eq!(ts.len(), 2);
    assert!(matches!(ts[0], Token::KeyWord(KeyWord::Tts)));
    assert!(matches!(ts[1], Token::Operator(Operator::Plus)));
}

#[test]
fn skips_empty_lines() {
    let mut l = Lexer::new(b"\n   \nbreak\n".to_vec(), ROData::empty());
    let ts = l.lex_line().unwrap();
    assert_eq!(ts.len(), 1);
    assert!(matches!(ts[0], Token::KeyWord(KeyWord::Break)));
    assert!(matches!(l.lex_line(), Err(LexerError::EOFReached)));
}

#[test]
fn reports_the_end_of_the_source() {
    assert!(matches!(line(""), Err(LexerError::EOFReached)));
}

#[test]
fn lexes_operators() {
    let ts = line("== <= >= < > - * /").unwrap();
    let ops: Vec<Operator> = ts
        .iter()
        .map(|t| match t {
            Token::Operator(o) => *o,
            other => panic!("unexpected {other:?}"),
        })
        .collect();
    assert_eq!(
        ops,
        vec![
            Operator::Equals,
            Operator::LessEquals,
            Operator::GreaterEquals,
            Operator::Less,
            Operator::Greater,
            Operator::Minus,
            Operator::Multiply,
            Operator::Divide,
        ]
    );
}

#[test]
fn reads_a_block_up_to_its_bracket() {
    let mut l = Lexer::new(b"a b ] tts".to_vec(), ROData::empty());
    let ts = l.lex_block().unwrap();
    assert_eq!(ts.len(), 3);
    assert!(matches!(&ts[0], Token::Variable(v) if v == "a"));
    assert!(matches!(&ts[1], Token::Variable(v) if v == "b"));
    assert!(matches!(ts[2], Token::Paren(ParenThesis::SquareRight)));
    let rest = l.lex_line().unwrap();
    assert!(matches!(rest[0], Token::KeyWord(KeyWord::Tts)));
}

#[test]
fn a_binary_block_is_refused() {
    let mut l = Lexer::new(vec![0xff, 0xfe, b']'], ROData::empty());
    assert!(matches!(l.lex_block(), Err(LexerError::BinaryFile)));
}

#[test]
fn a_word_outside_ascii_cannot_be_read() {
    match line("tts caf\u{e9}") {
        Err(LexerError::NotAscii(w)) => assert_eq!(w, "caf\u{e9}"),
        other => panic!("unexpected {other:?}"),
    }
    assert!(line("Doug set 5").is_ok());
}

#[test]
fn a_single_unmatched_last_character_is_an_error() {
    match line("Dougx") {
        Err(LexerError::InvalidToken(t)) => assert_eq!(t, "x"),
        other => panic!("unexpected {other:?}"),
    }
}

#[test]
fn a_block_without_its_bracket_is_refused() {
    let mut l = Lexer::new(b"a b tts".to_vec(), ROData::empty());
    assert!(matches!(l.lex_block(), Err(LexerError::NoClosingBracket)));
    let mut e = Lexer::new(Vec::new(), ROData::empty());
    assert!(matches!(e.lex_block(), Err(LexerError::EOFReached)));
}

#[test]
fn a_block_stops_at_its_first_bracket() {
    let mut l = Lexer::new(b"loop [ break ] Doug".to_vec(), ROData::empty());
    let ts = l.lex_block().unwrap();
    assert_eq!(ts.len(), 4);
    assert!(matches!(ts[0], Token::KeyWord(KeyWord::Loop)));
    assert!(matches!(ts[1], Token::Paren(ParenThesis::SquareLeft)));
    assert!(matches!(ts[2], Token::KeyWord(KeyWord::Break)));
    assert!(matches!(ts[3], Token::Paren(ParenThesis::SquareRight)));
}

#[test]
fn merges_quoted_words() {
    let r = merge_words(&words(&["tts", "\"hello", "big", "world\""]));
    assert_eq!(strings(r), vec!["tts", "\"hello big world\""]);
}

#[test]
fn splits_brackets_and_double_symbols() {
    let r = merge_words(&words(&["(DougDoug)", "x<<y", "a<=b", "c<d"]));
    assert_eq!(
        strings(r),
        vec!["(", "DougDoug", ")", "x", "<<", "y", "a", "<=", "b", "c<d"]
    );
}

#[test]
fn splits_on_unicode_whitespace() {
    let r = split_whitespace(&chars(" a\tb\u{2003}c  "));
    assert_eq!(strings(r), vec!["a", "b", "c"]);
}

#[test]
fn float_texts_are_those_rust_parses() {
    for t in [
        "1", "1.5", "1.", ".5", ".", "1e5", "1E-3", "+2", "-2", "inf", "-Infinity", "NaN", "nan",
        "1e", "e5", "abc", "1.2.3", "", "0x10", "1_000", "in", "infinit", "--1", "+.5e+2",
    ] {
        assert_eq!(is_float_text(&chars(t)), t.parse::<f64>().is_ok(), "text {t:?}");
    }
}

#[test]
fn reads_literals_from_words() {
    assert!(matches!(parse_literal(&chars("12.5abc")), Some(Literal::Number(n)) if n == "12.5"));
    assert!(matches!(parse_literal(&chars("1.2.3")), Some(Literal::String(s)) if s == "1.2.3"));
    assert!(matches!(parse_literal(&chars("\"hi\" there")), Some(Literal::String(s)) if s == "hi"));
    assert!(parse_literal(&chars("\"open")).is_none());
    assert!(parse_literal(&chars("name")).is_none());
}

#[test]
fn a_number_literal_takes_every_numeric_character() {
    assert!(matches!(parse_literal(&chars("1\u{663}")), Some(Literal::String(s)) if s == "1\u{663}"));
    assert!(matches!(parse_literal(&chars("\u{663}x")), Some(Literal::String(s)) if s == "\u{663}"));
    assert!(matches!(parse_literal(&chars("12kg")), Some(Literal::Number(n)) if n == "12"));
}

#[test]
fn merging_quote_free_words_keeps_their_characters_and_is_stable() {
    let ws = words(&["a<<b", "(x)", "y>=", "z"]);
    let once = merge_words(&ws);
    assert_eq!(strings(once.clone()), vec!["a", "<<", "b", "(", "x", ")", "y", ">=", "z"]);
    let flat: String = strings(once.clone()).concat();
    assert_eq!(flat, "a<<b(x)y>=z");
    assert_eq!(merge_words(&once), once);
    let mut both = words(&["a<<b", "(x)"]);
    let mut tail = merge_words(&words(&["y>=", "z"]));
    let mut left = merge_words(&both);
    left.append(&mut tail);
    both.extend(words(&["y>=", "z"]));
    assert_eq!(merge_words(&both), left);
}

#[test]
fn merging_quote_free_words_before_any_others_keeps_them_apart() {
    let a = words(&["tts", "x<=1"]);
    let b = words(&["\"a", "b\"", "c"]);
    let mut ab = a.clone();
    ab.extend(b.iter().cloned());
    let mut expected = merge_words(&a);
    expected.extend(merge_words(&b));
    assert_eq!(merge_words(&ab), expected);
    assert_eq!(strings(merge_words(&b)), vec!["\"a b\"", "c"]);
}

fn next_text_address(data: &mut ROData) -> usize {
    let cell = data.allocate_text("x".to_string()).unwrap();
    match cell.get_ptr().read() {
        dougterpreter::values::tape::pointers::Tag::Object(a) => a,
        _ => panic!("a text is an object"),
    }
}

#[test]
fn a_text_literal_is_kept_in_the_read_only_data() {
    let fresh = next_text_address(&mut ROData::empty());
    let mut l = Lexer::new(b"tts \"hi\"\n".to_vec(), ROData::empty());
    let ts = l.lex_line().unwrap();
    assert!(matches!(&ts[1], Token::Literal(Literal::String(s)) if s == "hi"));
    let mut data = l.into_data();
    assert_ne!(next_text_address(&mut data), fresh);
}

#[test]
fn a_number_literal_is_not_kept_in_the_read_only_data() {
    let fresh = next_text_address(&mut ROData::empty());
    let mut l = Lexer::new(b"tts 12\n".to_vec(), ROData::empty());
    let ts = l.lex_line().unwrap();
    assert!(matches!(&ts[1], Token::Literal(Literal::Number(n)) if n == "12"));
    let mut data = l.into_data();
    assert_eq!(next_text_address(&mut data), fresh);
}
