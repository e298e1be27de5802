//! The lexer: classification, prefixes, comments, strings and positions.

use microasm::errors::ErrorKind;
use microasm::lexer::{Lexem, LexemType, Lexer};

fn lex_all(src: &str) -> Vec<Lexem> {
    let mut lexer = Lexer::new();
    lexer.lex(src.as_bytes()).expect("lexing failed");
    lexer.lexems
}

fn lex_err(src: &str) -> ErrorKind {
    let mut lexer = Lexer::new();
    lexer.lex(src.as_bytes()).expect_err("lexing passed").kind
}

#[test]
fn words_and_punctuation() {
    let ls = lex_all("add r1, 2 // trailing words\n");
    assert_eq!(ls.len(), 5);
    assert!(matches!(ls[0].ttype, LexemType::Ident));
    assert_eq!(ls[0].value, b"add".to_vec());
    assert!(matches!(ls[1].ttype, LexemType::Ident));
    assert_eq!(ls[1].value, b"r1".to_vec());
    assert!(matches!(ls[2].ttype, LexemType::Single));
    assert_eq!(ls[2].value, b",".to_vec());
    assert!(matches!(ls[3].ttype, LexemType::Number { radix: 10 }));
    assert_eq!(ls[3].value, b"2".to_vec());
    assert!(matches!(ls[4].ttype, LexemType::NewLine));
}

#[test]
fn number_prefixes_are_stripped() {
    let ls = lex_all("0x1F 0b101 42");
    assert!(matches!(ls[0].ttype, LexemType::Number { radix: 16 }));
    assert_eq!(ls[0].value, b"1F".to_vec());
    assert!(matches!(ls[1].ttype, LexemType::Number { radix: 2 }));
    assert_eq!(ls[1].value, b"101".to_vec());
    assert!(matches!(ls[2].ttype, LexemType::Number { radix: 10 }));
    assert_eq!(ls[2].value, b"42".to_vec());
}

#[test]
fn operators_longest_first() {
    let ls = lex_all("1 << 2 >> 3 + 4");
    assert_eq!(ls[1].value, b"<<".to_vec());
    assert!(matches!(ls[1].ttype, LexemType::Operator));
    assert_eq!(ls[3].value, b">>".to_vec());
    assert_eq!(ls[5].value, b"+".to_vec());
}

#[test]
fn string_escapes() {
    let ls = lex_all("\"a\\nb\\0\\\\\\\"\"");
    assert_eq!(ls.len(), 1);
    assert!(matches!(ls[0].ttype, LexemType::StrLit));
    assert_eq!(ls[0].value, vec![b'a', b'\n', b'b', 0, b'\\', b'"']);
}

#[test]
fn rows_and_columns_count_from_one() {
    let ls = lex_all("ab\n cd");
    assert_eq!((ls[0].row, ls[0].col), (1, 1));
    assert_eq!((ls[1].row, ls[1].col), (1, 3));
    assert_eq!((ls[2].row, ls[2].col), (2, 2));
}

#[test]
fn dotted_words_are_identifiers() {
    let ls = lex_all(".loop swa.f");
    assert_eq!(ls[0].value, b".loop".to_vec());
    assert!(matches!(ls[0].ttype, LexemType::Ident));
    assert_eq!(ls[1].value, b"swa.f".to_vec());
}

#[test]
fn lexical_errors() {
    assert_eq!(lex_err("@"), ErrorKind::UnexpectedCharacter);
    assert_eq!(lex_err("0xZZ"), ErrorKind::ExpectedHexDigit);
    assert_eq!(lex_err("0b2"), ErrorKind::ExpectedBinDigit);
    assert_eq!(lex_err("1a"), ErrorKind::ExpectedDecDigit);
    assert_eq!(lex_err("\"open"), ErrorKind::UnterminatedString);
}

#[test]
fn error_positions_point_at_the_bad_character() {
    let mut lexer = Lexer::new();
    let e = lexer.lex("ext\n  0xQ".as_bytes()).unwrap_err();
    assert_eq!(e.kind, ErrorKind::ExpectedHexDigit);
    assert_eq!(e.row, 2);
    assert_eq!(e.col, 5);
    let e = lexer.lex("12a4".as_bytes()).unwrap_err();
    assert_eq!(e.kind, ErrorKind::ExpectedDecDigit);
    assert_eq!((e.row, e.col), (1, 3));
    let e = lexer.lex("0b1021".as_bytes()).unwrap_err();
    assert_eq!(e.kind, ErrorKind::ExpectedBinDigit);
    assert_eq!((e.row, e.col), (1, 5));
}
