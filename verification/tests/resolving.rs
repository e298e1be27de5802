//! Grouping, expression folding, label layout and pseudo expansion.

use microasm::errors::ErrorKind;
use microasm::lexer::{Lexem, LexemType, Lexer};
use microasm::parser::{Parser, Token};
use microasm::pseudo::{expand_tokens, PseudoInstructions, PseudoTemplate};
use microasm::resolve::{discover_labels, eval_lexem, fold_lexem};

fn group(src: &str) -> Vec<Token> {
    let mut lexer = Lexer::new();
    lexer.lex(src.as_bytes()).expect("lexing failed");
    let mut parser = Parser::new();
    parser.first_stage_parse(&lexer.lexems).expect("grouping failed");
    parser.tokens
}

fn num(text: &str) -> Lexem {
    Lexem::new(text.as_bytes().to_vec(), LexemType::Number { radix: 10 }, 1, 1)
}

fn op(text: &str) -> Lexem {
    Lexem::new(text.as_bytes().to_vec(), LexemType::Operator, 1, 1)
}

fn closure(lhs: Lexem, o: Lexem, rhs: Lexem) -> Lexem {
    Lexem::new(
        b"Closure".to_vec(),
        LexemType::Closure { lhs: Box::new(lhs), op: Box::new(o), rhs: Box::new(rhs) },
        1,
        1,
    )
}

#[test]
fn statements_group_into_labels_and_instructions() {
    let ts = group("start:\n  add r1, r2\n");
    assert_eq!(ts.len(), 2);
    match &ts[0] {
        Token::Label { name } => assert_eq!(name.value, b"start".to_vec()),
        _ => panic!("expected a label"),
    }
    match &ts[1] {
        Token::Instruction { name, args } => {
            assert_eq!(name.value, b"add".to_vec());
            assert_eq!(args.len(), 2);
            assert_eq!(args[0].value, b"r1".to_vec());
            assert_eq!(args[1].value, b"r2".to_vec());
        },
        _ => panic!("expected an instruction"),
    }
}

#[test]
fn parenthesized_triples_nest() {
    let ts = group("addi (1 + (2 * 3))\n");
    match &ts[0] {
        Token::Instruction { args, .. } => {
            assert_eq!(args.len(), 1);
            match &args[0].ttype {
                LexemType::Closure { lhs, op, rhs } => {
                    assert_eq!(lhs.value, b"1".to_vec());
                    assert_eq!(op.value, b"+".to_vec());
                    assert!(matches!(rhs.ttype, LexemType::Closure { .. }));
                },
                _ => panic!("expected a closure"),
            }
        },
        _ => panic!("expected an instruction"),
    }
}

#[test]
fn nested_expression_folds_to_seven() {
    let tree = closure(num("1"), op("+"), closure(num("2"), op("*"), num("3")));
    assert_eq!(eval_lexem(&tree).unwrap(), 7);
    let folded = fold_lexem(&tree).unwrap();
    assert_eq!(folded.value, b"7".to_vec());
    assert!(matches!(folded.ttype, LexemType::Number { radix: 10 }));
}

#[test]
fn folding_is_idempotent_on_a_folded_value() {
    let tree = closure(num("6"), op("/"), num("2"));
    let once = fold_lexem(&tree).unwrap();
    let twice = fold_lexem(&once).unwrap();
    assert_eq!(once.value, twice.value);
    assert_eq!(once.value, b"3".to_vec());
}

#[test]
fn unsigned_operator_semantics() {
    let wrap = closure(num("0"), op("-"), num("1"));
    assert_eq!(eval_lexem(&wrap).unwrap(), u64::MAX);
    let div = closure(num("7"), op("/"), num("2"));
    assert_eq!(eval_lexem(&div).unwrap(), 3);
    let shift = closure(num("1"), op("<<"), num("8"));
    assert_eq!(eval_lexem(&shift).unwrap(), 256);
    let xor = closure(num("12"), op("^"), num("10"));
    assert_eq!(eval_lexem(&xor).unwrap(), 6);
}

#[test]
fn folding_errors() {
    let div0 = closure(num("1"), op("/"), num("0"));
    assert_eq!(eval_lexem(&div0).unwrap_err().kind, ErrorKind::DivisionByZero);
    let wide = closure(num("1"), op("<<"), num("64"));
    assert_eq!(eval_lexem(&wide).unwrap_err().kind, ErrorKind::ShiftTooLarge);
    let bad_op = closure(num("1"), num("2"), num("3"));
    assert_eq!(eval_lexem(&bad_op).unwrap_err().kind, ErrorKind::ExpectedOperator);
}

#[test]
fn label_after_one_unit_instruction() {
    let ts = group("org 0x10\next\nfoo:\n");
    let (cleaned, labels) = discover_labels(&ts).unwrap();
    assert_eq!(cleaned.len(), 1);
    assert_eq!(labels.len(), 1);
    assert_eq!(labels[0].name, b"foo".to_vec());
    assert_eq!(labels[0].addr, 0x11);
}

#[test]
fn sub_label_resolves_under_enclosing_label() {
    let ts = group("main:\nb false\n.loop:\n");
    let (_, labels) = discover_labels(&ts).unwrap();
    assert_eq!(labels.len(), 2);
    assert_eq!(labels[0].name, b"main".to_vec());
    assert_eq!(labels[0].addr, 0);
    assert_eq!(labels[1].name, b"main.loop".to_vec());
    assert_eq!(labels[1].addr, 1);
}

#[test]
fn duplicate_label_is_refused_and_keeps_the_first() {
    let ts = group("foo:\next\nfoo:\n");
    let e = discover_labels(&ts).unwrap_err();
    assert_eq!(e.kind, ErrorKind::DuplicateLabel);
    assert_eq!(e.row, 3);
}

#[test]
fn data_directives_reserve_units() {
    let ts = group("dw 1, \"ab\"\nafter:\n");
    let (_, labels) = discover_labels(&ts).unwrap();
    assert_eq!(labels[0].name, b"after".to_vec());
    assert_eq!(labels[0].addr, 5);
}

#[test]
fn address_past_the_machine_word_is_refused() {
    let ts = group("org 0xFFFFFFFFFFFFFFFF\next\nfoo:\n");
    let e = discover_labels(&ts).unwrap_err();
    assert_eq!(e.kind, ErrorKind::AddressOverflow);
}

#[test]
fn org_wants_one_numeric_literal() {
    let ts = group("org\n");
    assert_eq!(discover_labels(&ts).unwrap_err().kind, ErrorKind::OrgExpectsAddress);
    let ts = group("org foo\n");
    assert_eq!(discover_labels(&ts).unwrap_err().kind, ErrorKind::ExpectedNumber);
}

#[test]
fn grouping_errors() {
    let mut lexer = Lexer::new();
    let mut parser = Parser::new();
    lexer.lex(",".as_bytes()).unwrap();
    assert_eq!(
        parser.first_stage_parse(&lexer.lexems).unwrap_err().kind,
        ErrorKind::UnexpectedToken
    );
    lexer.lex("addi (1 + 2".as_bytes()).unwrap();
    assert_eq!(
        parser.first_stage_parse(&lexer.lexems).unwrap_err().kind,
        ErrorKind::ExpectedClosingParen
    );
    lexer.lex("add acc,".as_bytes()).unwrap();
    assert_eq!(
        parser.first_stage_parse(&lexer.lexems).unwrap_err().kind,
        ErrorKind::ExpectedArgAfterComma
    );
    let mut deep = String::from("addi ");
    for _ in 0..70 {
        deep.push('(');
    }
    lexer.lex(deep.as_bytes()).unwrap();
    assert_eq!(
        parser.first_stage_parse(&lexer.lexems).unwrap_err().kind,
        ErrorKind::ExprTooDeep
    );
}

#[test]
fn pseudo_bodies_may_not_hold_labels() {
    let templates = vec![PseudoTemplate {
        header: b"bad".to_vec(),
        body: b"x:\next".to_vec(),
    }];
    let ps = PseudoInstructions::initialize(&templates).unwrap();
    let ts = group("bad\n");
    assert_eq!(expand_tokens(&ts, &ps).unwrap_err().kind, ErrorKind::LabelInPseudo);
}

#[test]
fn pseudo_recursion_is_cut_off() {
    let templates = vec![PseudoTemplate {
        header: b"loopy".to_vec(),
        body: b"loopy".to_vec(),
    }];
    let ps = PseudoInstructions::initialize(&templates).unwrap();
    let ts = group("loopy\n");
    assert_eq!(
        expand_tokens(&ts, &ps).unwrap_err().kind,
        ErrorKind::PseudoDepthExceeded
    );
}

#[test]
fn pseudo_arity_must_match() {
    let ps = PseudoInstructions::initialize(&microasm::config::default_pseudo_templates())
        .unwrap();
    let ts = group("lim 1, 2\n");
    assert_eq!(expand_tokens(&ts, &ps).unwrap_err().kind, ErrorKind::ArityMismatch);
}

#[test]
fn pseudo_header_must_be_one_instruction() {
    let templates = vec![PseudoTemplate {
        header: b"two\nthings".to_vec(),
        body: b"ext".to_vec(),
    }];
    assert_eq!(
        PseudoInstructions::initialize(&templates).unwrap_err().kind,
        ErrorKind::BadPseudoTemplate
    );
}
