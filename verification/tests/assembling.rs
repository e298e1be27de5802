//! The whole pipeline: source text in, byte image out.

use microasm::codegen::CodeGen;
use microasm::config::{
    default_instruction_templates, default_pseudo_templates, default_types,
};
use microasm::errors::{AsmError, ErrorKind};
use microasm::instruction_lexer::{InsTemplate, InstructionsLexer};
use microasm::lexer::{Lexem, LexemType, Lexer};
use microasm::parser::{Parser, Token};
use microasm::pseudo::PseudoInstructions;

fn assemble(src: &str) -> Result<Vec<u8>, AsmError> {
    let types = default_types();
    let mut il = InstructionsLexer::new();
    il.lex_instructions(&default_instruction_templates(), &types)
        .expect("the instruction set compiles");
    let pseudos = PseudoInstructions::initialize(&default_pseudo_templates())
        .expect("the pseudo set compiles");
    let mut lexer = Lexer::new();
    lexer.lex(src.as_bytes())?;
    let mut parser = Parser::new();
    parser.parse(&lexer.lexems, &pseudos)?;
    let mut cg = CodeGen::new();
    cg.gen(&parser.tokens, &il.instructions, &types)?;
    Ok(cg.bytes)
}

fn kind(src: &str) -> ErrorKind {
    assemble(src).expect_err("assembly passed").kind
}

#[test]
fn primitive_encodings() {
    assert_eq!(assemble("ext").unwrap(), vec![0x00]);
    assert_eq!(assemble("swa zero").unwrap(), vec![0x01]);
    assert_eq!(assemble("add acc").unwrap(), vec![0x12]);
    assert_eq!(assemble("addi 5").unwrap(), vec![0x53]);
    assert_eq!(assemble("b false").unwrap(), vec![0x07]);
    assert_eq!(assemble("st r3").unwrap(), vec![0x36]);
    assert_eq!(assemble("add.f r2").unwrap(), vec![0x2A]);
}

#[test]
fn registers_match_case_insensitively() {
    assert_eq!(assemble("swa ZERO").unwrap(), vec![0x01]);
    assert_eq!(assemble("add R3").unwrap(), vec![0x32]);
}

#[test]
fn lim_pseudo_round_trips_against_its_expansion() {
    let through_pseudo = assemble("lim 0x0F").unwrap();
    let by_hand = assemble(
        "swa zero\naddi 0\nadd acc\nadd acc\nadd acc\nadd acc\naddi 15\n",
    )
    .unwrap();
    assert_eq!(through_pseudo, by_hand);
    assert_eq!(
        through_pseudo,
        vec![0x01, 0x03, 0x12, 0x12, 0x12, 0x12, 0xF3]
    );
}

#[test]
fn nested_pseudo_instructions_expand() {
    assert_eq!(assemble("nop").unwrap(), vec![0x07]);
    let jmp = assemble("jmp 0x0102").unwrap();
    let brc = assemble("brc true, 0x0102").unwrap();
    assert_eq!(jmp, brc);
}

#[test]
fn expression_folds_before_encoding() {
    assert_eq!(assemble("addi (1 + (2 * 3))").unwrap(), vec![0x73]);
    assert_eq!(assemble("addi ((0 - 1) & 15)").unwrap(), vec![0xF3]);
}

#[test]
fn label_difference_folds_after_substitution() {
    let bytes = assemble("here:\next\nthere:\naddi (there - here)\n").unwrap();
    assert_eq!(bytes, vec![0x00, 0x13]);
}

#[test]
fn label_addresses_follow_the_origin() {
    let bytes = assemble("org 0x10\next\nfoo:\ndw foo\n").unwrap();
    assert_eq!(bytes, vec![0x00, 0x00, 0x11]);
}

#[test]
fn data_directive_sizing() {
    assert_eq!(assemble("dw \"ab\"").unwrap(), vec![0x00, 0x61, 0x00, 0x62]);
    assert_eq!(assemble("db 0x1FF").unwrap(), vec![0xFF]);
    assert_eq!(assemble("db \"ab\"").unwrap(), vec![0x61, 0x62]);
    assert_eq!(assemble("dw 0x12345").unwrap(), vec![0x23, 0x45]);
    assert_eq!(
        assemble("dd \"a\"").unwrap(),
        vec![0x00, 0x00, 0x00, 0x61]
    );
    assert_eq!(
        assemble("dd 0x1FFFFFFFF").unwrap(),
        vec![0xFF, 0xFF, 0xFF, 0xFF]
    );
    assert_eq!(
        assemble("dq 2").unwrap(),
        vec![0x00, 0x00, 0x00, 0x00, 0x00, 0x00, 0x00, 0x02]
    );
}

#[test]
fn data_directives_take_several_arguments() {
    assert_eq!(assemble("db 1, 2, 3").unwrap(), vec![1, 2, 3]);
    assert_eq!(
        assemble("dw 1, \"a\"").unwrap(),
        vec![0x00, 0x01, 0x00, 0x61]
    );
}

#[test]
fn string_escapes_reach_the_image() {
    assert_eq!(assemble("db \"a\\nb\"").unwrap(), vec![0x61, 0x0A, 0x62]);
}

#[test]
fn immediate_boundary() {
    assert_eq!(assemble("addi 15").unwrap(), vec![0xF3]);
    assert_eq!(kind("addi 16"), ErrorKind::NumberTooBig);
}

#[test]
fn duplicate_label_fails() {
    assert_eq!(kind("foo:\nfoo:\n"), ErrorKind::DuplicateLabel);
}

#[test]
fn unknown_mnemonic_fails() {
    assert_eq!(kind("frobnicate"), ErrorKind::UnknownInstruction);
}

#[test]
fn generation_errors() {
    assert_eq!(kind("swa"), ErrorKind::MissingArgument);
    assert_eq!(kind("swa 5"), ErrorKind::ExpectedIdent);
    assert_eq!(kind("swa bogus"), ErrorKind::UnknownSymbol);
    assert_eq!(kind("addi bogus"), ErrorKind::UndeclaredLabel);
    assert_eq!(kind("dw"), ErrorKind::NoData);
    assert_eq!(kind("db bogus"), ErrorKind::UnexpectedLexem);
    assert_eq!(kind("addi (bogus + 1)"), ErrorKind::UndeclaredLabel);
    assert_eq!(kind("addi (1 2 3)"), ErrorKind::ExpectedOperator);
    assert_eq!(kind("addi (1 / 0)"), ErrorKind::DivisionByZero);
}

#[test]
fn comments_and_blank_lines_are_skipped() {
    let bytes = assemble("// a header\n\next // trailing\n\n").unwrap();
    assert_eq!(bytes, vec![0x00]);
}

#[test]
fn org_resets_the_cursor() {
    let bytes = assemble("ext\norg 0x20\nfoo:\ndw foo\n").unwrap();
    assert_eq!(bytes, vec![0x00, 0x00, 0x20]);
}

#[test]
fn labels_only_emit_no_bytes() {
    assert_eq!(assemble("a:\nb:\nc:\n").unwrap(), vec![]);
}

#[test]
fn custom_templates_follow_their_fields() {
    let types = default_types();
    let mut il = InstructionsLexer::new();
    let templates = vec![
        InsTemplate { mnemonic: b"wide".to_vec(), template: b"{IMM12} 1111".to_vec() },
        InsTemplate { mnemonic: b"opt".to_vec(), template: b"1010 {E4}".to_vec() },
    ];
    il.lex_instructions(&templates, &types).unwrap();
    assert_eq!(il.get_instruction_size(b"wide"), 2);
    assert_eq!(il.get_instruction_size(b"opt"), 1);
    assert_eq!(il.get_instruction_size(b"missing"), usize::MAX);
    let mut cg = CodeGen::new();
    let tokens = vec![Token::Instruction {
        name: Lexem::new(b"wide".to_vec(), LexemType::Ident, 1, 1),
        args: vec![Lexem::new(b"5".to_vec(), LexemType::Number { radix: 10 }, 1, 6)],
    }];
    cg.gen(&tokens, &il.instructions, &types).unwrap();
    assert_eq!(cg.bytes, vec![0x00, 0x5F]);
    let mut cg2 = CodeGen::new();
    let tokens2 = vec![Token::Instruction {
        name: Lexem::new(b"opt".to_vec(), LexemType::Ident, 1, 1),
        args: vec![],
    }];
    cg2.gen(&tokens2, &il.instructions, &types).unwrap();
    assert_eq!(cg2.bytes, vec![0xA0]);
}

#[test]
fn template_errors() {
    let types = default_types();
    let mut il = InstructionsLexer::new();
    let unknown_tag = vec![InsTemplate {
        mnemonic: b"quux".to_vec(),
        template: b"{Q4} 0000".to_vec(),
    }];
    assert_eq!(
        il.lex_instructions(&unknown_tag, &types).unwrap_err().kind,
        ErrorKind::UnknownType
    );
    let no_tag = vec![InsTemplate {
        mnemonic: b"bad".to_vec(),
        template: b"{4}".to_vec(),
    }];
    assert_eq!(
        il.lex_instructions(&no_tag, &types).unwrap_err().kind,
        ErrorKind::BadFieldTemplate
    );
    let stray = vec![InsTemplate {
        mnemonic: b"bad".to_vec(),
        template: b"01 x".to_vec(),
    }];
    assert_eq!(
        il.lex_instructions(&stray, &types).unwrap_err().kind,
        ErrorKind::UnexpectedCharacter
    );
}

#[test]
fn too_wide_an_encoding_is_refused() {
    let types = default_types();
    let mut il = InstructionsLexer::new();
    let wide = vec![InsTemplate {
        mnemonic: b"huge".to_vec(),
        template: b"{IMM65}".to_vec(),
    }];
    il.lex_instructions(&wide, &types).unwrap();
    let mut cg = CodeGen::new();
    let tokens = vec![Token::Instruction {
        name: Lexem::new(b"huge".to_vec(), LexemType::Ident, 1, 1),
        args: vec![Lexem::new(b"0".to_vec(), LexemType::Number { radix: 10 }, 1, 6)],
    }];
    assert_eq!(
        cg.gen(&tokens, &il.instructions, &types).unwrap_err().kind,
        ErrorKind::TooManyBits
    );
}

#[test]
fn leftover_stages_are_reported() {
    let types = default_types();
    let mut il = InstructionsLexer::new();
    il.lex_instructions(&default_instruction_templates(), &types).unwrap();
    let mut cg = CodeGen::new();
    let tokens = vec![Token::Label {
        name: Lexem::new(b"stray".to_vec(), LexemType::Ident, 1, 1),
    }];
    assert_eq!(
        cg.gen(&tokens, &il.instructions, &types).unwrap_err().kind,
        ErrorKind::StageLeftover
    );
}

#[test]
fn a_small_program_end_to_end() {
    let src = "
        // clear, then loop forever
        start:
        swa zero
        addi 1
        loop:
        add acc
        jmp loop
    ";
    let bytes = assemble(src).unwrap();
    assert_eq!(bytes[0], 0x01);
    assert_eq!(bytes[1], 0x13);
    assert_eq!(bytes[2], 0x12);
    assert_eq!(bytes.len(), 3 + 16);
}
