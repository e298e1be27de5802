//! Code generation: fully-resolved instruction statements become bytes.
//! Data directives emit masked big-endian units; every other mnemonic is
//! encoded field by field against the compiled instruction table, the
//! fields' bit texts concatenated and grouped into big-endian bytes.

use vstd::prelude::*;
use crate::bits::{
    be_bytes, bits_of, spec_encode_field, spec_bits_to_bytes, encode_field, bits_to_bytes,
    u64_be_bytes,
};
use crate::errors::{AsmError, ErrorKind};
use crate::instruction_lexer::{
    InstructionPart, InstructionPartView, InsEntry, instructions_view, spec_instr_get, wf_part,
    wf_instr_table, lemma_instr_get_wf,
};
use crate::lexer::{Lexem, LexemType, LexemView, LexemTypeView, lexems_view};
use crate::numbers::{valid_digits, spec_parse_u64, parse_u64};
use crate::parser::{Token, TokenView, tokens_view};
use crate::tables::{
    TypeTables, tables_view, spec_table_get, spec_entry_get, table_find, entry_find,
};
use crate::text::{ascii_lower, ascii_upper, spec_lower, spec_upper, bytes_eq};

verus! {

/// The value a number lexem carries, read in its radix; any other lexem
/// has none.
pub open spec fn spec_number_value(l: LexemView) -> Result<u64, ErrorKind> {
    match l.kind {
        LexemTypeView::Number { radix } => {
            if 2 <= radix <= 36 {
                spec_parse_u64(l.value, radix)
            } else {
                Err(ErrorKind::ExpectedNumber)
            }
        },
        _ => Err(ErrorKind::ExpectedNumber),
    }
}

/// Reads the value of a number lexem, exactly as [`spec_number_value`]
/// says.
pub fn get_value_from_number_token(lexem: &Lexem) -> (r: Result<u64, AsmError>)
    ensures
        match spec_number_value(lexem@) {
            Ok(v) => r is Ok && r->Ok_0 == v,
            Err(k) => r is Err && r->Err_0.kind == k,
        },
{
    match &lexem.ttype {
        LexemType::Number { radix } => {
            proof {
                assert(lexem@.kind == LexemTypeView::Number { radix: *radix as nat });
            }
            let radix = *radix;
            if 2 <= radix && radix <= 36 {
                match parse_u64(lexem.value.as_slice(), radix) {
                    Ok(v) => Ok(v),
                    Err(k) => Err(AsmError::at(k, lexem.row, lexem.col)),
                }
            } else {
                Err(AsmError::at(ErrorKind::ExpectedNumber, lexem.row, lexem.col))
            }
        },
        _ => Err(AsmError::at(ErrorKind::ExpectedNumber, lexem.row, lexem.col)),
    }
}

/// What one data-directive argument emits: a number is read, masked and
/// written big-endian into one unit; a string writes one unit per byte,
/// zero-extended; nothing else is data.
pub open spec fn spec_data_arg(a: LexemView, unit: nat, mask: u64) -> Result<Seq<u8>, ErrorKind> {
    match a.kind {
        LexemTypeView::Number { .. } => match spec_number_value(a) {
            Err(k) => Err(k),
            Ok(v) => Ok(be_bytes((v & mask) as nat, unit)),
        },
        LexemTypeView::StrLit => Ok(spec_str_units(a.value, unit)),
        _ => Err(ErrorKind::UnexpectedLexem),
    }
}

/// Each byte of `s` written big-endian into its own unit.
pub open spec fn spec_str_units(s: Seq<u8>, unit: nat) -> Seq<u8>
    decreases s.len(),
{
    if s.len() == 0 {
        Seq::empty()
    } else {
        be_bytes(s.first() as nat, unit) + spec_str_units(s.drop_first(), unit)
    }
}

/// What a whole data directive emits: its arguments' units in order, the
/// first error winning.
pub open spec fn spec_data_bytes(args: Seq<LexemView>, unit: nat, mask: u64) -> Result<
    Seq<u8>,
    ErrorKind,
>
    decreases args.len(),
{
    if args.len() == 0 {
        Ok(Seq::empty())
    } else {
        match spec_data_arg(args.first(), unit, mask) {
            Err(k) => Err(k),
            Ok(bs) => match spec_data_bytes(args.drop_first(), unit, mask) {
                Err(k) => Err(k),
                Ok(rest) => Ok(bs + rest),
            },
        }
    }
}

/// The bit text of an instruction's fields, walked left to right against
/// its argument list. A literal run stands as it is. A lookup field wants
/// an identifier, folds it to lower case, finds it in the field's table
/// (tag upper-cased) and encodes the value in exactly the field's width.
/// An immediate field wants a number — an identifier here is an
/// undeclared label — and encodes it in exactly the field's width. An
/// extra field is all zeros once the arguments have run out, else it
/// reads like an immediate whose number any lexem must supply.
pub open spec fn spec_gen_fields(
    parts: Seq<InstructionPartView>,
    args: Seq<LexemView>,
    types: Seq<(Seq<u8>, Seq<(Seq<u8>, u64)>)>,
) -> Result<Seq<u8>, ErrorKind>
    decreases parts.len(),
{
    if parts.len() == 0 {
        Ok(Seq::empty())
    } else {
        match parts.first() {
            InstructionPartView::Const { val } => match spec_gen_fields(
                parts.drop_first(),
                args,
                types,
            ) {
                Err(k) => Err(k),
                Ok(rest) => Ok(val + rest),
            },
            InstructionPartView::Type { val, size } => {
                if args.len() == 0 {
                    Err(ErrorKind::MissingArgument)
                } else if !(args.first().kind is Ident) {
                    Err(ErrorKind::ExpectedIdent)
                } else {
                    match spec_table_get(types, spec_upper(val)) {
                        None => Err(ErrorKind::UnknownType),
                        Some(es) => match spec_entry_get(es, spec_lower(args.first().value)) {
                            None => Err(ErrorKind::UnknownSymbol),
                            Some(v) => match spec_encode_field(v as nat, size) {
                                Err(k) => Err(k),
                                Ok(bits) => match spec_gen_fields(
                                    parts.drop_first(),
                                    args.drop_first(),
                                    types,
                                ) {
                                    Err(k) => Err(k),
                                    Ok(rest) => Ok(bits + rest),
                                },
                            },
                        },
                    }
                }
            },
            InstructionPartView::Imm { size } => {
                if args.len() == 0 {
                    Err(ErrorKind::MissingArgument)
                } else if args.first().kind is Ident {
                    Err(ErrorKind::UndeclaredLabel)
                } else {
                    match spec_number_value(args.first()) {
                        Err(k) => Err(k),
                        Ok(v) => match spec_encode_field(v as nat, size) {
                            Err(k) => Err(k),
                            Ok(bits) => match spec_gen_fields(
                                parts.drop_first(),
                                args.drop_first(),
                                types,
                            ) {
                                Err(k) => Err(k),
                                Ok(rest) => Ok(bits + rest),
                            },
                        },
                    }
                }
            },
            InstructionPartView::Extra { size } => {
                if args.len() == 0 {
                    match spec_gen_fields(parts.drop_first(), args, types) {
                        Err(k) => Err(k),
                        Ok(rest) => Ok(bits_of(0, size) + rest),
                    }
                } else {
                    match spec_number_value(args.first()) {
                        Err(k) => Err(k),
                        Ok(v) => match spec_encode_field(v as nat, size) {
                            Err(k) => Err(k),
                            Ok(bits) => match spec_gen_fields(
                                parts.drop_first(),
                                args.drop_first(),
                                types,
                            ) {
                                Err(k) => Err(k),
                                Ok(rest) => Ok(bits + rest),
                            },
                        },
                    }
                }
            },
        }
    }
}

/// The directive name `db`.
pub open spec fn kw_db() -> Seq<u8> {
    seq![100u8, 98u8]
}

/// What one statement emits. `org` and labels should have left the stream
/// in earlier passes. `db`, `dw`, `dd` and `dq` (matched exactly, in
/// lower case) refuse an empty argument list and emit their arguments in
/// 1-, 2-, 4- or 8-byte units, numbers masked to 16, 16, 32 and 64 bits
/// first. Any other mnemonic must stand in the instruction table; its
/// fields' bit text is grouped into big-endian bytes.
pub open spec fn spec_gen_token(
    t: TokenView,
    itab: Seq<(Seq<u8>, Seq<InstructionPartView>)>,
    types: Seq<(Seq<u8>, Seq<(Seq<u8>, u64)>)>,
) -> Result<Seq<u8>, ErrorKind> {
    match t {
        TokenView::Label { .. } => Err(ErrorKind::StageLeftover),
        TokenView::Instruction { name, args } => {
            if name.value == crate::resolve::kw_org() {
                Err(ErrorKind::StageLeftover)
            } else if name.value == kw_db() {
                if args.len() == 0 {
                    Err(ErrorKind::NoData)
                } else {
                    spec_data_bytes(args, 1, 0xFFFFu64)
                }
            } else if name.value == crate::resolve::kw_dw() {
                if args.len() == 0 {
                    Err(ErrorKind::NoData)
                } else {
                    spec_data_bytes(args, 2, 0xFFFFu64)
                }
            } else if name.value == crate::resolve::kw_dd() {
                if args.len() == 0 {
                    Err(ErrorKind::NoData)
                } else {
                    spec_data_bytes(args, 4, 0xFFFFFFFFu64)
                }
            } else if name.value == crate::resolve::kw_dq() {
                if args.len() == 0 {
                    Err(ErrorKind::NoData)
                } else {
                    spec_data_bytes(args, 8, 0xFFFFFFFFFFFFFFFFu64)
                }
            } else {
                match spec_instr_get(itab, name.value) {
                    None => Err(ErrorKind::UnknownInstruction),
                    Some(parts) => match spec_gen_fields(parts, args, types) {
                        Err(k) => Err(k),
                        Ok(bits) => spec_bits_to_bytes(bits),
                    },
                }
            }
        },
    }
}

/// What a whole statement list emits, in order, the first error winning.
pub open spec fn spec_gen_all(
    toks: Seq<TokenView>,
    itab: Seq<(Seq<u8>, Seq<InstructionPartView>)>,
    types: Seq<(Seq<u8>, Seq<(Seq<u8>, u64)>)>,
) -> Result<Seq<u8>, ErrorKind>
    decreases toks.len(),
{
    if toks.len() == 0 {
        Ok(Seq::empty())
    } else {
        match spec_gen_token(toks.first(), itab, types) {
            Err(k) => Err(k),
            Ok(bs) => match spec_gen_all(toks.drop_first(), itab, types) {
                Err(k) => Err(k),
                Ok(rest) => Ok(bs + rest),
            },
        }
    }
}

/// Field bit text over well-formed fields holds only bit bytes.
pub proof fn lemma_gen_fields_valid(
    parts: Seq<InstructionPartView>,
    args: Seq<LexemView>,
    types: Seq<(Seq<u8>, Seq<(Seq<u8>, u64)>)>,
)
    requires
        forall|j: int| 0 <= j < parts.len() ==> wf_part(#[trigger] parts[j]),
    ensures
        match spec_gen_fields(parts, args, types) {
            Ok(bits) => valid_digits(bits, 2),
            Err(_) => true,
        },
    decreases parts.len(),
{
    if parts.len() > 0 {
        assert(forall|j: int| 0 <= j < parts.len() - 1
            ==> #[trigger] parts.drop_first()[j] == parts[j + 1]);
        match parts.first() {
            InstructionPartView::Const { val } => {
                lemma_gen_fields_valid(parts.drop_first(), args, types);
                assert(parts[0] == parts.first());
            },
            InstructionPartView::Type { val, size } => {
                lemma_gen_fields_valid(parts.drop_first(), args.drop_first(), types);
                if args.len() > 0 && args.first().kind is Ident {
                    if let Some(es) = spec_table_get(types, spec_upper(val)) {
                        if let Some(v) = spec_entry_get(es, spec_lower(args.first().value)) {
                            crate::bits::lemma_bits_of_wf(v as nat, size);
                        }
                    }
                }
            },
            InstructionPartView::Imm { size } => {
                lemma_gen_fields_valid(parts.drop_first(), args.drop_first(), types);
                if args.len() > 0 {
                    if let Ok(v) = spec_number_value(args.first()) {
                        crate::bits::lemma_bits_of_wf(v as nat, size);
                    }
                }
            },
            InstructionPartView::Extra { size } => {
                lemma_gen_fields_valid(parts.drop_first(), args, types);
                lemma_gen_fields_valid(parts.drop_first(), args.drop_first(), types);
                crate::bits::lemma_bits_of_wf(0, size);
                if args.len() > 0 {
                    if let Ok(v) = spec_number_value(args.first()) {
                        crate::bits::lemma_bits_of_wf(v as nat, size);
                    }
                }
            },
        }
    }
}

/// The generator: nothing but the byte image it grows.
#[derive(Debug)]
pub struct CodeGen {
    pub bytes: Vec<u8>,
}

/// Emits one data-directive argument per [`spec_data_arg`] into `out`.
fn gen_data_arg(arg: &Lexem, unit: usize, mask: u64, out: &mut Vec<u8>) -> (r: Result<
    (),
    AsmError,
>)
    ensures
        match spec_data_arg(arg@, unit as nat, mask) {
            Ok(bs) => r is Ok && final(out)@ == old(out)@ + bs,
            Err(k) => r is Err && r->Err_0.kind == k && final(out)@ == old(out)@,
        },
{
    match &arg.ttype {
        LexemType::Number { .. } => {
            let v = match get_value_from_number_token(arg) {
                Ok(v) => v,
                Err(e) => {
                    return Err(e);
                },
            };
            let mut unit_bytes = u64_be_bytes(v & mask, unit);
            out.append(&mut unit_bytes);
            Ok(())
        },
        LexemType::StrLit => {
            let ghost sv = arg.value@;
            let mut i: usize = 0;
            let ghost base = out@;
            proof {
                assert(sv.skip(0) =~= sv);
            }
            while i < arg.value.len()
                invariant
                    0 <= i <= sv.len(),
                    sv == arg.value@,
                    base + spec_str_units(sv, unit as nat) == out@ + spec_str_units(
                        sv.skip(i as int),
                        unit as nat,
                    ),
                decreases sv.len() - i,
            {
                proof {
                    assert(sv.skip(i as int).first() == sv[i as int]);
                    assert(sv.skip(i as int).drop_first() =~= sv.skip(i + 1));
                }
                let ghost out0 = out@;
                let mut unit_bytes = u64_be_bytes(arg.value[i] as u64, unit);
                out.append(&mut unit_bytes);
                proof {
                    assert(out0 + (be_bytes(sv[i as int] as nat, unit as nat) + spec_str_units(
                        sv.skip(i + 1),
                        unit as nat,
                    )) =~= out@ + spec_str_units(sv.skip(i + 1), unit as nat));
                }
                i += 1;
            }
            proof {
                assert(sv.skip(sv.len() as int) =~= Seq::<u8>::empty());
                assert(out@ + Seq::<u8>::empty() =~= out@);
            }
            Ok(())
        },
        _ => Err(AsmError::at(ErrorKind::UnexpectedLexem, arg.row, arg.col)),
    }
}

/// Emits a whole data directive's units per [`spec_data_bytes`].
fn gen_data(args: &Vec<Lexem>, unit: usize, mask: u64) -> (r: Result<Vec<u8>, AsmError>)
    ensures
        match spec_data_bytes(lexems_view(*args), unit as nat, mask) {
            Ok(bs) => r is Ok && r->Ok_0@ == bs,
            Err(k) => r is Err && r->Err_0.kind == k,
        },
{
    let ghost av = lexems_view(*args);
    let mut out: Vec<u8> = Vec::new();
    let mut i: usize = 0;
    proof {
        assert(av.skip(0) =~= av);
        assert(out@ =~= Seq::<u8>::empty());
    }
    while i < args.len()
        invariant
            0 <= i <= args@.len(),
            av == lexems_view(*args),
            match spec_data_bytes(av.skip(i as int), unit as nat, mask) {
                Ok(rest) => spec_data_bytes(av, unit as nat, mask) == Ok::<Seq<u8>, ErrorKind>(
                    out@ + rest,
                ),
                Err(k) => spec_data_bytes(av, unit as nat, mask) == Err::<Seq<u8>, ErrorKind>(k),
            },
        decreases args@.len() - i,
    {
        proof {
            assert(av.skip(i as int).first() == av[i as int]);
            assert(av.skip(i as int).drop_first() =~= av.skip(i + 1));
            assert(av[i as int] == args@[i as int]@);
        }
        let ghost out0 = out@;
        match gen_data_arg(&args[i], unit, mask, &mut out) {
            Ok(()) => {},
            Err(e) => {
                return Err(e);
            },
        }
        proof {
            if let Ok(bs) = spec_data_arg(av[i as int], unit as nat, mask) {
                if let Ok(rest) = spec_data_bytes(av.skip(i + 1), unit as nat, mask) {
                    assert(out0 + (bs + rest) =~= out@ + rest);
                }
            }
        }
        i += 1;
    }
    proof {
        assert(av.skip(args@.len() as int) =~= Seq::<LexemView>::empty());
        assert(out@ + Seq::<u8>::empty() =~= out@);
    }
    Ok(out)
}

/// Encodes an instruction's fields against its arguments per
/// [`spec_gen_fields`], yielding the accumulated bit text.
#[verifier::rlimit(80)]
fn gen_fields(
    name: &Lexem,
    parts: &Vec<InstructionPart>,
    args: &Vec<Lexem>,
    types: &TypeTables,
) -> (r: Result<Vec<u8>, AsmError>)
    ensures
        ({
            let pv = crate::instruction_lexer::parts_view(*parts);
            let av = lexems_view(*args);
            match spec_gen_fields(pv, av, tables_view(*types)) {
                Ok(bits) => r is Ok && r->Ok_0@ == bits,
                Err(k) => r is Err && r->Err_0.kind == k,
            }
        }),
{
    let ghost pv = crate::instruction_lexer::parts_view(*parts);
    let ghost av = lexems_view(*args);
    let ghost tys = tables_view(*types);
    let mut bits: Vec<u8> = Vec::new();
    let mut pi: usize = 0;
    let mut ai: usize = 0;
    proof {
        assert(pv.skip(0) =~= pv);
        assert(av.skip(0) =~= av);
        assert(bits@ =~= Seq::<u8>::empty());
    }
    while pi < parts.len()
        invariant
            0 <= pi <= parts@.len(),
            0 <= ai <= args@.len(),
            pv == crate::instruction_lexer::parts_view(*parts),
            av == lexems_view(*args),
            tys == tables_view(*types),
            match spec_gen_fields(pv.skip(pi as int), av.skip(ai as int), tys) {
                Ok(rest) => spec_gen_fields(pv, av, tys) == Ok::<Seq<u8>, ErrorKind>(
                    bits@ + rest,
                ),
                Err(k) => spec_gen_fields(pv, av, tys) == Err::<Seq<u8>, ErrorKind>(k),
            },
        decreases parts@.len() - pi,
    {
        proof {
            assert(pv.skip(pi as int).first() == pv[pi as int]);
            assert(pv.skip(pi as int).drop_first() =~= pv.skip(pi + 1));
            assert(pv[pi as int] == parts@[pi as int]@);
            if ai < av.len() {
                assert(av.skip(ai as int).first() == av[ai as int]);
                assert(av.skip(ai as int).drop_first() =~= av.skip(ai + 1));
                assert(av[ai as int] == args@[ai as int]@);
            }
        }
        let ghost bits0 = bits@;
        match &parts[pi] {
            InstructionPart::Const { val } => {
                let mut copy = crate::text::copy_bytes(val);
                bits.append(&mut copy);
                proof {
                    if let Ok(rest) = spec_gen_fields(pv.skip(pi + 1), av.skip(ai as int), tys) {
                        assert(bits0 + (val@ + rest) =~= bits@ + rest);
                    }
                }
            },
            InstructionPart::Type { val, size } => {
                if ai >= args.len() {
                    proof {
                        assert(av.skip(ai as int).len() == 0);
                    }
                    return Err(AsmError::at(
                        ErrorKind::MissingArgument,
                        name.row,
                        name.col,
                    ));
                }
                let arg = &args[ai];
                if !matches!(arg.ttype, LexemType::Ident) {
                    return Err(AsmError::at(ErrorKind::ExpectedIdent, arg.row, arg.col));
                }
                let tag = ascii_upper(val.as_slice());
                let table = match table_find(types, tag.as_slice()) {
                    Some(t) => t,
                    None => {
                        return Err(AsmError::at(ErrorKind::UnknownType, arg.row, arg.col));
                    },
                };
                let symbol = ascii_lower(arg.value.as_slice());
                let v = match entry_find(table, symbol.as_slice()) {
                    Some(v) => v,
                    None => {
                        return Err(AsmError::at(ErrorKind::UnknownSymbol, arg.row, arg.col));
                    },
                };
                let mut field_bits = match encode_field(v, *size) {
                    Ok(b) => b,
                    Err(k) => {
                        return Err(AsmError::at(k, arg.row, arg.col));
                    },
                };
                let ghost fb = field_bits@;
                bits.append(&mut field_bits);
                ai += 1;
                proof {
                    if let Ok(rest) = spec_gen_fields(pv.skip(pi + 1), av.skip(ai as int), tys) {
                        assert(bits0 + (fb + rest) =~= bits@ + rest);
                    }
                }
            },
            InstructionPart::Imm { size } => {
                if ai >= args.len() {
                    proof {
                        assert(av.skip(ai as int).len() == 0);
                    }
                    return Err(AsmError::at(
                        ErrorKind::MissingArgument,
                        name.row,
                        name.col,
                    ));
                }
                let arg = &args[ai];
                if matches!(arg.ttype, LexemType::Ident) {
                    return Err(AsmError::at(ErrorKind::UndeclaredLabel, arg.row, arg.col));
                }
                let v = match get_value_from_number_token(arg) {
                    Ok(v) => v,
                    Err(e) => {
                        return Err(e);
                    },
                };
                let mut field_bits = match encode_field(v, *size) {
                    Ok(b) => b,
                    Err(k) => {
                        return Err(AsmError::at(k, arg.row, arg.col));
                    },
                };
                let ghost fb = field_bits@;
                bits.append(&mut field_bits);
                ai += 1;
                proof {
                    if let Ok(rest) = spec_gen_fields(pv.skip(pi + 1), av.skip(ai as int), tys) {
                        assert(bits0 + (fb + rest) =~= bits@ + rest);
                    }
                }
            },
            InstructionPart::Extra { size } => {
                if ai >= args.len() {
                    proof {
                        assert(av.skip(ai as int).len() == 0);
                    }
                    let mut zeros = crate::bits::encode_width_bits(0, *size);
                    let ghost zb = zeros@;
                    bits.append(&mut zeros);
                    proof {
                        if let Ok(rest) = spec_gen_fields(
                            pv.skip(pi + 1),
                            av.skip(ai as int),
                            tys,
                        ) {
                            assert(bits0 + (zb + rest) =~= bits@ + rest);
                        }
                    }
                } else {
                    let arg = &args[ai];
                    let v = match get_value_from_number_token(arg) {
                        Ok(v) => v,
                        Err(e) => {
                            return Err(e);
                        },
                    };
                    let mut field_bits = match encode_field(v, *size) {
                        Ok(b) => b,
                        Err(k) => {
                            return Err(AsmError::at(k, arg.row, arg.col));
                        },
                    };
                    let ghost fb = field_bits@;
                    bits.append(&mut field_bits);
                    ai += 1;
                    proof {
                        if let Ok(rest) = spec_gen_fields(
                            pv.skip(pi + 1),
                            av.skip(ai as int),
                            tys,
                        ) {
                            assert(bits0 + (fb + rest) =~= bits@ + rest);
                        }
                    }
                }
            },
        }
        pi += 1;
    }
    proof {
        assert(pv.skip(parts@.len() as int) =~= Seq::<InstructionPartView>::empty());
        assert(bits@ + Seq::<u8>::empty() =~= bits@);
    }
    Ok(bits)
}

impl CodeGen {
    /// A fresh generator with an empty image.
    pub fn new() -> (r: CodeGen)
        ensures
            r.bytes@.len() == 0,
    {
        CodeGen { bytes: Vec::new() }
    }

    /// Groups finished bit text into big-endian bytes, as
    /// [`spec_bits_to_bytes`] says.
    pub fn str_to_bytes(&self, bits: &Vec<u8>) -> (r: Result<Vec<u8>, AsmError>)
        requires
            valid_digits(bits@, 2),
        ensures
            match spec_bits_to_bytes(bits@) {
                Ok(bs) => r is Ok && r->Ok_0@ == bs,
                Err(k) => r is Err && r->Err_0.kind == k,
            },
    {
        match bits_to_bytes(bits.as_slice()) {
            Ok(bs) => Ok(bs),
            Err(k) => Err(AsmError::at(k, 0, 0)),
        }
    }

    /// Emits one statement per [`spec_gen_token`], appending its bytes to
    /// the image; an error leaves the image as it was.
    fn gen_token(
        &mut self,
        token: &Token,
        itab: &Vec<InsEntry>,
        types: &TypeTables,
    ) -> (r: Result<(), AsmError>)
        requires
            wf_instr_table(instructions_view(*itab)),
        ensures
            match spec_gen_token(token@, instructions_view(*itab), tables_view(*types)) {
                Ok(bs) => r is Ok && final(self).bytes@ == old(self).bytes@ + bs,
                Err(k) => r is Err && r->Err_0.kind == k
                    && final(self).bytes == old(self).bytes,
            },
    {
        let ghost iv = instructions_view(*itab);
        let ghost tys = tables_view(*types);
        let (name, args) = match token {
            Token::Label { name } => {
                return Err(AsmError::at(ErrorKind::StageLeftover, name.row, name.col));
            },
            Token::Instruction { name, args } => (name, args),
        };
        if crate::text::bytes_is3(name.value.as_slice(), 111, 114, 103) {
            return Err(AsmError::at(ErrorKind::StageLeftover, name.row, name.col));
        }
        let is_db = crate::text::bytes_is2(name.value.as_slice(), 100, 98);
        let is_dw = crate::text::bytes_is2(name.value.as_slice(), 100, 119);
        let is_dd = crate::text::bytes_is2(name.value.as_slice(), 100, 100);
        let is_dq = crate::text::bytes_is2(name.value.as_slice(), 100, 113);
        if is_db || is_dw || is_dd || is_dq {
            if args.len() == 0 {
                return Err(AsmError::at(ErrorKind::NoData, name.row, name.col));
            }
            let (unit, mask): (usize, u64) = if is_db {
                (1, 0xFFFF)
            } else if is_dw {
                (2, 0xFFFF)
            } else if is_dd {
                (4, 0xFFFFFFFF)
            } else {
                (8, 0xFFFFFFFFFFFFFFFF)
            };
            let mut data = match gen_data(args, unit, mask) {
                Ok(d) => d,
                Err(e) => {
                    return Err(e);
                },
            };
            let ghost dv = data@;
            self.bytes.append(&mut data);
            proof {
                assert(self.bytes@ == old(self).bytes@ + dv);
            }
            return Ok(());
        }
        let entry = {
            let ghost name_v = name.value@;
            let mut found: Option<&InsEntry> = None;
            let mut i: usize = itab.len();
            proof {
                assert(iv.take(itab@.len() as int) =~= iv);
            }
            while i > 0 && found.is_none()
                invariant
                    0 <= i <= itab@.len(),
                    iv == instructions_view(*itab),
                    match found {
                        Some(e) => spec_instr_get(iv, name_v) == Some(
                            crate::instruction_lexer::parts_view(e.parts),
                        ),
                        None => spec_instr_get(iv, name_v) == spec_instr_get(
                            iv.take(i as int),
                            name_v,
                        ),
                    },
                decreases i,
            {
                i -= 1;
                proof {
                    assert(iv.take(i + 1).last() == iv[i as int]);
                    assert(iv.take(i + 1).drop_last() =~= iv.take(i as int));
                }
                if bytes_eq(itab[i].mnemonic.as_slice(), name.value.as_slice()) {
                    found = Some(&itab[i]);
                }
            }
            proof {
                if found is None {
                    assert(iv.take(0) =~= Seq::<(Seq<u8>, Seq<InstructionPartView>)>::empty());
                }
            }
            match found {
                Some(e) => e,
                None => {
                    return Err(AsmError::at(
                        ErrorKind::UnknownInstruction,
                        name.row,
                        name.col,
                    ));
                },
            }
        };
        let bits = match gen_fields(name, &entry.parts, args, types) {
            Ok(b) => b,
            Err(e) => {
                return Err(e);
            },
        };
        proof {
            lemma_instr_get_wf(iv, name.value@);
            lemma_gen_fields_valid(
                crate::instruction_lexer::parts_view(entry.parts),
                lexems_view(*args),
                tys,
            );
        }
        let mut out = match bits_to_bytes(bits.as_slice()) {
            Ok(bs) => bs,
            Err(k) => {
                return Err(AsmError::at(k, name.row, name.col));
            },
        };
        let ghost ov = out@;
        self.bytes.append(&mut out);
        proof {
            assert(self.bytes@ == old(self).bytes@ + ov);
        }
        Ok(())
    }

    /// Emits a statement list per [`spec_gen_all`], appending its bytes
    /// to the image in order.
    pub fn gen_block(
        &mut self,
        tokens: &Vec<Token>,
        itab: &Vec<InsEntry>,
        types: &TypeTables,
    ) -> (r: Result<(), AsmError>)
        requires
            wf_instr_table(instructions_view(*itab)),
        ensures
            match spec_gen_all(tokens_view(*tokens), instructions_view(*itab), tables_view(*types)) {
                Ok(bs) => r is Ok && final(self).bytes@ == old(self).bytes@ + bs,
                Err(k) => r is Err && r->Err_0.kind == k,
            },
            final(self).bytes@.len() >= old(self).bytes@.len(),
            final(self).bytes@.take(old(self).bytes@.len() as int) == old(self).bytes@,
    {
        let ghost tv = tokens_view(*tokens);
        let ghost iv = instructions_view(*itab);
        let ghost tys = tables_view(*types);
        let mut i: usize = 0;
        proof {
            assert(tv.skip(0) =~= tv);
            assert(old(self).bytes@ + Seq::<u8>::empty() =~= old(self).bytes@);
            assert(self.bytes@.take(self.bytes@.len() as int) =~= self.bytes@);
            assert(self.bytes@.skip(self.bytes@.len() as int) =~= Seq::<u8>::empty());
        }
        while i < tokens.len()
            invariant
                0 <= i <= tokens@.len(),
                tv == tokens_view(*tokens),
                iv == instructions_view(*itab),
                tys == tables_view(*types),
                wf_instr_table(iv),
                old(self).bytes@.len() <= self.bytes@.len(),
                self.bytes@.take(old(self).bytes@.len() as int) == old(self).bytes@,
                match spec_gen_all(tv.skip(i as int), iv, tys) {
                    Ok(rest) => spec_gen_all(tv, iv, tys) == Ok::<Seq<u8>, ErrorKind>(
                        self.bytes@.skip(old(self).bytes@.len() as int) + rest,
                    ),
                    Err(k) => spec_gen_all(tv, iv, tys) == Err::<Seq<u8>, ErrorKind>(k),
                },
            decreases tokens@.len() - i,
        {
            proof {
                assert(tv.skip(i as int).first() == tv[i as int]);
                assert(tv.skip(i as int).drop_first() =~= tv.skip(i + 1));
                assert(tv[i as int] == tokens@[i as int]@);
            }
            let ghost bytes0 = self.bytes@;
            match self.gen_token(&tokens[i], itab, types) {
                Ok(()) => {},
                Err(e) => {
                    return Err(e);
                },
            }
            proof {
                let base = old(self).bytes@.len() as int;
                if let Ok(bs) = spec_gen_token(tv[i as int], iv, tys) {
                    assert(self.bytes@.take(base) =~= bytes0.take(base));
                    assert(self.bytes@.skip(base) =~= bytes0.skip(base) + bs);
                    if let Ok(rest) = spec_gen_all(tv.skip(i + 1), iv, tys) {
                        assert(bytes0.skip(base) + (bs + rest)
                            =~= self.bytes@.skip(base) + rest);
                    }
                }
            }
            i += 1;
        }
        proof {
            assert(tv.skip(tokens@.len() as int) =~= Seq::<TokenView>::empty());
            assert(self.bytes@.skip(old(self).bytes@.len() as int) + Seq::<u8>::empty()
                =~= self.bytes@.skip(old(self).bytes@.len() as int));
            assert(self.bytes@ =~= self.bytes@.take(old(self).bytes@.len() as int)
                + self.bytes@.skip(old(self).bytes@.len() as int));
        }
        Ok(())
    }

    /// Emits a whole resolved program into the image per [`spec_gen_all`].
    pub fn gen(
        &mut self,
        tokens: &Vec<Token>,
        itab: &Vec<InsEntry>,
        types: &TypeTables,
    ) -> (r: Result<(), AsmError>)
        requires
            wf_instr_table(instructions_view(*itab)),
        ensures
            match spec_gen_all(tokens_view(*tokens), instructions_view(*itab), tables_view(*types)) {
                Ok(bs) => r is Ok && final(self).bytes@ == old(self).bytes@ + bs,
                Err(k) => r is Err && r->Err_0.kind == k,
            },
            final(self).bytes@.len() >= old(self).bytes@.len(),
            final(self).bytes@.take(old(self).bytes@.len() as int) == old(self).bytes@,
    {
        self.gen_block(tokens, itab, types)
    }
}

} // verus!
