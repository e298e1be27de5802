//! The instruction-format compiler: a bit-template string such as
//! `"{R4} 0 010"` becomes an ordered field list — literal bit runs, `IMM`
//! immediates, `E` optional extras, and named lookup fields — once, at
//! startup, for every mnemonic of the instruction set.

use vstd::prelude::*;
use crate::errors::{AsmError, ErrorKind};
use crate::numbers::{is_digit, valid_digits, spec_parse_u64, parse_u64};
use crate::tables::{TypeTables, tables_view, spec_table_get, table_find};
use crate::text::{ascii_upper, spec_upper, bytes_eq};

verus! {

/// One compiled field of an instruction's encoding.
#[derive(Debug)]
pub enum InstructionPart {
    /// Literal bits, emitted as they stand.
    Const { val: Vec<u8> },
    /// A numeric field of `size` bits, fed by one argument.
    Imm { size: usize },
    /// A field of `size` bits fed by a symbol looked up in the table
    /// tagged `val`.
    Type { val: Vec<u8>, size: usize },
    /// An optional numeric field of `size` bits, zero when no argument
    /// remains.
    Extra { size: usize },
}

/// The ghost mirror of [`InstructionPart`].
pub enum InstructionPartView {
    Const { val: Seq<u8> },
    Imm { size: nat },
    Type { val: Seq<u8>, size: nat },
    Extra { size: nat },
}

/// The ghost value of one field.
pub open spec fn part_view(p: InstructionPart) -> InstructionPartView {
    match p {
        InstructionPart::Const { val } => InstructionPartView::Const { val: val@ },
        InstructionPart::Imm { size } => InstructionPartView::Imm { size: size as nat },
        InstructionPart::Type { val, size } => InstructionPartView::Type {
            val: val@,
            size: size as nat,
        },
        InstructionPart::Extra { size } => InstructionPartView::Extra { size: size as nat },
    }
}

impl View for InstructionPart {
    type V = InstructionPartView;

    open spec fn view(&self) -> InstructionPartView {
        part_view(*self)
    }
}

/// The ghost values of a field list, element for element.
pub open spec fn parts_view(v: Vec<InstructionPart>) -> Seq<InstructionPartView> {
    v@.map_values(|p: InstructionPart| p@)
}

/// One compiled instruction: its mnemonic and its field list.
#[derive(Debug)]
pub struct InsEntry {
    pub mnemonic: Vec<u8>,
    pub parts: Vec<InstructionPart>,
}

/// The ghost value of the instruction table, entry for entry.
pub open spec fn instructions_view(v: Vec<InsEntry>) -> Seq<(Seq<u8>, Seq<InstructionPartView>)> {
    v@.map_values(|e: InsEntry| (e.mnemonic@, parts_view(e.parts)))
}

/// The field list under a mnemonic, the latest entry winning.
pub open spec fn spec_instr_get(
    es: Seq<(Seq<u8>, Seq<InstructionPartView>)>,
    name: Seq<u8>,
) -> Option<Seq<InstructionPartView>>
    decreases es.len(),
{
    if es.len() == 0 {
        None
    } else if es.last().0 == name {
        Some(es.last().1)
    } else {
        spec_instr_get(es.drop_last(), name)
    }
}

/// A whitespace byte, the line break included.
pub open spec fn is_space(b: u8) -> bool {
    b == 32 || b == 9 || b == 10 || b == 13 || b == 11 || b == 12
}

/// A literal bit byte.
pub open spec fn is_bit(b: u8) -> bool {
    b == 48 || b == 49
}

/// An ASCII letter.
pub open spec fn is_alpha(b: u8) -> bool {
    (65 <= b <= 90) || (97 <= b <= 122)
}

/// The first position at or after `i` past the run of whitespace.
pub open spec fn space_end(s: Seq<u8>, i: int) -> int
    decreases s.len() - i,
{
    if 0 <= i < s.len() && is_space(s[i]) {
        space_end(s, i + 1)
    } else {
        i
    }
}

/// The literal bits inside the maximal run of whitespace and bit bytes
/// from `i`, and the position past that run.
pub open spec fn scan_bits(s: Seq<u8>, i: int) -> (Seq<u8>, int)
    decreases s.len() - i,
{
    if 0 <= i < s.len() && is_space(s[i]) {
        scan_bits(s, i + 1)
    } else if 0 <= i < s.len() && is_bit(s[i]) {
        let (v, e) = scan_bits(s, i + 1);
        (seq![s[i]] + v, e)
    } else {
        (Seq::empty(), i)
    }
}

/// The maximal run of letters from `i`, and the position past it.
pub open spec fn scan_alpha(s: Seq<u8>, i: int) -> (Seq<u8>, int)
    decreases s.len() - i,
{
    if 0 <= i < s.len() && is_alpha(s[i]) {
        let (v, e) = scan_alpha(s, i + 1);
        (seq![s[i]] + v, e)
    } else {
        (Seq::empty(), i)
    }
}

/// The maximal run of decimal digits from `i`, and the position past it.
pub open spec fn scan_digits(s: Seq<u8>, i: int) -> (Seq<u8>, int)
    decreases s.len() - i,
{
    if 0 <= i < s.len() && is_digit(s[i], 10) {
        let (v, e) = scan_digits(s, i + 1);
        (seq![s[i]] + v, e)
    } else {
        (Seq::empty(), i)
    }
}

/// Every template scan lands between its start and the end of the text.
pub proof fn lemma_tmpl_scan_bounds(s: Seq<u8>, i: int)
    requires
        0 <= i <= s.len(),
    ensures
        i <= space_end(s, i) <= s.len(),
        i <= scan_bits(s, i).1 <= s.len(),
        i <= scan_alpha(s, i).1 <= s.len(),
        i <= scan_digits(s, i).1 <= s.len(),
        scan_bits(s, i).0.len() > 0 ==> scan_bits(s, i).1 > i,
    decreases s.len() - i,
{
    if i < s.len() {
        lemma_tmpl_scan_bounds(s, i + 1);
    }
}

/// A brace group read at `j`, which must hold `{`: whitespace, a type
/// tag of letters, whitespace, a decimal width, whitespace and `}`. The
/// tag is upper-cased: `IMM` makes an immediate field, `E` an extra
/// field, and any other tag must name a lookup table. Yields the field
/// and the position past `}`.
pub open spec fn spec_scan_curly(
    s: Seq<u8>,
    j: int,
    types: Seq<(Seq<u8>, Seq<(Seq<u8>, u64)>)>,
) -> Result<(InstructionPartView, int), ErrorKind> {
    let k = space_end(s, j + 1);
    let (tag, k2) = scan_alpha(s, k);
    if tag.len() == 0 {
        Err(ErrorKind::BadFieldTemplate)
    } else {
        let k3 = space_end(s, k2);
        let (digits, k4) = scan_digits(s, k3);
        if digits.len() == 0 {
            Err(ErrorKind::BadFieldTemplate)
        } else {
            let k5 = space_end(s, k4);
            if k5 >= s.len() || s[k5] != 125 {
                Err(ErrorKind::BadFieldTemplate)
            } else {
                match spec_parse_u64(digits, 10) {
                    Err(k) => Err(k),
                    Ok(size) => {
                        if size > usize::MAX {
                            Err(ErrorKind::NumberTooBig)
                        } else {
                            let up = spec_upper(tag);
                            if up == seq![73u8, 77u8, 77u8] {
                                Ok((InstructionPartView::Imm { size: size as nat }, k5 + 1))
                            } else if up == seq![69u8] {
                                Ok((InstructionPartView::Extra { size: size as nat }, k5 + 1))
                            } else if spec_table_get(types, up) is Some {
                                Ok(
                                    (
                                        InstructionPartView::Type {
                                            val: up,
                                            size: size as nat,
                                        },
                                        k5 + 1,
                                    ),
                                )
                            } else {
                                Err(ErrorKind::UnknownType)
                            }
                        }
                    },
                }
            }
        }
    }
}

/// The whole field list of one template, read from position `i`: literal
/// bit runs and brace groups until the text ends; a byte that can start
/// neither is refused.
pub open spec fn spec_lex_template(
    s: Seq<u8>,
    i: int,
    types: Seq<(Seq<u8>, Seq<(Seq<u8>, u64)>)>,
) -> Result<Seq<InstructionPartView>, ErrorKind>
    decreases s.len() - i,
    when 0 <= i
    via spec_lex_template_dec
{
    if i >= s.len() {
        Ok(Seq::empty())
    } else {
        let (bits, e) = scan_bits(s, i);
        if bits.len() > 0 {
            match spec_lex_template(s, e, types) {
                Err(k) => Err(k),
                Ok(rest) => Ok(seq![InstructionPartView::Const { val: bits }] + rest),
            }
        } else {
            let j = space_end(s, i);
            if j >= s.len() {
                Err(ErrorKind::BadFieldTemplate)
            } else if s[j] == 123 {
                match spec_scan_curly(s, j, types) {
                    Err(k) => Err(k),
                    Ok((part, e2)) => match spec_lex_template(s, e2, types) {
                        Err(k) => Err(k),
                        Ok(rest) => Ok(seq![part] + rest),
                    },
                }
            } else {
                Err(ErrorKind::UnexpectedCharacter)
            }
        }
    }
}

#[via_fn]
proof fn spec_lex_template_dec(
    s: Seq<u8>,
    i: int,
    types: Seq<(Seq<u8>, Seq<(Seq<u8>, u64)>)>,
) {
    if 0 <= i < s.len() {
        lemma_tmpl_scan_bounds(s, i);
        let j = space_end(s, i);
        if j < s.len() {
            lemma_tmpl_scan_bounds(s, j + 1);
            let k = space_end(s, j + 1);
            lemma_tmpl_scan_bounds(s, k);
            let (tag, k2) = scan_alpha(s, k);
            lemma_tmpl_scan_bounds(s, k2);
            let k3 = space_end(s, k2);
            lemma_tmpl_scan_bounds(s, k3);
            let (digits, k4) = scan_digits(s, k3);
            lemma_tmpl_scan_bounds(s, k4);
            let k5 = space_end(s, k4);
            lemma_tmpl_scan_bounds(s, k5);
        }
    }
}


/// Whether a whitespace or bit byte stands at `i`.
fn space_or_bit_at(s: &[u8], i: usize) -> (r: bool)
    ensures
        r == (i < s@.len() && (is_space(s@[i as int]) || is_bit(s@[i as int]))),
{
    if i >= s.len() {
        return false;
    }
    let b = s[i];
    b == 32 || b == 9 || b == 10 || b == 13 || b == 11 || b == 12 || b == 48 || b == 49
}

/// Whether a whitespace byte stands at `i`.
fn space_at(s: &[u8], i: usize) -> (r: bool)
    ensures
        r == (i < s@.len() && is_space(s@[i as int])),
{
    if i >= s.len() {
        return false;
    }
    let b = s[i];
    b == 32 || b == 9 || b == 10 || b == 13 || b == 11 || b == 12
}

/// Whether a letter stands at `i`.
fn alpha_at(s: &[u8], i: usize) -> (r: bool)
    ensures
        r == (i < s@.len() && is_alpha(s@[i as int])),
{
    if i >= s.len() {
        return false;
    }
    let b = s[i];
    (65 <= b && b <= 90) || (97 <= b && b <= 122)
}

/// Whether a decimal digit stands at `i`.
fn digit_at(s: &[u8], i: usize) -> (r: bool)
    ensures
        r == (i < s@.len() && is_digit(s@[i as int], 10)),
{
    if i >= s.len() {
        return false;
    }
    let b = s[i];
    48 <= b && b <= 57
}

/// One instruction template as source text: the mnemonic and its bit
/// template.
#[derive(Debug)]
pub struct InsTemplate {
    pub mnemonic: Vec<u8>,
    pub template: Vec<u8>,
}

/// The ghost values of a template list, pair for pair.
pub open spec fn templates_view(v: Vec<InsTemplate>) -> Seq<(Seq<u8>, Seq<u8>)> {
    v@.map_values(|t: InsTemplate| (t.mnemonic@, t.template@))
}

/// A whole template list compiled, the first failing template winning.
pub open spec fn spec_compile_table(
    ts: Seq<(Seq<u8>, Seq<u8>)>,
    types: Seq<(Seq<u8>, Seq<(Seq<u8>, u64)>)>,
) -> Result<Seq<(Seq<u8>, Seq<InstructionPartView>)>, ErrorKind>
    decreases ts.len(),
{
    if ts.len() == 0 {
        Ok(Seq::empty())
    } else {
        match spec_lex_template(ts.first().1, 0, types) {
            Err(k) => Err(k),
            Ok(parts) => match spec_compile_table(ts.drop_first(), types) {
                Err(k) => Err(k),
                Ok(rest) => Ok(seq![(ts.first().0, parts)] + rest),
            },
        }
    }
}

/// The total bit width of a field list.
pub open spec fn parts_width(ps: Seq<InstructionPartView>) -> nat
    decreases ps.len(),
{
    if ps.len() == 0 {
        0
    } else {
        parts_width(ps.drop_last()) + match ps.last() {
            InstructionPartView::Const { val } => val.len(),
            InstructionPartView::Imm { size } => size,
            InstructionPartView::Type { size, .. } => size,
            InstructionPartView::Extra { size } => size,
        }
    }
}

/// The template-compiling state: a scanning cursor and the instruction
/// table built so far.
#[derive(Debug)]
pub struct InstructionsLexer {
    pub cursor: usize,
    pub instructions: Vec<InsEntry>,
}

impl InstructionsLexer {
    /// A fresh compiler with an empty table.
    pub fn new() -> (r: InstructionsLexer)
        ensures
            r.instructions@.len() == 0,
    {
        InstructionsLexer { cursor: 0, instructions: Vec::new() }
    }

    /// Compiles one template per [`spec_lex_template`].
    #[verifier::rlimit(80)]
    fn lex_instruction(&mut self, template: &[u8], types: &TypeTables) -> (r: Result<
        Vec<InstructionPart>,
        AsmError,
    >)
        ensures
            final(self).instructions == old(self).instructions,
            match spec_lex_template(template@, 0, tables_view(*types)) {
                Ok(ps) => r is Ok && parts_view(r->Ok_0) == ps,
                Err(k) => r is Err && r->Err_0.kind == k,
            },
    {
        let ghost s = template@;
        let ghost tys = tables_view(*types);
        self.cursor = 0;
        let mut parts: Vec<InstructionPart> = Vec::new();
        proof {
            assert(parts_view(parts) =~= Seq::<InstructionPartView>::empty());
        }
        while self.cursor < template.len()
            invariant
                0 <= self.cursor <= s.len(),
                s == template@,
                tys == tables_view(*types),
                self.instructions == old(self).instructions,
                match spec_lex_template(s, self.cursor as int, tys) {
                    Ok(rest) => spec_lex_template(s, 0, tys) == Ok::<
                        Seq<InstructionPartView>,
                        ErrorKind,
                    >(parts_view(parts) + rest),
                    Err(k) => spec_lex_template(s, 0, tys) == Err::<
                        Seq<InstructionPartView>,
                        ErrorKind,
                    >(k),
                },
            decreases s.len() - self.cursor,
        {
            let ghost c0 = self.cursor as int;
            let ghost parts0 = parts_view(parts);
            proof {
                lemma_tmpl_scan_bounds(s, c0);
            }
            let mut bits: Vec<u8> = Vec::new();
            while space_or_bit_at(template, self.cursor)
                invariant
                    0 <= self.cursor <= s.len(),
                    s == template@,
                    self.instructions == old(self).instructions,
                    ({
                        let cont = scan_bits(s, self.cursor as int);
                        scan_bits(s, c0) == (bits@ + cont.0, cont.1)
                    }),
                decreases s.len() - self.cursor,
            {
                let b = template[self.cursor];
                if b == 48 || b == 49 {
                    bits.push(b);
                    proof {
                        let cont = scan_bits(s, self.cursor + 1);
                        assert((bits@.drop_last() + (seq![b] + cont.0))
                            =~= (bits@ + cont.0));
                    }
                }
                self.cursor += 1;
            }
            proof {
                let cont = scan_bits(s, self.cursor as int);
                assert(cont.0 =~= Seq::<u8>::empty());
                assert(bits@ + cont.0 =~= bits@);
                assert(scan_bits(s, c0) == (bits@, self.cursor as int));
            }
            if bits.len() > 0 {
                parts.push(InstructionPart::Const { val: bits });
                proof {
                    assert(parts_view(parts) =~= parts0.push(
                        InstructionPartView::Const { val: scan_bits(s, c0).0 },
                    ));
                    if let Ok(rest) = spec_lex_template(s, scan_bits(s, c0).1, tys) {
                        assert(parts0 + (seq![
                            InstructionPartView::Const { val: scan_bits(s, c0).0 },
                        ] + rest) =~= parts_view(parts) + rest);
                    }
                }
                continue;
            }
            proof {
                assert(self.cursor as int == space_end(s, c0)) by {
                    assert(scan_bits(s, c0).1 == self.cursor as int);
                    lemma_scan_bits_all_space(s, c0);
                }
            }
            if self.cursor >= template.len() {
                return Err(AsmError::at(ErrorKind::BadFieldTemplate, 0, 0));
            }
            let ghost j = self.cursor as int;
            if template[self.cursor] != 123 {
                return Err(AsmError::at(ErrorKind::UnexpectedCharacter, 0, 0));
            }
            self.cursor += 1;
            proof {
                lemma_tmpl_scan_bounds(s, j + 1);
            }
            while space_at(template, self.cursor)
                invariant
                    0 <= self.cursor <= s.len(),
                    s == template@,
                    self.instructions == old(self).instructions,
                    self.cursor >= j + 1,
                    space_end(s, j + 1) == space_end(s, self.cursor as int),
                decreases s.len() - self.cursor,
            {
                self.cursor += 1;
            }
            proof {
                assert(self.cursor as int == space_end(s, j + 1));
            }
            let ghost k = self.cursor as int;
            let mut tag: Vec<u8> = Vec::new();
            while alpha_at(template, self.cursor)
                invariant
                    0 <= self.cursor <= s.len(),
                    s == template@,
                    self.instructions == old(self).instructions,
                    self.cursor >= k,
                    ({
                        let cont = scan_alpha(s, self.cursor as int);
                        scan_alpha(s, k) == (tag@ + cont.0, cont.1)
                    }),
                decreases s.len() - self.cursor,
            {
                let b = template[self.cursor];
                tag.push(b);
                proof {
                    let cont = scan_alpha(s, self.cursor + 1);
                    assert((tag@.drop_last() + (seq![b] + cont.0)) =~= (tag@ + cont.0));
                }
                self.cursor += 1;
            }
            proof {
                let cont = scan_alpha(s, self.cursor as int);
                assert(cont.0 =~= Seq::<u8>::empty());
                assert(tag@ + cont.0 =~= tag@);
                assert(scan_alpha(s, k) == (tag@, self.cursor as int));
            }
            if tag.len() == 0 {
                return Err(AsmError::at(ErrorKind::BadFieldTemplate, 0, 0));
            }
            let ghost k2 = self.cursor as int;
            while space_at(template, self.cursor)
                invariant
                    0 <= self.cursor <= s.len(),
                    s == template@,
                    self.instructions == old(self).instructions,
                    self.cursor >= k2,
                    space_end(s, k2) == space_end(s, self.cursor as int),
                decreases s.len() - self.cursor,
            {
                self.cursor += 1;
            }
            let ghost k3 = self.cursor as int;
            proof {
                assert(k3 == space_end(s, k2));
            }
            let mut digits: Vec<u8> = Vec::new();
            while digit_at(template, self.cursor)
                invariant
                    0 <= self.cursor <= s.len(),
                    s == template@,
                    self.instructions == old(self).instructions,
                    self.cursor >= k3,
                    ({
                        let cont = scan_digits(s, self.cursor as int);
                        scan_digits(s, k3) == (digits@ + cont.0, cont.1)
                    }),
                decreases s.len() - self.cursor,
            {
                let b = template[self.cursor];
                digits.push(b);
                proof {
                    let cont = scan_digits(s, self.cursor + 1);
                    assert((digits@.drop_last() + (seq![b] + cont.0)) =~= (digits@ + cont.0));
                }
                self.cursor += 1;
            }
            proof {
                let cont = scan_digits(s, self.cursor as int);
                assert(cont.0 =~= Seq::<u8>::empty());
                assert(digits@ + cont.0 =~= digits@);
                assert(scan_digits(s, k3) == (digits@, self.cursor as int));
            }
            if digits.len() == 0 {
                return Err(AsmError::at(ErrorKind::BadFieldTemplate, 0, 0));
            }
            let ghost k4 = self.cursor as int;
            while space_at(template, self.cursor)
                invariant
                    0 <= self.cursor <= s.len(),
                    s == template@,
                    self.instructions == old(self).instructions,
                    self.cursor >= k4,
                    space_end(s, k4) == space_end(s, self.cursor as int),
                decreases s.len() - self.cursor,
            {
                self.cursor += 1;
            }
            let ghost k5 = self.cursor as int;
            proof {
                assert(k5 == space_end(s, k4));
            }
            if self.cursor >= template.len() {
                return Err(AsmError::at(ErrorKind::BadFieldTemplate, 0, 0));
            }
            if template[self.cursor] != 125 {
                return Err(AsmError::at(ErrorKind::BadFieldTemplate, 0, 0));
            }
            self.cursor += 1;
            let size64 = match parse_u64(digits.as_slice(), 10) {
                Ok(v) => v,
                Err(kind) => {
                    return Err(AsmError::at(kind, 0, 0));
                },
            };
            if size64 > usize::MAX as u64 {
                return Err(AsmError::at(ErrorKind::NumberTooBig, 0, 0));
            }
            let size: usize = size64 as usize;
            let up = ascii_upper(tag.as_slice());
            let part: InstructionPart = if crate::text::bytes_is3(up.as_slice(), 73, 77, 77) {
                InstructionPart::Imm { size }
            } else if crate::text::bytes_is1(up.as_slice(), 69) {
                InstructionPart::Extra { size }
            } else {
                match table_find(types, up.as_slice()) {
                    Some(_) => InstructionPart::Type { val: up, size },
                    None => {
                        return Err(AsmError::at(ErrorKind::UnknownType, 0, 0));
                    },
                }
            };
            let ghost pv = part@;
            parts.push(part);
            proof {
                assert(spec_scan_curly(s, j, tys) == Ok::<(InstructionPartView, int), ErrorKind>(
                    (pv, self.cursor as int),
                ));
                assert(parts_view(parts) =~= parts0.push(pv));
                if let Ok(rest) = spec_lex_template(s, self.cursor as int, tys) {
                    assert(parts0 + (seq![pv] + rest) =~= parts_view(parts) + rest);
                }
            }
        }
        proof {
            assert(parts_view(parts) + Seq::<InstructionPartView>::empty()
                =~= parts_view(parts));
        }
        Ok(parts)
    }

    /// Compiles a whole template list into the instruction table per
    /// [`spec_compile_table`].
    pub fn lex_instructions(&mut self, templates: &Vec<InsTemplate>, types: &TypeTables) -> (r:
        Result<(), AsmError>)
        ensures
            match spec_compile_table(templates_view(*templates), tables_view(*types)) {
                Ok(tbl) => r is Ok && instructions_view(final(self).instructions) == tbl,
                Err(k) => r is Err && r->Err_0.kind == k,
            },
            r is Ok ==> wf_instr_table(instructions_view(final(self).instructions)),
    {
        proof {
            lemma_compile_table_wf(templates_view(*templates), tables_view(*types));
        }
        let ghost tv = templates_view(*templates);
        let ghost tys = tables_view(*types);
        let mut built: Vec<InsEntry> = Vec::new();
        let mut i: usize = 0;
        proof {
            assert(tv.skip(0) =~= tv);
            assert(instructions_view(built) =~= Seq::<(Seq<u8>, Seq<InstructionPartView>)>::empty());
        }
        while i < templates.len()
            invariant
                0 <= i <= templates@.len(),
                tv == templates_view(*templates),
                tys == tables_view(*types),
                match spec_compile_table(tv.skip(i as int), tys) {
                    Ok(rest) => spec_compile_table(tv, tys) == Ok::<
                        Seq<(Seq<u8>, Seq<InstructionPartView>)>,
                        ErrorKind,
                    >(instructions_view(built) + rest),
                    Err(k) => spec_compile_table(tv, tys) == Err::<
                        Seq<(Seq<u8>, Seq<InstructionPartView>)>,
                        ErrorKind,
                    >(k),
                },
            decreases templates@.len() - i,
        {
            proof {
                assert(tv.skip(i as int).first() == tv[i as int]);
                assert(tv.skip(i as int).drop_first() =~= tv.skip(i + 1));
                assert(tv[i as int] == (templates@[i as int].mnemonic@,
                    templates@[i as int].template@));
            }
            let ghost built0 = instructions_view(built);
            let parts = match self.lex_instruction(templates[i].template.as_slice(), types) {
                Ok(p) => p,
                Err(e) => {
                    return Err(e);
                },
            };
            let ghost pv = parts_view(parts);
            built.push(InsEntry {
                mnemonic: crate::text::copy_bytes(&templates[i].mnemonic),
                parts,
            });
            proof {
                assert(instructions_view(built) =~= built0.push(
                    (templates@[i as int].mnemonic@, pv),
                ));
                if let Ok(rest) = spec_compile_table(tv.skip(i + 1), tys) {
                    assert(built0 + (seq![(templates@[i as int].mnemonic@, pv)] + rest)
                        =~= instructions_view(built) + rest);
                }
            }
            i += 1;
        }
        proof {
            assert(tv.skip(templates@.len() as int)
                =~= Seq::<(Seq<u8>, Seq<u8>)>::empty());
            assert(instructions_view(built) + Seq::<(Seq<u8>, Seq<InstructionPartView>)>::empty()
                =~= instructions_view(built));
        }
        self.instructions = built;
        Ok(())
    }

    /// The encoded byte length of a mnemonic: its total field width
    /// rounded up to whole bytes, or the largest machine word for a
    /// mnemonic the table does not hold.
    pub fn get_instruction_size(&self, name: &[u8]) -> (r: usize)
        ensures
            match spec_instr_get(instructions_view(self.instructions), name@) {
                None => r == usize::MAX,
                Some(ps) => {
                    &&& parts_width(ps) + 8 <= usize::MAX ==> ({
                        let w = parts_width(ps);
                        r == w / 8 + (if w % 8 != 0 { 1nat } else { 0nat })
                    })
                },
            },
    {
        let ghost iv = instructions_view(self.instructions);
        let mut i: usize = self.instructions.len();
        proof {
            assert(iv.take(self.instructions@.len() as int) =~= iv);
        }
        while i > 0
            invariant
                0 <= i <= self.instructions@.len(),
                iv == instructions_view(self.instructions),
                spec_instr_get(iv, name@) == spec_instr_get(iv.take(i as int), name@),
            decreases i,
        {
            i -= 1;
            proof {
                assert(iv.take(i + 1).last() == iv[i as int]);
                assert(iv.take(i + 1).drop_last() =~= iv.take(i as int));
            }
            if bytes_eq(self.instructions[i].mnemonic.as_slice(), name) {
                let parts = &self.instructions[i].parts;
                let ghost ps = parts_view(*parts);
                let mut width: u64 = 0;
                let mut j: usize = 0;
                let mut saturated = false;
                proof {
                    assert(ps.take(0) =~= Seq::<InstructionPartView>::empty());
                }
                while j < parts.len()
                    invariant
                        0 <= j <= parts@.len(),
                        ps == parts_view(*parts),
                        !saturated ==> width == parts_width(ps.take(j as int)),
                        saturated ==> parts_width(ps.take(j as int)) > u64::MAX - 8,
                    decreases parts@.len() - j,
                {
                    proof {
                        assert(ps.take(j + 1).drop_last() =~= ps.take(j as int));
                        assert(ps.take(j + 1).last() == ps[j as int]);
                        assert(ps[j as int] == parts@[j as int]@);
                    }
                    let add: usize = match &parts[j] {
                        InstructionPart::Const { val } => val.len(),
                        InstructionPart::Imm { size } => *size,
                        InstructionPart::Type { size, .. } => *size,
                        InstructionPart::Extra { size } => *size,
                    };
                    if !saturated {
                        if add as u64 > u64::MAX - 8 || width > u64::MAX - 8 - (add as u64) {
                            saturated = true;
                        } else {
                            width = width + add as u64;
                        }
                    } else {
                        proof {
                            lemma_parts_width_prefix(ps, j as int, j + 1);
                        }
                    }
                    j += 1;
                }
                proof {
                    assert(ps.take(parts@.len() as int) =~= ps);
                }
                if saturated {
                    return usize::MAX;
                }
                if width / 8 + 1 > usize::MAX as u64 {
                    return usize::MAX;
                }
                let mut ret: u64 = width / 8;
                if width % 8 != 0 {
                    ret = ret + 1;
                }
                return ret as usize;
            }
        }
        proof {
            assert(iv.take(0) =~= Seq::<(Seq<u8>, Seq<InstructionPartView>)>::empty());
        }
        usize::MAX
    }
}

/// Field widths only grow as more fields are counted.
pub proof fn lemma_parts_width_prefix(ps: Seq<InstructionPartView>, i: int, j: int)
    requires
        0 <= i <= j <= ps.len(),
    ensures
        parts_width(ps.take(i)) <= parts_width(ps.take(j)),
    decreases j - i,
{
    if i < j {
        lemma_parts_width_prefix(ps, i, j - 1);
        assert(ps.take(j).drop_last() =~= ps.take(j - 1));
    }
}

/// When a bit scan collects nothing, it only moved over whitespace.
pub proof fn lemma_scan_bits_all_space(s: Seq<u8>, i: int)
    requires
        0 <= i <= s.len(),
        scan_bits(s, i).0.len() == 0,
    ensures
        scan_bits(s, i).1 == space_end(s, i),
    decreases s.len() - i,
{
    if i < s.len() && is_space(s[i]) {
        lemma_scan_bits_all_space(s, i + 1);
    }
}

/// A well-formed field: a literal run holds only bit bytes.
pub open spec fn wf_part(p: InstructionPartView) -> bool {
    match p {
        InstructionPartView::Const { val } => valid_digits(val, 2),
        _ => true,
    }
}

/// A well-formed instruction table: every field of every entry is
/// well-formed.
pub open spec fn wf_instr_table(es: Seq<(Seq<u8>, Seq<InstructionPartView>)>) -> bool {
    forall|i: int, j: int|
        0 <= i < es.len() && 0 <= j < es[i].1.len() ==> wf_part(#[trigger] es[i].1[j])
}

/// A bit scan collects only bit bytes.
pub proof fn lemma_scan_bits_valid(s: Seq<u8>, i: int)
    ensures
        valid_digits(scan_bits(s, i).0, 2),
    decreases s.len() - i,
{
    if 0 <= i < s.len() && (is_space(s[i]) || is_bit(s[i])) {
        lemma_scan_bits_valid(s, i + 1);
    }
}

/// Every field a template compiles to is well-formed.
pub proof fn lemma_lex_template_wf(
    s: Seq<u8>,
    i: int,
    types: Seq<(Seq<u8>, Seq<(Seq<u8>, u64)>)>,
)
    requires
        0 <= i,
    ensures
        match spec_lex_template(s, i, types) {
            Ok(ps) => forall|j: int| 0 <= j < ps.len() ==> wf_part(#[trigger] ps[j]),
            Err(_) => true,
        },
    decreases s.len() - i,
{
    if i < s.len() {
        let (bits, e) = scan_bits(s, i);
        lemma_tmpl_scan_bounds(s, i);
        if bits.len() > 0 {
            lemma_scan_bits_valid(s, i);
            lemma_lex_template_wf(s, e, types);
        } else {
            let j = space_end(s, i);
            if j < s.len() && s[j] == 123 {
                if let Ok((part, e2)) = spec_scan_curly(s, j, types) {
                    lemma_scan_curly_bounds(s, j, types);
                    lemma_lex_template_wf(s, e2, types);
                }
            }
        }
    }
}

/// Every table a template list compiles to is well-formed.
pub proof fn lemma_compile_table_wf(
    ts: Seq<(Seq<u8>, Seq<u8>)>,
    types: Seq<(Seq<u8>, Seq<(Seq<u8>, u64)>)>,
)
    ensures
        match spec_compile_table(ts, types) {
            Ok(tbl) => wf_instr_table(tbl),
            Err(_) => true,
        },
    decreases ts.len(),
{
    if ts.len() > 0 {
        lemma_lex_template_wf(ts.first().1, 0, types);
        lemma_compile_table_wf(ts.drop_first(), types);
    }
}

/// A lookup in a well-formed table yields well-formed fields.
pub proof fn lemma_instr_get_wf(es: Seq<(Seq<u8>, Seq<InstructionPartView>)>, name: Seq<u8>)
    requires
        wf_instr_table(es),
    ensures
        match spec_instr_get(es, name) {
            Some(ps) => forall|j: int| 0 <= j < ps.len() ==> wf_part(#[trigger] ps[j]),
            None => true,
        },
    decreases es.len(),
{
    if es.len() > 0 {
        if es.last().0 == name {
            assert(es[es.len() - 1] == es.last());
        } else {
            assert(wf_instr_table(es.drop_last())) by {
                assert(forall|i: int, j: int|
                    0 <= i < es.len() - 1 && 0 <= j < es.drop_last()[i].1.len()
                        ==> #[trigger] es.drop_last()[i].1[j] == es[i].1[j]);
            };
            lemma_instr_get_wf(es.drop_last(), name);
        }
    }
}

/// The scan lands strictly past the opening brace, inside the text.
pub proof fn lemma_scan_curly_bounds(
    s: Seq<u8>,
    j: int,
    types: Seq<(Seq<u8>, Seq<(Seq<u8>, u64)>)>,
)
    requires
        0 <= j < s.len(),
    ensures
        match spec_scan_curly(s, j, types) {
            Ok(pair) => j < pair.1 <= s.len(),
            Err(_) => true,
        },
{
    lemma_tmpl_scan_bounds(s, j + 1);
    let k = space_end(s, j + 1);
    lemma_tmpl_scan_bounds(s, k);
    let (tag, k2) = scan_alpha(s, k);
    lemma_tmpl_scan_bounds(s, k2);
    let k3 = space_end(s, k2);
    lemma_tmpl_scan_bounds(s, k3);
    let (digits, k4) = scan_digits(s, k3);
    lemma_tmpl_scan_bounds(s, k4);
    let k5 = space_end(s, k4);
    lemma_tmpl_scan_bounds(s, k5);
}

} // verus!
