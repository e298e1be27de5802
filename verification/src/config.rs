//! The assembler's compiled-in configuration: the register and condition
//! lookup tables, the instruction bit templates and the pseudo-instruction
//! templates. Each constructor's contract names its exact entry list, so
//! the default assembler is pinned end to end; the pipeline takes the
//! tables as explicit arguments, so tests can hand it other ones just as
//! well.

use vstd::prelude::*;
use vstd::slice::slice_to_vec;
use vstd::string::StringSliceAdditionalSpecFns;
use crate::instruction_lexer::{InsTemplate, templates_view};
use crate::pseudo::{PseudoTemplate, pseudo_templates_view};
use crate::tables::{NamedTable, TableEntry, TypeTables, entries_view, tables_view};

verus! {

/// The bytes of a piece of configuration text.
fn text(s: &str) -> (r: Vec<u8>)
    ensures
        r@ == s.spec_bytes(),
{
    slice_to_vec(s.as_bytes())
}

/// One symbol of a lookup table.
fn entry(name: &str, value: u64) -> (r: TableEntry)
    ensures
        r.name@ == name.spec_bytes(),
        r.value == value,
{
    TableEntry { name: text(name), value }
}

/// The register symbols and their codes, in table order.
pub open spec fn spec_register_entries() -> Seq<(Seq<u8>, u64)> {
    seq![
        (("zero").spec_bytes(), 0u64),
        (("acc").spec_bytes(), 1u64),
        (("flg").spec_bytes(), 2u64),
        (("seg").spec_bytes(), 3u64),
        (("tr1").spec_bytes(), 4u64),
        (("tr2").spec_bytes(), 5u64),
        (("r0").spec_bytes(), 0u64),
        (("r1").spec_bytes(), 1u64),
        (("r2").spec_bytes(), 2u64),
        (("r3").spec_bytes(), 3u64),
        (("r4").spec_bytes(), 4u64),
        (("r5").spec_bytes(), 5u64),
        (("r6").spec_bytes(), 6u64),
        (("r7").spec_bytes(), 7u64),
        (("r8").spec_bytes(), 8u64),
        (("r9").spec_bytes(), 9u64),
        (("r10").spec_bytes(), 10u64),
        (("r11").spec_bytes(), 11u64),
        (("r12").spec_bytes(), 12u64),
        (("r13").spec_bytes(), 13u64),
        (("r14").spec_bytes(), 14u64),
        (("r15").spec_bytes(), 15u64),
    ]
}

/// The register table, tagged `R`: the six named registers and the
/// sixteen numbered ones, exactly [`spec_register_entries`].
pub fn default_registers() -> (r: NamedTable)
    ensures
        r.tag@ == ("R").spec_bytes(),
        entries_view(r.entries) == spec_register_entries(),
{
    let mut entries: Vec<TableEntry> = Vec::new();
    entries.push(entry("zero", 0));
    entries.push(entry("acc", 1));
    entries.push(entry("flg", 2));
    entries.push(entry("seg", 3));
    entries.push(entry("tr1", 4));
    entries.push(entry("tr2", 5));
    entries.push(entry("r0", 0));
    entries.push(entry("r1", 1));
    entries.push(entry("r2", 2));
    entries.push(entry("r3", 3));
    entries.push(entry("r4", 4));
    entries.push(entry("r5", 5));
    entries.push(entry("r6", 6));
    entries.push(entry("r7", 7));
    entries.push(entry("r8", 8));
    entries.push(entry("r9", 9));
    entries.push(entry("r10", 10));
    entries.push(entry("r11", 11));
    entries.push(entry("r12", 12));
    entries.push(entry("r13", 13));
    entries.push(entry("r14", 14));
    entries.push(entry("r15", 15));
    proof {
        assert(entries_view(entries) =~= spec_register_entries());
    }
    NamedTable { tag: text("R"), entries }
}

/// The condition symbols and their codes, in table order.
pub open spec fn spec_condition_entries() -> Seq<(Seq<u8>, u64)> {
    seq![
        (("false").spec_bytes(), 0u64),
        (("true").spec_bytes(), 1u64),
        (("na").spec_bytes(), 2u64),
        (("a").spec_bytes(), 3u64),
        (("nb").spec_bytes(), 4u64),
        (("b").spec_bytes(), 5u64),
        (("even").spec_bytes(), 6u64),
        (("odd").spec_bytes(), 7u64),
        (("nzero").spec_bytes(), 8u64),
        (("zero").spec_bytes(), 9u64),
        (("nsign").spec_bytes(), 10u64),
        (("sign").spec_bytes(), 11u64),
        (("ncarry").spec_bytes(), 12u64),
        (("carry").spec_bytes(), 13u64),
        (("noverflow").spec_bytes(), 14u64),
        (("overflow").spec_bytes(), 15u64),
    ]
}

/// The condition table, tagged `C`, exactly [`spec_condition_entries`].
pub fn default_conditions() -> (r: NamedTable)
    ensures
        r.tag@ == ("C").spec_bytes(),
        entries_view(r.entries) == spec_condition_entries(),
{
    let mut entries: Vec<TableEntry> = Vec::new();
    entries.push(entry("false", 0));
    entries.push(entry("true", 1));
    entries.push(entry("na", 2));
    entries.push(entry("a", 3));
    entries.push(entry("nb", 4));
    entries.push(entry("b", 5));
    entries.push(entry("even", 6));
    entries.push(entry("odd", 7));
    entries.push(entry("nzero", 8));
    entries.push(entry("zero", 9));
    entries.push(entry("nsign", 10));
    entries.push(entry("sign", 11));
    entries.push(entry("ncarry", 12));
    entries.push(entry("carry", 13));
    entries.push(entry("noverflow", 14));
    entries.push(entry("overflow", 15));
    proof {
        assert(entries_view(entries) =~= spec_condition_entries());
    }
    NamedTable { tag: text("C"), entries }
}

/// Both named lookup tables: `R` then `C`.
pub open spec fn spec_default_types() -> Seq<(Seq<u8>, Seq<(Seq<u8>, u64)>)> {
    seq![
        (("R").spec_bytes(), spec_register_entries()),
        (("C").spec_bytes(), spec_condition_entries()),
    ]
}

/// Both named lookup tables, exactly [`spec_default_types`].
pub fn default_types() -> (r: TypeTables)
    ensures
        tables_view(r) == spec_default_types(),
{
    let mut tables: Vec<NamedTable> = Vec::new();
    tables.push(default_registers());
    tables.push(default_conditions());
    let r = TypeTables { tables };
    proof {
        assert(tables_view(r) =~= spec_default_types());
    }
    r
}

/// One instruction template.
fn ins(mnemonic: &str, template: &str) -> (r: InsTemplate)
    ensures
        r.mnemonic@ == mnemonic.spec_bytes(),
        r.template@ == template.spec_bytes(),
{
    InsTemplate { mnemonic: text(mnemonic), template: text(template) }
}

/// The instruction set's bit templates, mnemonic and template text
/// each, in table order.
pub open spec fn spec_instruction_templates() -> Seq<(Seq<u8>, Seq<u8>)> {
    seq![
        (("ext").spec_bytes(), ("00000  000").spec_bytes()),
        (("swa").spec_bytes(), ("{R4}   0 001").spec_bytes()),
        (("add").spec_bytes(), ("{R4}   0 010").spec_bytes()),
        (("addi").spec_bytes(), ("{IMM4} 0 011").spec_bytes()),
        (("nand").spec_bytes(), ("{R4}   0 100").spec_bytes()),
        (("ld").spec_bytes(), ("{R4}   0 101").spec_bytes()),
        (("swa.f").spec_bytes(), ("{R4}   1 001").spec_bytes()),
        (("add.f").spec_bytes(), ("{R4}   1 010").spec_bytes()),
        (("addi.f").spec_bytes(), ("{IMM4} 1 011").spec_bytes()),
        (("nand.f").spec_bytes(), ("{R4}   1 100").spec_bytes()),
        (("ld.f").spec_bytes(), ("{R4}   1 101").spec_bytes()),
        (("st").spec_bytes(), ("{R4}   0 110").spec_bytes()),
        (("b").spec_bytes(), ("{C4}   0 111").spec_bytes()),
    ]
}

/// The instruction set's bit templates, exactly
/// [`spec_instruction_templates`]: a four-bit register, immediate or
/// condition field, a flag bit and a three-bit opcode each, but for the
/// all-zero `ext`.
pub fn default_instruction_templates() -> (r: Vec<InsTemplate>)
    ensures
        templates_view(r) == spec_instruction_templates(),
{
    let mut t: Vec<InsTemplate> = Vec::new();
    t.push(ins("ext", "00000  000"));
    t.push(ins("swa", "{R4}   0 001"));
    t.push(ins("add", "{R4}   0 010"));
    t.push(ins("addi", "{IMM4} 0 011"));
    t.push(ins("nand", "{R4}   0 100"));
    t.push(ins("ld", "{R4}   0 101"));
    t.push(ins("swa.f", "{R4}   1 001"));
    t.push(ins("add.f", "{R4}   1 010"));
    t.push(ins("addi.f", "{IMM4} 1 011"));
    t.push(ins("nand.f", "{R4}   1 100"));
    t.push(ins("ld.f", "{R4}   1 101"));
    t.push(ins("st", "{R4}   0 110"));
    t.push(ins("b", "{C4}   0 111"));
    proof {
        assert(templates_view(t) =~= spec_instruction_templates());
    }
    t
}

/// One pseudo-instruction template.
fn pseudo(header: &str, body: &str) -> (r: PseudoTemplate)
    ensures
        r.header@ == header.spec_bytes(),
        r.body@ == body.spec_bytes(),
{
    PseudoTemplate { header: text(header), body: text(body) }
}

/// The pseudo-instruction templates, header and body text each, in
/// table order.
pub open spec fn spec_pseudo_templates() -> Seq<(Seq<u8>, Seq<u8>)> {
    seq![
        (("nop").spec_bytes(), ("b false").spec_bytes()),
        (("lim imm").spec_bytes(), ("\n        swa zero\n        addi (((imm >> 4)+(( imm & 8 ) << 1)) & 0b00001111)\n        add acc\n        add acc\n        add acc\n        add acc\n        addi (imm & 0b00001111)\n    ").spec_bytes()),
        (("lda src").spec_bytes(), ("\n        swa zero\n        add src\n    ").spec_bytes()),
        (("sta dest").spec_bytes(), ("\n        swa dest\n        swa zero\n        add dest\n    ").spec_bytes()),
        (("mov dest, src").spec_bytes(), ("\n        swa dest\n        swa zero\n        add src\n        swa dest\n    ").spec_bytes()),
        (("not src").spec_bytes(), ("\n        swa zero\n        add src\n        nand acc\n    ").spec_bytes()),
        (("and src").spec_bytes(), ("\n        nand src\n        nand acc\n    ").spec_bytes()),
        (("andi imm").spec_bytes(), ("\n        swa tr1\n        lim imm\n        and tr1\n    ").spec_bytes()),
        (("or src").spec_bytes(), ("\n        nand acc\n        swa tr1\n        not src\n        nand tr1\n    ").spec_bytes()),
        (("ori imm").spec_bytes(), ("\n        nand acc\n        swa tr1\n        lim imm\n        nand tr1\n    ").spec_bytes()),
        (("xor src").spec_bytes(), ("\n        swa tr1\n        swa zero\n        add src\n        nand tr1\n        swa tr1\n        nand tr1\n        swa tr1\n        nand src\n        nand tr1\n    ").spec_bytes()),
        (("xori imm").spec_bytes(), ("\n        swa tr2\n        lim imm\n        xor tr2\n    ").spec_bytes()),
        (("sub src").spec_bytes(), ("\n        swa tr1\n        nand src\n        addi 1\n        add tr1\n    ").spec_bytes()),
        (("suba src").spec_bytes(), ("\n        nand acc\n        addi 1\n        add src\n    ").spec_bytes()),
        (("brc cond, addr").spec_bytes(), ("\n        lim ((addr >> 8) & 0xFF)\n        swa seg\n        lim (addr & 0xFF)\n        b cond\n    ").spec_bytes()),
        (("jmp addr").spec_bytes(), ("\n        brc true, addr\n    ").spec_bytes()),
    ]
}

/// The pseudo-instruction library, exactly [`spec_pseudo_templates`]:
/// macro templates over the primitive instruction set, some calling one
/// another.
pub fn default_pseudo_templates() -> (r: Vec<PseudoTemplate>)
    ensures
        pseudo_templates_view(r) == spec_pseudo_templates(),
{
    let mut t: Vec<PseudoTemplate> = Vec::new();
    t.push(pseudo("nop", "b false"));
    t.push(pseudo("lim imm", "\n        swa zero\n        addi (((imm >> 4)+(( imm & 8 ) << 1)) & 0b00001111)\n        add acc\n        add acc\n        add acc\n        add acc\n        addi (imm & 0b00001111)\n    "));
    t.push(pseudo("lda src", "\n        swa zero\n        add src\n    "));
    t.push(pseudo("sta dest", "\n        swa dest\n        swa zero\n        add dest\n    "));
    t.push(pseudo("mov dest, src", "\n        swa dest\n        swa zero\n        add src\n        swa dest\n    "));
    t.push(pseudo("not src", "\n        swa zero\n        add src\n        nand acc\n    "));
    t.push(pseudo("and src", "\n        nand src\n        nand acc\n    "));
    t.push(pseudo("andi imm", "\n        swa tr1\n        lim imm\n        and tr1\n    "));
    t.push(pseudo("or src", "\n        nand acc\n        swa tr1\n        not src\n        nand tr1\n    "));
    t.push(pseudo("ori imm", "\n        nand acc\n        swa tr1\n        lim imm\n        nand tr1\n    "));
    t.push(pseudo("xor src", "\n        swa tr1\n        swa zero\n        add src\n        nand tr1\n        swa tr1\n        nand tr1\n        swa tr1\n        nand src\n        nand tr1\n    "));
    t.push(pseudo("xori imm", "\n        swa tr2\n        lim imm\n        xor tr2\n    "));
    t.push(pseudo("sub src", "\n        swa tr1\n        nand src\n        addi 1\n        add tr1\n    "));
    t.push(pseudo("suba src", "\n        nand acc\n        addi 1\n        add src\n    "));
    t.push(pseudo("brc cond, addr", "\n        lim ((addr >> 8) & 0xFF)\n        swa seg\n        lim (addr & 0xFF)\n        b cond\n    "));
    t.push(pseudo("jmp addr", "\n        brc true, addr\n    "));
    proof {
        assert(pseudo_templates_view(t) =~= spec_pseudo_templates());
    }
    t
}

} // verus!
