//! The single error type of the assembler: every stage fails fast with an
//! `AsmError` carrying a kind and the source location (row, column) where it
//! arose, when one is available.

use vstd::prelude::*;

verus! {

/// What went wrong, over all pipeline stages.
#[derive(Clone, Copy, Debug, PartialEq, Eq, Structural)]
pub enum ErrorKind {
    /// A character the lexer cannot start any lexem with.
    UnexpectedCharacter,
    /// A `0x` word holding a non-hexadecimal character.
    ExpectedHexDigit,
    /// A `0b` word holding a character other than `0` or `1`.
    ExpectedBinDigit,
    /// A word starting with a digit holding a non-decimal character.
    ExpectedDecDigit,
    /// A string literal still open at the end of the input.
    UnterminatedString,
    /// A statement that starts with neither a label nor an instruction.
    UnexpectedToken,
    /// A parenthesized expression missing its closing `)`.
    ExpectedClosingParen,
    /// Parenthesized expressions nested past the depth limit.
    ExprTooDeep,
    /// A comma at the end of the input with no argument after it.
    ExpectedArgAfterComma,
    /// The same label name defined twice.
    DuplicateLabel,
    /// An identifier used as a value that no label declares.
    UndeclaredLabel,
    /// A pseudo-instruction called with the wrong number of arguments.
    ArityMismatch,
    /// A label inside a pseudo-instruction body.
    LabelInPseudo,
    /// Pseudo-instructions nested past the expansion depth limit.
    PseudoDepthExceeded,
    /// A pseudo-instruction template whose header is not one instruction.
    BadPseudoTemplate,
    /// `org` without exactly one numeric-literal argument.
    OrgExpectsAddress,
    /// An operand that should have folded to a number but did not.
    ExpectedNumber,
    /// A closure whose middle child is not an operator.
    ExpectedOperator,
    /// Division by zero inside a folded expression.
    DivisionByZero,
    /// A shift amount of 64 or more inside a folded expression.
    ShiftTooLarge,
    /// A numeric value that does not fit its field or the machine word.
    NumberTooBig,
    /// A label address past the machine word.
    AddressOverflow,
    /// A mnemonic in neither the instruction table nor the pseudo set.
    UnknownInstruction,
    /// A field template naming a lookup table that does not exist.
    UnknownType,
    /// A symbol missing from its named lookup table.
    UnknownSymbol,
    /// A `Type` field whose argument is not an identifier.
    ExpectedIdent,
    /// An instruction with fewer arguments than its fields consume.
    MissingArgument,
    /// A data directive with no arguments.
    NoData,
    /// An instruction encoding longer than 64 bits.
    TooManyBits,
    /// A data directive argument of an impossible lexem kind.
    UnexpectedLexem,
    /// A token that an earlier stage should have removed.
    StageLeftover,
    /// A field template with an empty type tag or width.
    BadFieldTemplate,
}

/// A fatal assembly error: its kind and the source position it points at.
/// Rows and columns count from one; stages without a position use zero.
#[derive(Clone, Copy, Debug, PartialEq, Eq, Structural)]
pub struct AsmError {
    pub kind: ErrorKind,
    pub row: usize,
    pub col: usize,
}

impl AsmError {
    /// Builds an error at an explicit source position.
    pub fn at(kind: ErrorKind, row: usize, col: usize) -> (r: AsmError)
        ensures
            r.kind == kind,
            r.row == row,
            r.col == col,
    {
        AsmError { kind, row, col }
    }
}

} // verus!
