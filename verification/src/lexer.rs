//! Lexical analysis: source text comes in as ASCII bytes and leaves as a
//! flat sequence of typed lexems. Each lexem keeps its text, its kind and
//! the row and column it started at, rows and columns counting from one.
//!
//! The ghost side mirrors every lexem as a [`LexemView`], the mathematical
//! value all later stages' contracts are stated over.

use vstd::prelude::*;
use crate::errors::{AsmError, ErrorKind};
use crate::numbers::{is_digit, valid_digits};

verus! {

/// The classification of one lexem.
#[derive(Debug)]
pub enum LexemType {
    /// A word: letters, digits and dots, not starting like a number.
    Ident,
    /// One punctuation byte: comma, colon or a parenthesis.
    Single,
    /// Digit text in base `radix` (2, 10 or 16), prefixes removed.
    Number { radix: u32 },
    /// The unescaped body of a quoted string literal.
    StrLit,
    /// One arithmetic, bitwise or shift operator.
    Operator,
    /// A parenthesized triple `(lhs op rhs)`, nestable through its sides.
    Closure { lhs: Box<Lexem>, op: Box<Lexem>, rhs: Box<Lexem> },
    /// A statement-separating line break.
    NewLine,
}

/// One lexem: its text, kind and source position.
#[derive(Debug)]
pub struct Lexem {
    pub value: Vec<u8>,
    pub ttype: LexemType,
    pub row: usize,
    pub col: usize,
}

/// The ghost mirror of [`LexemType`].
pub enum LexemTypeView {
    Ident,
    Single,
    Number { radix: nat },
    StrLit,
    Operator,
    Closure { lhs: Box<LexemView>, op: Box<LexemView>, rhs: Box<LexemView> },
    NewLine,
}

/// The ghost mirror of [`Lexem`].
pub struct LexemView {
    pub value: Seq<u8>,
    pub kind: LexemTypeView,
    pub row: nat,
    pub col: nat,
}

/// The ghost value of a lexem kind.
pub open spec fn type_view(t: LexemType) -> LexemTypeView
    decreases t,
{
    match t {
        LexemType::Ident => LexemTypeView::Ident,
        LexemType::Single => LexemTypeView::Single,
        LexemType::Number { radix } => LexemTypeView::Number { radix: radix as nat },
        LexemType::StrLit => LexemTypeView::StrLit,
        LexemType::Operator => LexemTypeView::Operator,
        LexemType::Closure { lhs, op, rhs } => LexemTypeView::Closure {
            lhs: Box::new(lexem_view(*lhs)),
            op: Box::new(lexem_view(*op)),
            rhs: Box::new(lexem_view(*rhs)),
        },
        LexemType::NewLine => LexemTypeView::NewLine,
    }
}

/// The ghost value of a lexem.
pub open spec fn lexem_view(l: Lexem) -> LexemView
    decreases l,
{
    LexemView {
        value: l.value@,
        kind: type_view(l.ttype),
        row: l.row as nat,
        col: l.col as nat,
    }
}

impl View for Lexem {
    type V = LexemView;

    open spec fn view(&self) -> LexemView {
        lexem_view(*self)
    }
}

impl View for LexemType {
    type V = LexemTypeView;

    open spec fn view(&self) -> LexemTypeView {
        type_view(*self)
    }
}

/// The ghost values of a lexem vector, element for element.
pub open spec fn lexems_view(v: Vec<Lexem>) -> Seq<LexemView> {
    v@.map_values(|l: Lexem| l@)
}

/// A well-formed lexem: numbers carry a known radix and only digits of
/// that radix, and closure children are well-formed in turn.
pub open spec fn wf_lexem(l: LexemView) -> bool
    decreases l,
{
    match l.kind {
        LexemTypeView::Number { radix } => {
            &&& (radix == 2 || radix == 10 || radix == 16)
            &&& valid_digits(l.value, radix)
        },
        LexemTypeView::Closure { lhs, op, rhs } => {
            &&& wf_lexem(*lhs)
            &&& wf_lexem(*op)
            &&& wf_lexem(*rhs)
        },
        _ => true,
    }
}

impl Lexem {
    /// Builds a lexem from its parts.
    pub fn new(value: Vec<u8>, ttype: LexemType, row: usize, col: usize) -> (r: Lexem)
        ensures
            r@ == (LexemView {
                value: value@,
                kind: ttype@,
                row: row as nat,
                col: col as nat,
            }),
    {
        Lexem { value, ttype, row, col }
    }

    /// A fresh lexem with the same ghost value.
    pub fn dup(&self) -> (r: Lexem)
        ensures
            r@ == self@,
        decreases *self,
    {
        Lexem {
            value: crate::text::copy_bytes(&self.value),
            ttype: self.ttype.dup(),
            row: self.row,
            col: self.col,
        }
    }
}

impl LexemType {
    /// A fresh kind with the same ghost value.
    pub fn dup(&self) -> (r: LexemType)
        ensures
            r@ == self@,
        decreases *self,
    {
        match self {
            LexemType::Ident => LexemType::Ident,
            LexemType::Single => LexemType::Single,
            LexemType::Number { radix } => LexemType::Number { radix: *radix },
            LexemType::StrLit => LexemType::StrLit,
            LexemType::Operator => LexemType::Operator,
            LexemType::Closure { lhs, op, rhs } => LexemType::Closure {
                lhs: Box::new(lhs.dup()),
                op: Box::new(op.dup()),
                rhs: Box::new(rhs.dup()),
            },
            LexemType::NewLine => LexemType::NewLine,
        }
    }
}

/// Whitespace that does not separate statements: anything ASCII counts as
/// blank except the line break.
pub open spec fn is_blank(b: u8) -> bool {
    b == 32 || b == 9 || b == 13 || b == 11 || b == 12
}

/// A byte that may stand inside a word: a letter, a digit or a dot.
pub open spec fn is_word_byte(b: u8) -> bool {
    (48 <= b <= 57) || (65 <= b <= 90) || (97 <= b <= 122) || b == 46
}

/// A byte that is a single-lexem punctuation: comma, colon, parentheses.
pub open spec fn is_single_byte(b: u8) -> bool {
    b == 44 || b == 58 || b == 40 || b == 41
}

/// The first position at or after `i` that no longer lies in blank space.
pub open spec fn blank_end(s: Seq<u8>, i: int) -> int
    decreases s.len() - i,
{
    if 0 <= i < s.len() && is_blank(s[i]) {
        blank_end(s, i + 1)
    } else {
        i
    }
}

/// The first position at or after `i` holding a line break, or the end.
pub open spec fn line_break_end(s: Seq<u8>, i: int) -> int
    decreases s.len() - i,
{
    if 0 <= i < s.len() && s[i] != 10 {
        line_break_end(s, i + 1)
    } else {
        i
    }
}

/// The first position at or after `i` past the maximal run of word bytes.
pub open spec fn word_end(s: Seq<u8>, i: int) -> int
    decreases s.len() - i,
{
    if 0 <= i < s.len() && is_word_byte(s[i]) {
        word_end(s, i + 1)
    } else {
        i
    }
}

/// The operator text starting at `i`, if any: one of `+ - / * & | ^` or
/// the two-byte shifts `<<` and `>>`.
pub open spec fn match_op(s: Seq<u8>, i: int) -> Option<Seq<u8>> {
    if 0 <= i < s.len() {
        let b = s[i];
        if b == 43 || b == 45 || b == 47 || b == 42 || b == 38 || b == 124 || b == 94 {
            Some(seq![b])
        } else if (b == 60 || b == 62) && i + 1 < s.len() && s[i + 1] == b {
            Some(seq![b, b])
        } else {
            None
        }
    } else {
        None
    }
}

/// What one escape byte contributes to a string value: the escapes
/// `\n \0 \\ \" \'` yield their byte, any other escape yields nothing.
pub open spec fn escape_text(b: u8) -> Seq<u8> {
    if b == 110 {
        seq![10u8]
    } else if b == 48 {
        seq![0u8]
    } else if b == 92 {
        seq![92u8]
    } else if b == 34 {
        seq![34u8]
    } else if b == 39 {
        seq![39u8]
    } else {
        Seq::empty()
    }
}

/// Scans a string body from `i` (just past the opening quote) to the next
/// quote of either kind, unescaping as it goes: the value accumulated and
/// the position just past the closing quote, or an error when the input
/// ends first.
pub open spec fn scan_str(s: Seq<u8>, i: int) -> Result<(Seq<u8>, int), ErrorKind>
    decreases s.len() - i,
{
    if i < 0 || i >= s.len() {
        Err(ErrorKind::UnterminatedString)
    } else if s[i] == 34 || s[i] == 39 {
        Ok((Seq::empty(), i + 1))
    } else if s[i] == 92 {
        if i + 1 >= s.len() {
            Err(ErrorKind::UnterminatedString)
        } else {
            match scan_str(s, i + 2) {
                Ok((v, e)) => Ok((escape_text(s[i + 1]) + v, e)),
                Err(k) => Err(k),
            }
        }
    } else {
        match scan_str(s, i + 1) {
            Ok((v, e)) => Ok((seq![s[i]] + v, e)),
            Err(k) => Err(k),
        }
    }
}

/// How a finished word classifies: a `0x` word must go on in hex digits, a
/// `0b` word in binary digits, a word opening with a digit in decimal
/// digits, and anything else is an identifier. Numbers drop their prefix.
/// The index of the first byte at or after `from` that is no digit of
/// base `radix` — the length of the text when every byte is one.
pub open spec fn first_invalid(w: Seq<u8>, from: int, radix: nat) -> int
    decreases w.len() - from,
{
    if 0 <= from < w.len() && is_digit(w[from], radix) {
        first_invalid(w, from + 1, radix)
    } else {
        from
    }
}

/// A left-to-right scan that stops on the first bad digit finds exactly
/// [`first_invalid`].
pub proof fn lemma_first_invalid(w: Seq<u8>, from: int, j: int, radix: nat)
    requires
        0 <= from <= j < w.len(),
        forall|i: int| from <= i < j ==> is_digit(#[trigger] w[i], radix),
        !is_digit(w[j], radix),
    ensures
        first_invalid(w, from, radix) == j,
    decreases j - from,
{
    if from < j {
        lemma_first_invalid(w, from + 1, j, radix);
    }
}

pub open spec fn classify_word(w: Seq<u8>) -> Result<(Seq<u8>, LexemTypeView), (ErrorKind, int)> {
    if w.len() >= 2 && w[0] == 48 && w[1] == 120 {
        if valid_digits(w.skip(2), 16) {
            Ok((w.skip(2), LexemTypeView::Number { radix: 16 }))
        } else {
            Err((ErrorKind::ExpectedHexDigit, first_invalid(w, 2, 16)))
        }
    } else if w.len() >= 2 && w[0] == 48 && w[1] == 98 {
        if valid_digits(w.skip(2), 2) {
            Ok((w.skip(2), LexemTypeView::Number { radix: 2 }))
        } else {
            Err((ErrorKind::ExpectedBinDigit, first_invalid(w, 2, 2)))
        }
    } else if w.len() >= 1 && 48 <= w[0] <= 57 {
        if valid_digits(w, 10) {
            Ok((w, LexemTypeView::Number { radix: 10 }))
        } else {
            Err((ErrorKind::ExpectedDecDigit, first_invalid(w, 0, 10)))
        }
    } else {
        Ok((w, LexemTypeView::Ident))
    }
}

/// What the lexer promises of every lexem it emits: well-formed, flat, and
/// shaped after its kind.
pub open spec fn lexer_lexem_ok(l: LexemView) -> bool {
    &&& wf_lexem(l)
    &&& match l.kind {
        LexemTypeView::Ident => l.value.len() > 0,
        LexemTypeView::Single => l.value.len() == 1 && is_single_byte(l.value[0]),
        LexemTypeView::NewLine => l.value == seq![10u8],
        LexemTypeView::Operator => match_op(l.value, 0) == Some(l.value),
        LexemTypeView::Closure { .. } => false,
        _ => true,
    }
}

/// Every scan-end position lies between its start and the end of the text.
pub proof fn lemma_scan_bounds(s: Seq<u8>, i: int)
    requires
        0 <= i <= s.len(),
    ensures
        i <= word_end(s, i) <= s.len(),
        i <= blank_end(s, i) <= s.len(),
        i <= line_break_end(s, i) <= s.len(),
    decreases s.len() - i,
{
    if i < s.len() {
        lemma_scan_bounds(s, i + 1);
    }
}

/// The row and column of byte index `i` in text `s`, both counting from
/// one: a line break steps the row and resets the column.
pub open spec fn pos_at(s: Seq<u8>, i: int) -> (nat, nat)
    decreases i,
{
    if i <= 0 {
        (1nat, 1nat)
    } else {
        let p = pos_at(s, i - 1);
        if s[i - 1] == 10 {
            ((p.0 + 1) as nat, 1nat)
        } else {
            (p.0, (p.1 + 1) as nat)
        }
    }
}

/// Rows and columns never outrun the byte index.
pub proof fn lemma_pos_at_bounds(s: Seq<u8>, i: int)
    requires
        0 <= i,
    ensures
        1 <= pos_at(s, i).0 <= i + 1,
        1 <= pos_at(s, i).1 <= i + 1,
    decreases i,
{
    if i > 0 {
        lemma_pos_at_bounds(s, i - 1);
    }
}

/// The scanning state of one lexing run.
pub struct Lexer {
    pub content: Vec<u8>,
    pub cursor: usize,
    pub row: usize,
    pub col: usize,
    pub lexems: Vec<Lexem>,
}

impl Lexer {
    /// The lexer's internal consistency: the cursor stays inside the
    /// text, row and column stay small enough never to overflow, and they
    /// are exactly the position [`pos_at`] gives the cursor.
    pub open spec fn inv(&self) -> bool {
        &&& self.cursor <= self.content@.len()
        &&& self.content@.len() < usize::MAX
        &&& 1 <= self.row <= self.cursor + 1
        &&& 1 <= self.col <= self.cursor + 1
        &&& self.row == pos_at(self.content@, self.cursor as int).0
        &&& self.col == pos_at(self.content@, self.cursor as int).1
    }

    /// All lexems emitted so far are shaped as the lexer promises.
    pub open spec fn lexems_ok(&self) -> bool {
        forall|i: int| 0 <= i < self.lexems@.len() ==> lexer_lexem_ok(#[trigger] self.lexems@[i]@)
    }

    /// A fresh lexer with no text and no lexems.
    pub fn new() -> (r: Lexer)
        ensures
            r.lexems@.len() == 0,
    {
        Lexer { content: Vec::new(), cursor: 0, row: 1, col: 1, lexems: Vec::new() }
    }

    /// Consumes one byte, stepping the row and column as line breaks pass.
    fn chop(&mut self) -> (r: u8)
        requires
            old(self).inv(),
            old(self).cursor < old(self).content@.len(),
        ensures
            final(self).inv(),
            r == old(self).content@[old(self).cursor as int],
            final(self).cursor == old(self).cursor + 1,
            final(self).content == old(self).content,
            final(self).lexems == old(self).lexems,
            r == 10 ==> final(self).row == old(self).row + 1 && final(self).col == 1,
            r != 10 ==> final(self).row == old(self).row && final(self).col == old(self).col + 1,
    {
        let ch = self.content[self.cursor];
        self.cursor += 1;
        self.col += 1;
        if ch == 10 {
            self.row += 1;
            self.col = 1;
        }
        ch
    }

    /// Whether the cursor stands on a blank byte.
    fn blank_here(&self) -> (r: bool)
        requires
            self.inv(),
        ensures
            r == (self.cursor < self.content@.len()
                && is_blank(self.content@[self.cursor as int])),
    {
        if self.cursor >= self.content.len() {
            return false;
        }
        let b = self.content[self.cursor];
        b == 32 || b == 9 || b == 13 || b == 11 || b == 12
    }

    /// Whether the cursor stands on a byte before the next line break.
    fn before_line_break(&self) -> (r: bool)
        requires
            self.inv(),
        ensures
            r == (self.cursor < self.content@.len()
                && self.content@[self.cursor as int] != 10),
    {
        if self.cursor >= self.content.len() {
            return false;
        }
        self.content[self.cursor] != 10
    }

    /// Skips blank space up to the next line break or visible byte.
    fn seek_whitespace(&mut self)
        requires
            old(self).inv(),
        ensures
            final(self).inv(),
            final(self).cursor == blank_end(old(self).content@, old(self).cursor as int),
            final(self).content == old(self).content,
            final(self).lexems == old(self).lexems,
            final(self).row == old(self).row,
    {
        while self.blank_here()
            invariant
                self.inv(),
                self.content == old(self).content,
                self.lexems == old(self).lexems,
                self.row == old(self).row,
                blank_end(self.content@, self.cursor as int)
                    == blank_end(old(self).content@, old(self).cursor as int),
            decreases self.content@.len() - self.cursor,
        {
            self.chop();
        }
    }

    /// Skips a `//` comment up to its line break or the end of the text.
    fn seek_comments(&mut self)
        requires
            old(self).inv(),
        ensures
            final(self).inv(),
            final(self).content == old(self).content,
            final(self).lexems == old(self).lexems,
            final(self).row == old(self).row,
            ({
                let s = old(self).content@;
                let c = old(self).cursor as int;
                if c + 2 <= s.len() && s[c] == 47 && s[c + 1] == 47 {
                    final(self).cursor == line_break_end(s, c + 2)
                } else {
                    final(self).cursor == old(self).cursor
                }
            }),
    {
        if self.content.len() - self.cursor >= 2 {
            if self.content[self.cursor] == 47 && self.content[self.cursor + 1] == 47 {
                self.chop();
                self.chop();
                while self.before_line_break()
                    invariant
                        self.inv(),
                        self.content == old(self).content,
                        self.lexems == old(self).lexems,
                        self.row == old(self).row,
                        line_break_end(self.content@, self.cursor as int)
                            == line_break_end(old(self).content@, old(self).cursor + 2),
                    decreases self.content@.len() - self.cursor,
                {
                    self.chop();
                }
            }
        }
    }

    /// Emits a line break or punctuation lexem when one starts here.
    fn chop_single(&mut self) -> (r: bool)
        requires
            old(self).inv(),
        ensures
            final(self).inv(),
            final(self).content == old(self).content,
            ({
                let s = old(self).content@;
                let c = old(self).cursor as int;
                if c < s.len() && s[c] == 10 {
                    &&& r
                    &&& final(self).cursor == c + 1
                    &&& final(self).lexems@.len() == old(self).lexems@.len() + 1
                    &&& final(self).lexems@.take(old(self).lexems@.len() as int)
                        == old(self).lexems@
                    &&& final(self).lexems@.last()@ == (LexemView {
                        value: seq![10u8],
                        kind: LexemTypeView::NewLine,
                        row: old(self).row as nat,
                        col: old(self).col as nat,
                    })
                } else if c < s.len() && is_single_byte(s[c]) {
                    &&& r
                    &&& final(self).cursor == c + 1
                    &&& final(self).lexems@.len() == old(self).lexems@.len() + 1
                    &&& final(self).lexems@.take(old(self).lexems@.len() as int)
                        == old(self).lexems@
                    &&& final(self).lexems@.last()@ == (LexemView {
                        value: seq![s[c]],
                        kind: LexemTypeView::Single,
                        row: old(self).row as nat,
                        col: old(self).col as nat,
                    })
                } else {
                    !r && *final(self) == *old(self)
                }
            }),
    {
        if self.cursor >= self.content.len() {
            return false;
        }
        let b = self.content[self.cursor];
        if b == 10 {
            let row = self.row;
            let col = self.col;
            let ch = self.chop();
            let mut value: Vec<u8> = Vec::new();
            value.push(ch);
            let ghost before = self.lexems@;
            self.lexems.push(Lexem { value, ttype: LexemType::NewLine, row, col });
            proof {
                assert(self.lexems@.last()@.value =~= seq![10u8]);
                assert(self.lexems@.take(before.len() as int) =~= before);
            }
            return true;
        }
        if b == 44 || b == 58 || b == 40 || b == 41 {
            let row = self.row;
            let col = self.col;
            let ch = self.chop();
            let mut value: Vec<u8> = Vec::new();
            value.push(ch);
            let ghost before = self.lexems@;
            self.lexems.push(Lexem { value, ttype: LexemType::Single, row, col });
            proof {
                assert(self.lexems@.last()@.value =~= seq![b]);
                assert(self.lexems@.take(before.len() as int) =~= before);
            }
            return true;
        }
        false
    }

    /// Emits an operator lexem when one starts here, shifts included.
    fn chop_pattern(&mut self) -> (r: bool)
        requires
            old(self).inv(),
        ensures
            final(self).inv(),
            final(self).content == old(self).content,
            match match_op(old(self).content@, old(self).cursor as int) {
                Some(op) => {
                    &&& r
                    &&& final(self).cursor == old(self).cursor + op.len()
                    &&& final(self).lexems@.len() == old(self).lexems@.len() + 1
                    &&& final(self).lexems@.take(old(self).lexems@.len() as int)
                        == old(self).lexems@
                    &&& final(self).lexems@.last()@ == (LexemView {
                        value: op,
                        kind: LexemTypeView::Operator,
                        row: old(self).row as nat,
                        col: old(self).col as nat,
                    })
                },
                None => !r && *final(self) == *old(self),
            },
    {
        if self.cursor >= self.content.len() {
            return false;
        }
        let b = self.content[self.cursor];
        let row = self.row;
        let col = self.col;
        if b == 43 || b == 45 || b == 47 || b == 42 || b == 38 || b == 124 || b == 94 {
            let ch = self.chop();
            let mut value: Vec<u8> = Vec::new();
            value.push(ch);
            let ghost before = self.lexems@;
            self.lexems.push(Lexem { value, ttype: LexemType::Operator, row, col });
            proof {
                assert(self.lexems@.last()@.value =~= seq![b]);
                assert(self.lexems@.take(before.len() as int) =~= before);
            }
            return true;
        }
        if (b == 60 || b == 62) && self.cursor + 1 < self.content.len()
            && self.content[self.cursor + 1] == b {
            let c1 = self.chop();
            let c2 = self.chop();
            let mut value: Vec<u8> = Vec::new();
            value.push(c1);
            value.push(c2);
            let ghost before = self.lexems@;
            self.lexems.push(Lexem { value, ttype: LexemType::Operator, row, col });
            proof {
                assert(self.lexems@.last()@.value =~= seq![b, b]);
                assert(self.lexems@.take(before.len() as int) =~= before);
            }
            return true;
        }
        false
    }

    /// Whether the cursor stands on a word byte.
    fn word_byte_here(&self) -> (r: bool)
        requires
            self.inv(),
        ensures
            r == (self.cursor < self.content@.len()
                && is_word_byte(self.content@[self.cursor as int])),
    {
        if self.cursor >= self.content.len() {
            return false;
        }
        let b = self.content[self.cursor];
        (48 <= b && b <= 57) || (65 <= b && b <= 90) || (97 <= b && b <= 122) || b == 46
    }

    /// Consumes the maximal word at the cursor and emits it classified per
    /// [`classify_word`]: a number with its prefix stripped and digits
    /// checked, or an identifier. Emits nothing when no word byte is
    /// here; a bad digit faults at that digit's own column.
    fn chop_word(&mut self) -> (r: Result<bool, AsmError>)
        requires
            old(self).inv(),
        ensures
            final(self).inv(),
            final(self).content == old(self).content,
            ({
                let s = old(self).content@;
                let c = old(self).cursor as int;
                let e = word_end(s, c);
                let w = s.subrange(c, e);
                if w.len() == 0 {
                    r == Ok::<bool, AsmError>(false) && *final(self) == *old(self)
                } else {
                    match classify_word(w) {
                        Ok((v, k)) => {
                            &&& r == Ok::<bool, AsmError>(true)
                            &&& final(self).cursor == e
                            &&& final(self).lexems@.len() == old(self).lexems@.len() + 1
                            &&& final(self).lexems@.take(old(self).lexems@.len() as int)
                                == old(self).lexems@
                            &&& final(self).lexems@.last()@ == (LexemView {
                                value: v,
                                kind: k,
                                row: old(self).row as nat,
                                col: old(self).col as nat,
                            })
                        },
                        Err(f) => {
                            &&& r is Err
                            &&& r->Err_0.kind == f.0
                            &&& r->Err_0.row == old(self).row
                            &&& r->Err_0.col == old(self).col + f.1
                            &&& final(self).lexems == old(self).lexems
                        },
                    }
                }
            }),
    {
        let ghost s = self.content@;
        let ghost c = self.cursor as int;
        let row = self.row;
        let col = self.col;
        let mut word: Vec<u8> = Vec::new();
        proof {
            lemma_scan_bounds(s, c);
            assert(word@ =~= s.subrange(c, c));
        }
        while self.word_byte_here()
            invariant
                self.inv(),
                self.content == old(self).content,
                self.lexems == old(self).lexems,
                self.row == old(self).row || word@.len() > 0,
                word@.len() == 0 ==> self.col == old(self).col
                    && self.row == old(self).row,
                c <= self.cursor <= word_end(s, c),
                word@ == s.subrange(c, self.cursor as int),
                word_end(s, self.cursor as int) == word_end(s, c),
            decreases self.content@.len() - self.cursor,
        {
            proof {
                lemma_scan_bounds(s, self.cursor + 1);
            }
            let ch = self.chop();
            word.push(ch);
            proof {
                assert(word@ =~= s.subrange(c, self.cursor as int));
            }
        }
        proof {
            assert(self.cursor as int == word_end(s, c));
        }
        if word.len() == 0 {
            return Ok(false);
        }
        let ghost w = s.subrange(c, word_end(s, c));
        proof {
            assert(w == word@);
        }
        if word.len() >= 2 && word[0] == 48 && word[1] == 120 {
            let mut j: usize = 2;
            while j < word.len()
                invariant
                    2 <= j <= word@.len(),
                    w == word@,
                    forall|i: int| 2 <= i < j ==> is_digit(#[trigger] word@[i], 16),
                decreases word@.len() - j,
            {
                if !crate::numbers::byte_is_digit(word[j], 16) {
                    proof {
                        assert(!valid_digits(w.skip(2), 16)) by {
                            assert(w.skip(2)[j - 2] == word@[j as int]);
                        };
                        lemma_first_invalid(w, 2, j as int, 16);
                        lemma_scan_bounds(s, c);
                    }
                    return Err(AsmError::at(ErrorKind::ExpectedHexDigit, row, col + j));
                }
                j += 1;
            }
            proof {
                assert(valid_digits(w.skip(2), 2 + 14)) by {
                    assert(forall|i: int| 0 <= i < w.skip(2).len()
                        ==> #[trigger] w.skip(2)[i] == word@[i + 2]);
                };
            }
            let value = vstd::slice::slice_to_vec(
                vstd::slice::slice_subrange(word.as_slice(), 2, word.len()),
            );
            let ghost before = self.lexems@;
            self.lexems.push(Lexem {
                value,
                ttype: LexemType::Number { radix: 16 },
                row,
                col,
            });
            proof {
                assert(self.lexems@.take(before.len() as int) =~= before);
                assert(self.lexems@.last()@.value =~= w.skip(2));
            }
            return Ok(true);
        }
        if word.len() >= 2 && word[0] == 48 && word[1] == 98 {
            let mut j: usize = 2;
            while j < word.len()
                invariant
                    2 <= j <= word@.len(),
                    w == word@,
                    forall|i: int| 2 <= i < j ==> is_digit(#[trigger] word@[i], 2),
                decreases word@.len() - j,
            {
                if !crate::numbers::byte_is_digit(word[j], 2) {
                    proof {
                        assert(!valid_digits(w.skip(2), 2)) by {
                            assert(w.skip(2)[j - 2] == word@[j as int]);
                        };
                        lemma_first_invalid(w, 2, j as int, 2);
                        lemma_scan_bounds(s, c);
                    }
                    return Err(AsmError::at(ErrorKind::ExpectedBinDigit, row, col + j));
                }
                j += 1;
            }
            proof {
                assert(valid_digits(w.skip(2), 2)) by {
                    assert(forall|i: int| 0 <= i < w.skip(2).len()
                        ==> #[trigger] w.skip(2)[i] == word@[i + 2]);
                };
            }
            let value = vstd::slice::slice_to_vec(
                vstd::slice::slice_subrange(word.as_slice(), 2, word.len()),
            );
            let ghost before = self.lexems@;
            self.lexems.push(Lexem {
                value,
                ttype: LexemType::Number { radix: 2 },
                row,
                col,
            });
            proof {
                assert(self.lexems@.take(before.len() as int) =~= before);
                assert(self.lexems@.last()@.value =~= w.skip(2));
            }
            return Ok(true);
        }
        if 48 <= word[0] && word[0] <= 57 {
            let mut j: usize = 0;
            while j < word.len()
                invariant
                    0 <= j <= word@.len(),
                    w == word@,
                    forall|i: int| 0 <= i < j ==> is_digit(#[trigger] word@[i], 10),
                decreases word@.len() - j,
            {
                if !crate::numbers::byte_is_digit(word[j], 10) {
                    proof {
                        assert(!valid_digits(w, 10));
                        lemma_first_invalid(w, 0, j as int, 10);
                        lemma_scan_bounds(s, c);
                    }
                    return Err(AsmError::at(ErrorKind::ExpectedDecDigit, row, col + j));
                }
                j += 1;
            }
            let ghost before = self.lexems@;
            self.lexems.push(Lexem {
                value: word,
                ttype: LexemType::Number { radix: 10 },
                row,
                col,
            });
            proof {
                assert(self.lexems@.take(before.len() as int) =~= before);
            }
            return Ok(true);
        }
        let ghost before = self.lexems@;
        self.lexems.push(Lexem { value: word, ttype: LexemType::Ident, row, col });
        proof {
            assert(self.lexems@.take(before.len() as int) =~= before);
        }
        Ok(true)
    }

    /// Consumes a quoted string literal at the cursor, unescaping it per
    /// [`scan_str`], and emits its body. Emits nothing when no quote is
    /// here; fails when the text ends before the closing quote.
    fn chop_string(&mut self) -> (r: Result<bool, AsmError>)
        requires
            old(self).inv(),
        ensures
            final(self).inv(),
            final(self).content == old(self).content,
            ({
                let s = old(self).content@;
                let c = old(self).cursor as int;
                if c >= s.len() || (s[c] != 34 && s[c] != 39) {
                    r == Ok::<bool, AsmError>(false) && *final(self) == *old(self)
                } else {
                    match scan_str(s, c + 1) {
                        Ok(pair) => {
                            &&& r == Ok::<bool, AsmError>(true)
                            &&& final(self).cursor == pair.1
                            &&& final(self).lexems@.len() == old(self).lexems@.len() + 1
                            &&& final(self).lexems@.take(old(self).lexems@.len() as int)
                                == old(self).lexems@
                            &&& final(self).lexems@.last()@ == (LexemView {
                                value: pair.0,
                                kind: LexemTypeView::StrLit,
                                row: old(self).row as nat,
                                col: old(self).col as nat,
                            })
                        },
                        Err(k) => {
                            &&& r is Err
                            &&& r->Err_0.kind == k
                            &&& r->Err_0.row == pos_at(
                                old(self).content@,
                                old(self).content@.len() as int,
                            ).0
                            &&& r->Err_0.col == pos_at(
                                old(self).content@,
                                old(self).content@.len() as int,
                            ).1
                            &&& final(self).lexems == old(self).lexems
                        },
                    }
                }
            }),
    {
        if self.cursor >= self.content.len() {
            return Ok(false);
        }
        let b = self.content[self.cursor];
        if b != 34 && b != 39 {
            return Ok(false);
        }
        let row = self.row;
        let col = self.col;
        let ghost s = self.content@;
        let ghost c0 = self.cursor as int;
        self.chop();
        let mut value: Vec<u8> = Vec::new();
        proof {
            assert(value@ =~= Seq::<u8>::empty());
        }
        loop
            invariant
                self.inv(),
                self.content == old(self).content,
                self.lexems == old(self).lexems,
                s == self.content@,
                c0 + 1 <= self.cursor <= s.len(),
                match scan_str(s, self.cursor as int) {
                    Ok(pair) => scan_str(s, c0 + 1) == Ok::<(Seq<u8>, int), ErrorKind>(
                        (value@ + pair.0, pair.1),
                    ),
                    Err(k) => scan_str(s, c0 + 1) == Err::<(Seq<u8>, int), ErrorKind>(k),
                },
            decreases s.len() - self.cursor,
        {
            if self.cursor >= self.content.len() {
                return Err(AsmError::at(ErrorKind::UnterminatedString, self.row, self.col));
            }
            let b2 = self.content[self.cursor];
            if b2 == 34 || b2 == 39 {
                self.chop();
                proof {
                    assert(value@ + Seq::<u8>::empty() =~= value@);
                }
                let ghost before = self.lexems@;
                self.lexems.push(Lexem { value, ttype: LexemType::StrLit, row, col });
                proof {
                    assert(self.lexems@.take(before.len() as int) =~= before);
                }
                return Ok(true);
            }
            if b2 == 92 {
                let ghost cur = self.cursor as int;
                let ghost val0 = value@;
                self.chop();
                if self.cursor >= self.content.len() {
                    return Err(AsmError::at(ErrorKind::UnterminatedString, self.row, self.col));
                }
                let e = self.chop();
                if e == 110 {
                    value.push(10);
                } else if e == 48 {
                    value.push(0);
                } else if e == 92 {
                    value.push(92);
                } else if e == 34 {
                    value.push(34);
                } else if e == 39 {
                    value.push(39);
                }
                proof {
                    assert(value@ =~= val0 + escape_text(s[cur + 1]));
                    if let Ok(pair) = scan_str(s, self.cursor as int) {
                        assert((val0 + escape_text(s[cur + 1])) + pair.0
                            =~= val0 + (escape_text(s[cur + 1]) + pair.0));
                    }
                }
            } else {
                let ghost val0 = value@;
                let ch = self.chop();
                value.push(ch);
                proof {
                    assert(value@ =~= val0 + seq![ch]);
                    if let Ok(pair) = scan_str(s, self.cursor as int) {
                        assert((val0 + seq![ch]) + pair.0 =~= val0 + (seq![ch] + pair.0));
                    }
                }
            }
        }
    }
}

/// Lexems accumulate: what was there stays, and everything added is
/// shaped as the lexer promises.
pub open spec fn lexems_extend_ok(before: Seq<Lexem>, after: Seq<Lexem>) -> bool {
    &&& after.len() >= before.len()
    &&& after.take(before.len() as int) == before
    &&& forall|i: int| before.len() <= i < after.len() ==> lexer_lexem_ok(#[trigger] after[i]@)
}

/// Scanning a string body always lands strictly past where it began, and
/// inside the text.
pub proof fn lemma_scan_str_bounds(s: Seq<u8>, i: int)
    requires
        0 <= i,
    ensures
        match scan_str(s, i) {
            Ok(pair) => i < pair.1 <= s.len(),
            Err(_) => true,
        },
    decreases s.len() - i,
{
    if i < s.len() {
        if s[i] == 34 || s[i] == 39 {
        } else if s[i] == 92 {
            if i + 1 < s.len() {
                lemma_scan_str_bounds(s, i + 2);
            }
        } else {
            lemma_scan_str_bounds(s, i + 1);
        }
    }
}

/// The position past the blank space, and past one `//` comment when one
/// starts there, at `i`.
pub open spec fn comment_skip(s: Seq<u8>, i: int) -> int {
    let j = blank_end(s, i);
    if j + 2 <= s.len() && s[j] == 47 && s[j + 1] == 47 {
        line_break_end(s, j + 2)
    } else {
        j
    }
}

/// A lexical fault: its kind and the row and column it points at.
pub struct LexFault {
    pub kind: ErrorKind,
    pub row: nat,
    pub col: nat,
}

/// The lexem at `p` as a full ghost lexem, carrying the position of `p`.
pub open spec fn lexem_at(s: Seq<u8>, p: int, value: Seq<u8>, kind: LexemTypeView) -> LexemView {
    LexemView { value, kind, row: pos_at(s, p).0, col: pos_at(s, p).1 }
}

/// The lexem starting at `p`, tried in order: a line break, a
/// punctuation byte, an operator, a quoted string, a word — each as a
/// full lexem at the position of `p`, with its end position; nothing at
/// the end of the text. A bad digit in a numeric word faults at that
/// digit's own column, an unterminated string at the end of the text,
/// and a byte no shape accepts at its own position.
pub open spec fn spec_scan_lexem(s: Seq<u8>, p: int) -> Result<
    Option<(LexemView, int)>,
    LexFault,
> {
    if 0 <= p < s.len() && s[p] == 10 {
        Ok(Some((lexem_at(s, p, seq![10u8], LexemTypeView::NewLine), p + 1)))
    } else if 0 <= p < s.len() && is_single_byte(s[p]) {
        Ok(Some((lexem_at(s, p, seq![s[p]], LexemTypeView::Single), p + 1)))
    } else if match_op(s, p) is Some {
        let op = match_op(s, p)->Some_0;
        Ok(Some((lexem_at(s, p, op, LexemTypeView::Operator), p + op.len())))
    } else if 0 <= p < s.len() && (s[p] == 34 || s[p] == 39) {
        match scan_str(s, p + 1) {
            Ok(pair) => Ok(Some((lexem_at(s, p, pair.0, LexemTypeView::StrLit), pair.1))),
            Err(k) => Err(
                LexFault {
                    kind: k,
                    row: pos_at(s, s.len() as int).0,
                    col: pos_at(s, s.len() as int).1,
                },
            ),
        }
    } else if 0 <= p && word_end(s, p) > p {
        match classify_word(s.subrange(p, word_end(s, p))) {
            Ok(pair) => Ok(Some((lexem_at(s, p, pair.0, pair.1), word_end(s, p)))),
            Err(f) => Err(
                LexFault {
                    kind: f.0,
                    row: pos_at(s, p).0,
                    col: (pos_at(s, p).1 + f.1) as nat,
                },
            ),
        }
    } else if p >= s.len() {
        Ok(None)
    } else {
        Err(
            LexFault {
                kind: ErrorKind::UnexpectedCharacter,
                row: pos_at(s, p).0,
                col: pos_at(s, p).1,
            },
        )
    }
}

/// Skipping blanks and a comment lands between the start and the end.
pub proof fn lemma_comment_skip_bounds(s: Seq<u8>, i: int)
    requires
        0 <= i <= s.len(),
    ensures
        i <= comment_skip(s, i) <= s.len(),
{
    lemma_scan_bounds(s, i);
    let j = blank_end(s, i);
    if j + 2 <= s.len() && s[j] == 47 && s[j + 1] == 47 {
        lemma_scan_bounds(s, j + 2);
    }
}

/// A scanned lexem always ends strictly past where it began, inside the
/// text.
pub proof fn lemma_scan_lexem_bounds(s: Seq<u8>, p: int)
    requires
        0 <= p <= s.len(),
    ensures
        match spec_scan_lexem(s, p) {
            Ok(opt) => match opt {
                Some(t) => p < t.1 <= s.len(),
                None => true,
            },
            Err(_) => true,
        },
{
    lemma_scan_bounds(s, p);
    if p < s.len() && !(s[p] == 10) && !is_single_byte(s[p]) && match_op(s, p) is None
        && (s[p] == 34 || s[p] == 39) {
        lemma_scan_str_bounds(s, p + 1);
    }
}

/// The lexems of the whole text from `i` on, in source order and in
/// full — text, kind, row and column each — or the first lexical fault
/// with the position it points at.
pub open spec fn spec_lex(s: Seq<u8>, i: int) -> Result<Seq<LexemView>, LexFault>
    decreases s.len() - i,
    when 0 <= i
    via spec_lex_dec
{
    if i >= s.len() {
        Ok(Seq::empty())
    } else {
        let p = comment_skip(s, i);
        match spec_scan_lexem(s, p) {
            Err(f) => Err(f),
            Ok(opt) => match opt {
                None => Ok(Seq::empty()),
                Some(t) => match spec_lex(s, t.1) {
                    Err(f) => Err(f),
                    Ok(rest) => Ok(seq![t.0] + rest),
                },
            },
        }
    }
}

#[via_fn]
proof fn spec_lex_dec(s: Seq<u8>, i: int) {
    if 0 <= i < s.len() {
        lemma_comment_skip_bounds(s, i);
        lemma_scan_lexem_bounds(s, comment_skip(s, i));
    }
}

impl Lexer {
    /// Scans one lexem: skips blanks and comments, then takes whichever of
    /// the lexem shapes [`spec_scan_lexem`] finds here, or fails on a byte
    /// none of them accepts. On success the cursor has moved.
    fn chop_lexem(&mut self) -> (r: Result<(), AsmError>)
        requires
            old(self).inv(),
            old(self).cursor < old(self).content@.len(),
        ensures
            final(self).inv(),
            final(self).content == old(self).content,
            lexems_extend_ok(old(self).lexems@, final(self).lexems@),
            ({
                let s = old(self).content@;
                let p = comment_skip(s, old(self).cursor as int);
                match spec_scan_lexem(s, p) {
                    Err(f) => {
                        &&& r is Err
                        &&& r->Err_0.kind == f.kind
                        &&& r->Err_0.row == f.row
                        &&& r->Err_0.col == f.col
                        &&& final(self).lexems == old(self).lexems
                    },
                    Ok(opt) => match opt {
                        None => r is Ok && final(self).cursor == p
                            && final(self).lexems == old(self).lexems,
                        Some(t) => {
                            &&& r is Ok
                            &&& final(self).cursor == t.1
                            &&& final(self).lexems@.len() == old(self).lexems@.len() + 1
                            &&& final(self).lexems@.last()@ == t.0
                        },
                    },
                }
            }),
            r is Ok ==> final(self).cursor > old(self).cursor,
    {
        let ghost s = self.content@;
        let ghost c0 = self.cursor as int;
        proof {
            assert(old(self).lexems@.take(old(self).lexems@.len() as int) =~= old(self).lexems@);
        }
        self.seek_whitespace();
        proof {
            lemma_scan_bounds(s, c0);
        }
        let ghost c1 = self.cursor as int;
        self.seek_comments();
        proof {
            if c1 + 2 <= s.len() {
                lemma_scan_bounds(s, c1 + 2);
            }
        }
        let ghost c2 = self.cursor as int;
        let ghost before = self.lexems@;
        proof {
            lemma_scan_bounds(s, c2);
        }
        if self.chop_single() {
            proof {
                assert(lexems_extend_ok(before, self.lexems@));
            }
            return Ok(());
        }
        if self.chop_pattern() {
            proof {
                if let Some(op) = match_op(s, c2) {
                    if op.len() == 1 {
                        assert(match_op(op, 0) == Some(op)) by {
                            assert(op =~= seq![s[c2]]);
                        };
                    } else {
                        assert(match_op(op, 0) == Some(op)) by {
                            assert(op =~= seq![s[c2], s[c2]]);
                        };
                    }
                }
                assert(lexems_extend_ok(before, self.lexems@));
            }
            return Ok(());
        }
        match self.chop_string() {
            Ok(true) => {
                proof {
                    lemma_scan_str_bounds(s, c2 + 1);
                    assert(lexems_extend_ok(before, self.lexems@));
                }
                return Ok(());
            },
            Ok(false) => {},
            Err(e) => {
                return Err(e);
            },
        }
        match self.chop_word() {
            Ok(true) => {
                proof {
                    assert(lexems_extend_ok(before, self.lexems@));
                }
                return Ok(());
            },
            Ok(false) => {},
            Err(e) => {
                return Err(e);
            },
        }
        if self.cursor >= self.content.len() {
            return Ok(());
        }
        Err(AsmError::at(ErrorKind::UnexpectedCharacter, self.row, self.col))
    }

    /// Lexes a whole text: on success `lexems` holds exactly the lexems
    /// [`spec_lex`] reads out of `content`, in source order and in full —
    /// text, kind, row and column each — every one shaped as
    /// [`lexer_lexem_ok`] says; otherwise the scan ends with the first
    /// lexical fault, at the row and column it points at.
    pub fn lex(&mut self, content: &[u8]) -> (r: Result<(), AsmError>)
        requires
            content@.len() < usize::MAX,
        ensures
            final(self).content@ == content@,
            forall|i: int| 0 <= i < final(self).lexems@.len()
                ==> lexer_lexem_ok(#[trigger] final(self).lexems@[i]@),
            match spec_lex(content@, 0) {
                Ok(items) => r is Ok && lexems_view(final(self).lexems) == items,
                Err(f) => {
                    &&& r is Err
                    &&& r->Err_0.kind == f.kind
                    &&& r->Err_0.row == f.row
                    &&& r->Err_0.col == f.col
                },
            },
    {
        let ghost s = content@;
        self.content = vstd::slice::slice_to_vec(content);
        self.cursor = 0;
        self.row = 1;
        self.col = 1;
        self.lexems = Vec::new();
        proof {
            assert(lexems_view(self.lexems) =~= Seq::<LexemView>::empty());
            if let Ok(rest) = spec_lex(s, 0) {
                assert(Seq::<LexemView>::empty() + rest =~= rest);
            }
        }
        while self.cursor < self.content.len()
            invariant
                self.inv(),
                self.content@ == content@,
                s == content@,
                forall|i: int| 0 <= i < self.lexems@.len()
                    ==> lexer_lexem_ok(#[trigger] self.lexems@[i]@),
                match spec_lex(s, self.cursor as int) {
                    Ok(rest) => spec_lex(s, 0) == Ok::<Seq<LexemView>, LexFault>(
                        lexems_view(self.lexems) + rest,
                    ),
                    Err(f) => spec_lex(s, 0) == Err::<Seq<LexemView>, LexFault>(f),
                },
            decreases self.content@.len() - self.cursor,
        {
            let ghost before = self.lexems@;
            let ghost c = self.cursor as int;
            proof {
                lemma_comment_skip_bounds(s, c);
            }
            match self.chop_lexem() {
                Ok(()) => {},
                Err(e) => {
                    proof {
                        assert forall|i: int| 0 <= i < self.lexems@.len()
                            implies lexer_lexem_ok(#[trigger] self.lexems@[i]@) by {
                            if i < before.len() {
                                assert(self.lexems@.take(before.len() as int)[i]
                                    == self.lexems@[i]);
                                assert(self.lexems@[i] == before[i]);
                                assert(lexer_lexem_ok(before[i]@));
                            }
                        }
                    }
                    return Err(e);
                },
            }
            proof {
                assert forall|i: int| 0 <= i < self.lexems@.len()
                    implies lexer_lexem_ok(#[trigger] self.lexems@[i]@) by {
                    if i < before.len() {
                        assert(self.lexems@.take(before.len() as int)[i] == self.lexems@[i]);
                        assert(self.lexems@[i] == before[i]);
                        assert(lexer_lexem_ok(before[i]@));
                    }
                }
                let p = comment_skip(s, c);
                match spec_scan_lexem(s, p) {
                    Ok(opt) => match opt {
                        Some(t) => {
                            assert(forall|i: int| 0 <= i < before.len()
                                ==> self.lexems@.take(before.len() as int)[i]
                                    == #[trigger] self.lexems@[i]);
                            assert(lexems_view(self.lexems)
                                =~= before.map_values(|l: Lexem| l@).push(t.0));
                            if let Ok(rest) = spec_lex(s, t.1) {
                                assert(before.map_values(|l: Lexem| l@) + (seq![t.0] + rest)
                                    =~= lexems_view(self.lexems) + rest);
                            }
                        },
                        None => {
                            if let Ok(rest) = spec_lex(s, self.cursor as int) {
                                assert(rest =~= Seq::<LexemView>::empty());
                            }
                        },
                    },
                    Err(_) => {},
                }
            }
        }
        proof {
            if let Ok(items) = spec_lex(s, 0) {
                assert(lexems_view(self.lexems) + Seq::<LexemView>::empty()
                    =~= lexems_view(self.lexems));
            }
        }
        Ok(())
    }
}

} // verus!
