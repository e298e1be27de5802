//! Statement grouping: the flat lexem stream becomes labels and
//! instructions. A statement is either `name :` or a mnemonic followed by a
//! comma-separated argument list, where an argument is one lexem or a
//! parenthesized `(lhs op rhs)` triple, nestable through its sides.

use vstd::prelude::*;
use crate::errors::{AsmError, ErrorKind};
use crate::lexer::{Lexem, LexemType, LexemView, LexemTypeView, lexems_view};
use crate::pseudo::{PseudoInstructions, PseudoEntryView, pseudo_view, spec_expand_all, expand_tokens, PSEUDO_DEPTH_LIMIT};
use crate::resolve::{
    layout_init, spec_layout, spec_subst_tokens, spec_collapse, discover_labels,
    substitute_labels, collapse_tokens,
};

verus! {

/// How deep parenthesized expressions may nest.
pub const EXPR_DEPTH_LIMIT: usize = 64;

/// One statement: a label definition or an instruction with its arguments.
#[derive(Debug)]
pub enum Token {
    Label { name: Lexem },
    Instruction { name: Lexem, args: Vec<Lexem> },
}

/// The ghost mirror of [`Token`].
pub enum TokenView {
    Label { name: LexemView },
    Instruction { name: LexemView, args: Seq<LexemView> },
}

/// The ghost value of a token.
pub open spec fn token_view(t: Token) -> TokenView {
    match t {
        Token::Label { name } => TokenView::Label { name: name@ },
        Token::Instruction { name, args } => TokenView::Instruction {
            name: name@,
            args: args@.map_values(|l: Lexem| l@),
        },
    }
}

impl View for Token {
    type V = TokenView;

    open spec fn view(&self) -> TokenView {
        token_view(*self)
    }
}

/// The ghost values of a token vector, element for element.
pub open spec fn tokens_view(v: Vec<Token>) -> Seq<TokenView> {
    v@.map_values(|t: Token| t@)
}

impl Token {
    /// A fresh token with the same ghost value.
    pub fn dup(&self) -> (r: Token)
        ensures
            r@ == self@,
    {
        match self {
            Token::Label { name } => Token::Label { name: name.dup() },
            Token::Instruction { name, args } => {
                let mut new_args: Vec<Lexem> = Vec::new();
                let mut i: usize = 0;
                while i < args.len()
                    invariant
                        0 <= i <= args@.len(),
                        new_args@.len() == i,
                        forall|j: int| 0 <= j < i ==> new_args@[j]@ == #[trigger] args@[j]@,
                    decreases args@.len() - i,
                {
                    new_args.push(args[i].dup());
                    i += 1;
                }
                let r = Token::Instruction { name: name.dup(), args: new_args };
                proof {
                    assert(new_args@.map_values(|l: Lexem| l@)
                        =~= args@.map_values(|l: Lexem| l@));
                }
                r
            },
        }
    }
}

/// The text `Closure`, the value every parenthesized triple carries.
pub open spec fn closure_text() -> Seq<u8> {
    seq![67u8, 108u8, 111u8, 115u8, 117u8, 114u8, 101u8]
}

/// The first position at or after `i` past the run of line breaks.
pub open spec fn skip_newlines(ls: Seq<LexemView>, i: int) -> int
    decreases ls.len() - i,
{
    if 0 <= i < ls.len() && ls[i].kind is NewLine {
        skip_newlines(ls, i + 1)
    } else {
        i
    }
}

/// Skipping line breaks lands between the start and the end.
pub proof fn lemma_skip_newlines_bounds(ls: Seq<LexemView>, i: int)
    requires
        0 <= i <= ls.len(),
    ensures
        i <= skip_newlines(ls, i) <= ls.len(),
    decreases ls.len() - i,
{
    if i < ls.len() && ls[i].kind is NewLine {
        lemma_skip_newlines_bounds(ls, i + 1);
    }
}

/// One argument read from position `i`: the lexem there, or, after `(`,
/// three recursively read arguments closed by `)`, folded into a closure
/// lexem that carries the position of its `(` and the text `Closure`.
/// Nesting deeper than `depth` is refused.
pub open spec fn spec_parse_arg(ls: Seq<LexemView>, i: int, depth: nat) -> Result<
    (LexemView, int),
    ErrorKind,
>
    decreases depth,
{
    if depth == 0 {
        Err(ErrorKind::ExprTooDeep)
    } else if i < 0 || i >= ls.len() {
        Err(ErrorKind::ExpectedClosingParen)
    } else if ls[i].value == seq![40u8] {
        match spec_parse_arg(ls, i + 1, (depth - 1) as nat) {
            Err(k) => Err(k),
            Ok((lhs, j1)) => match spec_parse_arg(ls, j1, (depth - 1) as nat) {
                Err(k) => Err(k),
                Ok((op, j2)) => match spec_parse_arg(ls, j2, (depth - 1) as nat) {
                    Err(k) => Err(k),
                    Ok((rhs, j3)) => {
                        if j3 < ls.len() && ls[j3].value == seq![41u8] {
                            Ok(
                                (
                                    LexemView {
                                        value: closure_text(),
                                        kind: LexemTypeView::Closure {
                                            lhs: Box::new(lhs),
                                            op: Box::new(op),
                                            rhs: Box::new(rhs),
                                        },
                                        row: ls[i].row,
                                        col: ls[i].col,
                                    },
                                    j3 + 1,
                                ),
                            )
                        } else {
                            Err(ErrorKind::ExpectedClosingParen)
                        }
                    },
                },
            },
        }
    } else {
        Ok((ls[i], i + 1))
    }
}

/// A read argument always ends strictly past where it began, inside the
/// stream.
pub proof fn lemma_parse_arg_bounds(ls: Seq<LexemView>, i: int, depth: nat)
    ensures
        match spec_parse_arg(ls, i, depth) {
            Ok(pair) => i < pair.1 <= ls.len(),
            Err(_) => true,
        },
    decreases depth,
{
    if depth > 0 && 0 <= i < ls.len() && ls[i].value == seq![40u8] {
        lemma_parse_arg_bounds(ls, i + 1, (depth - 1) as nat);
        if let Ok((lhs, j1)) = spec_parse_arg(ls, i + 1, (depth - 1) as nat) {
            lemma_parse_arg_bounds(ls, j1, (depth - 1) as nat);
            if let Ok((op, j2)) = spec_parse_arg(ls, j1, (depth - 1) as nat) {
                lemma_parse_arg_bounds(ls, j2, (depth - 1) as nat);
            }
        }
    }
}

/// The arguments after the first: as long as a comma follows, one more is
/// read; a comma at the very end of the stream is an error.
pub open spec fn spec_parse_more_args(ls: Seq<LexemView>, i: int, acc: Seq<LexemView>) -> Result<
    (Seq<LexemView>, int),
    ErrorKind,
>
    decreases ls.len() - i,
    when 0 <= i
    via spec_parse_more_args_dec
{
    if i < ls.len() && ls[i].value == seq![44u8] {
        if i + 1 >= ls.len() {
            Err(ErrorKind::ExpectedArgAfterComma)
        } else {
            match spec_parse_arg(ls, i + 1, EXPR_DEPTH_LIMIT as nat) {
                Err(k) => Err(k),
                Ok((a, j)) => spec_parse_more_args(ls, j, acc.push(a)),
            }
        }
    } else {
        Ok((acc, i))
    }
}

#[via_fn]
proof fn spec_parse_more_args_dec(ls: Seq<LexemView>, i: int, acc: Seq<LexemView>) {
    lemma_parse_arg_bounds(ls, i + 1, EXPR_DEPTH_LIMIT as nat);
}

/// An argument list: empty at the end of a statement, else a first
/// argument and whatever commas bring after it.
pub open spec fn spec_parse_args(ls: Seq<LexemView>, i: int) -> Result<
    (Seq<LexemView>, int),
    ErrorKind,
> {
    if i >= ls.len() {
        Ok((Seq::empty(), i))
    } else if ls[i].kind is NewLine {
        Ok((Seq::empty(), i))
    } else {
        match spec_parse_arg(ls, i, EXPR_DEPTH_LIMIT as nat) {
            Err(k) => Err(k),
            Ok((a, j)) => spec_parse_more_args(ls, j, seq![a]),
        }
    }
}

/// A finished argument list never ends before it began, nor past the end.
pub proof fn lemma_parse_more_args_bounds(ls: Seq<LexemView>, i: int, acc: Seq<LexemView>)
    requires
        0 <= i <= ls.len(),
    ensures
        match spec_parse_more_args(ls, i, acc) {
            Ok(pair) => i <= pair.1 <= ls.len(),
            Err(_) => true,
        },
    decreases ls.len() - i,
{
    if i < ls.len() && ls[i].value == seq![44u8] && i + 1 < ls.len() {
        lemma_parse_arg_bounds(ls, i + 1, EXPR_DEPTH_LIMIT as nat);
        if let Ok((a, j)) = spec_parse_arg(ls, i + 1, EXPR_DEPTH_LIMIT as nat) {
            lemma_parse_more_args_bounds(ls, j, acc.push(a));
        }
    }
}

/// The whole argument list ends between its start and the end.
pub proof fn lemma_parse_args_bounds(ls: Seq<LexemView>, i: int)
    requires
        0 <= i <= ls.len(),
    ensures
        match spec_parse_args(ls, i) {
            Ok(pair) => i <= pair.1 <= ls.len(),
            Err(_) => true,
        },
{
    if i < ls.len() && !(ls[i].kind is NewLine) {
        lemma_parse_arg_bounds(ls, i, EXPR_DEPTH_LIMIT as nat);
        if let Ok((a, j)) = spec_parse_arg(ls, i, EXPR_DEPTH_LIMIT as nat) {
            lemma_parse_more_args_bounds(ls, j, seq![a]);
        }
    }
}

/// A label statement at `i`: line breaks, then an identifier directly
/// followed by a colon. Nothing else reads as a label.
pub open spec fn try_label(ls: Seq<LexemView>, i: int) -> Option<(LexemView, int)> {
    let j = skip_newlines(ls, i);
    if j < ls.len() && ls[j].kind is Ident && j + 1 < ls.len() && ls[j + 1].value == seq![58u8] {
        Some((ls[j], j + 2))
    } else {
        None
    }
}

/// An instruction statement at `i`: line breaks, then an identifier and
/// its argument list. `Ok(None)` when no identifier starts here.
pub open spec fn spec_parse_instr(ls: Seq<LexemView>, i: int) -> Result<
    Option<(TokenView, int)>,
    ErrorKind,
> {
    let j = skip_newlines(ls, i);
    if j >= ls.len() || !(ls[j].kind is Ident) {
        Ok(None)
    } else {
        match spec_parse_args(ls, j + 1) {
            Err(k) => Err(k),
            Ok((args, j2)) => Ok(
                Some((TokenView::Instruction { name: ls[j], args }, j2)),
            ),
        }
    }
}

/// The statements from position `i` on: labels and instructions until the
/// stream ends, and an error on a lexem that can start neither.
pub open spec fn spec_group_from(ls: Seq<LexemView>, i: int) -> Result<Seq<TokenView>, ErrorKind>
    decreases ls.len() - i,
    when 0 <= i
    via spec_group_from_dec
{
    if i >= ls.len() {
        Ok(Seq::empty())
    } else {
        match try_label(ls, i) {
            Some((name, j)) => match spec_group_from(ls, j) {
                Err(k) => Err(k),
                Ok(rest) => Ok(seq![TokenView::Label { name }] + rest),
            },
            None => match spec_parse_instr(ls, i) {
                Err(k) => Err(k),
                Ok(Some((t, j))) => match spec_group_from(ls, j) {
                    Err(k) => Err(k),
                    Ok(rest) => Ok(seq![t] + rest),
                },
                Ok(None) => {
                    if skip_newlines(ls, i) >= ls.len() {
                        Ok(Seq::empty())
                    } else {
                        Err(ErrorKind::UnexpectedToken)
                    }
                },
            },
        }
    }
}

#[via_fn]
proof fn spec_group_from_dec(ls: Seq<LexemView>, i: int) {
    if 0 <= i < ls.len() {
        lemma_skip_newlines_bounds(ls, i);
        let j = skip_newlines(ls, i);
        if j < ls.len() && ls[j].kind is Ident {
            lemma_parse_args_bounds(ls, j + 1);
        }
    }
}

/// The grouping state: a cursor over the lexems and the statements built
/// so far.
pub struct Parser {
    pub cursor: usize,
    pub lexems: Vec<Lexem>,
    pub tokens: Vec<Token>,
}

impl Parser {
    /// A fresh parser with nothing read.
    pub fn new() -> (r: Parser)
        ensures
            r.cursor == 0,
            r.lexems@.len() == 0,
            r.tokens@.len() == 0,
    {
        Parser { cursor: 0, lexems: Vec::new(), tokens: Vec::new() }
    }

    /// Whether the lexem at the cursor is a one-byte punctuation `b`.
    fn punct_here(&self, b: u8) -> (r: bool)
        requires
            self.cursor <= self.lexems@.len(),
        ensures
            r == (self.cursor < self.lexems@.len()
                && lexems_view(self.lexems)[self.cursor as int].value == seq![b]),
    {
        if self.cursor >= self.lexems.len() {
            return false;
        }
        let v = &self.lexems[self.cursor].value;
        let r = v.len() == 1 && v[0] == b;
        proof {
            if v@.len() == 1 && v@[0] == b {
                assert(v@ =~= seq![b]);
            }
            if v@ == seq![b] {
                assert(v@.len() == 1 && v@[0] == b);
            }
        }
        r
    }

    /// Whether the lexem at the cursor is a line break.
    fn newline_here(&self) -> (r: bool)
        requires
            self.cursor <= self.lexems@.len(),
        ensures
            r == (self.cursor < self.lexems@.len()
                && lexems_view(self.lexems)[self.cursor as int].kind is NewLine),
    {
        if self.cursor >= self.lexems.len() {
            return false;
        }
        matches!(self.lexems[self.cursor].ttype, LexemType::NewLine)
    }

    /// Steps over the run of line breaks at the cursor.
    fn chop_newline(&mut self)
        requires
            old(self).cursor <= old(self).lexems@.len(),
        ensures
            final(self).lexems == old(self).lexems,
            final(self).tokens == old(self).tokens,
            final(self).cursor == skip_newlines(
                lexems_view(old(self).lexems),
                old(self).cursor as int,
            ),
            final(self).cursor <= final(self).lexems@.len(),
    {
        while self.newline_here()
            invariant
                self.cursor <= self.lexems@.len(),
                self.lexems == old(self).lexems,
                self.tokens == old(self).tokens,
                skip_newlines(lexems_view(self.lexems), self.cursor as int)
                    == skip_newlines(lexems_view(old(self).lexems), old(self).cursor as int),
            decreases self.lexems@.len() - self.cursor,
        {
            let n = self.lexems.len();
            proof {
                assert(self.cursor < n);
            }
            self.cursor += 1;
        }
    }

    /// Reads a label statement: line breaks, an identifier, a colon. Backs
    /// off without effect when the shape does not fit.
    fn parse_lexem_label(&mut self) -> (r: bool)
        requires
            old(self).cursor <= old(self).lexems@.len(),
        ensures
            final(self).lexems == old(self).lexems,
            final(self).cursor <= final(self).lexems@.len(),
            match try_label(lexems_view(old(self).lexems), old(self).cursor as int) {
                Some(pair) => {
                    &&& r
                    &&& final(self).cursor == pair.1
                    &&& tokens_view(final(self).tokens) == tokens_view(old(self).tokens).push(
                        TokenView::Label { name: pair.0 },
                    )
                },
                None => !r && *final(self) == *old(self),
            },
    {
        let initial_cursor = self.cursor;
        self.chop_newline();
        if self.cursor >= self.lexems.len() {
            self.cursor = initial_cursor;
            return false;
        }
        if !matches!(self.lexems[self.cursor].ttype, LexemType::Ident) {
            self.cursor = initial_cursor;
            return false;
        }
        let name = self.lexems[self.cursor].dup();
        self.cursor += 1;
        if self.cursor >= self.lexems.len() {
            self.cursor = initial_cursor;
            return false;
        }
        if !self.punct_here(58) {
            self.cursor = initial_cursor;
            return false;
        }
        self.cursor += 1;
        let ghost before = tokens_view(self.tokens);
        self.tokens.push(Token::Label { name });
        proof {
            assert(tokens_view(self.tokens) =~= before.push(self.tokens@.last()@));
        }
        true
    }

    /// Reads one argument: the lexem at the cursor, or a parenthesized
    /// triple folded into a closure lexem, exactly as [`spec_parse_arg`]
    /// reads it.
    fn parse_arg(&mut self, depth: usize) -> (r: Result<Lexem, AsmError>)
        requires
            old(self).cursor <= old(self).lexems@.len(),
        ensures
            final(self).lexems == old(self).lexems,
            final(self).tokens == old(self).tokens,
            final(self).cursor <= final(self).lexems@.len(),
            match spec_parse_arg(
                lexems_view(old(self).lexems),
                old(self).cursor as int,
                depth as nat,
            ) {
                Ok(pair) => r is Ok && r->Ok_0@ == pair.0 && final(self).cursor == pair.1,
                Err(k) => r is Err && r->Err_0.kind == k,
            },
        decreases depth,
    {
        if depth == 0 {
            return Err(AsmError::at(ErrorKind::ExprTooDeep, 0, 0));
        }
        if self.cursor >= self.lexems.len() {
            return Err(AsmError::at(ErrorKind::ExpectedClosingParen, 0, 0));
        }
        if self.punct_here(40) {
            let row = self.lexems[self.cursor].row;
            let col = self.lexems[self.cursor].col;
            self.cursor += 1;
            let lhs = match self.parse_arg(depth - 1) {
                Ok(l) => l,
                Err(e) => {
                    return Err(e);
                },
            };
            let op = match self.parse_arg(depth - 1) {
                Ok(l) => l,
                Err(e) => {
                    return Err(e);
                },
            };
            let rhs = match self.parse_arg(depth - 1) {
                Ok(l) => l,
                Err(e) => {
                    return Err(e);
                },
            };
            if self.punct_here(41) {
                self.cursor += 1;
                let mut value: Vec<u8> = Vec::new();
                value.push(67);
                value.push(108);
                value.push(111);
                value.push(115);
                value.push(117);
                value.push(114);
                value.push(101);
                proof {
                    assert(value@ =~= closure_text());
                }
                Ok(Lexem {
                    value,
                    ttype: LexemType::Closure {
                        lhs: Box::new(lhs),
                        op: Box::new(op),
                        rhs: Box::new(rhs),
                    },
                    row,
                    col,
                })
            } else {
                let (erow, ecol) = if self.cursor < self.lexems.len() {
                    (self.lexems[self.cursor].row, self.lexems[self.cursor].col)
                } else {
                    (0, 0)
                };
                Err(AsmError::at(ErrorKind::ExpectedClosingParen, erow, ecol))
            }
        } else {
            let l = self.lexems[self.cursor].dup();
            self.cursor += 1;
            Ok(l)
        }
    }

    /// Reads a whole argument list per [`spec_parse_args`].
    fn parse_args(&mut self) -> (r: Result<Vec<Lexem>, AsmError>)
        requires
            old(self).cursor <= old(self).lexems@.len(),
        ensures
            final(self).lexems == old(self).lexems,
            final(self).tokens == old(self).tokens,
            final(self).cursor <= final(self).lexems@.len(),
            match spec_parse_args(lexems_view(old(self).lexems), old(self).cursor as int) {
                Ok(pair) => {
                    &&& r is Ok
                    &&& lexems_view(r->Ok_0) == pair.0
                    &&& final(self).cursor == pair.1
                },
                Err(k) => r is Err && r->Err_0.kind == k,
            },
    {
        let ghost lvs = lexems_view(self.lexems);
        let ghost c0 = self.cursor as int;
        let mut args: Vec<Lexem> = Vec::new();
        if self.cursor >= self.lexems.len() {
            proof {
                assert(lexems_view(args) =~= Seq::<LexemView>::empty());
            }
            return Ok(args);
        }
        if self.newline_here() {
            proof {
                assert(lexems_view(args) =~= Seq::<LexemView>::empty());
            }
            return Ok(args);
        }
        let first = match self.parse_arg(EXPR_DEPTH_LIMIT) {
            Ok(l) => l,
            Err(e) => {
                return Err(e);
            },
        };
        args.push(first);
        proof {
            if let Ok((a, j)) = spec_parse_arg(lvs, c0, EXPR_DEPTH_LIMIT as nat) {
                assert(lexems_view(args) =~= seq![a]);
            }
        }
        while self.punct_here(44)
            invariant
                self.cursor <= self.lexems@.len(),
                self.lexems == old(self).lexems,
                self.tokens == old(self).tokens,
                lvs == lexems_view(self.lexems),
                spec_parse_more_args(lvs, self.cursor as int, lexems_view(args))
                    == spec_parse_args(lvs, c0),
            decreases self.lexems@.len() - self.cursor,
        {
            let comma = &self.lexems[self.cursor];
            let erow = comma.row;
            let ecol = comma.col;
            self.cursor += 1;
            if self.cursor >= self.lexems.len() {
                return Err(AsmError::at(ErrorKind::ExpectedArgAfterComma, erow, ecol));
            }
            let ghost cur = self.cursor as int;
            let ghost acc0 = lexems_view(args);
            let a = match self.parse_arg(EXPR_DEPTH_LIMIT) {
                Ok(l) => l,
                Err(e) => {
                    return Err(e);
                },
            };
            args.push(a);
            proof {
                lemma_parse_arg_bounds(lvs, cur, EXPR_DEPTH_LIMIT as nat);
                if let Ok(pair) = spec_parse_arg(lvs, cur, EXPR_DEPTH_LIMIT as nat) {
                    assert(lexems_view(args) =~= acc0.push(pair.0));
                }
            }
        }
        Ok(args)
    }

    /// Reads an instruction statement: line breaks, a mnemonic and its
    /// arguments. Backs off without effect when no identifier starts here.
    fn parse_lexem_instruction(&mut self) -> (r: Result<bool, AsmError>)
        requires
            old(self).cursor <= old(self).lexems@.len(),
        ensures
            final(self).lexems == old(self).lexems,
            final(self).cursor <= final(self).lexems@.len(),
            match spec_parse_instr(lexems_view(old(self).lexems), old(self).cursor as int) {
                Ok(opt) => match opt {
                    Some(pair) => {
                        &&& r == Ok::<bool, AsmError>(true)
                        &&& final(self).cursor == pair.1
                        &&& tokens_view(final(self).tokens)
                            == tokens_view(old(self).tokens).push(pair.0)
                    },
                    None => r == Ok::<bool, AsmError>(false) && *final(self) == *old(self),
                },
                Err(k) => r is Err && r->Err_0.kind == k,
            },
    {
        let initial_cursor = self.cursor;
        self.chop_newline();
        if self.cursor >= self.lexems.len() {
            self.cursor = initial_cursor;
            return Ok(false);
        }
        if !matches!(self.lexems[self.cursor].ttype, LexemType::Ident) {
            self.cursor = initial_cursor;
            return Ok(false);
        }
        let name = self.lexems[self.cursor].dup();
        self.cursor += 1;
        let args = match self.parse_args() {
            Ok(a) => a,
            Err(e) => {
                return Err(e);
            },
        };
        let ghost before = tokens_view(self.tokens);
        self.tokens.push(Token::Instruction { name, args });
        proof {
            assert(tokens_view(self.tokens) =~= before.push(self.tokens@.last()@));
        }
        Ok(true)
    }

    /// Reads one statement: a label, an instruction, or trailing line
    /// breaks before the end; anything else is an unexpected token.
    fn parse_token(&mut self) -> (r: Result<(), AsmError>)
        requires
            old(self).cursor <= old(self).lexems@.len(),
        ensures
            final(self).lexems == old(self).lexems,
            final(self).cursor <= final(self).lexems@.len(),
            ({
                let lvs = lexems_view(old(self).lexems);
                let c = old(self).cursor as int;
                match try_label(lvs, c) {
                    Some(pair) => {
                        &&& r is Ok
                        &&& final(self).cursor == pair.1
                        &&& tokens_view(final(self).tokens) == tokens_view(old(self).tokens).push(
                            TokenView::Label { name: pair.0 },
                        )
                    },
                    None => match spec_parse_instr(lvs, c) {
                        Ok(opt) => match opt {
                            Some(pair) => {
                                &&& r is Ok
                                &&& final(self).cursor == pair.1
                                &&& tokens_view(final(self).tokens)
                                    == tokens_view(old(self).tokens).push(pair.0)
                            },
                            None => {
                                if skip_newlines(lvs, c) >= lvs.len() {
                                    &&& r is Ok
                                    &&& final(self).cursor == skip_newlines(lvs, c)
                                    &&& final(self).tokens == old(self).tokens
                                } else {
                                    r is Err && r->Err_0.kind == ErrorKind::UnexpectedToken
                                }
                            },
                        },
                        Err(k) => r is Err && r->Err_0.kind == k,
                    },
                }
            }),
    {
        if self.parse_lexem_label() {
            return Ok(());
        }
        match self.parse_lexem_instruction() {
            Ok(true) => {
                return Ok(());
            },
            Ok(false) => {},
            Err(e) => {
                return Err(e);
            },
        }
        self.chop_newline();
        if self.cursor >= self.lexems.len() {
            return Ok(());
        }
        let l = &self.lexems[self.cursor];
        Err(AsmError::at(ErrorKind::UnexpectedToken, l.row, l.col))
    }

    /// Groups a lexem stream into statements, exactly as
    /// [`spec_group_from`] reads them from the front: on success `tokens`
    /// holds the statement list, and the first lexem that can start no
    /// statement ends the pass with an error instead.
    pub fn first_stage_parse(&mut self, lexems: &Vec<Lexem>) -> (r: Result<(), AsmError>)
        ensures
            lexems_view(final(self).lexems) == lexems_view(*lexems),
            match spec_group_from(lexems_view(*lexems), 0) {
                Ok(ts) => r is Ok && tokens_view(final(self).tokens) == ts,
                Err(k) => r is Err && r->Err_0.kind == k,
            },
    {
        let mut copied: Vec<Lexem> = Vec::new();
        let mut i: usize = 0;
        while i < lexems.len()
            invariant
                0 <= i <= lexems@.len(),
                copied@.len() == i,
                forall|j: int| 0 <= j < i ==> copied@[j]@ == #[trigger] lexems@[j]@,
            decreases lexems@.len() - i,
        {
            copied.push(lexems[i].dup());
            i += 1;
        }
        proof {
            assert(lexems_view(copied) =~= lexems_view(*lexems));
        }
        self.lexems = copied;
        self.cursor = 0;
        self.tokens = Vec::new();
        let ghost lvs = lexems_view(self.lexems);
        proof {
            assert(tokens_view(self.tokens) =~= Seq::<TokenView>::empty());
        }
        while self.cursor < self.lexems.len()
            invariant
                self.cursor <= self.lexems@.len(),
                lexems_view(self.lexems) == lvs,
                lvs == lexems_view(*lexems),
                match spec_group_from(lvs, self.cursor as int) {
                    Ok(rest) => spec_group_from(lvs, 0) == Ok::<Seq<TokenView>, ErrorKind>(
                        tokens_view(self.tokens) + rest,
                    ),
                    Err(k) => spec_group_from(lvs, 0) == Err::<Seq<TokenView>, ErrorKind>(k),
                },
            decreases spec_group_decrease(lvs, self.cursor as int),
        {
            let ghost c = self.cursor as int;
            let ghost toks0 = tokens_view(self.tokens);
            match self.parse_token() {
                Ok(()) => {},
                Err(e) => {
                    return Err(e);
                },
            }
            proof {
                lemma_skip_newlines_bounds(lvs, c);
                if skip_newlines(lvs, c) < lvs.len() {
                    lemma_parse_args_bounds(lvs, skip_newlines(lvs, c) + 1);
                }
                match try_label(lvs, c) {
                    Some(pair) => {
                        if let Ok(rest) = spec_group_from(lvs, pair.1) {
                            assert(toks0 + (seq![TokenView::Label { name: pair.0 }] + rest)
                                =~= tokens_view(self.tokens) + rest);
                        }
                    },
                    None => {
                        match spec_parse_instr(lvs, c) {
                            Ok(opt) => match opt {
                                Some(pair) => {
                                    if let Ok(rest) = spec_group_from(lvs, pair.1) {
                                        assert(toks0 + (seq![pair.0] + rest)
                                            =~= tokens_view(self.tokens) + rest);
                                    }
                                },
                                None => {
                                    assert(toks0 + Seq::<TokenView>::empty() =~= toks0);
                                },
                            },
                            Err(_) => {},
                        }
                    },
                }
            }
        }
        proof {
            assert(tokens_view(self.tokens) + Seq::<TokenView>::empty()
                =~= tokens_view(self.tokens));
        }
        Ok(())
    }
}

/// How much grouping work remains from position `i`: a measure for the
/// grouping loop.
pub open spec fn spec_group_decrease(ls: Seq<LexemView>, i: int) -> int {
    ls.len() - i
}

/// The whole resolution pipeline over a lexem stream: grouping, pseudo
/// expansion, label layout, label substitution and constant folding, in
/// that order, the first error winning.
pub open spec fn spec_resolve(ls: Seq<LexemView>, ps: Seq<PseudoEntryView>) -> Result<
    Seq<TokenView>,
    ErrorKind,
> {
    match spec_group_from(ls, 0) {
        Err(k) => Err(k),
        Ok(ts) => match spec_expand_all(ts, ps, PSEUDO_DEPTH_LIMIT as nat) {
            Err(k) => Err(k),
            Ok(ts2) => match spec_layout(layout_init(), ts2) {
                Err(k) => Err(k),
                Ok(st) => match spec_subst_tokens(st.labels, st.cleaned) {
                    Err(k) => Err(k),
                    Ok(ts3) => spec_collapse(ts3),
                },
            },
        },
    }
}

impl Parser {
    /// Runs the whole resolution pipeline per [`spec_resolve`]: on success
    /// `tokens` holds only instructions whose arguments are plain lexems —
    /// labels laid out and substituted, pseudo-instructions expanded,
    /// expressions folded to base-ten numbers.
    pub fn parse(&mut self, lexems: &Vec<Lexem>, pseudos: &PseudoInstructions) -> (r: Result<
        (),
        AsmError,
    >)
        ensures
            match spec_resolve(lexems_view(*lexems), pseudo_view(*pseudos)) {
                Ok(ts) => r is Ok && tokens_view(final(self).tokens) == ts,
                Err(k) => r is Err && r->Err_0.kind == k,
            },
    {
        match self.first_stage_parse(lexems) {
            Ok(()) => {},
            Err(e) => {
                return Err(e);
            },
        }
        let expanded = match expand_tokens(&self.tokens, pseudos) {
            Ok(t) => t,
            Err(e) => {
                return Err(e);
            },
        };
        let (cleaned, labels) = match discover_labels(&expanded) {
            Ok(p) => p,
            Err(e) => {
                return Err(e);
            },
        };
        let substituted = match substitute_labels(&cleaned, &labels) {
            Ok(t) => t,
            Err(e) => {
                return Err(e);
            },
        };
        let folded = match collapse_tokens(&substituted) {
            Ok(t) => t,
            Err(e) => {
                return Err(e);
            },
        };
        self.tokens = folded;
        Ok(())
    }
}

} // verus!
