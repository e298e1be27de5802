//! Resolution passes over grouped tokens: sub-label qualification, macro
//! argument substitution, label layout and the substitution and folding of
//! argument expressions into plain numbers.

use vstd::prelude::*;
use vstd::wrapping::u64_specs;
use crate::errors::{AsmError, ErrorKind};
use crate::lexer::{Lexem, LexemType, LexemView, LexemTypeView};
use crate::numbers::{dec_text, lemma_dec_text_value, spec_parse_u64, parse_u64, fmt_dec};
use crate::parser::{Token, TokenView, tokens_view};
use crate::text::{bytes_eq, bytes_is1, bytes_is2, bytes_is3, copy_bytes, concat_bytes, ascii_lower, spec_lower};

verus! {

/// The value under `key` in an association list, the latest entry winning.
pub open spec fn assoc_get<T>(es: Seq<(Seq<u8>, T)>, key: Seq<u8>) -> Option<T>
    decreases es.len(),
{
    if es.len() == 0 {
        None
    } else if es.last().0 == key {
        Some(es.last().1)
    } else {
        assoc_get(es.drop_last(), key)
    }
}

/// A label and the absolute address it resolved to.
#[derive(Debug)]
pub struct LabelEntry {
    pub name: Vec<u8>,
    pub addr: u64,
}

/// The ghost value of a label table, entry for entry.
pub open spec fn labels_view(v: Vec<LabelEntry>) -> Seq<(Seq<u8>, u64)> {
    v@.map_values(|e: LabelEntry| (e.name@, e.addr))
}

/// Looks a name up in the label table, the latest entry winning.
pub fn label_get(entries: &Vec<LabelEntry>, name: &[u8]) -> (r: Option<u64>)
    ensures
        r == assoc_get(labels_view(*entries), name@),
{
    let mut i: usize = entries.len();
    proof {
        assert(labels_view(*entries).take(entries@.len() as int) =~= labels_view(*entries));
    }
    while i > 0
        invariant
            0 <= i <= entries@.len(),
            assoc_get(labels_view(*entries), name@)
                == assoc_get(labels_view(*entries).take(i as int), name@),
        decreases i,
    {
        i -= 1;
        proof {
            let lv = labels_view(*entries);
            assert(lv.take(i + 1).last() == lv[i as int]);
            assert(lv.take(i + 1).drop_last() =~= lv.take(i as int));
        }
        if bytes_eq(entries[i].name.as_slice(), name) {
            return Some(entries[i].addr);
        }
    }
    proof {
        assert(labels_view(*entries).take(0) =~= Seq::<(Seq<u8>, u64)>::empty());
    }
    None
}

/// A sub-label argument qualified: an identifier opening with a dot gets
/// the enclosing label's name put in front, inside closures too; any other
/// lexem stays as it is.
pub open spec fn spec_fix_lexem(last: Seq<u8>, l: LexemView) -> LexemView
    decreases l,
{
    match l.kind {
        LexemTypeView::Closure { lhs, op, rhs } => LexemView {
            value: l.value,
            kind: LexemTypeView::Closure {
                lhs: Box::new(spec_fix_lexem(last, *lhs)),
                op: Box::new(spec_fix_lexem(last, *op)),
                rhs: Box::new(spec_fix_lexem(last, *rhs)),
            },
            row: l.row,
            col: l.col,
        },
        LexemTypeView::Ident => {
            if l.value.len() > 0 && l.value[0] == 46 {
                LexemView { value: last + l.value, kind: l.kind, row: l.row, col: l.col }
            } else {
                l
            }
        },
        _ => l,
    }
}

/// Every argument of a statement qualified per [`spec_fix_lexem`].
pub open spec fn spec_fix_args(last: Seq<u8>, args: Seq<LexemView>) -> Seq<LexemView> {
    args.map_values(|a: LexemView| spec_fix_lexem(last, a))
}

/// Qualifies one argument per [`spec_fix_lexem`].
pub fn fix_lexem(last: &[u8], l: &Lexem) -> (r: Lexem)
    ensures
        r@ == spec_fix_lexem(last@, l@),
    decreases *l,
{
    match &l.ttype {
        LexemType::Closure { lhs, op, rhs } => Lexem {
            value: copy_bytes(&l.value),
            ttype: LexemType::Closure {
                lhs: Box::new(fix_lexem(last, lhs)),
                op: Box::new(fix_lexem(last, op)),
                rhs: Box::new(fix_lexem(last, rhs)),
            },
            row: l.row,
            col: l.col,
        },
        LexemType::Ident => {
            if l.value.len() > 0 && l.value[0] == 46 {
                Lexem {
                    value: concat_bytes(last, l.value.as_slice()),
                    ttype: LexemType::Ident,
                    row: l.row,
                    col: l.col,
                }
            } else {
                l.dup()
            }
        },
        _ => l.dup(),
    }
}

/// Qualifies a whole argument list per [`spec_fix_args`].
pub fn fix_sub_label(last: &[u8], args: &Vec<Lexem>) -> (r: Vec<Lexem>)
    ensures
        crate::lexer::lexems_view(r) == spec_fix_args(last@, crate::lexer::lexems_view(*args)),
{
    let mut r: Vec<Lexem> = Vec::new();
    let mut i: usize = 0;
    while i < args.len()
        invariant
            0 <= i <= args@.len(),
            r@.len() == i,
            forall|j: int| 0 <= j < i ==> r@[j]@ == spec_fix_lexem(last@, #[trigger] args@[j]@),
        decreases args@.len() - i,
    {
        r.push(fix_lexem(last, &args[i]));
        i += 1;
    }
    proof {
        assert(crate::lexer::lexems_view(r)
            =~= spec_fix_args(last@, crate::lexer::lexems_view(*args)));
    }
    r
}

/// A macro argument substituted: inside closures the three children are
/// rewritten in turn; elsewhere a lexem whose text is a bound formal name
/// becomes the bound actual, and an unbound lexem keeps its text and kind
/// but takes the position of the macro call.
pub open spec fn spec_unpseudo(l: LexemView, pname: LexemView, binds: Seq<(Seq<u8>, LexemView)>)
    -> LexemView
    decreases l,
{
    match l.kind {
        LexemTypeView::Closure { lhs, op, rhs } => LexemView {
            value: l.value,
            kind: LexemTypeView::Closure {
                lhs: Box::new(spec_unpseudo(*lhs, pname, binds)),
                op: Box::new(spec_unpseudo(*op, pname, binds)),
                rhs: Box::new(spec_unpseudo(*rhs, pname, binds)),
            },
            row: l.row,
            col: l.col,
        },
        _ => match assoc_get(binds, l.value) {
            Some(a) => a,
            None => LexemView { value: l.value, kind: l.kind, row: pname.row, col: pname.col },
        },
    }
}

/// One binding of a formal parameter name to the actual argument lexem.
#[derive(Debug)]
pub struct Bind {
    pub name: Vec<u8>,
    pub actual: Lexem,
}

/// The ghost value of a binding list, entry for entry.
pub open spec fn binds_view(v: Vec<Bind>) -> Seq<(Seq<u8>, LexemView)> {
    v@.map_values(|b: Bind| (b.name@, b.actual@))
}

/// Looks a name up among the bindings, the latest winning.
fn bind_get(binds: &Vec<Bind>, name: &[u8]) -> (r: Option<Lexem>)
    ensures
        match assoc_get(binds_view(*binds), name@) {
            Some(a) => r is Some && r->0@ == a,
            None => r is None,
        },
{
    let mut i: usize = binds.len();
    proof {
        assert(binds_view(*binds).take(binds@.len() as int) =~= binds_view(*binds));
    }
    while i > 0
        invariant
            0 <= i <= binds@.len(),
            assoc_get(binds_view(*binds), name@)
                == assoc_get(binds_view(*binds).take(i as int), name@),
        decreases i,
    {
        i -= 1;
        proof {
            let bv = binds_view(*binds);
            assert(bv.take(i + 1).last() == bv[i as int]);
            assert(bv.take(i + 1).drop_last() =~= bv.take(i as int));
        }
        if bytes_eq(binds[i].name.as_slice(), name) {
            return Some(binds[i].actual.dup());
        }
    }
    proof {
        assert(binds_view(*binds).take(0) =~= Seq::<(Seq<u8>, LexemView)>::empty());
    }
    None
}

/// Substitutes one macro argument per [`spec_unpseudo`].
pub fn unpseudo_arg(l: &Lexem, pname: &Lexem, binds: &Vec<Bind>) -> (r: Lexem)
    ensures
        r@ == spec_unpseudo(l@, pname@, binds_view(*binds)),
    decreases *l,
{
    match &l.ttype {
        LexemType::Closure { lhs, op, rhs } => Lexem {
            value: copy_bytes(&l.value),
            ttype: LexemType::Closure {
                lhs: Box::new(unpseudo_arg(lhs, pname, binds)),
                op: Box::new(unpseudo_arg(op, pname, binds)),
                rhs: Box::new(unpseudo_arg(rhs, pname, binds)),
            },
            row: l.row,
            col: l.col,
        },
        _ => match bind_get(binds, l.value.as_slice()) {
            Some(a) => a,
            None => Lexem {
                value: copy_bytes(&l.value),
                ttype: l.ttype.dup(),
                row: pname.row,
                col: pname.col,
            },
        },
    }
}

/// What one operator does to two machine words: `+ - *` wrap around the
/// word, `/` is integer division and refuses a zero divisor, `& | ^` are
/// bitwise, and the shifts refuse amounts of 64 or more. Anything else is
/// no operator.
pub open spec fn spec_apply_op(op: Seq<u8>, a: u64, b: u64) -> Result<u64, ErrorKind> {
    if op == seq![43u8] {
        Ok(u64_specs::wrapping_add(a, b))
    } else if op == seq![45u8] {
        Ok(u64_specs::wrapping_sub(a, b))
    } else if op == seq![42u8] {
        Ok(u64_specs::wrapping_mul(a, b))
    } else if op == seq![47u8] {
        if b == 0 {
            Err(ErrorKind::DivisionByZero)
        } else {
            Ok((a as int / b as int) as u64)
        }
    } else if op == seq![38u8] {
        Ok(a & b)
    } else if op == seq![124u8] {
        Ok(a | b)
    } else if op == seq![94u8] {
        Ok(a ^ b)
    } else if op == seq![60u8, 60u8] {
        if b >= 64 {
            Err(ErrorKind::ShiftTooLarge)
        } else {
            Ok(a << b)
        }
    } else if op == seq![62u8, 62u8] {
        if b >= 64 {
            Err(ErrorKind::ShiftTooLarge)
        } else {
            Ok(a >> b)
        }
    } else {
        Err(ErrorKind::ExpectedOperator)
    }
}

/// The value of one argument: a number lexem reads as its digits say, an
/// identifier is an unresolved label, and a closure is evaluated
/// bottom-up, left side first, through [`spec_apply_op`] on its operator.
/// Nothing else has a value.
pub open spec fn spec_eval(l: LexemView) -> Result<u64, ErrorKind>
    decreases l,
{
    match l.kind {
        LexemTypeView::Number { radix } => {
            if 2 <= radix <= 36 {
                spec_parse_u64(l.value, radix)
            } else {
                Err(ErrorKind::ExpectedNumber)
            }
        },
        LexemTypeView::Ident => Err(ErrorKind::UndeclaredLabel),
        LexemTypeView::Closure { lhs, op, rhs } => match spec_eval(*lhs) {
            Err(k) => Err(k),
            Ok(a) => match spec_eval(*rhs) {
                Err(k) => Err(k),
                Ok(b) => {
                    if (*op).kind is Operator {
                        spec_apply_op((*op).value, a, b)
                    } else {
                        Err(ErrorKind::ExpectedOperator)
                    }
                },
            },
        },
        _ => Err(ErrorKind::ExpectedNumber),
    }
}

/// Applies one operator per [`spec_apply_op`].
fn apply_op(op: &[u8], a: u64, b: u64) -> (r: Result<u64, ErrorKind>)
    ensures
        r == spec_apply_op(op@, a, b),
{
    if bytes_is1(op, 43) {
        Ok(a.wrapping_add(b))
    } else if bytes_is1(op, 45) {
        Ok(a.wrapping_sub(b))
    } else if bytes_is1(op, 42) {
        Ok(a.wrapping_mul(b))
    } else if bytes_is1(op, 47) {
        if b == 0 {
            Err(ErrorKind::DivisionByZero)
        } else {
            Ok(a / b)
        }
    } else if bytes_is1(op, 38) {
        Ok(a & b)
    } else if bytes_is1(op, 124) {
        Ok(a | b)
    } else if bytes_is1(op, 94) {
        Ok(a ^ b)
    } else if bytes_is2(op, 60, 60) {
        if b >= 64 {
            Err(ErrorKind::ShiftTooLarge)
        } else {
            Ok(a << b)
        }
    } else if bytes_is2(op, 62, 62) {
        if b >= 64 {
            Err(ErrorKind::ShiftTooLarge)
        } else {
            Ok(a >> b)
        }
    } else {
        Err(ErrorKind::ExpectedOperator)
    }
}

/// Evaluates one argument per [`spec_eval`], reporting the position of the
/// lexem an error arises at.
pub fn eval_lexem(l: &Lexem) -> (r: Result<u64, AsmError>)
    ensures
        match spec_eval(l@) {
            Ok(v) => r is Ok && r->Ok_0 == v,
            Err(k) => r is Err && r->Err_0.kind == k,
        },
    decreases *l,
{
    match &l.ttype {
        LexemType::Number { radix } => {
            proof {
                assert(l@.kind == LexemTypeView::Number { radix: *radix as nat });
            }
            let radix = *radix;
            if 2 <= radix && radix <= 36 {
                match parse_u64(l.value.as_slice(), radix) {
                    Ok(v) => Ok(v),
                    Err(k) => Err(AsmError::at(k, l.row, l.col)),
                }
            } else {
                Err(AsmError::at(ErrorKind::ExpectedNumber, l.row, l.col))
            }
        },
        LexemType::Ident => Err(AsmError::at(ErrorKind::UndeclaredLabel, l.row, l.col)),
        LexemType::Closure { lhs, op, rhs } => {
            proof {
                assert(l@.kind == LexemTypeView::Closure {
                    lhs: Box::new((**lhs)@),
                    op: Box::new((**op)@),
                    rhs: Box::new((**rhs)@),
                });
            }
            let a = match eval_lexem(lhs) {
                Ok(v) => v,
                Err(e) => {
                    return Err(e);
                },
            };
            let b = match eval_lexem(rhs) {
                Ok(v) => v,
                Err(e) => {
                    return Err(e);
                },
            };
            if !matches!(op.ttype, LexemType::Operator) {
                return Err(AsmError::at(ErrorKind::ExpectedOperator, op.row, op.col));
            }
            match apply_op(op.value.as_slice(), a, b) {
                Ok(v) => Ok(v),
                Err(k) => Err(AsmError::at(k, op.row, op.col)),
            }
        },
        _ => Err(AsmError::at(ErrorKind::ExpectedNumber, l.row, l.col)),
    }
}

/// A folded argument: a closure becomes a base-ten number lexem carrying
/// the closure's position and the decimal text of its value; every other
/// lexem passes through untouched.
pub open spec fn spec_fold_lexem(l: LexemView) -> Result<LexemView, ErrorKind> {
    if l.kind is Closure {
        match spec_eval(l) {
            Ok(v) => Ok(
                LexemView {
                    value: dec_text(v as nat),
                    kind: LexemTypeView::Number { radix: 10 },
                    row: l.row,
                    col: l.col,
                },
            ),
            Err(k) => Err(k),
        }
    } else {
        Ok(l)
    }
}

/// Law: a closure over two declared labels folds only after label
/// substitution. Before it, evaluation stops on the first identifier as
/// an undeclared label; after it, the left-to-right difference of the two
/// addresses comes out as a base-ten number at the closure's own
/// position, whenever the left address is at least the right one.
pub proof fn lemma_label_closure_folds(
    labels: Seq<(Seq<u8>, u64)>,
    c: LexemView,
    lhs: LexemView,
    op: LexemView,
    rhs: LexemView,
    va: u64,
    vb: u64,
)
    requires
        c.kind == (LexemTypeView::Closure {
            lhs: Box::new(lhs),
            op: Box::new(op),
            rhs: Box::new(rhs),
        }),
        lhs.kind is Ident,
        rhs.kind is Ident,
        op.kind is Operator,
        op.value == seq![45u8],
        assoc_get(labels, lhs.value) == Some(va),
        assoc_get(labels, rhs.value) == Some(vb),
        va >= vb,
    ensures
        spec_fold_lexem(c) == Err::<LexemView, ErrorKind>(ErrorKind::UndeclaredLabel),
        spec_fold_lexem(spec_subst_lexem(labels, c)) == Ok::<LexemView, ErrorKind>(
            LexemView {
                value: dec_text((va - vb) as nat),
                kind: LexemTypeView::Number { radix: 10 },
                row: c.row,
                col: c.col,
            },
        ),
{
    lemma_dec_text_value(va as nat);
    lemma_dec_text_value(vb as nat);
    assert(spec_eval(lhs) == Err::<u64, ErrorKind>(ErrorKind::UndeclaredLabel));
    assert(spec_eval(c) == Err::<u64, ErrorKind>(ErrorKind::UndeclaredLabel));
    let sc = spec_subst_lexem(labels, c);
    assert(sc.kind == (LexemTypeView::Closure {
        lhs: Box::new(spec_subst_lexem(labels, lhs)),
        op: Box::new(spec_subst_lexem(labels, op)),
        rhs: Box::new(spec_subst_lexem(labels, rhs)),
    }));
    assert(spec_eval(spec_subst_lexem(labels, lhs)) == Ok::<u64, ErrorKind>(va));
    assert(spec_eval(spec_subst_lexem(labels, rhs)) == Ok::<u64, ErrorKind>(vb));
    assert(op.value != seq![43u8]) by {
        assert(op.value[0] == 45u8 && seq![43u8][0] == 43u8);
    };
    assert(u64_specs::wrapping_sub(va, vb) == (va - vb) as u64);
    assert(spec_apply_op(op.value, va, vb) == Ok::<u64, ErrorKind>((va - vb) as u64));
    assert(spec_eval(sc) == Ok::<u64, ErrorKind>((va - vb) as u64));
}

/// Law: constant folding is idempotent — folding an argument a second
/// time changes nothing, since a folded closure is already a plain
/// base-ten number and every other lexem passes through untouched.
pub proof fn lemma_fold_idempotent(l: LexemView)
    ensures
        match spec_fold_lexem(l) {
            Ok(f) => spec_fold_lexem(f) == Ok::<LexemView, ErrorKind>(f),
            Err(_) => true,
        },
{
}

/// The directive name `org`.
pub open spec fn kw_org() -> Seq<u8> {
    seq![111u8, 114u8, 103u8]
}

/// The directive name `dw`.
pub open spec fn kw_dw() -> Seq<u8> {
    seq![100u8, 119u8]
}

/// The directive name `dd`.
pub open spec fn kw_dd() -> Seq<u8> {
    seq![100u8, 100u8]
}

/// The directive name `dq`.
pub open spec fn kw_dq() -> Seq<u8> {
    seq![100u8, 113u8]
}

/// How many address units one data-directive argument reserves: `per` for
/// an identifier or a number, `smul` per byte of a string, nothing for
/// anything else.
pub open spec fn reserve_arg(a: LexemView, per: nat, smul: nat) -> nat {
    match a.kind {
        LexemTypeView::Ident => per,
        LexemTypeView::Number { .. } => per,
        LexemTypeView::StrLit => a.value.len() * smul,
        _ => 0,
    }
}

/// The address units a whole data-directive argument list reserves.
pub open spec fn spec_reserve(args: Seq<LexemView>, per: nat, smul: nat) -> nat
    decreases args.len(),
{
    if args.len() == 0 {
        0
    } else {
        spec_reserve(args.drop_last(), per, smul) + reserve_arg(args.last(), per, smul)
    }
}

/// A prefix never reserves more than the whole list.
pub proof fn lemma_reserve_prefix(args: Seq<LexemView>, per: nat, smul: nat, i: int)
    requires
        0 <= i <= args.len(),
    ensures
        spec_reserve(args.take(i), per, smul) <= spec_reserve(args, per, smul),
    decreases args.len(),
{
    if i == args.len() {
        assert(args.take(i) =~= args);
    } else {
        assert(args.drop_last().take(i) =~= args.take(i));
        lemma_reserve_prefix(args.drop_last(), per, smul, i);
    }
}

/// The layout pass's running state: the current origin and unit cursor,
/// the enclosing label, the addresses assigned so far and the statements
/// kept for the later passes.
pub struct LayoutState {
    pub origin: u64,
    pub cursor: u64,
    pub last: Seq<u8>,
    pub labels: Seq<(Seq<u8>, u64)>,
    pub cleaned: Seq<TokenView>,
}

/// The layout pass's starting state: origin and cursor at zero, no
/// enclosing label, nothing assigned, nothing kept.
pub open spec fn layout_init() -> LayoutState {
    LayoutState {
        origin: 0,
        cursor: 0,
        last: Seq::empty(),
        labels: Seq::empty(),
        cleaned: Seq::empty(),
    }
}

/// One data directive laid out: its arguments' units move the cursor and
/// the statement is kept unchanged.
pub open spec fn layout_data_step(
    st: LayoutState,
    name: LexemView,
    args: Seq<LexemView>,
    per: nat,
    smul: nat,
) -> Result<LayoutState, ErrorKind> {
    let add = spec_reserve(args, per, smul);
    if st.cursor + add > u64::MAX {
        Err(ErrorKind::AddressOverflow)
    } else {
        Ok(
            LayoutState {
                cursor: (st.cursor + add) as u64,
                cleaned: st.cleaned.push(TokenView::Instruction { name, args }),
                ..st
            },
        )
    }
}

/// One statement laid out. `org` with a single numeric literal resets the
/// origin and the cursor; `dw`, `dd` and `dq` (named in any case) reserve
/// 1, 2 or 4 units per scalar argument and 2, 4 or 8 units per string
/// byte; any other instruction reserves one unit and has its sub-label
/// arguments qualified under the enclosing label. A label takes the
/// address `origin + cursor`, under its enclosing label's name when it
/// opens with a dot; a second definition of the same raw name is refused,
/// and never overwrites the first.
pub open spec fn layout_step(st: LayoutState, t: TokenView) -> Result<LayoutState, ErrorKind> {
    match t {
        TokenView::Instruction { name, args } => {
            let low = spec_lower(name.value);
            if low == kw_org() {
                if args.len() != 1 {
                    Err(ErrorKind::OrgExpectsAddress)
                } else {
                    match args[0].kind {
                        LexemTypeView::Number { radix } => {
                            if 2 <= radix <= 36 {
                                match spec_parse_u64(args[0].value, radix) {
                                    Err(k) => Err(k),
                                    Ok(v) => Ok(LayoutState { origin: v, cursor: 0, ..st }),
                                }
                            } else {
                                Err(ErrorKind::ExpectedNumber)
                            }
                        },
                        _ => Err(ErrorKind::ExpectedNumber),
                    }
                }
            } else if low == kw_dw() {
                layout_data_step(st, name, args, 1, 2)
            } else if low == kw_dd() {
                layout_data_step(st, name, args, 2, 4)
            } else if low == kw_dq() {
                layout_data_step(st, name, args, 4, 8)
            } else {
                if st.cursor + 1 > u64::MAX {
                    Err(ErrorKind::AddressOverflow)
                } else {
                    Ok(
                        LayoutState {
                            cursor: (st.cursor + 1) as u64,
                            cleaned: st.cleaned.push(
                                TokenView::Instruction {
                                    name,
                                    args: spec_fix_args(st.last, args),
                                },
                            ),
                            ..st
                        },
                    )
                }
            }
        },
        TokenView::Label { name } => {
            if assoc_get(st.labels, name.value) is Some {
                Err(ErrorKind::DuplicateLabel)
            } else if st.origin + st.cursor > u64::MAX {
                Err(ErrorKind::AddressOverflow)
            } else {
                let addr = (st.origin + st.cursor) as u64;
                if name.value.len() > 0 && name.value[0] == 46 {
                    Ok(
                        LayoutState {
                            labels: st.labels.push((st.last + name.value, addr)),
                            ..st
                        },
                    )
                } else {
                    Ok(
                        LayoutState {
                            last: name.value,
                            labels: st.labels.push((name.value, addr)),
                            ..st
                        },
                    )
                }
            }
        },
    }
}

/// Law: a label whose raw name is already bound is refused outright —
/// the layout step errs with a duplicate-label error and assigns nothing,
/// so the first address always stands.
pub proof fn lemma_duplicate_label_refused(st: LayoutState, name: LexemView)
    requires
        assoc_get(st.labels, name.value) is Some,
    ensures
        layout_step(st, TokenView::Label { name }) == Err::<LayoutState, ErrorKind>(
            ErrorKind::DuplicateLabel,
        ),
{
}

/// The layout pass over a statement list, from the front, the first error
/// winning.
pub open spec fn spec_layout(st: LayoutState, toks: Seq<TokenView>) -> Result<
    LayoutState,
    ErrorKind,
>
    decreases toks.len(),
{
    if toks.len() == 0 {
        Ok(st)
    } else {
        match layout_step(st, toks.first()) {
            Err(k) => Err(k),
            Ok(st2) => spec_layout(st2, toks.drop_first()),
        }
    }
}

/// One argument with resolved labels put in: identifiers found in the
/// label table become base-ten number lexems carrying the address's
/// decimal text at the same position, inside closures too; everything
/// else stays.
pub open spec fn spec_subst_lexem(labels: Seq<(Seq<u8>, u64)>, l: LexemView) -> LexemView
    decreases l,
{
    match l.kind {
        LexemTypeView::Closure { lhs, op, rhs } => LexemView {
            value: l.value,
            kind: LexemTypeView::Closure {
                lhs: Box::new(spec_subst_lexem(labels, *lhs)),
                op: Box::new(spec_subst_lexem(labels, *op)),
                rhs: Box::new(spec_subst_lexem(labels, *rhs)),
            },
            row: l.row,
            col: l.col,
        },
        LexemTypeView::Ident => match assoc_get(labels, l.value) {
            Some(v) => LexemView {
                value: dec_text(v as nat),
                kind: LexemTypeView::Number { radix: 10 },
                row: l.row,
                col: l.col,
            },
            None => l,
        },
        _ => l,
    }
}

/// Every argument of a statement substituted per [`spec_subst_lexem`].
pub open spec fn spec_subst_args(labels: Seq<(Seq<u8>, u64)>, args: Seq<LexemView>) -> Seq<
    LexemView,
> {
    args.map_values(|a: LexemView| spec_subst_lexem(labels, a))
}

/// Label substitution over a statement list: by this stage only
/// instructions may remain.
pub open spec fn spec_subst_tokens(labels: Seq<(Seq<u8>, u64)>, toks: Seq<TokenView>) -> Result<
    Seq<TokenView>,
    ErrorKind,
>
    decreases toks.len(),
{
    if toks.len() == 0 {
        Ok(Seq::empty())
    } else {
        match toks.first() {
            TokenView::Label { .. } => Err(ErrorKind::StageLeftover),
            TokenView::Instruction { name, args } => match spec_subst_tokens(
                labels,
                toks.drop_first(),
            ) {
                Err(k) => Err(k),
                Ok(rest) => Ok(
                    seq![
                        TokenView::Instruction { name, args: spec_subst_args(labels, args) },
                    ] + rest,
                ),
            },
        }
    }
}

/// Every argument of a statement folded per [`spec_fold_lexem`], the
/// first error winning.
pub open spec fn spec_fold_args(args: Seq<LexemView>) -> Result<Seq<LexemView>, ErrorKind>
    decreases args.len(),
{
    if args.len() == 0 {
        Ok(Seq::empty())
    } else {
        match spec_fold_lexem(args.first()) {
            Err(k) => Err(k),
            Ok(a) => match spec_fold_args(args.drop_first()) {
                Err(k) => Err(k),
                Ok(rest) => Ok(seq![a] + rest),
            },
        }
    }
}

/// Constant folding over a statement list: by this stage only
/// instructions may remain.
pub open spec fn spec_collapse(toks: Seq<TokenView>) -> Result<Seq<TokenView>, ErrorKind>
    decreases toks.len(),
{
    if toks.len() == 0 {
        Ok(Seq::empty())
    } else {
        match toks.first() {
            TokenView::Label { .. } => Err(ErrorKind::StageLeftover),
            TokenView::Instruction { name, args } => match spec_fold_args(args) {
                Err(k) => Err(k),
                Ok(folded) => match spec_collapse(toks.drop_first()) {
                    Err(k) => Err(k),
                    Ok(rest) => Ok(
                        seq![TokenView::Instruction { name, args: folded }] + rest,
                    ),
                },
            },
        }
    }
}

/// Folds one argument per [`spec_fold_lexem`].
pub fn fold_lexem(l: &Lexem) -> (r: Result<Lexem, AsmError>)
    ensures
        match spec_fold_lexem(l@) {
            Ok(f) => r is Ok && r->Ok_0@ == f,
            Err(k) => r is Err && r->Err_0.kind == k,
        },
{
    if matches!(l.ttype, LexemType::Closure { .. }) {
        let v = match eval_lexem(l) {
            Ok(v) => v,
            Err(e) => {
                return Err(e);
            },
        };
        Ok(Lexem {
            value: fmt_dec(v),
            ttype: LexemType::Number { radix: 10 },
            row: l.row,
            col: l.col,
        })
    } else {
        Ok(l.dup())
    }
}

/// Advances the unit cursor over a data directive's arguments, refusing
/// an address past the machine word.
fn data_advance(cursor: u64, args: &Vec<Lexem>, per: u64, smul: u64, row: usize, col: usize)
    -> (r: Result<u64, AsmError>)
    requires
        1 <= per <= 4,
        2 <= smul <= 8,
    ensures
        ({
            let add = spec_reserve(crate::lexer::lexems_view(*args), per as nat, smul as nat);
            if cursor + add > u64::MAX {
                r is Err && r->Err_0.kind == ErrorKind::AddressOverflow
            } else {
                r == Ok::<u64, AsmError>((cursor + add) as u64)
            }
        }),
{
    let ghost av = crate::lexer::lexems_view(*args);
    let mut acc: u64 = cursor;
    let mut j: usize = 0;
    proof {
        assert(av.take(0) =~= Seq::<LexemView>::empty());
    }
    while j < args.len()
        invariant
            0 <= j <= args@.len(),
            av == crate::lexer::lexems_view(*args),
            acc == cursor + spec_reserve(av.take(j as int), per as nat, smul as nat),
        decreases args@.len() - j,
    {
        proof {
            assert(av.take(j + 1).drop_last() =~= av.take(j as int));
            assert(av.take(j + 1).last() == av[j as int]);
            assert(av[j as int] == args@[j as int]@);
        }
        let ln: usize = args[j].value.len();
        proof {
            assert((ln as nat) * (smul as nat) <= (u64::MAX as nat) * 8) by (nonlinear_arith)
                requires
                    ln as nat <= u64::MAX as nat,
                    smul <= 8;
        }
        let term128: u128 = match &args[j].ttype {
            LexemType::Ident => per as u128,
            LexemType::Number { .. } => per as u128,
            LexemType::StrLit => (ln as u128) * (smul as u128),
            _ => 0,
        };
        if (acc as u128) + term128 > u64::MAX as u128 {
            proof {
                lemma_reserve_prefix(av, per as nat, smul as nat, j + 1);
            }
            return Err(AsmError::at(ErrorKind::AddressOverflow, row, col));
        }
        acc = acc + (term128 as u64);
        j += 1;
    }
    proof {
        assert(av.take(args@.len() as int) =~= av);
    }
    Ok(acc)
}

/// Runs the layout pass over grouped statements per [`spec_layout`] from
/// the starting state: on success the statements with labels removed and
/// sub-labels qualified, and the finished label table.
pub fn discover_labels(tokens: &Vec<Token>) -> (r: Result<(Vec<Token>, Vec<LabelEntry>), AsmError>)
    ensures
        match spec_layout(layout_init(), tokens_view(*tokens)) {
            Ok(st) => {
                &&& r is Ok
                &&& tokens_view(r->Ok_0.0) == st.cleaned
                &&& labels_view(r->Ok_0.1) == st.labels
            },
            Err(k) => r is Err && r->Err_0.kind == k,
        },
{
    let ghost tv = tokens_view(*tokens);
    let mut origin: u64 = 0;
    let mut cursor: u64 = 0;
    let mut last: Vec<u8> = Vec::new();
    let mut labels: Vec<LabelEntry> = Vec::new();
    let mut cleaned: Vec<Token> = Vec::new();
    let mut i: usize = 0;
    proof {
        assert(labels_view(labels) =~= Seq::<(Seq<u8>, u64)>::empty());
        assert(tokens_view(cleaned) =~= Seq::<TokenView>::empty());
        assert(last@ =~= Seq::<u8>::empty());
        assert(tv.skip(0) =~= tv);
    }
    while i < tokens.len()
        invariant
            0 <= i <= tokens@.len(),
            tv == tokens_view(*tokens),
            spec_layout(layout_init(), tv) == spec_layout(
                LayoutState {
                    origin,
                    cursor,
                    last: last@,
                    labels: labels_view(labels),
                    cleaned: tokens_view(cleaned),
                },
                tv.skip(i as int),
            ),
        decreases tokens@.len() - i,
    {
        proof {
            assert(tv.skip(i as int).first() == tv[i as int]);
            assert(tv.skip(i as int).drop_first() =~= tv.skip(i + 1));
            assert(tv[i as int] == tokens@[i as int]@);
        }
        let ghost labels0 = labels_view(labels);
        let ghost cleaned0 = tokens_view(cleaned);
        match &tokens[i] {
            Token::Instruction { name, args } => {
                let low = ascii_lower(name.value.as_slice());
                if bytes_is3(low.as_slice(), 111, 114, 103) {
                    if args.len() != 1 {
                        return Err(AsmError::at(
                            ErrorKind::OrgExpectsAddress,
                            name.row,
                            name.col,
                        ));
                    }
                    let arg = &args[0];
                    proof {
                        assert(args@.map_values(|l: Lexem| l@)[0] == args@[0]@);
                    }
                    match &arg.ttype {
                        LexemType::Number { radix } => {
                            proof {
                                assert(arg@.kind == LexemTypeView::Number {
                                    radix: *radix as nat,
                                });
                            }
                            let radix = *radix;
                            if 2 <= radix && radix <= 36 {
                                match parse_u64(arg.value.as_slice(), radix) {
                                    Ok(v) => {
                                        origin = v;
                                        cursor = 0;
                                    },
                                    Err(k) => {
                                        return Err(AsmError::at(k, arg.row, arg.col));
                                    },
                                }
                            } else {
                                return Err(AsmError::at(
                                    ErrorKind::ExpectedNumber,
                                    arg.row,
                                    arg.col,
                                ));
                            }
                        },
                        _ => {
                            return Err(AsmError::at(ErrorKind::ExpectedNumber, arg.row, arg.col));
                        },
                    }
                } else if bytes_is2(low.as_slice(), 100, 119) {
                    cursor = match data_advance(cursor, args, 1, 2, name.row, name.col) {
                        Ok(c) => c,
                        Err(e) => {
                            return Err(e);
                        },
                    };
                    cleaned.push(tokens[i].dup());
                    proof {
                        assert(tokens_view(cleaned) =~= cleaned0.push(tv[i as int]));
                    }
                } else if bytes_is2(low.as_slice(), 100, 100) {
                    cursor = match data_advance(cursor, args, 2, 4, name.row, name.col) {
                        Ok(c) => c,
                        Err(e) => {
                            return Err(e);
                        },
                    };
                    cleaned.push(tokens[i].dup());
                    proof {
                        assert(tokens_view(cleaned) =~= cleaned0.push(tv[i as int]));
                    }
                } else if bytes_is2(low.as_slice(), 100, 113) {
                    cursor = match data_advance(cursor, args, 4, 8, name.row, name.col) {
                        Ok(c) => c,
                        Err(e) => {
                            return Err(e);
                        },
                    };
                    cleaned.push(tokens[i].dup());
                    proof {
                        assert(tokens_view(cleaned) =~= cleaned0.push(tv[i as int]));
                    }
                } else {
                    if cursor == u64::MAX {
                        return Err(AsmError::at(ErrorKind::AddressOverflow, name.row, name.col));
                    }
                    cursor = cursor + 1;
                    let fixed = fix_sub_label(last.as_slice(), args);
                    cleaned.push(Token::Instruction { name: name.dup(), args: fixed });
                    proof {
                        assert(tokens_view(cleaned) =~= cleaned0.push(
                            TokenView::Instruction {
                                name: name@,
                                args: spec_fix_args(last@, args@.map_values(|l: Lexem| l@)),
                            },
                        ));
                    }
                }
            },
            Token::Label { name } => {
                match label_get(&labels, name.value.as_slice()) {
                    Some(_) => {
                        return Err(AsmError::at(ErrorKind::DuplicateLabel, name.row, name.col));
                    },
                    None => {},
                }
                if origin > u64::MAX - cursor {
                    return Err(AsmError::at(ErrorKind::AddressOverflow, name.row, name.col));
                }
                let addr = origin + cursor;
                if name.value.len() > 0 && name.value[0] == 46 {
                    labels.push(LabelEntry {
                        name: concat_bytes(last.as_slice(), name.value.as_slice()),
                        addr,
                    });
                    proof {
                        assert(labels_view(labels)
                            =~= labels0.push((last@ + name.value@, addr)));
                    }
                } else {
                    last = copy_bytes(&name.value);
                    labels.push(LabelEntry { name: copy_bytes(&name.value), addr });
                    proof {
                        assert(labels_view(labels) =~= labels0.push((name.value@, addr)));
                    }
                }
            },
        }
        i += 1;
    }
    proof {
        assert(tv.skip(tokens@.len() as int) =~= Seq::<TokenView>::empty());
    }
    Ok((cleaned, labels))
}

/// Substitutes resolved labels into one argument per [`spec_subst_lexem`].
pub fn subst_lexem(labels: &Vec<LabelEntry>, l: &Lexem) -> (r: Lexem)
    ensures
        r@ == spec_subst_lexem(labels_view(*labels), l@),
    decreases *l,
{
    match &l.ttype {
        LexemType::Closure { lhs, op, rhs } => Lexem {
            value: copy_bytes(&l.value),
            ttype: LexemType::Closure {
                lhs: Box::new(subst_lexem(labels, lhs)),
                op: Box::new(subst_lexem(labels, op)),
                rhs: Box::new(subst_lexem(labels, rhs)),
            },
            row: l.row,
            col: l.col,
        },
        LexemType::Ident => match label_get(labels, l.value.as_slice()) {
            Some(v) => Lexem {
                value: fmt_dec(v),
                ttype: LexemType::Number { radix: 10 },
                row: l.row,
                col: l.col,
            },
            None => l.dup(),
        },
        _ => l.dup(),
    }
}

/// Substitutes resolved labels into every statement per
/// [`spec_subst_tokens`].
pub fn substitute_labels(tokens: &Vec<Token>, labels: &Vec<LabelEntry>) -> (r: Result<
    Vec<Token>,
    AsmError,
>)
    ensures
        match spec_subst_tokens(labels_view(*labels), tokens_view(*tokens)) {
            Ok(ts) => r is Ok && tokens_view(r->Ok_0) == ts,
            Err(k) => r is Err && r->Err_0.kind == k,
        },
{
    let ghost tv = tokens_view(*tokens);
    let ghost lv = labels_view(*labels);
    let mut out: Vec<Token> = Vec::new();
    let mut i: usize = 0;
    proof {
        assert(tv.skip(0) =~= tv);
        assert(tokens_view(out) =~= Seq::<TokenView>::empty());
    }
    while i < tokens.len()
        invariant
            0 <= i <= tokens@.len(),
            tv == tokens_view(*tokens),
            lv == labels_view(*labels),
            match spec_subst_tokens(lv, tv.skip(i as int)) {
                Ok(rest) => spec_subst_tokens(lv, tv) == Ok::<Seq<TokenView>, ErrorKind>(
                    tokens_view(out) + rest,
                ),
                Err(k) => spec_subst_tokens(lv, tv) == Err::<Seq<TokenView>, ErrorKind>(k),
            },
        decreases tokens@.len() - i,
    {
        proof {
            assert(tv.skip(i as int).first() == tv[i as int]);
            assert(tv.skip(i as int).drop_first() =~= tv.skip(i + 1));
            assert(tv[i as int] == tokens@[i as int]@);
        }
        let ghost out0 = tokens_view(out);
        match &tokens[i] {
            Token::Label { name } => {
                return Err(AsmError::at(ErrorKind::StageLeftover, name.row, name.col));
            },
            Token::Instruction { name, args } => {
                let mut new_args: Vec<Lexem> = Vec::new();
                let mut j: usize = 0;
                while j < args.len()
                    invariant
                        0 <= j <= args@.len(),
                        lv == labels_view(*labels),
                        new_args@.len() == j,
                        forall|k: int| 0 <= k < j
                            ==> new_args@[k]@ == spec_subst_lexem(lv, #[trigger] args@[k]@),
                    decreases args@.len() - j,
                {
                    new_args.push(subst_lexem(labels, &args[j]));
                    j += 1;
                }
                proof {
                    assert(crate::lexer::lexems_view(new_args)
                        =~= spec_subst_args(lv, args@.map_values(|l: Lexem| l@)));
                }
                out.push(Token::Instruction { name: name.dup(), args: new_args });
                proof {
                    assert(tokens_view(out) =~= out0.push(
                        TokenView::Instruction {
                            name: name@,
                            args: spec_subst_args(lv, args@.map_values(|l: Lexem| l@)),
                        },
                    ));
                    if let Ok(rest) = spec_subst_tokens(lv, tv.skip(i + 1)) {
                        assert(out0 + (seq![
                            TokenView::Instruction {
                                name: name@,
                                args: spec_subst_args(lv, args@.map_values(|l: Lexem| l@)),
                            },
                        ] + rest) =~= tokens_view(out) + rest);
                    }
                }
            },
        }
        i += 1;
    }
    proof {
        assert(tv.skip(tokens@.len() as int) =~= Seq::<TokenView>::empty());
        assert(tokens_view(out) + Seq::<TokenView>::empty() =~= tokens_view(out));
    }
    Ok(out)
}

/// Folds every argument expression per [`spec_collapse`]: after this pass
/// closures are gone, replaced by the base-ten numbers they evaluate to.
pub fn collapse_tokens(tokens: &Vec<Token>) -> (r: Result<Vec<Token>, AsmError>)
    ensures
        match spec_collapse(tokens_view(*tokens)) {
            Ok(ts) => r is Ok && tokens_view(r->Ok_0) == ts,
            Err(k) => r is Err && r->Err_0.kind == k,
        },
{
    let ghost tv = tokens_view(*tokens);
    let mut out: Vec<Token> = Vec::new();
    let mut i: usize = 0;
    proof {
        assert(tv.skip(0) =~= tv);
        assert(tokens_view(out) =~= Seq::<TokenView>::empty());
    }
    while i < tokens.len()
        invariant
            0 <= i <= tokens@.len(),
            tv == tokens_view(*tokens),
            match spec_collapse(tv.skip(i as int)) {
                Ok(rest) => spec_collapse(tv) == Ok::<Seq<TokenView>, ErrorKind>(
                    tokens_view(out) + rest,
                ),
                Err(k) => spec_collapse(tv) == Err::<Seq<TokenView>, ErrorKind>(k),
            },
        decreases tokens@.len() - i,
    {
        proof {
            assert(tv.skip(i as int).first() == tv[i as int]);
            assert(tv.skip(i as int).drop_first() =~= tv.skip(i + 1));
            assert(tv[i as int] == tokens@[i as int]@);
        }
        let ghost out0 = tokens_view(out);
        match &tokens[i] {
            Token::Label { name } => {
                return Err(AsmError::at(ErrorKind::StageLeftover, name.row, name.col));
            },
            Token::Instruction { name, args } => {
                let ghost avs = args@.map_values(|l: Lexem| l@);
                let mut new_args: Vec<Lexem> = Vec::new();
                let mut j: usize = 0;
                proof {
                    assert(avs.skip(0) =~= avs);
                    assert(crate::lexer::lexems_view(new_args) =~= Seq::<LexemView>::empty());
                }
                while j < args.len()
                    invariant
                        0 <= j <= args@.len(),
                        avs == args@.map_values(|l: Lexem| l@),
                        match spec_fold_args(avs.skip(j as int)) {
                            Ok(rest) => spec_fold_args(avs) == Ok::<Seq<LexemView>, ErrorKind>(
                                crate::lexer::lexems_view(new_args) + rest,
                            ),
                            Err(k) => spec_fold_args(avs) == Err::<Seq<LexemView>, ErrorKind>(k),
                        },
                    decreases args@.len() - j,
                {
                    proof {
                        assert(avs.skip(j as int).first() == avs[j as int]);
                        assert(avs.skip(j as int).drop_first() =~= avs.skip(j + 1));
                        assert(avs[j as int] == args@[j as int]@);
                    }
                    let ghost na0 = crate::lexer::lexems_view(new_args);
                    let folded = match fold_lexem(&args[j]) {
                        Ok(f) => f,
                        Err(e) => {
                            return Err(e);
                        },
                    };
                    new_args.push(folded);
                    proof {
                        if let Ok(f) = spec_fold_lexem(avs[j as int]) {
                            assert(crate::lexer::lexems_view(new_args) =~= na0.push(f));
                            if let Ok(rest) = spec_fold_args(avs.skip(j + 1)) {
                                assert(na0 + (seq![f] + rest)
                                    =~= crate::lexer::lexems_view(new_args) + rest);
                            }
                        }
                    }
                    j += 1;
                }
                proof {
                    assert(avs.skip(args@.len() as int) =~= Seq::<LexemView>::empty());
                    assert(crate::lexer::lexems_view(new_args) + Seq::<LexemView>::empty()
                        =~= crate::lexer::lexems_view(new_args));
                }
                out.push(Token::Instruction { name: name.dup(), args: new_args });
                proof {
                    if let Ok(folded) = spec_fold_args(avs) {
                        assert(tokens_view(out) =~= out0.push(
                            TokenView::Instruction { name: name@, args: folded },
                        ));
                        if let Ok(rest) = spec_collapse(tv.skip(i + 1)) {
                            assert(out0 + (seq![
                                TokenView::Instruction { name: name@, args: folded },
                            ] + rest) =~= tokens_view(out) + rest);
                        }
                    }
                }
            },
        }
        i += 1;
    }
    proof {
        assert(tv.skip(tokens@.len() as int) =~= Seq::<TokenView>::empty());
        assert(tokens_view(out) + Seq::<TokenView>::empty() =~= tokens_view(out));
    }
    Ok(out)
}

} // verus!
