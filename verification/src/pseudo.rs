//! Pseudo-instructions: named macro templates whose bodies are statement
//! lists over formal parameter names. A call is expanded by binding the
//! actuals positionally, rewriting every body argument, and expanding the
//! rewritten body again until only primitive instructions remain, within a
//! fixed depth.

use vstd::prelude::*;
use crate::errors::{AsmError, ErrorKind};
use crate::lexer::{Lexem, LexemView, Lexer, spec_lex};
use crate::parser::{Parser, Token, TokenView, tokens_view, spec_group_from};
use crate::resolve::{Bind, binds_view, spec_unpseudo, unpseudo_arg};
use crate::text::bytes_eq;

verus! {

/// How deep pseudo-instructions may call one another.
pub const PSEUDO_DEPTH_LIMIT: usize = 32;

/// One compiled pseudo-instruction: its name, its formal parameter names
/// in order, and its body statements.
#[derive(Debug)]
pub struct PseudoEntry {
    pub name: Vec<u8>,
    pub params: Vec<Vec<u8>>,
    pub body: Vec<Token>,
}

/// The ghost mirror of [`PseudoEntry`].
pub struct PseudoEntryView {
    pub name: Seq<u8>,
    pub params: Seq<Seq<u8>>,
    pub body: Seq<TokenView>,
}

/// The ghost value of one pseudo-instruction.
pub open spec fn entry_view(e: PseudoEntry) -> PseudoEntryView {
    PseudoEntryView {
        name: e.name@,
        params: e.params@.map_values(|p: Vec<u8>| p@),
        body: tokens_view(e.body),
    }
}

impl View for PseudoEntry {
    type V = PseudoEntryView;

    open spec fn view(&self) -> PseudoEntryView {
        entry_view(*self)
    }
}

/// The compiled pseudo-instruction set.
#[derive(Debug)]
pub struct PseudoInstructions {
    pub entries: Vec<PseudoEntry>,
}

/// The ghost value of the pseudo set, entry for entry.
pub open spec fn pseudo_view(ps: PseudoInstructions) -> Seq<PseudoEntryView> {
    ps.entries@.map_values(|e: PseudoEntry| e@)
}

/// The pseudo-instruction under `name`, the latest entry winning.
pub open spec fn pseudo_get(ps: Seq<PseudoEntryView>, name: Seq<u8>) -> Option<PseudoEntryView>
    decreases ps.len(),
{
    if ps.len() == 0 {
        None
    } else if ps.last().name == name {
        Some(ps.last())
    } else {
        pseudo_get(ps.drop_last(), name)
    }
}

/// The bindings of formal names to actual argument lexems, in order.
pub open spec fn binds_of(params: Seq<Seq<u8>>, args: Seq<LexemView>) -> Seq<(Seq<u8>, LexemView)>
{
    Seq::new(params.len(), |i: int| (params[i], args[i]))
}

/// One statement expanded: a statement whose mnemonic names no
/// pseudo-instruction stands for itself; a pseudo call must bring exactly
/// as many arguments as the template has formals, its body arguments are
/// rewritten per [`spec_unpseudo`], and the rewritten body is expanded in
/// turn with one less unit of fuel. Labels stand for themselves at the
/// top but may not appear inside a body.
pub open spec fn spec_expand_token(t: TokenView, ps: Seq<PseudoEntryView>, fuel: nat) -> Result<
    Seq<TokenView>,
    ErrorKind,
>
    decreases fuel, 0nat,
{
    match t {
        TokenView::Label { .. } => Ok(seq![t]),
        TokenView::Instruction { name, args } => match pseudo_get(ps, name.value) {
            None => Ok(seq![t]),
            Some(p) => {
                if fuel == 0 {
                    Err(ErrorKind::PseudoDepthExceeded)
                } else if args.len() != p.params.len() {
                    Err(ErrorKind::ArityMismatch)
                } else {
                    spec_expand_body(
                        p.body,
                        name,
                        binds_of(p.params, args),
                        ps,
                        (fuel - 1) as nat,
                    )
                }
            },
        },
    }
}

/// A template body expanded under bindings, statement by statement, the
/// first error winning.
pub open spec fn spec_expand_body(
    body: Seq<TokenView>,
    pname: LexemView,
    binds: Seq<(Seq<u8>, LexemView)>,
    ps: Seq<PseudoEntryView>,
    fuel: nat,
) -> Result<Seq<TokenView>, ErrorKind>
    decreases fuel, body.len() + 1,
{
    if body.len() == 0 {
        Ok(Seq::empty())
    } else {
        match body.first() {
            TokenView::Label { .. } => Err(ErrorKind::LabelInPseudo),
            TokenView::Instruction { name: bn, args: bargs } => {
                let sub = TokenView::Instruction {
                    name: bn,
                    args: bargs.map_values(|a: LexemView| spec_unpseudo(a, pname, binds)),
                };
                match spec_expand_token(sub, ps, fuel) {
                    Err(k) => Err(k),
                    Ok(ts) => match spec_expand_body(
                        body.drop_first(),
                        pname,
                        binds,
                        ps,
                        fuel,
                    ) {
                        Err(k) => Err(k),
                        Ok(rest) => Ok(ts + rest),
                    },
                }
            },
        }
    }
}

/// A whole statement list expanded, each statement from full fuel.
pub open spec fn spec_expand_all(toks: Seq<TokenView>, ps: Seq<PseudoEntryView>, fuel: nat)
    -> Result<Seq<TokenView>, ErrorKind>
    decreases toks.len(),
{
    if toks.len() == 0 {
        Ok(Seq::empty())
    } else {
        match spec_expand_token(toks.first(), ps, fuel) {
            Err(k) => Err(k),
            Ok(ts) => match spec_expand_all(toks.drop_first(), ps, fuel) {
                Err(k) => Err(k),
                Ok(rest) => Ok(ts + rest),
            },
        }
    }
}

/// Finds the pseudo-instruction a mnemonic names, the latest winning.
fn pseudo_find<'a>(ps: &'a PseudoInstructions, name: &[u8]) -> (r: Option<&'a PseudoEntry>)
    ensures
        match pseudo_get(pseudo_view(*ps), name@) {
            Some(p) => r is Some && r->0@ == p,
            None => r is None,
        },
{
    let ghost pv = pseudo_view(*ps);
    let mut i: usize = ps.entries.len();
    proof {
        assert(pv.take(ps.entries@.len() as int) =~= pv);
    }
    while i > 0
        invariant
            0 <= i <= ps.entries@.len(),
            pv == pseudo_view(*ps),
            pseudo_get(pv, name@) == pseudo_get(pv.take(i as int), name@),
        decreases i,
    {
        i -= 1;
        proof {
            assert(pv.take(i + 1).last() == pv[i as int]);
            assert(pv.take(i + 1).drop_last() =~= pv.take(i as int));
        }
        if bytes_eq(ps.entries[i].name.as_slice(), name) {
            return Some(&ps.entries[i]);
        }
    }
    proof {
        assert(pv.take(0) =~= Seq::<PseudoEntryView>::empty());
    }
    None
}

/// Expands one statement per [`spec_expand_token`].
pub fn expand_token(t: &Token, ps: &PseudoInstructions, fuel: usize) -> (r: Result<
    Vec<Token>,
    AsmError,
>)
    ensures
        match spec_expand_token(t@, pseudo_view(*ps), fuel as nat) {
            Ok(ts) => r is Ok && tokens_view(r->Ok_0) == ts,
            Err(k) => r is Err && r->Err_0.kind == k,
        },
    decreases fuel,
{
    let ghost psv = pseudo_view(*ps);
    let name = match t {
        Token::Label { .. } => {
            let mut out: Vec<Token> = Vec::new();
            out.push(t.dup());
            proof {
                assert(tokens_view(out) =~= seq![t@]);
            }
            return Ok(out);
        },
        Token::Instruction { name, .. } => name,
    };
    let args = match t {
        Token::Label { .. } => unreached(),
        Token::Instruction { args, .. } => args,
    };
    let p = match pseudo_find(ps, name.value.as_slice()) {
        None => {
            let mut out: Vec<Token> = Vec::new();
            out.push(t.dup());
            proof {
                assert(tokens_view(out) =~= seq![t@]);
            }
            return Ok(out);
        },
        Some(p) => p,
    };
    if fuel == 0 {
        return Err(AsmError::at(ErrorKind::PseudoDepthExceeded, name.row, name.col));
    }
    if args.len() != p.params.len() {
        return Err(AsmError::at(ErrorKind::ArityMismatch, name.row, name.col));
    }
    let mut binds: Vec<Bind> = Vec::new();
    let mut i: usize = 0;
    while i < p.params.len()
        invariant
            0 <= i <= p.params@.len(),
            args@.len() == p.params@.len(),
            binds@.len() == i,
            forall|k: int| 0 <= k < i
                ==> binds_view(binds)[k] == (#[trigger] p.params@[k]@, args@[k]@),
        decreases p.params@.len() - i,
    {
        binds.push(Bind {
            name: crate::text::copy_bytes(&p.params[i]),
            actual: args[i].dup(),
        });
        i += 1;
    }
    let ghost bnd = binds_of(p@.params, args@.map_values(|l: Lexem| l@));
    proof {
        assert(binds_view(binds) =~= bnd);
    }
    let ghost body_v = tokens_view(p.body);
    let mut out: Vec<Token> = Vec::new();
    let mut j: usize = 0;
    proof {
        assert(body_v.skip(0) =~= body_v);
        assert(tokens_view(out) =~= Seq::<TokenView>::empty());
    }
    while j < p.body.len()
        invariant
            0 <= j <= p.body@.len(),
            body_v == tokens_view(p.body),
            bnd == binds_view(binds),
            psv == pseudo_view(*ps),
            fuel >= 1,
            match spec_expand_body(body_v.skip(j as int), name@, bnd, psv, (fuel - 1) as nat) {
                Ok(rest) => spec_expand_token(t@, psv, fuel as nat) == Ok::<
                    Seq<TokenView>,
                    ErrorKind,
                >(tokens_view(out) + rest),
                Err(k) => spec_expand_token(t@, psv, fuel as nat) == Err::<
                    Seq<TokenView>,
                    ErrorKind,
                >(k),
            },
        decreases p.body@.len() - j,
    {
        proof {
            assert(body_v.skip(j as int).first() == body_v[j as int]);
            assert(body_v.skip(j as int).drop_first() =~= body_v.skip(j + 1));
            assert(body_v[j as int] == p.body@[j as int]@);
        }
        let ghost out0 = tokens_view(out);
        match &p.body[j] {
            Token::Label { name: lname } => {
                return Err(AsmError::at(ErrorKind::LabelInPseudo, name.row, name.col));
            },
            Token::Instruction { name: bn, args: bargs } => {
                let mut new_args: Vec<Lexem> = Vec::new();
                let mut k: usize = 0;
                while k < bargs.len()
                    invariant
                        0 <= k <= bargs@.len(),
                        bnd == binds_view(binds),
                        new_args@.len() == k,
                        forall|m: int| 0 <= m < k
                            ==> new_args@[m]@ == spec_unpseudo(
                                #[trigger] bargs@[m]@,
                                name@,
                                bnd,
                            ),
                    decreases bargs@.len() - k,
                {
                    new_args.push(unpseudo_arg(&bargs[k], name, &binds));
                    k += 1;
                }
                let sub = Token::Instruction { name: bn.dup(), args: new_args };
                proof {
                    assert(sub@ == (TokenView::Instruction {
                        name: bn@,
                        args: bargs@.map_values(|l: Lexem| l@).map_values(
                            |a: LexemView| spec_unpseudo(a, name@, bnd),
                        ),
                    })) by {
                        assert(sub@->Instruction_args
                            =~= bargs@.map_values(|l: Lexem| l@).map_values(
                            |a: LexemView| spec_unpseudo(a, name@, bnd),
                        ));
                    };
                }
                let mut chunk = match expand_token(&sub, ps, fuel - 1) {
                    Ok(c) => c,
                    Err(e) => {
                        return Err(e);
                    },
                };
                let ghost chunk_v = tokens_view(chunk);
                out.append(&mut chunk);
                proof {
                    assert(tokens_view(out) =~= out0 + chunk_v);
                    if let Ok(rest) = spec_expand_body(
                        body_v.skip(j + 1),
                        name@,
                        bnd,
                        psv,
                        (fuel - 1) as nat,
                    ) {
                        assert(out0 + (chunk_v + rest) =~= (out0 + chunk_v) + rest);
                    }
                }
            },
        }
        j += 1;
    }
    proof {
        assert(body_v.skip(p.body@.len() as int) =~= Seq::<TokenView>::empty());
        assert(tokens_view(out) + Seq::<TokenView>::empty() =~= tokens_view(out));
    }
    Ok(out)
}

/// Expands a whole statement list per [`spec_expand_all`], each statement
/// from the full depth limit.
pub fn expand_tokens(tokens: &Vec<Token>, ps: &PseudoInstructions) -> (r: Result<
    Vec<Token>,
    AsmError,
>)
    ensures
        match spec_expand_all(
            tokens_view(*tokens),
            pseudo_view(*ps),
            PSEUDO_DEPTH_LIMIT as nat,
        ) {
            Ok(ts) => r is Ok && tokens_view(r->Ok_0) == ts,
            Err(k) => r is Err && r->Err_0.kind == k,
        },
{
    let ghost tv = tokens_view(*tokens);
    let ghost psv = pseudo_view(*ps);
    let mut out: Vec<Token> = Vec::new();
    let mut i: usize = 0;
    proof {
        assert(tv.skip(0) =~= tv);
        assert(tokens_view(out) =~= Seq::<TokenView>::empty());
    }
    while i < tokens.len()
        invariant
            0 <= i <= tokens@.len(),
            tv == tokens_view(*tokens),
            psv == pseudo_view(*ps),
            match spec_expand_all(tv.skip(i as int), psv, PSEUDO_DEPTH_LIMIT as nat) {
                Ok(rest) => spec_expand_all(tv, psv, PSEUDO_DEPTH_LIMIT as nat) == Ok::<
                    Seq<TokenView>,
                    ErrorKind,
                >(tokens_view(out) + rest),
                Err(k) => spec_expand_all(tv, psv, PSEUDO_DEPTH_LIMIT as nat) == Err::<
                    Seq<TokenView>,
                    ErrorKind,
                >(k),
            },
        decreases tokens@.len() - i,
    {
        proof {
            assert(tv.skip(i as int).first() == tv[i as int]);
            assert(tv.skip(i as int).drop_first() =~= tv.skip(i + 1));
            assert(tv[i as int] == tokens@[i as int]@);
        }
        let ghost out0 = tokens_view(out);
        let mut chunk = match expand_token(&tokens[i], ps, PSEUDO_DEPTH_LIMIT) {
            Ok(c) => c,
            Err(e) => {
                return Err(e);
            },
        };
        let ghost chunk_v = tokens_view(chunk);
        out.append(&mut chunk);
        proof {
            assert(tokens_view(out) =~= out0 + chunk_v);
            if let Ok(rest) = spec_expand_all(tv.skip(i + 1), psv, PSEUDO_DEPTH_LIMIT as nat) {
                assert(out0 + (chunk_v + rest) =~= (out0 + chunk_v) + rest);
            }
        }
        i += 1;
    }
    proof {
        assert(tv.skip(tokens@.len() as int) =~= Seq::<TokenView>::empty());
        assert(tokens_view(out) + Seq::<TokenView>::empty() =~= tokens_view(out));
    }
    Ok(out)
}

/// One pseudo-instruction template as source text: a header naming the
/// pseudo and its formals, and a body of statements.
#[derive(Debug)]
pub struct PseudoTemplate {
    pub header: Vec<u8>,
    pub body: Vec<u8>,
}

/// The ghost values of a pseudo template list, pair for pair.
pub open spec fn pseudo_templates_view(v: Vec<PseudoTemplate>) -> Seq<(Seq<u8>, Seq<u8>)> {
    v@.map_values(|t: PseudoTemplate| (t.header@, t.body@))
}

/// One template compiled: the header is lexed and grouped and must come
/// out as exactly one instruction, whose mnemonic names the pseudo and
/// whose argument texts are the formal names in order; the body is lexed
/// and grouped into the template's statements. The first failure wins.
pub open spec fn spec_compile_pseudo(header: Seq<u8>, body: Seq<u8>) -> Result<
    PseudoEntryView,
    ErrorKind,
> {
    match spec_lex(header, 0) {
        Err(f) => Err(f.kind),
        Ok(hls) => match spec_group_from(hls, 0) {
            Err(k) => Err(k),
            Ok(hts) => {
                if hts.len() != 1 {
                    Err(ErrorKind::BadPseudoTemplate)
                } else {
                    match hts[0] {
                        TokenView::Label { .. } => Err(ErrorKind::BadPseudoTemplate),
                        TokenView::Instruction { name, args } => match spec_lex(body, 0) {
                            Err(f) => Err(f.kind),
                            Ok(bls) => match spec_group_from(bls, 0) {
                                Err(k) => Err(k),
                                Ok(bts) => Ok(
                                    PseudoEntryView {
                                        name: name.value,
                                        params: args.map_values(|a: LexemView| a.value),
                                        body: bts,
                                    },
                                ),
                            },
                        },
                    }
                }
            },
        },
    }
}

/// A whole template list compiled, in order, the first failure winning.
pub open spec fn spec_compile_pseudos(ts: Seq<(Seq<u8>, Seq<u8>)>) -> Result<
    Seq<PseudoEntryView>,
    ErrorKind,
>
    decreases ts.len(),
{
    if ts.len() == 0 {
        Ok(Seq::empty())
    } else {
        match spec_compile_pseudo(ts.first().0, ts.first().1) {
            Err(k) => Err(k),
            Ok(e) => match spec_compile_pseudos(ts.drop_first()) {
                Err(k) => Err(k),
                Ok(rest) => Ok(seq![e] + rest),
            },
        }
    }
}

impl PseudoInstructions {
    /// Compiles pseudo-instruction templates by running each header and
    /// body through the lexer and the grouping stage, as the assembler
    /// itself would: the header must group into exactly one instruction,
    /// whose mnemonic names the pseudo and whose argument texts name the
    /// formals; the body's statements become the template body.
    pub fn initialize(templates: &Vec<PseudoTemplate>) -> (r: Result<
        PseudoInstructions,
        AsmError,
    >)
        requires
            forall|i: int| 0 <= i < templates@.len()
                ==> (#[trigger] templates@[i]).header@.len() < usize::MAX
                    && templates@[i].body@.len() < usize::MAX,
        ensures
            match spec_compile_pseudos(pseudo_templates_view(*templates)) {
                Ok(es) => r is Ok && pseudo_view(r->Ok_0) == es,
                Err(k) => r is Err && r->Err_0.kind == k,
            },
    {
        let ghost tv = pseudo_templates_view(*templates);
        let mut lexer = Lexer::new();
        let mut parser = Parser::new();
        let mut entries: Vec<PseudoEntry> = Vec::new();
        let mut i: usize = 0;
        proof {
            assert(tv.skip(0) =~= tv);
            assert(entries@.map_values(|e: PseudoEntry| e@) =~= Seq::<PseudoEntryView>::empty());
        }
        while i < templates.len()
            invariant
                0 <= i <= templates@.len(),
                tv == pseudo_templates_view(*templates),
                match spec_compile_pseudos(tv.skip(i as int)) {
                    Ok(rest) => spec_compile_pseudos(tv) == Ok::<Seq<PseudoEntryView>, ErrorKind>(
                        entries@.map_values(|e: PseudoEntry| e@) + rest,
                    ),
                    Err(k) => spec_compile_pseudos(tv) == Err::<Seq<PseudoEntryView>, ErrorKind>(
                        k,
                    ),
                },
            decreases templates@.len() - i,
        {
            proof {
                assert(tv.skip(i as int).first() == tv[i as int]);
                assert(tv.skip(i as int).drop_first() =~= tv.skip(i + 1));
                assert(tv[i as int] == (templates@[i as int].header@, templates@[i as int].body@));
            }
            let ghost done = entries@.map_values(|e: PseudoEntry| e@);
            let t = &templates[i];
            match lexer.lex(t.header.as_slice()) {
                Ok(()) => {},
                Err(e) => {
                    return Err(e);
                },
            }
            match parser.first_stage_parse(&lexer.lexems) {
                Ok(()) => {},
                Err(e) => {
                    return Err(e);
                },
            }
            if parser.tokens.len() != 1 {
                return Err(AsmError::at(ErrorKind::BadPseudoTemplate, 0, 0));
            }
            proof {
                assert(tokens_view(parser.tokens)[0] == parser.tokens@[0]@);
            }
            let (name, params) = match &parser.tokens[0] {
                Token::Label { .. } => {
                    return Err(AsmError::at(ErrorKind::BadPseudoTemplate, 0, 0));
                },
                Token::Instruction { name, args } => {
                    let mut params: Vec<Vec<u8>> = Vec::new();
                    let mut j: usize = 0;
                    while j < args.len()
                        invariant
                            0 <= j <= args@.len(),
                            params@.len() == j,
                            forall|k: int| 0 <= k < j
                                ==> params@[k]@ == (#[trigger] args@[k])@.value,
                        decreases args@.len() - j,
                    {
                        params.push(crate::text::copy_bytes(&args[j].value));
                        j += 1;
                    }
                    proof {
                        assert(params@.map_values(|p: Vec<u8>| p@)
                            =~= args@.map_values(|l: Lexem| l@).map_values(
                            |a: LexemView| a.value,
                        ));
                    }
                    (crate::text::copy_bytes(&name.value), params)
                },
            };
            match lexer.lex(t.body.as_slice()) {
                Ok(()) => {},
                Err(e) => {
                    return Err(e);
                },
            }
            match parser.first_stage_parse(&lexer.lexems) {
                Ok(()) => {},
                Err(e) => {
                    return Err(e);
                },
            }
            let mut body: Vec<Token> = Vec::new();
            let mut j: usize = 0;
            while j < parser.tokens.len()
                invariant
                    0 <= j <= parser.tokens@.len(),
                    body@.len() == j,
                    forall|k: int| 0 <= k < j ==> body@[k]@ == #[trigger] parser.tokens@[k]@,
                decreases parser.tokens@.len() - j,
            {
                body.push(parser.tokens[j].dup());
                j += 1;
            }
            proof {
                assert(tokens_view(body) =~= tokens_view(parser.tokens));
            }
            let entry = PseudoEntry { name, params, body };
            proof {
                if let Ok(e) = spec_compile_pseudo(
                    templates@[i as int].header@,
                    templates@[i as int].body@,
                ) {
                    assert(entry@ == e) by {
                        assert(entry@.name =~= e.name);
                        assert(entry@.params =~= e.params);
                        assert(entry@.body =~= e.body);
                    };
                }
            }
            entries.push(entry);
            proof {
                assert(entries@.map_values(|e: PseudoEntry| e@) =~= done.push(entry@));
                if let Ok(e) = spec_compile_pseudo(
                    templates@[i as int].header@,
                    templates@[i as int].body@,
                ) {
                    if let Ok(rest) = spec_compile_pseudos(tv.skip(i + 1)) {
                        assert(done + (seq![e] + rest)
                            =~= entries@.map_values(|e2: PseudoEntry| e2@) + rest);
                    }
                }
            }
            i += 1;
        }
        proof {
            assert(tv.skip(templates@.len() as int) =~= Seq::<(Seq<u8>, Seq<u8>)>::empty());
            assert(entries@.map_values(|e: PseudoEntry| e@) + Seq::<PseudoEntryView>::empty()
                =~= entries@.map_values(|e: PseudoEntry| e@));
            assert(pseudo_view(PseudoInstructions { entries })
                =~= entries@.map_values(|e: PseudoEntry| e@));
        }
        Ok(PseudoInstructions { entries })
    }
}

} // verus!