//! From what the text of a grammar says to a grammar: the names of the text become indices,
//! and what the text leaves undefined becomes an error.

use crate::grammar::{
    names_view, opt_names_view, prods_view, same_bytes, Cfg, RIdx, Symbol, TIdx, YaccGrammar,
};
use crate::yacc_parser::{AstSymbol, AstView, GrammarAST, ProdView, Span};
use crate::mf::copy_vec;
use vstd::prelude::*;

verus! {

/// The kinds of errors in what the text of a grammar says.
#[derive(Clone, Copy, Debug, PartialEq, Eq, Structural)]
pub enum GrammarValidationErrorKind {
    /// The text names no start rule and has no rule.
    NoStartRule,
    /// The start rule has no production.
    InvalidStartRule,
    /// A production names a rule that has no production.
    UnknownRuleRef,
    /// The text holds more symbols than 32 bits can count.
    TooLarge,
}

/// An error in what the text of a grammar says, with the symbol that it is about, where it
/// is about one.
#[derive(Clone, Copy, Debug, PartialEq, Eq, Structural)]
pub struct GrammarValidationError {
    pub kind: GrammarValidationErrorKind,
    pub sym: Option<AstSymbol>,
}

/// The bytes of a span of the text; none where the span does not lie in the text.
pub open spec fn span_bytes(src: Seq<u8>, sp: Span) -> Seq<u8> {
    if sp.start <= sp.end <= src.len() {
        src.subrange(sp.start as int, sp.end as int)
    } else {
        Seq::empty()
    }
}

/// The text declares a token of this name.
pub open spec fn declared(src: Seq<u8>, ast: AstView, name: Seq<u8>) -> bool {
    exists|i: int| 0 <= i < ast.tokens.len() && span_bytes(src, (#[trigger] ast.tokens[i]).span) == name
}

/// The text has a production of a rule of this name.
pub open spec fn defined(src: Seq<u8>, ast: AstView, name: Seq<u8>) -> bool {
    exists|k: int| 0 <= k < ast.prods.len() && span_bytes(src, (#[trigger] ast.prods[k]).rule) == name
}

/// The symbol stands for a token: it is quoted, or its name is that of a declared token.
pub open spec fn is_token_sym(src: Seq<u8>, ast: AstView, sym: AstSymbol) -> bool {
    sym.quoted || declared(src, ast, span_bytes(src, sym.span))
}

/// The symbol names a rule that has no production.
pub open spec fn unknown_ref(src: Seq<u8>, ast: AstView, sym: AstSymbol) -> bool {
    !is_token_sym(src, ast, sym) && !defined(src, ast, span_bytes(src, sym.span))
}

/// Some production holds a symbol that names a rule without a production.
pub open spec fn has_unknown_ref(src: Seq<u8>, ast: AstView) -> bool {
    exists|k: int, i: int|
        0 <= k < ast.prods.len() && 0 <= i < ast.prods[k].syms.len() && unknown_ref(
            src,
            ast,
            #[trigger] ast.prods[k].syms[i],
        )
}

/// The name of the start rule: the one that the text names, else the rule of the first
/// production.
pub open spec fn start_span(ast: AstView) -> Option<Span> {
    match ast.start {
        Some(sp) => Some(sp),
        None => if ast.prods.len() > 0 {
            Some(ast.prods[0].rule)
        } else {
            None
        },
    }
}

/// How many symbols the first `n` productions hold.
pub open spec fn syms_total(prods: Seq<ProdView>, n: int) -> int
    decreases n,
{
    if n <= 0 {
        0
    } else {
        syms_total(prods, n - 1) + prods[n - 1].syms.len()
    }
}

/// How many tokens, productions and symbols the text holds.
pub open spec fn ast_size(ast: AstView) -> int {
    ast.tokens.len() + ast.prods.len() + syms_total(ast.prods, ast.prods.len() as int)
}

/// The symbol at place `i` of production `k` of the text is the first that names a rule
/// without a production.
pub open spec fn first_unknown_at(src: Seq<u8>, ast: AstView, k: int, i: int) -> bool {
    &&& 0 <= k < ast.prods.len()
    &&& 0 <= i < ast.prods[k].syms.len()
    &&& unknown_ref(src, ast, ast.prods[k].syms[i])
    &&& forall|j: int| 0 <= j < i ==> !unknown_ref(src, ast, #[trigger] ast.prods[k].syms[j])
    &&& forall|p: int, j: int|
        0 <= p < k && 0 <= j < ast.prods[p].syms.len() ==> !unknown_ref(src, ast, #[trigger] ast.prods[p].syms[j])
}

/// `e` is the error in what the text says: its kind is that of [`ast_error`]; where a symbol
/// names a rule without a production, it holds the first such symbol of the text, and else
/// no symbol.
pub open spec fn is_ast_error(src: Seq<u8>, ast: AstView, e: GrammarValidationError) -> bool {
    &&& ast_error(src, ast) == Some(e.kind)
    &&& if e.kind == GrammarValidationErrorKind::UnknownRuleRef {
        exists|k: int, i: int| #[trigger] first_unknown_at(src, ast, k, i) && e.sym == Some(ast.prods[k].syms[i])
    } else {
        e.sym is None
    }
}

/// The error in what the text says, if there is one.
pub open spec fn ast_error(src: Seq<u8>, ast: AstView) -> Option<GrammarValidationErrorKind> {
    if ast_size(ast) >= u32::MAX - 2 {
        Some(GrammarValidationErrorKind::TooLarge)
    } else if start_span(ast) is None {
        Some(GrammarValidationErrorKind::NoStartRule)
    } else if !defined(src, ast, span_bytes(src, start_span(ast)->Some_0)) {
        Some(GrammarValidationErrorKind::InvalidStartRule)
    } else if has_unknown_ref(src, ast) {
        Some(GrammarValidationErrorKind::UnknownRuleRef)
    } else {
        None
    }
}

/// The names with `x` behind them, unless `x` is among them.
pub open spec fn add_first(names: Seq<Seq<u8>>, x: Seq<u8>) -> Seq<Seq<u8>> {
    if names.contains(x) {
        names
    } else {
        names.push(x)
    }
}

/// The names that `mentions` holds, each once, in the order in which they first come.
pub open spec fn firsts_of(mentions: Seq<Seq<u8>>) -> Seq<Seq<u8>>
    decreases mentions.len(),
{
    if mentions.len() == 0 {
        Seq::empty()
    } else {
        add_first(firsts_of(mentions.drop_last()), mentions.last())
    }
}

/// The names of the rules of the first `n` productions of the text, in their order.
pub open spec fn rule_mentions(src: Seq<u8>, ast: AstView, n: int) -> Seq<Seq<u8>> {
    Seq::new(n as nat, |k: int| span_bytes(src, ast.prods[k].rule))
}

/// The names of the first `i` declared tokens, in their order.
pub open spec fn declared_mentions(src: Seq<u8>, ast: AstView, i: int) -> Seq<Seq<u8>> {
    Seq::new(i as nat, |k: int| span_bytes(src, ast.tokens[k].span))
}

/// The quoted strings among the first `i` of the symbols `syms`, in their order.
pub open spec fn quoted_names(src: Seq<u8>, syms: Seq<AstSymbol>, i: int) -> Seq<Seq<u8>>
    decreases i,
{
    if i <= 0 {
        Seq::empty()
    } else if syms[i - 1].quoted {
        quoted_names(src, syms, i - 1).push(span_bytes(src, syms[i - 1].span))
    } else {
        quoted_names(src, syms, i - 1)
    }
}

/// The quoted strings of the first `n` productions, in their order.
pub open spec fn prods_quoted(src: Seq<u8>, prods: Seq<ProdView>, n: int) -> Seq<Seq<u8>>
    decreases n,
{
    if n <= 0 {
        Seq::empty()
    } else {
        prods_quoted(src, prods, n - 1) + quoted_names(src, prods[n - 1].syms, prods[n - 1].syms.len() as int)
    }
}

/// The names of the tokens as the text mentions them: first the declared tokens, then the
/// quoted strings of the productions.
pub open spec fn token_mentions(src: Seq<u8>, ast: AstView) -> Seq<Seq<u8>> {
    declared_mentions(src, ast, ast.tokens.len() as int) + prods_quoted(src, ast.prods, ast.prods.len() as int)
}

/// The names, each as the name of a token, with the end-of-input token, which has no name,
/// behind them.
pub open spec fn with_none(names: Seq<Seq<u8>>) -> Seq<Option<Seq<u8>>> {
    Seq::new(
        names.len() + 1,
        |t: int|
            if t < names.len() {
                Some(names[t])
            } else {
                None
            },
    )
}

/// The name of the rule that the grammar starts from: `^`.
pub open spec fn start_rule_name() -> Seq<u8> {
    seq![94u8]
}

/// The symbol `s` of the grammar is what the symbol `sym` of the text names.
pub open spec fn resolves(
    src: Seq<u8>,
    ast: AstView,
    rule_names: Seq<Seq<u8>>,
    token_names: Seq<Option<Seq<u8>>>,
    sym: AstSymbol,
    s: Symbol,
) -> bool {
    match s {
        Symbol::Token(t) => is_token_sym(src, ast, sym) && t < token_names.len() && token_names[t as int]
            == Some(span_bytes(src, sym.span)),
        Symbol::Rule(r) => !is_token_sym(src, ast, sym) && 1 <= r < rule_names.len() && rule_names[r as int]
            == span_bytes(src, sym.span),
    }
}

/// The grammar with these names is the one that the text describes. Rule 0, named `^`, has
/// one production, which holds the start rule; the other productions are those of the
/// text, in their order, with an index for each name. The other rules are those that the
/// text has productions of, in the order in which they first come, and the tokens are those
/// that the text declares and those that it quotes, in the order in which they first come.
/// The last token is the end-of-input token, which alone has no name.
pub open spec fn describes(
    src: Seq<u8>,
    ast: AstView,
    g: Cfg,
    rule_names: Seq<Seq<u8>>,
    token_names: Seq<Option<Seq<u8>>>,
) -> bool {
    &&& g.wf()
    &&& rule_names.len() == g.rules_len
    &&& token_names.len() == g.tokens_len
    &&& g.start_rule == 0
    &&& rule_names[0] == start_rule_name()
    &&& rule_names.skip(1) == firsts_of(rule_mentions(src, ast, ast.prods.len() as int))
    &&& token_names == with_none(firsts_of(token_mentions(src, ast)))
    &&& g.eof_token == g.tokens_len - 1
    &&& forall|t: int| 0 <= t < g.tokens_len ==> ((#[trigger] token_names[t]) is None <==> t == g.eof_token)
    &&& g.prods.len() == ast.prods.len() + 1
    &&& g.prod_rules[0] == 0
    &&& g.prods[0].len() == 1
    &&& g.prods[0][0] matches Symbol::Rule(s)
    &&& 1 <= s < g.rules_len
    &&& start_span(ast) is Some
    &&& rule_names[s as int] == span_bytes(src, start_span(ast)->Some_0)
    &&& forall|k: int|
        0 <= k < ast.prods.len() ==> {
            &&& 1 <= #[trigger] g.prod_rules[k + 1]
            &&& rule_names[g.prod_rules[k + 1] as int] == span_bytes(src, ast.prods[k].rule)
            &&& g.prods[k + 1].len() == ast.prods[k].syms.len()
        }
    &&& forall|k: int, i: int|
        0 <= k < ast.prods.len() && 0 <= i < ast.prods[k].syms.len() ==> resolves(
            src,
            ast,
            rule_names,
            token_names,
            ast.prods[k].syms[i],
            #[trigger] g.prods[k + 1][i],
        )
    &&& forall|r1: int, r2: int| 1 <= r1 < r2 < rule_names.len() ==> #[trigger] rule_names[r1] != #[trigger] rule_names[r2]
    &&& forall|t1: int, t2: int|
        0 <= t1 < t2 < token_names.len() ==> #[trigger] token_names[t1] != #[trigger] token_names[t2]
}

/// The bytes of a span of the text.
fn copy_span(src: &[u8], sp: Span) -> (out: Vec<u8>)
    ensures
        out@ == span_bytes(src@, sp),
{
    let mut out: Vec<u8> = Vec::new();
    if sp.start <= sp.end && sp.end <= src.len() {
        let mut i = sp.start;
        while i < sp.end
            invariant
                sp.start <= i <= sp.end <= src@.len(),
                out@ == src@.subrange(sp.start as int, i as int),
            decreases sp.end - i,
        {
            out.push(src[i]);
            assert(src@.subrange(sp.start as int, i + 1) =~= src@.subrange(sp.start as int, i as int).push(
                src@[i as int],
            ));
            i += 1;
        }
    } else {
        assert(out@ =~= Seq::<u8>::empty());
    }
    out
}

/// The first index from `from` on, below `upto`, at which `names` holds `name`.
fn lookup(names: &Vec<Vec<u8>>, name: &Vec<u8>, from: usize, upto: usize) -> (found: Option<usize>)
    requires
        upto <= names@.len(),
    ensures
        match found {
            Some(i) => from <= i < upto && names@[i as int]@ == name@,
            None => forall|i: int| from <= i < upto ==> (#[trigger] names@[i])@ != name@,
        },
{
    let mut i = from;
    while i < upto
        invariant
            from <= i,
            upto <= names@.len(),
            forall|j: int| from <= j < i ==> (#[trigger] names@[j])@ != name@,
        decreases upto - i,
    {
        if same_bytes(names[i].as_slice(), name.as_slice()) {
            return Some(i);
        }
        i += 1;
    }
    None
}

/// The names from index `from` on differ from each other.
pub open spec fn distinct_from(names: Seq<Vec<u8>>, from: int) -> bool {
    forall|i: int, j: int| from <= i < j < names.len() ==> (#[trigger] names[i])@ != (#[trigger] names[j])@
}

/// The index from `from` on at which `names` holds `name`; the name is added if it is not
/// there.
fn intern(names: &mut Vec<Vec<u8>>, name: Vec<u8>, from: usize) -> (idx: usize)
    requires
        from <= old(names)@.len(),
        distinct_from(old(names)@, from as int),
    ensures
        from <= idx < final(names)@.len(),
        final(names)@[idx as int]@ == name@,
        final(names)@.len() == old(names)@.len() || final(names)@.len() == old(names)@.len() + 1,
        forall|i: int| 0 <= i < old(names)@.len() ==> #[trigger] final(names)@[i] == old(names)@[i],
        final(names)@.len() == old(names)@.len() + 1 ==> idx == old(names)@.len(),
        distinct_from(final(names)@, from as int),
        names_view(final(names)@).skip(from as int) == add_first(names_view(old(names)@).skip(from as int), name@),
{
    let ghost before = names_view(names@).skip(from as int);
    match lookup(names, &name, from, names.len()) {
        Some(i) => {
            assert(before[i - from] == name@);
            i
        },
        None => {
            proof {
                if before.contains(name@) {
                    let i = choose|i: int| 0 <= i < before.len() && before[i] == name@;
                    assert(names@[from + i]@ == name@);
                }
            }
            names.push(name);
            assert(names_view(names@).skip(from as int) =~= before.push(name@));
            names.len() - 1
        },
    }
}


/// `names` holds `name` at an index from `from` on, below `upto`.
pub open spec fn holds_name(names: Seq<Vec<u8>>, name: Seq<u8>, from: int, upto: int) -> bool {
    exists|i: int| from <= i < upto && i < names.len() && (#[trigger] names[i])@ == name
}

/// The rule names and the rules of the productions are those of the first `n` productions
/// of the text.
pub open spec fn rules_collected(src: Seq<u8>, ast: AstView, rnames: Seq<Vec<u8>>, pr: Seq<RIdx>, n: int) -> bool {
    &&& 1 <= rnames.len() <= n + 1
    &&& rnames[0]@ == start_rule_name()
    &&& distinct_from(rnames, 1)
    &&& pr.len() == n + 1
    &&& pr[0] == 0
    &&& forall|k: int|
        0 <= k < n ==> 1 <= #[trigger] pr[k + 1] < rnames.len() && rnames[pr[k + 1] as int]@ == span_bytes(
            src,
            ast.prods[k].rule,
        )
    &&& forall|r: int|
        1 <= r < rnames.len() ==> exists|k: int|
            0 <= k < n && span_bytes(src, (#[trigger] ast.prods[k]).rule) == (#[trigger] rnames[r])@
}

/// The names of the rules, with `^` for rule 0, and the rule of each production.
fn collect_rules(src: &[u8], ast: &GrammarAST) -> (res: (Vec<Vec<u8>>, Vec<RIdx>))
    requires
        ast@.prods.len() < u32::MAX - 2,
    ensures
        rules_collected(src@, ast@, res.0@, res.1@, ast@.prods.len() as int),
        names_view(res.0@).skip(1) == firsts_of(rule_mentions(src@, ast@, ast@.prods.len() as int)),
{
    let mut rnames: Vec<Vec<u8>> = Vec::new();
    let mut caret: Vec<u8> = Vec::new();
    caret.push(94);
    assert(caret@ =~= start_rule_name());
    rnames.push(caret);
    let mut pr: Vec<RIdx> = Vec::new();
    pr.push(0);
    let mut k: usize = 0;
    proof {
        assert(names_view(rnames@).skip(1) =~= firsts_of(rule_mentions(src@, ast@, 0)));
    }
    while k < ast.prods.len()
        invariant
            k <= ast@.prods.len(),
            ast@.prods.len() < u32::MAX - 2,
            rules_collected(src@, ast@, rnames@, pr@, k as int),
            names_view(rnames@).skip(1) == firsts_of(rule_mentions(src@, ast@, k as int)),
        decreases ast@.prods.len() - k,
    {
        let ghost rnames0 = rnames@;
        let ghost pr0 = pr@;
        let name = copy_span(src, ast.prods[k].rule);
        assert(ast@.prods[k as int].rule == ast.prods@[k as int].rule);
        let idx = intern(&mut rnames, name, 1);
        pr.push(idx as RIdx);
        proof {
            let more = rule_mentions(src@, ast@, k + 1);
            assert(more.drop_last() =~= rule_mentions(src@, ast@, k as int));
            assert(more.last() == span_bytes(src@, ast@.prods[k as int].rule));
            assert forall|j: int| 0 <= j < k + 1 implies 1 <= #[trigger] pr@[j + 1] < rnames@.len()
                && rnames@[pr@[j + 1] as int]@ == span_bytes(src@, ast@.prods[j].rule) by {
                if j < k {
                    assert(pr@[j + 1] == pr0[j + 1]);
                    assert(rnames@[pr0[j + 1] as int] == rnames0[pr0[j + 1] as int]);
                }
            }
            assert forall|r: int| 1 <= r < rnames@.len() implies exists|j: int|
                0 <= j < k + 1 && span_bytes(src@, (#[trigger] ast@.prods[j]).rule) == (#[trigger] rnames@[r])@ by {
                if r < rnames0.len() {
                    assert(rnames@[r] == rnames0[r]);
                    let j = choose|j: int|
                        0 <= j < k && span_bytes(src@, (#[trigger] ast@.prods[j]).rule) == rnames0[r]@;
                    assert(span_bytes(src@, ast@.prods[j].rule) == rnames@[r]@);
                } else {
                    assert(span_bytes(src@, ast@.prods[k as int].rule) == rnames@[r]@);
                }
            }
            assert(rnames@[0] == rnames0[0]);
        }
        k += 1;
    }
    (rnames, pr)
}

/// The symbols of the first `n` productions, and of the first `i` symbols of the one behind
/// them, that are quoted have their names in `tnames`.
pub open spec fn quoted_held(src: Seq<u8>, ast: AstView, tnames: Seq<Vec<u8>>, n: int, i: int) -> bool {
    forall|k: int, j: int|
        0 <= k <= n && k < ast.prods.len() && 0 <= j < ast.prods[k].syms.len() && (k < n || j < i) && (
        #[trigger] ast.prods[k].syms[j]).quoted ==> holds_name(
            tnames,
            span_bytes(src, ast.prods[k].syms[j].span),
            0,
            tnames.len() as int,
        )
}

/// The first `ndecl` names of `tnames` are those of the declared tokens.
pub open spec fn declared_held(src: Seq<u8>, ast: AstView, tnames: Seq<Vec<u8>>, ndecl: int) -> bool {
    &&& 0 <= ndecl <= tnames.len()
    &&& forall|i: int|
        0 <= i < ast.tokens.len() ==> holds_name(tnames, span_bytes(src, (#[trigger] ast.tokens[i]).span), 0, ndecl)
    &&& forall|t: int| 0 <= t < ndecl ==> declared(src, ast, (#[trigger] tnames[t])@)
}

/// The names of the tokens: first those that the text declares, then those of the quoted
/// symbols of the productions, each once.
fn collect_tokens(src: &[u8], ast: &GrammarAST) -> (res: (Vec<Vec<u8>>, usize))
    requires
        ast_size(ast@) < u32::MAX - 2,
    ensures
        distinct_from(res.0@, 0),
        declared_held(src@, ast@, res.0@, res.1 as int),
        quoted_held(src@, ast@, res.0@, ast@.prods.len() as int, 0),
        res.0@.len() <= ast@.tokens.len() + syms_total(ast@.prods, ast@.prods.len() as int),
        names_view(res.0@) == firsts_of(token_mentions(src@, ast@)),
{
    let mut tnames: Vec<Vec<u8>> = Vec::new();
    let mut i: usize = 0;
    proof {
        assert(names_view(tnames@) =~= firsts_of(declared_mentions(src@, ast@, 0)));
    }
    while i < ast.tokens.len()
        invariant
            i <= ast@.tokens.len(),
            distinct_from(tnames@, 0),
            tnames@.len() <= i,
            names_view(tnames@) == firsts_of(declared_mentions(src@, ast@, i as int)),
            forall|j: int|
                0 <= j < i ==> holds_name(
                    tnames@,
                    span_bytes(src@, (#[trigger] ast@.tokens[j]).span),
                    0,
                    tnames@.len() as int,
                ),
            forall|t: int| 0 <= t < tnames@.len() ==> declared(src@, ast@, (#[trigger] tnames@[t])@),
        decreases ast@.tokens.len() - i,
    {
        let ghost tnames0 = tnames@;
        let name = copy_span(src, ast.tokens[i].span);
        let idx = intern(&mut tnames, name, 0);
        proof {
            let more = declared_mentions(src@, ast@, i + 1);
            assert(more.drop_last() =~= declared_mentions(src@, ast@, i as int));
            assert(more.last() == span_bytes(src@, ast@.tokens[i as int].span));
            assert(names_view(tnames0).skip(0) =~= names_view(tnames0));
            assert(names_view(tnames@).skip(0) =~= names_view(tnames@));
            assert forall|j: int| 0 <= j < i + 1 implies holds_name(
                tnames@,
                span_bytes(src@, (#[trigger] ast@.tokens[j]).span),
                0,
                tnames@.len() as int,
            ) by {
                if j < i {
                    let t = choose|t: int|
                        0 <= t < tnames0.len() && t < tnames0.len() && (#[trigger] tnames0[t])@ == span_bytes(
                            src@,
                            ast@.tokens[j].span,
                        );
                    assert(tnames@[t] == tnames0[t]);
                } else {
                    assert(tnames@[idx as int]@ == span_bytes(src@, ast@.tokens[j].span));
                }
            }
            assert forall|t: int| 0 <= t < tnames@.len() implies declared(src@, ast@, (#[trigger] tnames@[t])@) by {
                if t < tnames0.len() {
                    assert(tnames@[t] == tnames0[t]);
                } else {
                    assert(span_bytes(src@, ast@.tokens[i as int].span) == tnames@[t]@);
                }
            }
        }
        i += 1;
    }
    let ndecl = tnames.len();
    let ghost declared_names = tnames@;
    let ghost decl = declared_mentions(src@, ast@, ast@.tokens.len() as int);
    let mut k: usize = 0;
    assert(syms_total(ast@.prods, 0) == 0);
    proof {
        assert(decl + prods_quoted(src@, ast@.prods, 0) =~= decl);
    }
    while k < ast.prods.len()
        invariant
            k <= ast@.prods.len(),
            decl == declared_mentions(src@, ast@, ast@.tokens.len() as int),
            names_view(tnames@) == firsts_of(decl + prods_quoted(src@, ast@.prods, k as int)),
            ndecl <= tnames@.len(),
            ndecl == declared_names.len(),
            ndecl <= ast@.tokens.len(),
            distinct_from(tnames@, 0),
            forall|t: int| 0 <= t < ndecl ==> #[trigger] tnames@[t] == declared_names[t],
            quoted_held(src@, ast@, tnames@, k as int, 0),
            tnames@.len() <= ast@.tokens.len() + syms_total(ast@.prods, k as int),
        decreases ast@.prods.len() - k,
    {
        let syms = &ast.prods[k].syms;
        assert(ast@.prods[k as int].syms == syms@);
        let ghost sofar = decl + prods_quoted(src@, ast@.prods, k as int);
        let mut j: usize = 0;
        proof {
            assert(sofar + quoted_names(src@, syms@, 0) =~= sofar);
        }
        while j < syms.len()
            invariant
                k < ast@.prods.len(),
                j <= syms@.len(),
                syms@ == ast@.prods[k as int].syms,
                names_view(tnames@) == firsts_of(sofar + quoted_names(src@, syms@, j as int)),
                ndecl <= tnames@.len(),
                ndecl == declared_names.len(),
                distinct_from(tnames@, 0),
                forall|t: int| 0 <= t < ndecl ==> #[trigger] tnames@[t] == declared_names[t],
                quoted_held(src@, ast@, tnames@, k as int, j as int),
                tnames@.len() <= ast@.tokens.len() + syms_total(ast@.prods, k as int) + j,
            decreases syms@.len() - j,
        {
            let ghost tnames0 = tnames@;
            if syms[j].quoted {
                let name = copy_span(src, syms[j].span);
                let idx = intern(&mut tnames, name, 0);
                assert(tnames@[idx as int]@ == span_bytes(src@, ast@.prods[k as int].syms[j as int].span));
                proof {
                    let x = span_bytes(src@, syms@[j as int].span);
                    let m0 = sofar + quoted_names(src@, syms@, j as int);
                    let m1 = sofar + quoted_names(src@, syms@, j + 1);
                    assert(m1 =~= m0.push(x));
                    assert(m1.drop_last() =~= m0);
                    assert(names_view(tnames0).skip(0) =~= names_view(tnames0));
                    assert(names_view(tnames@).skip(0) =~= names_view(tnames@));
                }
            }
            proof {
                assert forall|k2: int, j2: int|
                    0 <= k2 <= k && k2 < ast@.prods.len() && 0 <= j2 < ast@.prods[k2].syms.len() && (k2 < k || j2 < j
                        + 1) && (#[trigger] ast@.prods[k2].syms[j2]).quoted implies holds_name(
                    tnames@,
                    span_bytes(src@, ast@.prods[k2].syms[j2].span),
                    0,
                    tnames@.len() as int,
                ) by {
                    if k2 < k || j2 < j {
                        let nm = span_bytes(src@, ast@.prods[k2].syms[j2].span);
                        assert(holds_name(tnames0, nm, 0, tnames0.len() as int));
                        let t = choose|t: int|
                            0 <= t < tnames0.len() && t < tnames0.len() && (#[trigger] tnames0[t])@ == nm;
                        assert(tnames@[t] == tnames0[t]);
                    }
                }
            }
            j += 1;
        }
        proof {
            assert(sofar + quoted_names(src@, syms@, syms@.len() as int) =~= decl + prods_quoted(
                src@,
                ast@.prods,
                k + 1,
            ));
            assert(syms_total(ast@.prods, k + 1) == syms_total(ast@.prods, k as int) + syms@.len());
            assert forall|k2: int, j2: int|
                0 <= k2 <= k + 1 && k2 < ast@.prods.len() && 0 <= j2 < ast@.prods[k2].syms.len() && (k2 < k + 1
                    || j2 < 0) && (#[trigger] ast@.prods[k2].syms[j2]).quoted implies holds_name(
                tnames@,
                span_bytes(src@, ast@.prods[k2].syms[j2].span),
                0,
                tnames@.len() as int,
            ) by {}
        }
        k += 1;
    }
    proof {
        assert forall|i: int| 0 <= i < ast@.tokens.len() implies holds_name(
            tnames@,
            span_bytes(src@, (#[trigger] ast@.tokens[i]).span),
            0,
            ndecl as int,
        ) by {
            let nm = span_bytes(src@, ast@.tokens[i].span);
            assert(holds_name(declared_names, nm, 0, declared_names.len() as int));
            let t = choose|t: int|
                0 <= t < declared_names.len() && t < declared_names.len() && (#[trigger] declared_names[t])@ == nm;
            assert(tnames@[t] == declared_names[t]);
        }
        assert forall|t: int| 0 <= t < ndecl implies declared(src@, ast@, (#[trigger] tnames@[t])@) by {
            assert(tnames@[t] == declared_names[t]);
        }
    }
    (tnames, ndecl)
}


/// The number of symbols grows with the number of productions.
proof fn lemma_syms_total_mono(prods: Seq<ProdView>, a: int, b: int)
    requires
        0 <= a <= b,
    ensures
        0 <= syms_total(prods, a) <= syms_total(prods, b),
    decreases b,
{
    if a < b {
        lemma_syms_total_mono(prods, a, b - 1);
    } else if a > 0 {
        lemma_syms_total_mono(prods, a - 1, a - 1);
    }
}

/// Whether the text holds more tokens, productions and symbols than 32 bits can count.
fn too_large(ast: &GrammarAST) -> (big: bool)
    ensures
        big == (ast_size(ast@) >= u32::MAX - 2),
{
    let limit: usize = 0xffff_fffd;
    let mut total: usize = 0;
    if ast.tokens.len() >= limit || ast.prods.len() >= limit {
        proof {
            lemma_syms_total_mono(ast@.prods, 0, ast@.prods.len() as int);
        }
        return true;
    }
    let mut k: usize = 0;
    while k < ast.prods.len()
        invariant
            k <= ast@.prods.len(),
            limit == u32::MAX - 2,
            total == syms_total(ast@.prods, k as int),
            total < limit,
        decreases ast@.prods.len() - k,
    {
        let n = ast.prods[k].syms.len();
        proof {
            assert(ast@.prods[k as int].syms == ast.prods@[k as int].syms@);
            assert(syms_total(ast@.prods, k + 1) == syms_total(ast@.prods, k as int) + n);
            lemma_syms_total_mono(ast@.prods, k + 1, ast@.prods.len() as int);
        }
        if n >= limit - total {
            return true;
        }
        total += n;
        k += 1;
    }
    let rest = limit - total;
    ast.tokens.len() >= rest || ast.prods.len() >= rest - ast.tokens.len()
}

/// The productions of the grammar are those of the first `n` productions of the text, with
/// an index for each name, behind the production of rule 0.
pub open spec fn resolved(
    src: Seq<u8>,
    ast: AstView,
    rule_names: Seq<Seq<u8>>,
    token_names: Seq<Option<Seq<u8>>>,
    prods: Seq<Seq<Symbol>>,
    n: int,
) -> bool {
    &&& prods.len() == n + 1
    &&& forall|k: int| 0 <= k < n ==> (#[trigger] prods[k + 1]).len() == ast.prods[k].syms.len()
    &&& forall|k: int, i: int|
        0 <= k < n && 0 <= i < ast.prods[k].syms.len() ==> resolves(
            src,
            ast,
            rule_names,
            token_names,
            ast.prods[k].syms[i],
            #[trigger] prods[k + 1][i],
        )
}

/// The names of the tokens with the end-of-input token, which has no name, behind them.
pub open spec fn with_eof(tnames: Seq<Vec<u8>>) -> Seq<Option<Seq<u8>>> {
    Seq::new(
        tnames.len() + 1,
        |t: int|
            if t < tnames.len() {
                Some(tnames[t]@)
            } else {
                None
            },
    )
}

/// The symbol of the grammar that the symbol `sym` of the text names, or the symbol itself if
/// it names a rule that has no production.
fn resolve(
    src: &[u8],
    ast: &GrammarAST,
    rnames: &Vec<Vec<u8>>,
    tnames: &Vec<Vec<u8>>,
    ndecl: usize,
    sym: AstSymbol,
) -> (res: Result<Symbol, AstSymbol>)
    requires
        rnames@.len() < u32::MAX,
        tnames@.len() < u32::MAX,
        declared_held(src@, ast@, tnames@, ndecl as int),
        sym.quoted ==> holds_name(tnames@, span_bytes(src@, sym.span), 0, tnames@.len() as int),
        forall|r: int| 1 <= r < rnames@.len() ==> defined(src@, ast@, (#[trigger] rnames@[r])@),
        forall|k: int|
            0 <= k < ast@.prods.len() ==> holds_name(
                rnames@,
                span_bytes(src@, (#[trigger] ast@.prods[k]).rule),
                1,
                rnames@.len() as int,
            ),
    ensures
        match res {
            Ok(s) => resolves(src@, ast@, names_view(rnames@), with_eof(tnames@), sym, s) && match s {
                Symbol::Token(t) => t < tnames@.len(),
                Symbol::Rule(r) => r < rnames@.len(),
            },
            Err(e) => e == sym && unknown_ref(src@, ast@, sym),
        },
{
    let name = copy_span(src, sym.span);
    let ghost nm = span_bytes(src@, sym.span);
    if sym.quoted {
        match lookup(tnames, &name, 0, tnames.len()) {
            Some(t) => {
                return Ok(Symbol::Token(t as TIdx));
            },
            None => {
                proof {
                    let t = choose|t: int| 0 <= t < tnames@.len() && t < tnames@.len() && (#[trigger] tnames@[t])@ == nm;
                    assert(false);
                }
                return Err(sym);
            },
        }
    }
    match lookup(tnames, &name, 0, ndecl) {
        Some(t) => {
            proof {
                assert(declared(src@, ast@, tnames@[t as int]@));
            }
            Ok(Symbol::Token(t as TIdx))
        },
        None => {
            proof {
                if declared(src@, ast@, nm) {
                    let i = choose|i: int|
                        0 <= i < ast@.tokens.len() && span_bytes(src@, (#[trigger] ast@.tokens[i]).span) == nm;
                    assert(holds_name(tnames@, span_bytes(src@, ast@.tokens[i].span), 0, ndecl as int));
                    let t = choose|t: int| 0 <= t < ndecl && t < tnames@.len() && (#[trigger] tnames@[t])@ == nm;
                    assert(false);
                }
            }
            match lookup(rnames, &name, 1, rnames.len()) {
                Some(r) => Ok(Symbol::Rule(r as RIdx)),
                None => {
                    proof {
                        if defined(src@, ast@, nm) {
                            let k = choose|k: int|
                                0 <= k < ast@.prods.len() && span_bytes(src@, (#[trigger] ast@.prods[k]).rule) == nm;
                            assert(holds_name(rnames@, span_bytes(src@, ast@.prods[k].rule), 1, rnames@.len() as int));
                            let r = choose|r: int|
                                1 <= r < rnames@.len() && r < rnames@.len() && (#[trigger] rnames@[r])@ == nm;
                            assert(false);
                        }
                    }
                    Err(sym)
                },
            }
        },
    }
}


impl YaccGrammar {
    /// The grammar that the text `src` describes, where `ast` is what the text says. An
    /// unquoted name stands for a token if the text declares a token of that name, and for a
    /// rule otherwise; a quoted string stands for a token. See [`describes`] for the
    /// grammar, and [`ast_error`] for the errors.
    pub fn new(src: &[u8], ast: &GrammarAST) -> (res: Result<YaccGrammar, GrammarValidationError>)
        ensures
            match res {
                Ok(g) => ast_error(src@, ast@) is None && describes(
                    src@,
                    ast@,
                    g@,
                    g.rule_names_view(),
                    g.token_names_view(),
                ),
                Err(e) => is_ast_error(src@, ast@, e),
            },
    {
        if too_large(ast) {
            return Err(GrammarValidationError { kind: GrammarValidationErrorKind::TooLarge, sym: None });
        }
        proof {
            lemma_syms_total_mono(ast@.prods, 0, ast@.prods.len() as int);
        }
        let start = match ast.start {
            Some(sp) => sp,
            None => {
                if ast.prods.len() == 0 {
                    return Err(GrammarValidationError { kind: GrammarValidationErrorKind::NoStartRule, sym: None });
                }
                assert(ast@.prods[0].rule == ast.prods@[0].rule);
                ast.prods[0].rule
            },
        };
        assert(start_span(ast@) == Some(start));
        let (rnames, pr) = collect_rules(src, ast);
        let (tnames, ndecl) = collect_tokens(src, ast);
        let nprods = ast.prods.len();
        proof {
            assert forall|r: int| 1 <= r < rnames@.len() implies defined(src@, ast@, (#[trigger] rnames@[r])@) by {
                let k = choose|k: int|
                    0 <= k < nprods && span_bytes(src@, (#[trigger] ast@.prods[k]).rule) == rnames@[r]@;
            }
            assert forall|k: int| 0 <= k < ast@.prods.len() implies holds_name(
                rnames@,
                span_bytes(src@, (#[trigger] ast@.prods[k]).rule),
                1,
                rnames@.len() as int,
            ) by {
                assert(rnames@[pr@[k + 1] as int]@ == span_bytes(src@, ast@.prods[k].rule));
            }
        }
        let start_name = copy_span(src, start);
        let s = match lookup(&rnames, &start_name, 1, rnames.len()) {
            Some(s) => s,
            None => {
                proof {
                    if defined(src@, ast@, start_name@) {
                        let k = choose|k: int|
                            0 <= k < ast@.prods.len() && span_bytes(src@, (#[trigger] ast@.prods[k]).rule)
                                == start_name@;
                        assert(holds_name(rnames@, span_bytes(src@, ast@.prods[k].rule), 1, rnames@.len() as int));
                        let r = choose|r: int|
                            1 <= r < rnames@.len() && r < rnames@.len() && (#[trigger] rnames@[r])@ == start_name@;
                        assert(false);
                    }
                }
                return Err(
                    GrammarValidationError { kind: GrammarValidationErrorKind::InvalidStartRule, sym: None },
                );
            },
        };
        assert(defined(src@, ast@, rnames@[s as int]@));
        assert(ast_error(src@, ast@) is None || ast_error(src@, ast@) == Some(
            GrammarValidationErrorKind::UnknownRuleRef,
        ));
        let ghost rn = names_view(rnames@);
        let ghost tn = with_eof(tnames@);
        let ghost tnames_seq = tnames@;
        let mut prods: Vec<Vec<Symbol>> = Vec::new();
        let mut first: Vec<Symbol> = Vec::new();
        first.push(Symbol::Rule(s as RIdx));
        prods.push(first);
        let mut k: usize = 0;
        while k < nprods
            invariant
                k <= nprods,
                nprods == ast@.prods.len(),
                rn == names_view(rnames@),
                tn == with_eof(tnames@),
                rnames@.len() < u32::MAX,
                tnames@.len() < u32::MAX,
                declared_held(src@, ast@, tnames@, ndecl as int),
                quoted_held(src@, ast@, tnames@, ast@.prods.len() as int, 0),
                forall|r: int| 1 <= r < rnames@.len() ==> defined(src@, ast@, (#[trigger] rnames@[r])@),
                forall|k: int|
                    0 <= k < ast@.prods.len() ==> holds_name(
                        rnames@,
                        span_bytes(src@, (#[trigger] ast@.prods[k]).rule),
                        1,
                        rnames@.len() as int,
                    ),
                resolved(src@, ast@, rn, tn, prods_view(prods@), k as int),
                forall|p: int, j: int|
                    0 <= p < k && 0 <= j < ast@.prods[p].syms.len() ==> !unknown_ref(
                        src@,
                        ast@,
                        #[trigger] ast@.prods[p].syms[j],
                    ),
                ast_error(src@, ast@) is None || ast_error(src@, ast@) == Some(
                    GrammarValidationErrorKind::UnknownRuleRef,
                ),
                prods@[0]@ == seq![Symbol::Rule(s as RIdx)],
                forall|p: int, i: int|
                    0 <= p < prods@.len() && 0 <= i < prods@[p]@.len() ==> match #[trigger] prods@[p]@[i] {
                        Symbol::Token(t) => t < tnames@.len(),
                        Symbol::Rule(r) => r < rnames@.len(),
                    },
            decreases nprods - k,
        {
            let syms = &ast.prods[k].syms;
            assert(ast@.prods[k as int].syms == syms@);
            let mut body: Vec<Symbol> = Vec::new();
            let mut i: usize = 0;
            while i < syms.len()
                invariant
                    k < nprods,
                    nprods == ast@.prods.len(),
                    i <= syms@.len(),
                    syms@ == ast@.prods[k as int].syms,
                    body@.len() == i,
                    rn == names_view(rnames@),
                    tn == with_eof(tnames@),
                    rnames@.len() < u32::MAX,
                    tnames@.len() < u32::MAX,
                    declared_held(src@, ast@, tnames@, ndecl as int),
                    quoted_held(src@, ast@, tnames@, ast@.prods.len() as int, 0),
                    forall|r: int| 1 <= r < rnames@.len() ==> defined(src@, ast@, (#[trigger] rnames@[r])@),
                    forall|k: int|
                        0 <= k < ast@.prods.len() ==> holds_name(
                            rnames@,
                            span_bytes(src@, (#[trigger] ast@.prods[k]).rule),
                            1,
                            rnames@.len() as int,
                        ),
                    forall|j: int| 0 <= j < i ==> resolves(src@, ast@, rn, tn, syms@[j], #[trigger] body@[j]),
                    forall|j: int| 0 <= j < i ==> !unknown_ref(src@, ast@, #[trigger] syms@[j]),
                    forall|p: int, j: int|
                        0 <= p < k && 0 <= j < ast@.prods[p].syms.len() ==> !unknown_ref(
                            src@,
                            ast@,
                            #[trigger] ast@.prods[p].syms[j],
                        ),
                    forall|j: int|
                        0 <= j < i ==> match #[trigger] body@[j] {
                            Symbol::Token(t) => t < tnames@.len(),
                            Symbol::Rule(r) => r < rnames@.len(),
                        },
                    ast_error(src@, ast@) is None || ast_error(src@, ast@) == Some(
                        GrammarValidationErrorKind::UnknownRuleRef,
                    ),
                decreases syms@.len() - i,
            {
                let sym = syms[i];
                proof {
                    if sym.quoted {
                        assert(ast@.prods[k as int].syms[i as int].quoted);
                    }
                }
                match resolve(src, ast, &rnames, &tnames, ndecl, sym) {
                    Ok(sy) => {
                        proof {
                            match sy {
                                Symbol::Rule(r) => {
                                    assert(defined(src@, ast@, rnames@[r as int]@));
                                    assert(rn[r as int] == rnames@[r as int]@);
                                },
                                _ => {},
                            }
                            assert(!unknown_ref(src@, ast@, sym));
                        }
                        body.push(sy);
                    },
                    Err(e) => {
                        proof {
                            assert(unknown_ref(src@, ast@, ast@.prods[k as int].syms[i as int]));
                            assert(has_unknown_ref(src@, ast@));
                            assert(first_unknown_at(src@, ast@, k as int, i as int));
                        }
                        return Err(
                            GrammarValidationError { kind: GrammarValidationErrorKind::UnknownRuleRef, sym: Some(e) },
                        );
                    },
                }
                i += 1;
            }
            let ghost prods0 = prods@;
            prods.push(body);
            proof {
                let pv = prods_view(prods@);
                let pv0 = prods_view(prods0);
                assert forall|k2: int| 0 <= k2 < k + 1 implies (#[trigger] pv[k2 + 1]).len()
                    == ast@.prods[k2].syms.len() by {
                    if k2 < k {
                        assert(pv[k2 + 1] == pv0[k2 + 1]);
                    }
                }
                assert forall|k2: int, i2: int|
                    0 <= k2 < k + 1 && 0 <= i2 < ast@.prods[k2].syms.len() implies resolves(
                    src@,
                    ast@,
                    rn,
                    tn,
                    ast@.prods[k2].syms[i2],
                    #[trigger] pv[k2 + 1][i2],
                ) by {
                    if k2 < k {
                        assert(pv[k2 + 1] == pv0[k2 + 1]);
                        assert(resolves(src@, ast@, rn, tn, ast@.prods[k2].syms[i2], pv0[k2 + 1][i2]));
                    }
                }
                assert forall|p: int, i2: int|
                    0 <= p < prods@.len() && 0 <= i2 < prods@[p]@.len() implies match #[trigger] prods@[p]@[i2] {
                    Symbol::Token(t) => t < tnames@.len(),
                    Symbol::Rule(r) => r < rnames@.len(),
                } by {
                    if p < prods0.len() {
                        assert(prods@[p] == prods0[p]);
                    }
                }
                assert(prods@[0] == prods0[0]);
            }
            k += 1;
        }
        proof {
            // Every symbol has been resolved, so none names a rule without a production.
            if has_unknown_ref(src@, ast@) {
                let (k, i) = choose|k: int, i: int|
                    0 <= k < ast@.prods.len() && 0 <= i < ast@.prods[k].syms.len() && unknown_ref(
                        src@,
                        ast@,
                        #[trigger] ast@.prods[k].syms[i],
                    );
                let sy = prods_view(prods@)[k + 1][i];
                assert(resolves(src@, ast@, rn, tn, ast@.prods[k].syms[i], sy));
                match sy {
                    Symbol::Token(t) => {},
                    Symbol::Rule(r) => {
                        assert(defined(src@, ast@, rnames@[r as int]@));
                    },
                }
                assert(false);
            }
        }
        let mut token_names: Vec<Option<Vec<u8>>> = Vec::new();
        let mut t: usize = 0;
        while t < tnames.len()
            invariant
                t <= tnames@.len(),
                token_names@.len() == t,
                forall|j: int|
                    0 <= j < t ==> (#[trigger] token_names@[j]) is Some && token_names@[j]->Some_0@ == tnames@[j]@,
            decreases tnames@.len() - t,
        {
            token_names.push(Some(copy_vec(&tnames[t])));
            t += 1;
        }
        token_names.push(None);
        let eof = tnames.len() as TIdx;
        proof {
            assert(opt_names_view(token_names@) =~= tn);
        }
        let ghost c = Cfg {
            prods: prods_view(prods@),
            prod_rules: pr@,
            rules_len: rnames@.len() as nat,
            tokens_len: token_names@.len() as nat,
            start_rule: 0,
            eof_token: eof,
        };
        proof {
            assert(c.wf()) by {
                assert forall|p: int| 0 <= p < c.prods.len() implies #[trigger] c.prod_rules[p] < c.rules_len by {
                    if p > 0 {
                        assert(pr@[(p - 1) + 1] < rnames@.len());
                    }
                }
                assert forall|p: int, i: int| 0 <= p < c.prods.len() && 0 <= i < c.prods[p].len() implies c.symbol_ok(
                    #[trigger] c.prods[p][i],
                ) by {
                    assert(c.prods[p][i] == prods@[p]@[i]);
                }
            }
        }
        match YaccGrammar::from_parts(rnames, token_names, prods, pr, 0, eof) {
            Some(g) => {
                proof {
                    let rn2 = g.rule_names_view();
                    let tn2 = g.token_names_view();
                    assert(rn2 == rn);
                    assert(tn2 == tn);
                    assert(g@ == c);
                    assert(tn =~= with_none(names_view(tnames_seq)));
                    assert forall|k: int| 0 <= k < ast@.prods.len() implies {
                        &&& 1 <= #[trigger] c.prod_rules[k + 1]
                        &&& rn[c.prod_rules[k + 1] as int] == span_bytes(src@, ast@.prods[k].rule)
                        &&& c.prods[k + 1].len() == ast@.prods[k].syms.len()
                    } by {
                        assert(1 <= pr@[k + 1]);
                    }
                    assert forall|r1: int, r2: int| 1 <= r1 < r2 < rn.len() implies #[trigger] rn[r1]
                        != #[trigger] rn[r2] by {
                    }
                    assert forall|t1: int, t2: int| 0 <= t1 < t2 < tn.len() implies #[trigger] tn[t1]
                        != #[trigger] tn[t2] by {}
                    assert(describes(src@, ast@, c, rn, tn));
                }
                Ok(g)
            },
            None => {
                proof {
                    assert(false);
                }
                Err(GrammarValidationError { kind: GrammarValidationErrorKind::TooLarge, sym: None })
            },
        }
    }
}

} // verus!
