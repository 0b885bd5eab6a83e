//! The parser for grammars in Yacc format: declarations (`%start` and `%token`), `%%`, and
//! rules, each a name, `:`, and productions that `|` separates and `;` ends.

use crate::yacc_lexer::{lemma_next_word, lex, next_word, Tok, TokKind};
use vstd::prelude::*;

verus! {

/// A span of bytes of the text.
#[derive(Clone, Copy, Debug, PartialEq, Eq, Structural)]
pub struct Span {
    pub start: usize,
    pub end: usize,
}

/// A symbol as the text names it: a name or a quoted string.
#[derive(Clone, Copy, Debug, PartialEq, Eq, Structural)]
pub struct AstSymbol {
    pub quoted: bool,
    pub span: Span,
}

/// A production as the text gives it: the name of its rule and its symbols.
#[derive(Debug)]
pub struct AstProd {
    pub rule: Span,
    pub syms: Vec<AstSymbol>,
}

/// What the text of a grammar says: the start rule, if it names one; the tokens that it
/// declares; and its productions, in their order.
#[derive(Debug)]
pub struct GrammarAST {
    pub start: Option<Span>,
    pub tokens: Vec<AstSymbol>,
    pub prods: Vec<AstProd>,
}

/// The mathematical content of a production of the text.
pub struct ProdView {
    pub rule: Span,
    pub syms: Seq<AstSymbol>,
}

/// The mathematical content of what the text says.
pub struct AstView {
    pub start: Option<Span>,
    pub tokens: Seq<AstSymbol>,
    pub prods: Seq<ProdView>,
}

impl View for AstProd {
    type V = ProdView;

    open spec fn view(&self) -> ProdView {
        ProdView { rule: self.rule, syms: self.syms@ }
    }
}

impl View for GrammarAST {
    type V = AstView;

    open spec fn view(&self) -> AstView {
        AstView {
            start: self.start,
            tokens: self.tokens@,
            prods: Seq::new(self.prods@.len(), |k: int| self.prods@[k]@),
        }
    }
}

/// The kinds of errors in the text of a grammar.
#[derive(Clone, Copy, Debug, PartialEq, Eq, Structural)]
pub enum YaccParserErrorKind {
    IllegalName,
    IllegalString,
    IncompleteRule,
    MissingColon,
    PrematureEnd,
    ProgramsNotSupported,
    UnknownDeclaration,
}

/// An error in the text of a grammar, with the offset at which it was found.
#[derive(Clone, Copy, Debug, PartialEq, Eq, Structural)]
pub struct YaccParserError {
    pub kind: YaccParserErrorKind,
    pub off: usize,
}

/// What the parser expects next.
#[derive(Clone, Copy, Debug, PartialEq, Eq, Structural)]
pub enum Phase {
    /// A declaration or `%%`.
    Decls,
    /// The name of the start rule.
    Start,
    /// A declared token, a declaration or `%%`.
    Tokens,
    /// The name of a rule, or the end of the text.
    Rules,
    /// The `:` behind the name of a rule.
    Colon,
    /// A symbol of a production, `|` or `;`.
    Prods,
}

/// The state of the parser between two words.
pub struct ParseState {
    pub phase: Phase,
    pub ast: AstView,
    /// The name of the rule whose productions are being read.
    pub rule: Span,
    /// The symbols of the production that is being read.
    pub syms: Seq<AstSymbol>,
}

/// What a word makes of the state of the parser.
pub enum Step {
    Continue(ParseState),
    Done(Result<AstView, YaccParserError>),
}

/// The bytes `start`.
pub open spec fn kw_start() -> Seq<u8> {
    seq![115u8, 116u8, 97u8, 114u8, 116u8]
}

/// The bytes `token`.
pub open spec fn kw_token() -> Seq<u8> {
    seq![116u8, 111u8, 107u8, 101u8, 110u8]
}

/// The error of kind `kind` at the word `t`.
pub open spec fn fail(kind: YaccParserErrorKind, t: Tok) -> Step {
    Step::Done(Err(YaccParserError { kind, off: t.start }))
}

/// The error that a word which is no word gives.
pub open spec fn bad_word(t: Tok) -> Option<YaccParserErrorKind> {
    match t.kind {
        TokKind::BadDirective => Some(YaccParserErrorKind::UnknownDeclaration),
        TokKind::BadString => Some(YaccParserErrorKind::IllegalString),
        TokKind::BadByte => Some(YaccParserErrorKind::IllegalName),
        _ => None,
    }
}

/// What a declaration or `%%` makes of the state.
pub open spec fn decl_step(b: Seq<u8>, st: ParseState, t: Tok) -> Step {
    match t.kind {
        TokKind::Directive => if b.subrange(t.start as int, t.end as int) == kw_start() {
            Step::Continue(ParseState { phase: Phase::Start, ..st })
        } else if b.subrange(t.start as int, t.end as int) == kw_token() {
            Step::Continue(ParseState { phase: Phase::Tokens, ..st })
        } else {
            fail(YaccParserErrorKind::UnknownDeclaration, t)
        },
        TokKind::Sep => Step::Continue(ParseState { phase: Phase::Rules, ..st }),
        TokKind::End => fail(YaccParserErrorKind::PrematureEnd, t),
        _ => fail(YaccParserErrorKind::UnknownDeclaration, t),
    }
}

/// The production that is being read, complete.
pub open spec fn with_prod(st: ParseState) -> AstView {
    AstView { prods: st.ast.prods.push(ProdView { rule: st.rule, syms: st.syms }), ..st.ast }
}

/// What the word `t` makes of the state `st`.
pub open spec fn step(b: Seq<u8>, st: ParseState, t: Tok) -> Step {
    let sym = AstSymbol { quoted: t.kind == TokKind::Quoted, span: Span { start: t.start, end: t.end } };
    if bad_word(t) is Some {
        fail(bad_word(t)->Some_0, t)
    } else {
        match st.phase {
            Phase::Decls => decl_step(b, st, t),
            Phase::Start => if t.kind == TokKind::Name {
                Step::Continue(
                    ParseState { phase: Phase::Decls, ast: AstView { start: Some(sym.span), ..st.ast }, ..st },
                )
            } else {
                fail(YaccParserErrorKind::IllegalName, t)
            },
            Phase::Tokens => if t.kind == TokKind::Name || t.kind == TokKind::Quoted {
                Step::Continue(ParseState { ast: AstView { tokens: st.ast.tokens.push(sym), ..st.ast }, ..st })
            } else {
                decl_step(b, st, t)
            },
            Phase::Rules => match t.kind {
                TokKind::End => Step::Done(Ok(st.ast)),
                TokKind::Sep => fail(YaccParserErrorKind::ProgramsNotSupported, t),
                TokKind::Name => Step::Continue(
                    ParseState { phase: Phase::Colon, rule: sym.span, syms: Seq::empty(), ..st },
                ),
                _ => fail(YaccParserErrorKind::IllegalName, t),
            },
            Phase::Colon => if t.kind == TokKind::Colon {
                Step::Continue(ParseState { phase: Phase::Prods, ..st })
            } else {
                fail(YaccParserErrorKind::MissingColon, t)
            },
            Phase::Prods => match t.kind {
                TokKind::Name | TokKind::Quoted => Step::Continue(ParseState { syms: st.syms.push(sym), ..st }),
                TokKind::Bar => Step::Continue(ParseState { ast: with_prod(st), syms: Seq::empty(), ..st }),
                TokKind::Semi => Step::Continue(
                    ParseState { phase: Phase::Rules, ast: with_prod(st), syms: Seq::empty(), ..st },
                ),
                _ => fail(YaccParserErrorKind::IncompleteRule, t),
            },
        }
    }
}

/// What the text from position `pos` on makes of the state `st`: the words are taken one
/// after the other until one ends the text or is an error.
pub open spec fn run(b: Seq<u8>, pos: int, st: ParseState) -> Result<AstView, YaccParserError>
    decreases b.len() - pos,
    when 0 <= pos <= b.len() <= usize::MAX
{
    let t = next_word(b, pos);
    match step(b, st, t) {
        Step::Continue(next) => {
            proof {
                lemma_next_word(b, pos);
            }
            run(b, t.next as int, next)
        },
        Step::Done(r) => r,
    }
}

/// The state in which the parser starts.
pub open spec fn initial() -> ParseState {
    ParseState {
        phase: Phase::Decls,
        ast: AstView { start: None, tokens: Seq::empty(), prods: Seq::empty() },
        rule: Span { start: 0, end: 0 },
        syms: Seq::empty(),
    }
}

/// What the text `b` says, or the first error in it.
pub open spec fn parsed(b: Seq<u8>) -> Result<AstView, YaccParserError> {
    run(b, 0, initial())
}

/// Whether the bytes of `b` from `start` to `end` are those of `word`.
fn span_is(b: &[u8], start: usize, end: usize, word: &[u8]) -> (same: bool)
    requires
        start <= end <= b@.len(),
    ensures
        same == (b@.subrange(start as int, end as int) == word@),
{
    if end - start != word.len() {
        return false;
    }
    let mut i: usize = 0;
    while i < word.len()
        invariant
            start <= end <= b@.len(),
            end - start == word@.len(),
            i <= word@.len(),
            forall|k: int| 0 <= k < i ==> b@[start + k] == word@[k],
        decreases word@.len() - i,
    {
        if b[start + i] != word[i] {
            assert(b@.subrange(start as int, end as int)[i as int] != word@[i as int]);
            return false;
        }
        i += 1;
    }
    assert(b@.subrange(start as int, end as int) =~= word@);
    true
}

/// Parses the text `s` of a grammar in Yacc format.
pub fn parse_yacc(s: &[u8]) -> (res: Result<GrammarAST, YaccParserError>)
    ensures
        match res {
            Ok(ast) => parsed(s@) == Ok::<AstView, YaccParserError>(ast@),
            Err(e) => parsed(s@) == Err::<AstView, YaccParserError>(e),
        },
{
    let ghost b = s@;
    let n = s.len();
    let mut pos: usize = 0;
    let mut phase = Phase::Decls;
    let mut ast = GrammarAST { start: None, tokens: Vec::new(), prods: Vec::new() };
    let mut rule = Span { start: 0, end: 0 };
    let mut syms: Vec<AstSymbol> = Vec::new();
    proof {
        assert(ast@.prods =~= Seq::<ProdView>::empty());
        assert(ast@ == initial().ast);
    }
    loop
        invariant
            b == s@,
            n == b.len(),
            pos <= n,
            parsed(b) == run(b, pos as int, ParseState { phase, ast: ast@, rule, syms: syms@ }),
        decreases n - pos,
    {
        let ghost st = ParseState { phase, ast: ast@, rule, syms: syms@ };
        let t = lex(s, pos);
        proof {
            lemma_next_word(b, pos as int);
        }
        let sym = AstSymbol {
            quoted: match t.kind {
                TokKind::Quoted => true,
                _ => false,
            },
            span: Span { start: t.start, end: t.end },
        };
        let kind = match t.kind {
            TokKind::BadDirective => Some(YaccParserErrorKind::UnknownDeclaration),
            TokKind::BadString => Some(YaccParserErrorKind::IllegalString),
            TokKind::BadByte => Some(YaccParserErrorKind::IllegalName),
            _ => None,
        };
        match kind {
            Some(k) => {
                return Err(YaccParserError { kind: k, off: t.start });
            },
            None => {},
        }
        let in_decls = match phase {
            Phase::Decls => true,
            Phase::Tokens => match t.kind {
                TokKind::Name | TokKind::Quoted => false,
                _ => true,
            },
            _ => false,
        };
        if in_decls {
            match t.kind {
                TokKind::Directive => {
                    let word_start: [u8; 5] = [115, 116, 97, 114, 116];
                    let word_token: [u8; 5] = [116, 111, 107, 101, 110];
                    assert(word_start@ =~= kw_start());
                    assert(word_token@ =~= kw_token());
                    if span_is(s, t.start, t.end, word_start.as_slice()) {
                        phase = Phase::Start;
                    } else if span_is(s, t.start, t.end, word_token.as_slice()) {
                        phase = Phase::Tokens;
                    } else {
                        return Err(YaccParserError { kind: YaccParserErrorKind::UnknownDeclaration, off: t.start });
                    }
                },
                TokKind::Sep => {
                    phase = Phase::Rules;
                },
                TokKind::End => {
                    return Err(YaccParserError { kind: YaccParserErrorKind::PrematureEnd, off: t.start });
                },
                _ => {
                    return Err(YaccParserError { kind: YaccParserErrorKind::UnknownDeclaration, off: t.start });
                },
            }
        } else {
            match phase {
                Phase::Start => match t.kind {
                    TokKind::Name => {
                        ast.start = Some(sym.span);
                        phase = Phase::Decls;
                    },
                    _ => {
                        return Err(YaccParserError { kind: YaccParserErrorKind::IllegalName, off: t.start });
                    },
                },
                Phase::Tokens => {
                    ast.tokens.push(sym);
                },
                Phase::Rules => match t.kind {
                    TokKind::End => {
                        return Ok(ast);
                    },
                    TokKind::Sep => {
                        return Err(
                            YaccParserError { kind: YaccParserErrorKind::ProgramsNotSupported, off: t.start },
                        );
                    },
                    TokKind::Name => {
                        phase = Phase::Colon;
                        rule = sym.span;
                        syms = Vec::new();
                    },
                    _ => {
                        return Err(YaccParserError { kind: YaccParserErrorKind::IllegalName, off: t.start });
                    },
                },
                Phase::Colon => match t.kind {
                    TokKind::Colon => {
                        phase = Phase::Prods;
                    },
                    _ => {
                        return Err(YaccParserError { kind: YaccParserErrorKind::MissingColon, off: t.start });
                    },
                },
                Phase::Prods => match t.kind {
                    TokKind::Name | TokKind::Quoted => {
                        syms.push(sym);
                    },
                    TokKind::Bar | TokKind::Semi => {
                        let ghost prods0 = ast@.prods;
                        let mut done: Vec<AstSymbol> = Vec::new();
                        std::mem::swap(&mut done, &mut syms);
                        ast.prods.push(AstProd { rule, syms: done });
                        proof {
                            assert(ast@.prods =~= prods0.push(ProdView { rule: st.rule, syms: st.syms }));
                        }
                        match t.kind {
                            TokKind::Semi => {
                                phase = Phase::Rules;
                            },
                            _ => {},
                        }
                    },
                    _ => {
                        return Err(YaccParserError { kind: YaccParserErrorKind::IncompleteRule, off: t.start });
                    },
                },
                Phase::Decls => {},
            }
        }
        proof {
            assert(step(b, st, t) == Step::Continue(ParseState { phase, ast: ast@, rule, syms: syms@ }));
        }
        pos = t.next;
    }
}

} // verus!
