//! Error recovery for LR parsers: grammar analysis (FIRST and FOLLOW sets), an LR simulator
//! over persistent stacks, and the CPCT+ search for minimum-cost repair sequences.

pub mod agreement;
pub mod ast;
pub mod astar;
pub mod bitrows;
pub mod bits;
pub mod cpctplus;
pub mod deadline;
pub mod derivation;
pub mod firsts;
pub mod follows;
pub mod grammar;
pub mod lex;
pub mod mf;
pub mod parser;
pub mod pstack;
pub mod reach;
pub mod replay;
pub mod rlist;
pub mod sentences;
pub mod stategraph;
pub mod statetable;
pub mod yacc_lexer;
pub mod yacc_parser;

use crate::ast::{ast_error, describes, is_ast_error, GrammarValidationError, GrammarValidationErrorKind};
use crate::grammar::YaccGrammar;
use crate::grammar::Cfg;
use crate::stategraph::{is_lr1_table, too_large};
use crate::statetable::StateTable;
use crate::yacc_parser::{parse_yacc, parsed, AstView, YaccParserError, YaccParserErrorKind};
use vstd::prelude::*;
use vstd::std_specs::convert::FromSpecImpl;
use vstd::string::StringSliceAdditionalSpecFns;

verus! {

/// Why a grammar in Yacc format could not be turned into a state table.
#[derive(Debug)]
pub enum FromYaccParserError {
    /// The text is no grammar.
    YaccParserError(YaccParserError),
    /// The grammar that the text describes is not valid.
    GrammarValidationError(GrammarValidationError),
}

impl From<YaccParserError> for FromYaccParserError {
    fn from(err: YaccParserError) -> (e: FromYaccParserError) {
        FromYaccParserError::YaccParserError(err)
    }
}

impl FromSpecImpl<YaccParserError> for FromYaccParserError {
    open spec fn obeys_from_spec() -> bool {
        true
    }

    open spec fn from_spec(err: YaccParserError) -> FromYaccParserError {
        FromYaccParserError::YaccParserError(err)
    }
}

impl From<GrammarValidationError> for FromYaccParserError {
    fn from(err: GrammarValidationError) -> (e: FromYaccParserError) {
        FromYaccParserError::GrammarValidationError(err)
    }
}

impl FromSpecImpl<GrammarValidationError> for FromYaccParserError {
    open spec fn obeys_from_spec() -> bool {
        true
    }

    open spec fn from_spec(err: GrammarValidationError) -> FromYaccParserError {
        FromYaccParserError::GrammarValidationError(err)
    }
}

/// What to say of an error in the text of a grammar.
pub open spec fn parser_error_text(kind: YaccParserErrorKind) -> Seq<char> {
    match kind {
        YaccParserErrorKind::IllegalName => "Illegal name"@,
        YaccParserErrorKind::IllegalString => "Illegal string"@,
        YaccParserErrorKind::IncompleteRule => "Incomplete rule"@,
        YaccParserErrorKind::MissingColon => "Missing colon"@,
        YaccParserErrorKind::PrematureEnd => "File ends prematurely"@,
        YaccParserErrorKind::ProgramsNotSupported => "Programs not currently supported"@,
        YaccParserErrorKind::UnknownDeclaration => "Unknown declaration"@,
    }
}

/// What to say of an error in what the text of a grammar says.
pub open spec fn validation_error_text(kind: GrammarValidationErrorKind) -> Seq<char> {
    match kind {
        GrammarValidationErrorKind::NoStartRule => "No start rule specified"@,
        GrammarValidationErrorKind::InvalidStartRule => "Start rule does not appear in grammar"@,
        GrammarValidationErrorKind::UnknownRuleRef => "Unknown reference to rule"@,
        GrammarValidationErrorKind::TooLarge => "Grammar too large"@,
    }
}

impl FromYaccParserError {
    /// What to say of this error: the text for the error that it holds.
    pub fn message(&self) -> (text: String)
        ensures
            text@ == match *self {
                FromYaccParserError::YaccParserError(e) => parser_error_text(e.kind),
                FromYaccParserError::GrammarValidationError(e) => validation_error_text(e.kind),
            },
    {
        match *self {
            FromYaccParserError::YaccParserError(e) => match e.kind {
                YaccParserErrorKind::IllegalName => "Illegal name".to_owned(),
                YaccParserErrorKind::IllegalString => "Illegal string".to_owned(),
                YaccParserErrorKind::IncompleteRule => "Incomplete rule".to_owned(),
                YaccParserErrorKind::MissingColon => "Missing colon".to_owned(),
                YaccParserErrorKind::PrematureEnd => "File ends prematurely".to_owned(),
                YaccParserErrorKind::ProgramsNotSupported => "Programs not currently supported".to_owned(),
                YaccParserErrorKind::UnknownDeclaration => "Unknown declaration".to_owned(),
            },
            FromYaccParserError::GrammarValidationError(e) => match e.kind {
                GrammarValidationErrorKind::NoStartRule => "No start rule specified".to_owned(),
                GrammarValidationErrorKind::InvalidStartRule => "Start rule does not appear in grammar".to_owned(),
                GrammarValidationErrorKind::UnknownRuleRef => "Unknown reference to rule".to_owned(),
                GrammarValidationErrorKind::TooLarge => "Grammar too large".to_owned(),
            },
        }
    }
}

/// What the text says is a grammar that is too large for a table.
pub open spec fn table_too_large(src: Seq<u8>, ast: AstView) -> bool {
    exists|g: Cfg, rule_names: Seq<Seq<u8>>, token_names: Seq<Option<Seq<u8>>>| #[trigger]
        describes(src, ast, g, rule_names, token_names) && too_large(g)
}

/// What [`yacc_to_statetable`] makes of a text, given what the text says.
pub open spec fn statetable_for(
    src: Seq<u8>,
    res: Result<(YaccGrammar, StateTable), FromYaccParserError>,
) -> bool {
    match res {
        Ok((grm, st)) => parsed(src) is Ok && ast_error(src, parsed(src)->Ok_0) is None && describes(
            src,
            parsed(src)->Ok_0,
            grm@,
            grm.rule_names_view(),
            grm.token_names_view(),
        ) && !too_large(grm@) && st@.fits(grm@) && is_lr1_table(grm@, st@),
        Err(FromYaccParserError::YaccParserError(e)) => parsed(src) == Err::<AstView, YaccParserError>(e),
        Err(FromYaccParserError::GrammarValidationError(e)) => parsed(src) is Ok && (is_ast_error(
            src,
            parsed(src)->Ok_0,
            e,
        ) || (ast_error(src, parsed(src)->Ok_0) is None && table_too_large(src, parsed(src)->Ok_0) && e == (
        GrammarValidationError { kind: GrammarValidationErrorKind::TooLarge, sym: None }))),
    }
}

/// Reads the grammar in Yacc format that `s` holds, and builds its LR(1) state table.
///
/// The result is the first error in the text, if it is no grammar; else the error in what
/// the text says, if there is one, as it is; else the grammar that the text describes, with
/// the table of its LR(1) automaton. For a grammar that is too large for a table
/// ([`too_large`]), the error says so.
pub fn yacc_to_statetable(s: &str) -> (res: Result<(YaccGrammar, StateTable), FromYaccParserError>)
    ensures
        statetable_for(s.spec_bytes(), res),
{
    let src = s.as_bytes();
    let ast = match parse_yacc(src) {
        Ok(ast) => ast,
        Err(e) => {
            return Err(FromYaccParserError::from(e));
        },
    };
    let grm = match YaccGrammar::new(src, &ast) {
        Ok(grm) => grm,
        Err(e) => {
            return Err(FromYaccParserError::from(e));
        },
    };
    match StateTable::new(&grm) {
        Some(st) => Ok((grm, st)),
        None => Err(
            FromYaccParserError::from(
                GrammarValidationError { kind: GrammarValidationErrorKind::TooLarge, sym: None },
            ),
        ),
    }
}

} // verus!
