use cpctplus::ast::{GrammarValidationErrorKind};
use cpctplus::grammar::{Symbol, YaccGrammar};
use cpctplus::yacc_lexer::{lex, TokKind};
use cpctplus::yacc_parser::{parse_yacc, YaccParserErrorKind};
use cpctplus::{yacc_to_statetable, FromYaccParserError};

fn parser_error(text: &str) -> (YaccParserErrorKind, usize) {
    match yacc_to_statetable(text) {
        Err(FromYaccParserError::YaccParserError(e)) => (e.kind, e.off),
        _ => panic!("no parser error for {}", text),
    }
}

fn validation_error(text: &str) -> GrammarValidationErrorKind {
    match yacc_to_statetable(text) {
        Err(FromYaccParserError::GrammarValidationError(e)) => e.kind,
        _ => panic!("no validation error for {}", text),
    }
}

#[test]
fn words_of_the_text() {
    let text = b"  %start A_1 %% A_1: 'x y' | \"z\" ;";
    let t = lex(text, 0);
    assert_eq!((t.kind, t.start, t.end, t.next), (TokKind::Directive, 3, 8, 8));
    let t = lex(text, t.next);
    assert_eq!((t.kind, t.start, t.end, t.next), (TokKind::Name, 9, 12, 12));
    let t = lex(text, t.next);
    assert_eq!((t.kind, t.start, t.end, t.next), (TokKind::Sep, 13, 15, 15));
    let t = lex(text, t.next);
    assert_eq!((t.kind, t.start, t.end), (TokKind::Name, 16, 19));
    let t = lex(text, t.next);
    assert_eq!((t.kind, t.start), (TokKind::Colon, 19));
    let t = lex(text, t.next);
    assert_eq!((t.kind, t.start, t.end, t.next), (TokKind::Quoted, 22, 25, 26));
    let t = lex(text, t.next);
    assert_eq!(t.kind, TokKind::Bar);
    let t = lex(text, t.next);
    assert_eq!((t.kind, t.start, t.end, t.next), (TokKind::Quoted, 30, 31, 32));
    let t = lex(text, t.next);
    assert_eq!(t.kind, TokKind::Semi);
    let t = lex(text, t.next);
    assert_eq!((t.kind, t.start), (TokKind::End, text.len()));
}

#[test]
fn words_that_are_none() {
    assert_eq!(lex(b" % x", 0).kind, TokKind::BadDirective);
    assert_eq!(lex(b" 'abc", 0).kind, TokKind::BadString);
    assert_eq!(lex(b" 1", 0).kind, TokKind::BadByte);
    assert_eq!(lex(b"", 0).kind, TokKind::End);
}

#[test]
fn what_the_text_says() {
    let ast = parse_yacc(b"%start S %token a 'b' %% S: a T | ; T: 'c' ;").unwrap();
    assert!(ast.start.is_some());
    assert_eq!(ast.tokens.len(), 2);
    assert!(!ast.tokens[0].quoted);
    assert!(ast.tokens[1].quoted);
    assert_eq!(ast.prods.len(), 3);
    assert_eq!(ast.prods[0].syms.len(), 2);
    assert_eq!(ast.prods[1].syms.len(), 0);
    assert_eq!(ast.prods[2].syms.len(), 1);
    assert_eq!(ast.prods[0].rule, ast.prods[1].rule);
}

#[test]
fn parser_errors() {
    assert_eq!(parser_error(""), (YaccParserErrorKind::PrematureEnd, 0));
    assert_eq!(parser_error("%start A"), (YaccParserErrorKind::PrematureEnd, 8));
    assert_eq!(parser_error("%start %%"), (YaccParserErrorKind::IllegalName, 7));
    assert_eq!(parser_error("%foo %%"), (YaccParserErrorKind::UnknownDeclaration, 1));
    assert_eq!(parser_error("A: ;"), (YaccParserErrorKind::UnknownDeclaration, 0));
    assert_eq!(parser_error("% %%"), (YaccParserErrorKind::UnknownDeclaration, 0));
    // The offset of a quoted string is that of the byte behind its quote.
    assert_eq!(parser_error("%% A 'a';"), (YaccParserErrorKind::MissingColon, 6));
    assert_eq!(parser_error("%% A B: 'a';"), (YaccParserErrorKind::MissingColon, 5));
    assert_eq!(parser_error("%% A: 'a'"), (YaccParserErrorKind::IncompleteRule, 9));
    assert_eq!(parser_error("%% A: 'a' : ;"), (YaccParserErrorKind::IncompleteRule, 10));
    assert_eq!(parser_error("%% A: 'a ;"), (YaccParserErrorKind::IllegalString, 6));
    assert_eq!(parser_error("%% A: 'a'; %% x"), (YaccParserErrorKind::ProgramsNotSupported, 11));
    assert_eq!(parser_error("%% 1: 'a';"), (YaccParserErrorKind::IllegalName, 3));
    assert_eq!(parser_error("%% : 'a';"), (YaccParserErrorKind::IllegalName, 3));
}

#[test]
fn validation_errors() {
    assert_eq!(validation_error("%%"), GrammarValidationErrorKind::NoStartRule);
    assert_eq!(validation_error("%start B %% A: 'a';"), GrammarValidationErrorKind::InvalidStartRule);
    assert_eq!(validation_error("%start A %% A: B;"), GrammarValidationErrorKind::UnknownRuleRef);
    assert_eq!(validation_error("%start A %token a %% A: a b;"), GrammarValidationErrorKind::UnknownRuleRef);
}

#[test]
fn unknown_rule_is_named() {
    let text = "%start A %% A: 'x' Bee;";
    let ast = parse_yacc(text.as_bytes()).unwrap();
    let e = match YaccGrammar::new(text.as_bytes(), &ast) {
        Err(e) => e,
        Ok(_) => panic!("no error"),
    };
    assert_eq!(e.kind, GrammarValidationErrorKind::UnknownRuleRef);
    let sym = e.sym.unwrap();
    assert_eq!(&text[sym.span.start..sym.span.end], "Bee");
    assert!(!sym.quoted);
}

#[test]
fn the_first_unknown_rule_is_named() {
    let text = "%start A %% A: 'x' Bee Cee; D: Eff;";
    for e in [
        match YaccGrammar::new(text.as_bytes(), &parse_yacc(text.as_bytes()).unwrap()) {
            Err(e) => e,
            Ok(_) => panic!("no error"),
        },
        match yacc_to_statetable(text) {
            Err(FromYaccParserError::GrammarValidationError(e)) => e,
            _ => panic!("no validation error"),
        },
    ] {
        assert_eq!(e.kind, GrammarValidationErrorKind::UnknownRuleRef);
        let sym = e.sym.unwrap();
        assert_eq!(&text[sym.span.start..sym.span.end], "Bee");
    }
}

#[test]
fn other_errors_name_no_symbol() {
    for text in ["%%", "%start B %% A: 'a';"] {
        match yacc_to_statetable(text) {
            Err(FromYaccParserError::GrammarValidationError(e)) => assert_eq!(e.sym, None),
            _ => panic!("no validation error for {}", text),
        }
    }
}

#[test]
fn error_messages() {
    let text = |t: &str| yacc_to_statetable(t).err().unwrap().message();
    assert_eq!(text(""), "File ends prematurely");
    assert_eq!(text("%foo"), "Unknown declaration");
    assert_eq!(text("%start 1"), "Illegal name");
    assert_eq!(text("%% A: 'a"), "Illegal string");
    assert_eq!(text("%% A: "), "Incomplete rule");
    assert_eq!(text("%% A 'a';"), "Missing colon");
    assert_eq!(text("%% A: ; %%"), "Programs not currently supported");
    assert_eq!(text("%%"), "No start rule specified");
    assert_eq!(text("%start B %% A: ;"), "Start rule does not appear in grammar");
    assert_eq!(text("%% A: B;"), "Unknown reference to rule");
}

#[test]
fn errors_convert() {
    let ast_err = parse_yacc(b"").err().unwrap();
    match FromYaccParserError::from(ast_err) {
        FromYaccParserError::YaccParserError(e) => assert_eq!(e, ast_err),
        _ => panic!("wrong variant"),
    }
    let text = "%%";
    let ast = parse_yacc(text.as_bytes()).unwrap();
    let g_err = YaccGrammar::new(text.as_bytes(), &ast).err().unwrap();
    match FromYaccParserError::from(g_err) {
        FromYaccParserError::GrammarValidationError(e) => assert_eq!(e, g_err),
        _ => panic!("wrong variant"),
    }
}

#[test]
fn grammar_of_the_text() {
    let (grm, _) = yacc_to_statetable("%start S %token b %% T: 'a' ; S: T b | S 'a' 'c' | ;").unwrap();
    // Rule 0 is the start of every grammar; the other rules come in the order of the text.
    assert_eq!(grm.rules_len(), 3);
    assert_eq!(grm.rule_name(0), &b"^".to_vec());
    assert_eq!(grm.rule_idx(b"T"), Some(1));
    assert_eq!(grm.rule_idx(b"S"), Some(2));
    assert_eq!(grm.rule_idx(b"U"), None);
    assert_eq!(grm.start_rule_idx(), 0);
    // The declared tokens come first, then the quoted ones; the last token ends the input.
    assert_eq!(grm.tokens_len(), 4);
    assert_eq!(grm.token_idx(b"b"), Some(0));
    assert_eq!(grm.token_idx(b"a"), Some(1));
    assert_eq!(grm.token_idx(b"c"), Some(2));
    assert_eq!(grm.token_idx(b"d"), None);
    assert_eq!(grm.eof_token_idx(), 3);
    assert_eq!(grm.token_name(3), None);
    assert_eq!(grm.token_name(2), Some(&b"c".to_vec()));
    assert_eq!(grm.prods_len(), 5);
    assert_eq!(grm.prod(0), &vec![Symbol::Rule(2)]);
    assert_eq!(grm.prod(1), &vec![Symbol::Token(1)]);
    assert_eq!(grm.prod(2), &vec![Symbol::Rule(1), Symbol::Token(0)]);
    assert_eq!(grm.prod(3), &vec![Symbol::Rule(2), Symbol::Token(1), Symbol::Token(2)]);
    assert_eq!(grm.prod(4), &Vec::<Symbol>::new());
    assert_eq!(grm.prod_to_rule(0), 0);
    assert_eq!(grm.prod_to_rule(1), 1);
    assert_eq!(grm.prod_to_rule(4), 2);
    assert_eq!(grm.rule_to_prods(2), &vec![2, 3, 4]);
    assert_eq!(grm.rule_to_prods(0), &vec![0]);
}

#[test]
fn first_rule_starts_by_default() {
    let (grm, _) = yacc_to_statetable("%% A: B 'a'; B: ;").unwrap();
    assert_eq!(grm.prod(0), &vec![Symbol::Rule(grm.rule_idx(b"A").unwrap())]);
}

#[test]
fn parts_are_checked() {
    let names = || vec![b"S".to_vec()];
    let toks = || vec![Some(b"x".to_vec()), None];
    assert!(YaccGrammar::from_parts(names(), toks(), vec![vec![Symbol::Token(0)]], vec![0], 0, 1).is_some());
    // A token that is not there.
    assert!(YaccGrammar::from_parts(names(), toks(), vec![vec![Symbol::Token(2)]], vec![0], 0, 1).is_none());
    // A rule that is not there.
    assert!(YaccGrammar::from_parts(names(), toks(), vec![vec![Symbol::Rule(1)]], vec![0], 0, 1).is_none());
    assert!(YaccGrammar::from_parts(names(), toks(), vec![vec![]], vec![1], 0, 1).is_none());
    assert!(YaccGrammar::from_parts(names(), toks(), vec![vec![]], vec![0], 1, 1).is_none());
    assert!(YaccGrammar::from_parts(names(), toks(), vec![vec![]], vec![0], 0, 2).is_none());
    // As many rules as productions are needed.
    assert!(YaccGrammar::from_parts(names(), toks(), vec![vec![]], vec![], 0, 1).is_none());
}
