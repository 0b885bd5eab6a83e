use std::time::{Duration, Instant};

use cpctplus::cpctplus::{recoverer, ParseRepair};
use cpctplus::grammar::YaccGrammar;
use cpctplus::lex::Lexeme;
use cpctplus::parser::{Node, Parser};
use cpctplus::statetable::StateTable;
use cpctplus::yacc_to_statetable;

struct ParseError {
    lexeme: Lexeme,
    repairs: Vec<Vec<ParseRepair>>,
}

/// Splits `input` into one lexeme for each character that `lexs` gives a token for.
fn lex(grm: &YaccGrammar, lexs: &[(char, &str)], input: &str) -> Vec<Lexeme> {
    let mut out = Vec::new();
    for (i, c) in input.char_indices() {
        let name = lexs.iter().find(|x| x.0 == c).unwrap().1;
        let tidx = grm.token_idx(name.as_bytes()).unwrap();
        out.push(Lexeme::new(tidx, i, 1));
    }
    out
}

/// Parses `lexemes`, recovering from each error, until the parser accepts or recovery finds
/// nothing.
fn parse(
    grm: &YaccGrammar,
    stable: &StateTable,
    lexemes: &Vec<Lexeme>,
) -> Result<Node, (Option<Node>, Vec<ParseError>)> {
    let costs = vec![1u8; grm.tokens_len() as usize];
    let parser = Parser::new(grm, stable, &costs, lexemes);
    let mut pstack = vec![stable.start_state()];
    let mut tstack: Vec<Node> = Vec::new();
    let mut errors = Vec::new();
    let mut laidx = 0;
    let accepted = loop {
        let (at, accepts) = parser.lr_rest(laidx, &mut pstack, &mut tstack);
        if accepts {
            break true;
        }
        let finish_by = Instant::now() + Duration::from_millis(5000);
        let rec = recoverer(&parser);
        let la_lexeme = parser.next_lexeme(at);
        let (new_laidx, repairs) = rec.recover(finish_by, at, &mut pstack, &mut tstack);
        let keep_going = !repairs.is_empty();
        errors.push(ParseError { lexeme: la_lexeme, repairs });
        if !keep_going {
            break false;
        }
        laidx = new_laidx;
    };
    if accepted && errors.is_empty() {
        Ok(tstack.pop().unwrap())
    } else if accepted {
        Err((Some(tstack.pop().unwrap()), errors))
    } else {
        Err((None, errors))
    }
}

fn do_parse(
    lexs: &[(char, &str)],
    grms: &str,
    input: &str,
) -> (YaccGrammar, Result<Node, (Option<Node>, Vec<ParseError>)>) {
    let (grm, stable) = yacc_to_statetable(grms).unwrap();
    let lexemes = lex(&grm, lexs, input);
    let pr = parse(&grm, &stable, &lexemes);
    (grm, pr)
}

fn name(b: &Vec<u8>) -> String {
    String::from_utf8(b.clone()).unwrap()
}

/// Pretty-prints a parse tree: one line for each node, with the name of its rule, or the
/// name of its token and the text of its lexeme.
fn pp(node: &Node, grm: &YaccGrammar, input: &str) -> String {
    let mut st = vec![(0usize, node)];
    let mut s = String::new();
    while !st.is_empty() {
        let (indent, e) = st.pop().unwrap();
        for _ in 0..indent {
            s.push_str(" ");
        }
        match e {
            Node::Term { lexeme } => {
                let tn = name(grm.token_name(lexeme.tok_id()).unwrap());
                let lt = &input[lexeme.start()..lexeme.start() + lexeme.len()];
                s.push_str(&format!("{} {}\n", tn, lt));
            }
            Node::Nonterm { ridx, nodes } => {
                s.push_str(&format!("{}\n", name(grm.rule_name(*ridx))));
                for x in nodes.iter().rev() {
                    st.push((indent + 1, x));
                }
            }
        }
    }
    s
}

fn pp_repairs(grm: &YaccGrammar, repairs: &Vec<ParseRepair>) -> String {
    let mut out = vec![];
    for r in repairs.iter() {
        match *r {
            ParseRepair::Insert(token_idx) => {
                out.push(format!("Insert \"{}\"", name(grm.token_name(token_idx).unwrap())))
            }
            ParseRepair::Delete(_) => out.push(format!("Delete")),
            ParseRepair::Shift(_) => out.push(format!("Shift")),
        }
    }
    out.join(", ")
}

fn check_all_repairs(grm: &YaccGrammar, repairs: &Vec<Vec<ParseRepair>>, expected: &[&str]) {
    assert_eq!(
        repairs.len(),
        expected.len(),
        "{:?}\nhas a different number of entries to:\n{:?}",
        repairs,
        expected
    );
    for i in 0..repairs.len() {
        if expected
            .iter()
            .find(|x| **x == pp_repairs(&grm, &repairs[i]))
            .is_none()
        {
            panic!("No match found for:\n  {}", pp_repairs(&grm, &repairs[i]));
        }
    }
}

#[test]
fn corchuelo_example() {
    // The example from the Curchuelo paper
    let lexs = [('(', "("), (')', ")"), ('+', "+"), ('n', "N")];
    let grms = "%start E
%%
E : 'N'
  | E '+' 'N'
  | '(' E ')'
  ;
";

    let us = "(nn";
    let (grm, pr) = do_parse(&lexs, &grms, us);
    let (pt, errs) = pr.unwrap_err();
    let pp = pp(&pt.unwrap(), &grm, us);
    if !vec![
        "E
 ( (
 E
  N n
 ) 
",
        "E
 E
  ( (
  E
   N n
  ) 
 + 
 N n
",
    ]
    .iter()
    .any(|x| *x == pp)
    {
        panic!("Can't find a match for {}", pp);
    }

    assert_eq!(errs.len(), 1);
    let err_tok_id = grm.token_idx("N".as_bytes()).unwrap();
    assert_eq!(errs[0].lexeme, Lexeme::new(err_tok_id, 2, 1));
    check_all_repairs(
        &grm,
        &errs[0].repairs,
        &vec![
            "Insert \")\", Insert \"+\"",
            "Insert \")\", Delete",
            "Insert \"+\", Shift, Insert \")\"",
        ],
    );

    let (grm, pr) = do_parse(&lexs, &grms, "n)+n+n+n)");
    let (_, errs) = pr.unwrap_err();
    assert_eq!(errs.len(), 2);
    check_all_repairs(&grm, &errs[0].repairs, &vec!["Delete"]);
    check_all_repairs(&grm, &errs[1].repairs, &vec!["Delete"]);

    let (grm, pr) = do_parse(&lexs, &grms, "(((+n)+n+n+n)");
    let (_, errs) = pr.unwrap_err();
    assert_eq!(errs.len(), 2);
    check_all_repairs(&grm, &errs[0].repairs, &vec!["Insert \"N\"", "Delete"]);
    check_all_repairs(&grm, &errs[1].repairs, &vec!["Insert \")\""]);
}

#[test]
fn test_merge() {
    let lexs = [('a', "a"), ('b', "b"), ('c', "c"), ('d', "d")];

    let grms = "%start S
%%
S: T U;
T: T1 | 'b' | T2;
T1: 'a';
T2: 'c' | 'a' 'b' 'c';
U: 'd';
";

    let us = "";
    let (grm, pr) = do_parse(&lexs, &grms, &us);
    let (_, errs) = pr.unwrap_err();
    check_all_repairs(
        &grm,
        &errs[0].repairs,
        &vec![
            "Insert \"a\", Insert \"d\"",
            "Insert \"b\", Insert \"d\"",
            "Insert \"c\", Insert \"d\"",
        ],
    );
}

#[test]
fn longer_input() {
    let lexs = [('(', "("), (')', ")"), ('+', "+"), ('n', "N")];
    let grms = "%start E %% E : 'N' | E '+' 'N' | '(' E ')' ;";
    let depth = 300;
    let mut us = "(".repeat(depth);
    us.push('n');
    for _ in 0..depth {
        us.push_str(")+n");
    }
    let (_, pr) = do_parse(&lexs, grms, &us);
    assert!(pr.is_ok());
    // After `+` no parenthesis may come.
    let (grm, pr) = do_parse(&lexs, grms, "(n)+(n)");
    let (pt, errs) = pr.unwrap_err();
    assert!(pt.is_some());
    assert_eq!(errs.len(), 1);
    assert_eq!(errs[0].lexeme, Lexeme::new(grm.token_idx(b"(").unwrap(), 4, 1));
    check_all_repairs(&grm, &errs[0].repairs, &vec!["Delete, Shift, Delete"]);
    // One parenthesis too many closes the outermost one early, and the last one is left over.
    let mut us = "(".repeat(depth);
    us.push('n');
    for i in 0..depth {
        us.push_str(if i == depth / 2 { "))+n" } else { ")+n" });
    }
    let (grm, pr) = do_parse(&lexs, grms, &us);
    let (pt, errs) = pr.unwrap_err();
    assert!(pt.is_some());
    assert_eq!(errs.len(), 1);
    let last = us.rfind(')').unwrap();
    assert_eq!(errs[0].lexeme, Lexeme::new(grm.token_idx(b")").unwrap(), last, 1));
    check_all_repairs(&grm, &errs[0].repairs, &vec!["Delete"]);
}

#[test]
fn arithmetic_grammar() {
    let lexs = [('(', "("), (')', ")"), ('+', "+"), ('*', "*"), ('i', "ID")];
    let grms = "%start E
%%
E: T E2 ;
E2: '+' T E2 | ;
T: F T2 ;
T2: '*' F T2 | ;
F: '(' E ')' | 'ID' ;
";
    let (_, pr) = do_parse(&lexs, grms, "i+i*(i+i)*i");
    assert!(pr.is_ok());
    let (grm, pr) = do_parse(&lexs, grms, "i+*(i+i");
    let (pt, errs) = pr.unwrap_err();
    assert!(pt.is_some());
    assert_eq!(errs.len(), 2);
    check_all_repairs(&grm, &errs[0].repairs, &vec!["Insert \"ID\"", "Delete"]);
    check_all_repairs(&grm, &errs[1].repairs, &vec!["Insert \")\""]);
}

#[test]
fn nothing_to_recover_with() {
    // A table that acts on nothing: no repair leads anywhere.
    let (grm, _) = yacc_to_statetable("%start E %% E : 'N' | E '+' 'N' | '(' E ')' ;").unwrap();
    let nothing = StateTable::from_rows(
        vec![vec![cpctplus::statetable::Action::Error; grm.tokens_len() as usize]],
        vec![vec![None; grm.rules_len() as usize]],
        0,
    );
    let lexemes = lex(&grm, &[('(', "("), (')', ")"), ('+', "+"), ('n', "N")], "(n");
    let costs = vec![1u8; grm.tokens_len() as usize];
    let parser = Parser::new(&grm, &nothing, &costs, &lexemes);
    let rec = recoverer(&parser);
    let mut pstack = vec![0];
    let mut tstack: Vec<Node> = Vec::new();
    let (laidx, repairs) = rec.recover(Instant::now() + Duration::from_secs(60), 0, &mut pstack, &mut tstack);
    assert_eq!(laidx, 0);
    assert!(repairs.is_empty());
    assert_eq!(pstack, vec![0]);
    assert!(tstack.is_empty());
}
