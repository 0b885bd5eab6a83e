use cpctplus::follows::YaccFollows;
use cpctplus::grammar::YaccGrammar;
use cpctplus::yacc_to_statetable;

fn has(grm: &YaccGrammar, follows: &YaccFollows, rn: &str, should_be: Vec<&str>) {
    let ridx = grm.rule_idx(rn.as_bytes()).unwrap();
    for tidx in 0..grm.tokens_len() {
        let n = if tidx == grm.eof_token_idx() {
            "$".to_string()
        } else {
            match grm.token_name(tidx) {
                Some(b) => String::from_utf8(b.clone()).unwrap(),
                None => "<no name>".to_string(),
            }
        };
        if should_be.iter().find(|x| **x == n.as_str()).is_none() {
            if follows.is_set(ridx, tidx) {
                panic!("{} is incorrectly set in {}", n, rn);
            }
        } else {
            if !follows.is_set(ridx, tidx) {
                panic!("{} is not set in {}", n, rn);
            }
        }
    }
}

#[test]
fn test_follow() {
    let (grm, _) = yacc_to_statetable(
        "
                %start E
                %%
                E: T E2 ;
                E2: '+' T E2 | ;
                T: F T2 ;
                T2: '*' F T2 | ;
                F: '(' E ')' | 'ID' ;
          ",
    )
    .unwrap();
    let follows = YaccFollows::new(&grm);
    has(&grm, &follows, "E", vec![")", "$"]);
    has(&grm, &follows, "E2", vec![")", "$"]);
    has(&grm, &follows, "T", vec!["+", ")", "$"]);
    has(&grm, &follows, "T2", vec!["+", ")", "$"]);
    has(&grm, &follows, "F", vec!["+", "*", ")", "$"]);
}

#[test]
fn test_follow2() {
    let (grm, _) = yacc_to_statetable(
        "
                %start A
                %%
                A : 't' B2 D | 'v' D2 ;
                B : 't' B2 | ;
                B2: 'w' B | 'u' 'w' B ;
                D : 'v' D2 ;
                D2: 'x' B D2 | ;
          ",
    )
    .unwrap();
    let follows = YaccFollows::new(&grm);
    has(&grm, &follows, "A", vec!["$"]);
    has(&grm, &follows, "B", vec!["v", "x", "$"]);
    has(&grm, &follows, "B2", vec!["v", "x", "$"]);
    has(&grm, &follows, "D", vec!["$"]);
    has(&grm, &follows, "D2", vec!["$"]);
}

#[test]
fn test_follow3() {
    let (grm, _) = yacc_to_statetable(
        "
                %start S
                %%
                S: A 'b';
                A: 'b' | ;
          ",
    )
    .unwrap();
    let follows = YaccFollows::new(&grm);
    has(&grm, &follows, "S", vec!["$"]);
    has(&grm, &follows, "A", vec!["b"]);
}

#[test]
fn test_follow_corchuelo() {
    let (grm, _) = yacc_to_statetable(
        "
                %start E
                %%
                E : 'N'
                  | E '+' 'N'
                  | '(' E ')'
                  ;
          ",
    )
    .unwrap();
    let follows = YaccFollows::new(&grm);
    has(&grm, &follows, "E", vec!["+", ")", "$"]);
}

#[test]
fn follow_row_matches_bits() {
    let (grm, _) = yacc_to_statetable("%start S %% S: A 'b'; A: 'b' | ;").unwrap();
    let follows = YaccFollows::new(&grm);
    for ridx in 0..grm.rules_len() {
        let row = follows.follows(ridx);
        assert_eq!(row.len(), grm.tokens_len() as usize);
        for tidx in 0..grm.tokens_len() {
            assert_eq!(row.get(tidx as usize), Some(follows.is_set(ridx, tidx)));
        }
    }
    // The end of the input stands behind the start rule, and behind what ends it.
    assert!(follows.is_set(grm.start_rule_idx(), grm.eof_token_idx()));
    assert!(follows.is_set(grm.rule_idx(b"S").unwrap(), grm.eof_token_idx()));
    assert!(!follows.is_set(grm.rule_idx(b"A").unwrap(), grm.eof_token_idx()));
}

#[test]
fn follow_looks_at_the_next_symbol_only() {
    // Behind `B` stands what can begin `C`; what stands behind `C` is found behind `B` only
    // where nothing but `C` stands behind `B`.
    let (grm, _) = yacc_to_statetable("%start S %% S: B C 'd'; B: 'b'; C: 'c' | ;").unwrap();
    let follows = YaccFollows::new(&grm);
    has(&grm, &follows, "B", vec!["c"]);
    has(&grm, &follows, "C", vec!["d"]);
    has(&grm, &follows, "S", vec!["$"]);
    // A rule that no sentence holds has a set all the same.
    let (grm, _) = yacc_to_statetable("%start S %% S: 'a'; X: Y 'b'; Y: 'c';").unwrap();
    let follows = YaccFollows::new(&grm);
    has(&grm, &follows, "Y", vec!["b"]);
    has(&grm, &follows, "X", vec![]);
}
