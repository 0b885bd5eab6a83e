use cpctplus::firsts::YaccFirsts;
use cpctplus::grammar::{Symbol, YaccGrammar};
use cpctplus::yacc_to_statetable;

fn grammar(text: &str) -> YaccGrammar {
    yacc_to_statetable(text).unwrap().0
}

fn first_names(grm: &YaccGrammar, firsts: &YaccFirsts, rn: &str) -> Vec<String> {
    let ridx = grm.rule_idx(rn.as_bytes()).unwrap();
    let mut out = Vec::new();
    for tidx in 0..grm.tokens_len() {
        if firsts.is_set(ridx, tidx) {
            match grm.token_name(tidx) {
                Some(b) => out.push(String::from_utf8(b.clone()).unwrap()),
                None => out.push("$".to_string()),
            }
        }
    }
    out.sort();
    out
}

#[test]
fn first_of_tokens_and_rules() {
    let grm = grammar("%start C %token c d %% C: 'c'; D: 'd'; E: D | C; F: E;");
    let firsts = YaccFirsts::new(&grm);
    assert_eq!(first_names(&grm, &firsts, "^"), vec!["c"]);
    assert_eq!(first_names(&grm, &firsts, "C"), vec!["c"]);
    assert_eq!(first_names(&grm, &firsts, "D"), vec!["d"]);
    assert_eq!(first_names(&grm, &firsts, "E"), vec!["c", "d"]);
    assert_eq!(first_names(&grm, &firsts, "F"), vec!["c", "d"]);
    for r in ["^", "C", "D", "E", "F"] {
        assert!(!firsts.is_epsilon_set(grm.rule_idx(r.as_bytes()).unwrap()));
    }
}

#[test]
fn first_passes_over_empty_rules() {
    let grm = grammar("%start A %% A: B 'a'; B: 'b' | ; C: B B ; D: C 'd' ;");
    let firsts = YaccFirsts::new(&grm);
    assert_eq!(first_names(&grm, &firsts, "A"), vec!["a", "b"]);
    assert_eq!(first_names(&grm, &firsts, "B"), vec!["b"]);
    assert_eq!(first_names(&grm, &firsts, "C"), vec!["b"]);
    assert_eq!(first_names(&grm, &firsts, "D"), vec!["b", "d"]);
    let eps = |r: &str| firsts.is_epsilon_set(grm.rule_idx(r.as_bytes()).unwrap());
    assert!(!eps("A"));
    assert!(eps("B"));
    assert!(eps("C"));
    assert!(!eps("D"));
}

#[test]
fn first_of_left_recursion() {
    let grm = grammar("%start E %% E : 'N' | E '+' 'N' | '(' E ')' ;");
    let firsts = YaccFirsts::new(&grm);
    assert_eq!(first_names(&grm, &firsts, "E"), vec!["(", "N"]);
    assert!(!firsts.is_epsilon_set(grm.rule_idx(b"E").unwrap()));
}

#[test]
fn first_row_matches_bits() {
    let grm = grammar("%start E %% E : 'N' | E '+' 'N' | '(' E ')' ;");
    let firsts = YaccFirsts::new(&grm);
    let e = grm.rule_idx(b"E").unwrap();
    let row = firsts.firsts(e);
    assert_eq!(row.len(), grm.tokens_len() as usize);
    for tidx in 0..grm.tokens_len() {
        assert_eq!(row.get(tidx as usize), Some(firsts.is_set(e, tidx)));
    }
}

#[test]
fn first_of_grammar_from_parts() {
    // S: A 'x'; A: ;
    let grm = YaccGrammar::from_parts(
        vec![b"S".to_vec(), b"A".to_vec()],
        vec![Some(b"x".to_vec()), None],
        vec![vec![Symbol::Rule(1), Symbol::Token(0)], vec![]],
        vec![0, 1],
        0,
        1,
    )
    .unwrap();
    let firsts = YaccFirsts::new(&grm);
    assert!(firsts.is_set(0, 0));
    assert!(!firsts.is_set(0, 1));
    assert!(!firsts.is_set(1, 0));
    assert!(firsts.is_epsilon_set(1));
    assert!(!firsts.is_epsilon_set(0));
}
