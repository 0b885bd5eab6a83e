use cactus::Cactus;
use cpctplus::grammar::{Symbol, YaccGrammar};
use cpctplus::lex::Lexeme;
use cpctplus::parser::{Node, Parser};
use cpctplus::statetable::{Action, StateTable};
use cpctplus::yacc_to_statetable;

/// The grammar `S: 'a' S | 'b';` with tokens a = 0, b = 1 and the end of the input = 2.
fn small_grammar() -> YaccGrammar {
    YaccGrammar::from_parts(
        vec![b"^".to_vec(), b"S".to_vec()],
        vec![Some(b"a".to_vec()), Some(b"b".to_vec()), None],
        vec![
            vec![Symbol::Rule(1)],
            vec![Symbol::Token(0), Symbol::Rule(1)],
            vec![Symbol::Token(1)],
        ],
        vec![0, 1, 1],
        0,
        2,
    )
    .unwrap()
}

/// A table for it, written by hand. State 0 is the start, state 1 follows `a`, state 2
/// follows `b`, state 3 follows `a S`, state 4 follows `S` at the start.
fn small_table() -> StateTable {
    StateTable::from_rows(
        vec![
            vec![Action::Shift(1), Action::Shift(2), Action::Error],
            vec![Action::Shift(1), Action::Shift(2), Action::Error],
            vec![Action::Error, Action::Error, Action::Reduce(2)],
            vec![Action::Error, Action::Error, Action::Reduce(1)],
            vec![Action::Error, Action::Error, Action::Accept],
        ],
        vec![
            vec![None, Some(4)],
            vec![None, Some(3)],
            vec![None, None],
            vec![None, None],
            vec![None, None],
        ],
        0,
    )
}

fn stack_of(states: &[u32]) -> Cactus<u32> {
    let mut c = Cactus::new();
    for s in states {
        c = c.child(*s);
    }
    c
}

fn states_of(c: &Cactus<u32>) -> Vec<u32> {
    let mut v: Vec<u32> = c.vals().cloned().collect();
    v.reverse();
    v
}

fn lexemes(toks: &[u32]) -> Vec<Lexeme> {
    toks.iter().enumerate().map(|(i, t)| Lexeme::new(*t, i, 1)).collect()
}

#[test]
fn table_lookups() {
    let st = small_table();
    assert_eq!(st.start_state(), 0);
    assert_eq!(st.action(0, 0), Action::Shift(1));
    assert_eq!(st.action(2, 2), Action::Reduce(2));
    assert_eq!(st.action(4, 2), Action::Accept);
    assert_eq!(st.action(4, 0), Action::Error);
    // Where the table has no entry, the action is an error and no state follows.
    assert_eq!(st.action(5, 0), Action::Error);
    assert_eq!(st.action(0, 3), Action::Error);
    assert_eq!(st.goto(0, 1), Some(4));
    assert_eq!(st.goto(0, 0), None);
    assert_eq!(st.goto(0, 2), None);
    assert_eq!(st.goto(9, 1), None);
    assert_eq!(st.state_actions(0), vec![0, 1]);
    assert_eq!(st.state_actions(2), vec![2]);
    assert_eq!(st.state_actions(7), Vec::<u32>::new());
}

#[test]
fn input_lookups() {
    let grm = small_grammar();
    let st = small_table();
    let costs = vec![3, 4, 5];
    let lexs = vec![Lexeme::new(0, 0, 1), Lexeme::new(1, 2, 3)];
    let parser = Parser::new(&grm, &st, &costs, &lexs);
    assert_eq!(parser.lexemes_len(), 2);
    assert_eq!(parser.next_tidx(0), 0);
    assert_eq!(parser.next_tidx(1), 1);
    assert_eq!(parser.next_tidx(2), 2);
    assert_eq!(parser.next_tidx(7), 2);
    assert_eq!(parser.next_lexeme(1), Lexeme::new(1, 2, 3));
    // Behind the input stands an empty lexeme where the last lexeme ends.
    assert_eq!(parser.next_lexeme(2), Lexeme::new(2, 5, 0));
    assert_eq!(parser.token_cost(0), 3);
    assert_eq!(parser.token_cost(2), 5);
    assert_eq!(parser.token_cost(3), 0);
    assert_eq!(parser.grm().tokens_len(), 3);
    assert_eq!(parser.stable().start_state(), 0);
    let none: Vec<Lexeme> = vec![];
    let parser = Parser::new(&grm, &st, &costs, &none);
    assert_eq!(parser.next_lexeme(0), Lexeme::new(2, 0, 0));
    let l = Lexeme::new(1, 2, 3);
    assert_eq!((l.tok_id(), l.start(), l.len()), (1, 2, 3));
}

#[test]
fn shift_then_stop() {
    let grm = small_grammar();
    let st = small_table();
    let costs = vec![1, 1, 1];
    let lexs = lexemes(&[0, 0, 1]);
    let parser = Parser::new(&grm, &st, &costs, &lexs);
    let (laidx, stack) = parser.lr_cactus(None, 0, 1, stack_of(&[0]));
    assert_eq!((laidx, states_of(&stack)), (1, vec![0, 1]));
    // One shift at a time, whatever the limit.
    let (laidx, stack) = parser.lr_cactus(None, 1, 3, stack);
    assert_eq!((laidx, states_of(&stack)), (2, vec![0, 1, 1]));
    let (laidx, stack) = parser.lr_cactus(None, 2, 3, stack);
    assert_eq!((laidx, states_of(&stack)), (3, vec![0, 1, 1, 2]));
    // At the end of the input the reductions are made, and the parser accepts.
    let (laidx, stack) = parser.lr_cactus(None, 3, 4, stack);
    assert_eq!((laidx, states_of(&stack)), (3, vec![0, 4]));
    assert_eq!(st.action(4, parser.next_tidx(3)), Action::Accept);
}

#[test]
fn nothing_at_the_limit() {
    let grm = small_grammar();
    let st = small_table();
    let costs = vec![1, 1, 1];
    let lexs = lexemes(&[0]);
    let parser = Parser::new(&grm, &st, &costs, &lexs);
    let (laidx, stack) = parser.lr_cactus(None, 0, 0, stack_of(&[0]));
    assert_eq!((laidx, states_of(&stack)), (0, vec![0]));
}

#[test]
fn error_leaves_the_stack() {
    let grm = small_grammar();
    let st = small_table();
    let costs = vec![1, 1, 1];
    let lexs = lexemes(&[1, 1]);
    let parser = Parser::new(&grm, &st, &costs, &lexs);
    let (laidx, stack) = parser.lr_cactus(None, 1, 2, stack_of(&[0, 2]));
    assert_eq!((laidx, states_of(&stack)), (1, vec![0, 2]));
    // An empty stack, and a state that the table does not have.
    let (laidx, stack) = parser.lr_cactus(None, 0, 1, stack_of(&[]));
    assert_eq!((laidx, states_of(&stack)), (0, vec![]));
    let (laidx, stack) = parser.lr_cactus(None, 0, 1, stack_of(&[17]));
    assert_eq!((laidx, states_of(&stack)), (0, vec![17]));
    // A reduction for which the stack is too short.
    let (laidx, stack) = parser.lr_cactus(None, 2, 3, stack_of(&[3]));
    assert_eq!((laidx, states_of(&stack)), (2, vec![3]));
}

#[test]
fn inserted_lexeme_is_the_lookahead() {
    let grm = small_grammar();
    let st = small_table();
    let costs = vec![1, 1, 1];
    let lexs = lexemes(&[0]);
    let parser = Parser::new(&grm, &st, &costs, &lexs);
    // With `b` inserted behind the input, the parser shifts it; the end of the input itself
    // is never shifted.
    let (laidx, stack) = parser.lr_cactus(Some(Lexeme::new(1, 1, 0)), 1, 2, stack_of(&[0, 1]));
    assert_eq!((laidx, states_of(&stack)), (2, vec![0, 1, 2]));
    let (laidx, stack) = parser.lr_cactus(None, 1, 2, stack_of(&[0, 1]));
    assert_eq!((laidx, states_of(&stack)), (1, vec![0, 1]));
}

fn show(n: &Node) -> String {
    match n {
        Node::Term { lexeme } => format!("t{}@{}", lexeme.tok_id(), lexeme.start()),
        Node::Nonterm { ridx, nodes } => {
            let inner: Vec<String> = nodes.iter().map(show).collect();
            format!("r{}({})", ridx, inner.join(" "))
        }
    }
}

#[test]
fn trees_follow_the_stack() {
    let grm = small_grammar();
    let st = small_table();
    let costs = vec![1, 1, 1];
    let lexs = lexemes(&[0, 1]);
    let parser = Parser::new(&grm, &st, &costs, &lexs);
    let mut pstack = vec![0];
    let mut tstack: Vec<Node> = Vec::new();
    assert_eq!(parser.lr_upto(None, 0, 1, &mut pstack, &mut tstack), 1);
    assert_eq!(parser.lr_upto(None, 1, 2, &mut pstack, &mut tstack), 2);
    assert_eq!(pstack, vec![0, 1, 2]);
    assert_eq!(tstack.iter().map(show).collect::<Vec<_>>(), vec!["t0@0", "t1@1"]);
    assert_eq!(parser.lr_upto(None, 2, 3, &mut pstack, &mut tstack), 2);
    assert_eq!(pstack, vec![0, 4]);
    assert_eq!(tstack.iter().map(show).collect::<Vec<_>>(), vec!["r1(t0@0 r1(t1@1))"]);
    // Nothing is done at the limit.
    assert_eq!(parser.lr_upto(None, 2, 2, &mut pstack, &mut tstack), 2);
    assert_eq!(pstack, vec![0, 4]);
    assert_eq!(tstack.len(), 1);
}

#[test]
fn parser_comes_to_rest() {
    let grm = small_grammar();
    let st = small_table();
    let costs = vec![1, 1, 1];
    let lexs = lexemes(&[0, 0, 1]);
    let parser = Parser::new(&grm, &st, &costs, &lexs);
    let mut pstack = vec![0];
    let mut tstack: Vec<Node> = Vec::new();
    assert_eq!(parser.lr_rest(0, &mut pstack, &mut tstack), (3, true));
    assert_eq!(pstack, vec![0, 4]);
    assert_eq!(tstack.iter().map(show).collect::<Vec<_>>(), vec!["r1(t0@0 r1(t0@1 r1(t1@2)))"]);
    // Before the second `b` the parser is stuck, with the reduction made that the table asks
    // for on it.
    let lexs = lexemes(&[0, 1, 1]);
    let parser = Parser::new(&grm, &st, &costs, &lexs);
    let mut pstack = vec![0];
    let mut tstack: Vec<Node> = Vec::new();
    assert_eq!(parser.lr_rest(0, &mut pstack, &mut tstack), (2, false));
    assert_eq!(pstack, vec![0, 1, 2]);
    assert_eq!(parser.lr_rest(2, &mut pstack, &mut tstack), (2, false));
    let mut none: Vec<u32> = vec![];
    assert_eq!(parser.lr_rest(1, &mut none, &mut tstack), (1, false));
}

#[test]
fn both_simulators_agree() {
    let (grm, st) = yacc_to_statetable("%start E %% E : 'N' | E '+' 'N' | '(' E ')' ;").unwrap();
    let costs = vec![1; grm.tokens_len() as usize];
    let t = |n: &str| grm.token_idx(n.as_bytes()).unwrap();
    let lexs = lexemes(&[t("("), t("N"), t("+"), t("N"), t(")"), t("+"), t("N")]);
    let parser = Parser::new(&grm, &st, &costs, &lexs);
    let mut pstack = vec![st.start_state()];
    let mut tstack: Vec<Node> = Vec::new();
    let mut cstack = stack_of(&[st.start_state()]);
    for laidx in 0..lexs.len() {
        let end = parser.lr_upto(None, laidx, laidx + 1, &mut pstack, &mut tstack);
        let (cend, next) = parser.lr_cactus(None, laidx, laidx + 1, cstack);
        cstack = next;
        assert_eq!(end, laidx + 1);
        assert_eq!(cend, end);
        assert_eq!(states_of(&cstack), pstack);
    }
    let end = parser.lr_upto(None, lexs.len(), lexs.len() + 1, &mut pstack, &mut tstack);
    assert_eq!(end, lexs.len());
    assert_eq!(st.action(*pstack.last().unwrap(), grm.eof_token_idx()), Action::Accept);
    assert_eq!(tstack.len(), 1);
}

#[test]
fn generated_table_fits_the_grammar() {
    let (grm, st) = yacc_to_statetable("%start S %% S: 'a' S | 'b';").unwrap();
    let a = grm.token_idx(b"a").unwrap();
    let b = grm.token_idx(b"b").unwrap();
    let eof = grm.eof_token_idx();
    let s = grm.rule_idx(b"S").unwrap();
    let start = st.start_state();
    assert_eq!(start, 0);
    let after_a = match st.action(start, a) {
        Action::Shift(x) => x,
        x => panic!("{:?}", x),
    };
    let after_b = match st.action(start, b) {
        Action::Shift(x) => x,
        x => panic!("{:?}", x),
    };
    assert_eq!(st.action(start, eof), Action::Error);
    assert_eq!(st.state_actions(start), vec![a, b]);
    // The state behind `a` is its own successor on `a`: equal states are one state.
    assert_eq!(st.action(after_a, a), Action::Shift(after_a));
    assert_eq!(st.action(after_a, b), Action::Shift(after_b));
    assert_eq!(st.action(after_b, eof), Action::Reduce(2));
    assert_eq!(st.action(after_b, a), Action::Error);
    let after_s = st.goto(start, s).unwrap();
    assert_eq!(st.action(after_s, eof), Action::Accept);
    let after_as = st.goto(after_a, s).unwrap();
    assert_eq!(st.action(after_as, eof), Action::Reduce(1));
    assert_eq!(st.goto(after_b, s), None);
    // Five states, and no more.
    assert_eq!(st.state_actions(4).len(), 1);
    assert_eq!(st.state_actions(5).len(), 0);
    assert_eq!(st.action(5, eof), Action::Error);
}

#[test]
fn shift_wins_over_reduce() {
    // The dangling else: behind `i S`, on `e`, the table shifts.
    let (grm, st) = yacc_to_statetable("%start S %% S: 'i' S | 'i' S 'e' S | 'x';").unwrap();
    let t = |n: &str| grm.token_idx(n.as_bytes()).unwrap();
    let s = grm.rule_idx(b"S").unwrap();
    let mut state = st.start_state();
    for tok in [t("i"), t("i")] {
        state = match st.action(state, tok) {
            Action::Shift(x) => x,
            x => panic!("{:?}", x),
        };
    }
    let inner = st.goto(state, s).unwrap();
    assert!(matches!(st.action(inner, t("e")), Action::Shift(_)));
    assert!(matches!(st.action(inner, grm.eof_token_idx()), Action::Reduce(_)));
}
