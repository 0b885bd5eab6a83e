use std::time::{Duration, Instant};

use cactus::Cactus;
use cpctplus::astar::{dijkstra, expand, place, search};
use cpctplus::cpctplus::{
    ends_with_parse_at_least_shifts, merge_lists, recoverer, same_list, traverse, ParseRepair,
    PathFNode, Repair, RepairMerge, COST_CEILING, PARSE_AT_LEAST,
};
use cpctplus::grammar::YaccGrammar;
use cpctplus::lex::Lexeme;
use cpctplus::mf::{
    apply_repairs, apply_repairs_cactus, copy_vec, lift, parse_on, rank_cnds, simplify_repairs,
};
use cpctplus::parser::{Node, Parser};
use cpctplus::statetable::{Action, StateTable};
use cpctplus::yacc_to_statetable;

const CORCHUELO: &str = "%start E %% E : 'N' | E '+' 'N' | '(' E ')' ;";

fn lexemes(grm: &YaccGrammar, input: &str) -> Vec<Lexeme> {
    input
        .char_indices()
        .map(|(i, c)| {
            let name = if c == 'n' { "N".to_string() } else { c.to_string() };
            Lexeme::new(grm.token_idx(name.as_bytes()).unwrap(), i, 1)
        })
        .collect()
}

/// Runs the parser until it cannot shift, and gives the position and the stack there.
fn run_to_error(parser: &Parser, stable: &StateTable) -> (usize, Vec<u32>, Vec<Node>) {
    let mut pstack = vec![stable.start_state()];
    let mut tstack = Vec::new();
    let (laidx, accepts) = parser.lr_rest(0, &mut pstack, &mut tstack);
    assert!(!accepts);
    (laidx, pstack, tstack)
}

fn list(entries: Vec<RepairMerge>) -> Cactus<RepairMerge> {
    let mut c = Cactus::new().child(RepairMerge::Terminator);
    for e in entries {
        c = c.child(e);
    }
    c
}

fn plain(repairs: &[Repair]) -> Cactus<RepairMerge> {
    list(repairs.iter().map(|r| RepairMerge::Repair(*r)).collect())
}

/// The list `base` with `r` behind it, and a list of the repairs of each of `alts` merged into
/// that entry.
fn merged_entry(base: &Cactus<RepairMerge>, r: Repair, alts: &[&[Repair]]) -> Cactus<RepairMerge> {
    let mut c = base.child(RepairMerge::Repair(r));
    for a in alts {
        c = merge_lists(&c, plain(a));
    }
    c
}

fn node(stack: &[u32], laidx: usize, repairs: Cactus<RepairMerge>, cf: u16) -> PathFNode {
    PathFNode { pstack: lift(&stack.to_vec()), laidx, repairs, cf }
}

fn sorted(mut v: Vec<Vec<Repair>>) -> Vec<String> {
    let mut out: Vec<String> = v.drain(..).map(|s| format!("{:?}", s)).collect();
    out.sort();
    out
}

fn far_future() -> Instant {
    Instant::now() + Duration::from_secs(60)
}

#[test]
fn nodes_that_can_be_merged() {
    let ins = Repair::InsertTerm(0);
    let a = node(&[0, 1], 2, plain(&[ins, Repair::Shift]), 1);
    // Another cost and other repairs, but the same stack, position and number of shifts.
    assert!(a == node(&[0, 1], 2, plain(&[Repair::Delete, Repair::Shift]), 7));
    assert!(a == node(&[0, 1], 2, merged_entry(&plain(&[]), Repair::Shift, &[&[ins]]), 1));
    assert!(!(a == node(&[0, 1], 3, plain(&[ins, Repair::Shift]), 1)));
    assert!(!(a == node(&[0, 2], 2, plain(&[ins, Repair::Shift]), 1)));
    assert!(!(a == node(&[0], 2, plain(&[ins, Repair::Shift]), 1)));
    assert!(!(a == node(&[0, 1], 2, plain(&[ins, Repair::Shift, Repair::Shift]), 1)));
    assert!(!(a == node(&[0, 1], 2, plain(&[ins]), 1)));
    // If one ends with a deletion, so must the other.
    let d = node(&[0, 1], 2, plain(&[ins, Repair::Delete]), 1);
    assert!(d == node(&[0, 1], 2, plain(&[Repair::Delete]), 1));
    assert!(!(d == node(&[0, 1], 2, plain(&[ins]), 1)));
    assert!(!(node(&[0, 1], 2, plain(&[]), 1) == d));
    assert!(node(&[0, 1], 2, plain(&[]), 0) == node(&[0, 1], 2, plain(&[ins]), 0));
}

#[test]
fn newest_repair() {
    assert_eq!(node(&[0], 0, plain(&[]), 0).last_repair(), None);
    assert_eq!(node(&[0], 0, plain(&[Repair::Shift, Repair::Delete]), 0).last_repair(), Some(Repair::Delete));
    let merged = merged_entry(&plain(&[]), Repair::InsertTerm(4), &[&[Repair::Delete]]);
    assert_eq!(node(&[0], 0, merged, 0).last_repair(), Some(Repair::InsertTerm(4)));
    assert_eq!(node(&[0], 0, Cactus::new(), 0).last_repair(), None);
}

#[test]
fn enough_shifts() {
    assert_eq!(PARSE_AT_LEAST, 3);
    let s = Repair::Shift;
    assert!(!ends_with_parse_at_least_shifts(&plain(&[])));
    assert!(!ends_with_parse_at_least_shifts(&plain(&[s, s])));
    assert!(ends_with_parse_at_least_shifts(&plain(&[s, s, s])));
    assert!(ends_with_parse_at_least_shifts(&plain(&[Repair::Delete, s, s, s, s])));
    assert!(!ends_with_parse_at_least_shifts(&plain(&[s, s, s, Repair::Delete])));
    assert!(!ends_with_parse_at_least_shifts(&plain(&[s, Repair::InsertTerm(1), s, s])));
    let with_merge = merged_entry(&plain(&[s]), s, &[&[Repair::Delete]]).child(RepairMerge::Repair(s));
    assert!(ends_with_parse_at_least_shifts(&with_merge));
}

#[test]
fn same_lists() {
    let a = plain(&[Repair::Delete, Repair::Shift]);
    assert!(same_list(&a, &plain(&[Repair::Delete, Repair::Shift])));
    assert!(!same_list(&a, &plain(&[Repair::Delete])));
    assert!(!same_list(&a, &plain(&[Repair::Shift, Repair::Shift])));
    assert!(!same_list(&a, &plain(&[Repair::Shift, Repair::Delete, Repair::Shift])));
    let d = Repair::Delete;
    let s = Repair::Shift;
    let i = Repair::InsertTerm(1);
    let m = |alts: &[&[Repair]]| merged_entry(&plain(&[]), s, alts);
    assert!(same_list(&m(&[&[d]]), &m(&[&[d]])));
    assert!(!same_list(&m(&[&[d]]), &m(&[&[i]])));
    assert!(!same_list(&m(&[&[d]]), &m(&[&[d], &[i]])));
    assert!(!same_list(&m(&[&[d], &[i]]), &m(&[&[i], &[d]])));
    assert!(!same_list(&m(&[&[d]]), &plain(&[s])));
    assert!(!same_list(&plain(&[s]), &m(&[&[d]])));
    // The lists that were merged in are compared entry by entry, and so are the lists merged
    // into those.
    let inner = |r: Repair| merge_lists(&plain(&[d]), m(&[&[r]]));
    assert!(same_list(&inner(i), &inner(i)));
    assert!(!same_list(&inner(i), &inner(d)));
    assert!(same_list(&m(&[&[d]]).child(RepairMerge::Repair(s)), &m(&[&[d]]).child(RepairMerge::Repair(s))));
    assert!(!same_list(&m(&[&[d]]).child(RepairMerge::Repair(s)), &m(&[&[i]]).child(RepairMerge::Repair(s))));
}

#[test]
fn merging_lists() {
    let d = Repair::Delete;
    let s = Repair::Shift;
    let i = Repair::InsertTerm(2);
    // The same list twice: nothing is merged.
    let same = merge_lists(&plain(&[d, s]), plain(&[d, s]));
    assert!(same_list(&same, &plain(&[d, s])));
    // A list without a repair takes over the other.
    assert!(same_list(&merge_lists(&plain(&[]), plain(&[i])), &plain(&[i])));
    // Else the newest entry keeps its repair and holds the other list.
    let one = merge_lists(&plain(&[d, s]), plain(&[i, i]));
    assert!(matches!(one.val(), Some(RepairMerge::Merge(Repair::Shift, _))));
    assert!(same_list(&one.parent().unwrap(), &plain(&[d])));
    assert_eq!(sorted(traverse(&one)), sorted(vec![vec![d, s], vec![i, i]]));
    // A second merge adds to what the entry holds; the list merged in may hold merges itself.
    let two = merge_lists(&one, merge_lists(&plain(&[s]), plain(&[d, d, d])));
    assert!(matches!(two.val(), Some(RepairMerge::Merge(Repair::Shift, _))));
    assert_eq!(
        sorted(traverse(&two)),
        sorted(vec![vec![d, s], vec![i, i], vec![s], vec![d, d, d]])
    );
    // The list that was merged into stays as it was.
    assert_eq!(traverse(&plain(&[d, s])), vec![vec![d, s]]);
    assert_eq!(sorted(traverse(&one)), sorted(vec![vec![d, s], vec![i, i]]));
}

#[test]
fn sequences_of_a_list() {
    let d = Repair::Delete;
    let s = Repair::Shift;
    let i = Repair::InsertTerm(3);
    // A list without a repair yields nothing.
    assert_eq!(traverse(&plain(&[])).len(), 0);
    assert_eq!(traverse(&Cactus::new()).len(), 0);
    assert_eq!(traverse(&plain(&[d, s])), vec![vec![d, s]]);
    assert_eq!(traverse(&plain(&[i, d])), vec![vec![i, d]]);
    // A merged entry yields the sequences through it, and then those of the lists merged
    // into it, those of the list merged last first.
    let first = merged_entry(&plain(&[]), i, &[&[d, d], &[s]]);
    assert_eq!(traverse(&first), vec![vec![i], vec![s], vec![d, d]]);
    let l = merged_entry(&first.child(RepairMerge::Repair(s)), d, &[&[i, i, i]]);
    assert_eq!(
        traverse(&l),
        vec![vec![i, s, d], vec![s, s, d], vec![d, d, s, d], vec![i, i, i]]
    );
    // A sequence comes once for each way in which the list yields it.
    let twice = merge_lists(&plain(&[d]), merge_lists(&plain(&[i]), plain(&[d])));
    assert_eq!(traverse(&twice), vec![vec![d], vec![i], vec![d]]);
}

#[test]
fn sequences_of_each_node() {
    let (grm, stable) = yacc_to_statetable(CORCHUELO).unwrap();
    let costs = vec![1; grm.tokens_len() as usize];
    let lexs = lexemes(&grm, "(nn");
    let parser = Parser::new(&grm, &stable, &costs, &lexs);
    let rec = recoverer(&parser);
    let one = node(&[], 0, plain(&[Repair::InsertTerm(1), Repair::InsertTerm(2)]), 2);
    assert_eq!(rec.collect_repairs(0, vec![one]), vec![vec![vec![ParseRepair::Insert(1), ParseRepair::Insert(2)]]]);
    let d = Repair::Delete;
    let merged = node(&[], 0, merged_entry(&plain(&[]), Repair::Shift, &[&[d], &[d, d]]), 1);
    assert_eq!(
        rec.collect_repairs(1, vec![merged, node(&[], 0, plain(&[]), 0)]),
        vec![
            vec![
                vec![ParseRepair::Shift(lexs[1])],
                vec![ParseRepair::Delete(lexs[1]), ParseRepair::Delete(lexs[2])],
                vec![ParseRepair::Delete(lexs[1])],
            ],
            vec![],
        ]
    );
}

#[test]
fn what_is_chosen_of_the_nodes() {
    let (grm, stable) = yacc_to_statetable(CORCHUELO).unwrap();
    let costs = vec![1; grm.tokens_len() as usize];
    let lexs = lexemes(&grm, "(nn");
    let parser = Parser::new(&grm, &stable, &costs, &lexs);
    let (laidx, pstack, _) = run_to_error(&parser, &stable);
    let rec = recoverer(&parser);
    assert_eq!(rec.choose_repairs(laidx, &pstack, Vec::new()).len(), 0);
    assert_eq!(rec.choose_repairs(laidx, &pstack, vec![node(&pstack, laidx, plain(&[]), 0)]).len(), 0);
    let nodes = dijkstra(&rec, &far_future(), node(&pstack, laidx, plain(&[]), 0));
    let chosen = rec.choose_repairs(laidx, &pstack, nodes);
    let mut stack = pstack.clone();
    let mut trees = Vec::new();
    let (_, recovered) = rec.recover(far_future(), laidx, &mut stack, &mut trees);
    assert_eq!(chosen, recovered);
    assert_eq!(chosen.len(), 3);
    // Of two sequences the one after which the parser gets further is kept, without the
    // shifts at its end; the same sequence twice is kept once.
    let plus = Repair::InsertTerm(grm.token_idx(b"+").unwrap());
    let s = Repair::Shift;
    let near = node(&pstack, laidx, plain(&[Repair::InsertTerm(grm.token_idx(b")").unwrap())]), 1);
    let far = node(&pstack, laidx, merged_entry(&plain(&[plus, s]), s, &[&[plus, s, s]]), 1);
    let chosen = rec.choose_repairs(laidx, &pstack, vec![near, far]);
    assert_eq!(chosen, vec![vec![ParseRepair::Insert(grm.token_idx(b"+").unwrap())]]);
}

#[test]
fn neighbours_at_an_error() {
    let (grm, stable) = yacc_to_statetable(CORCHUELO).unwrap();
    let costs = vec![1; grm.tokens_len() as usize];
    let lexs = lexemes(&grm, "(nn");
    let parser = Parser::new(&grm, &stable, &costs, &lexs);
    let (laidx, pstack, _) = run_to_error(&parser, &stable);
    assert_eq!(laidx, 2);
    let rec = recoverer(&parser);
    let n = node(&pstack, laidx, plain(&[]), 0);

    let mut nbrs = Vec::new();
    rec.insert(&n, &mut nbrs);
    let mut inserted: Vec<Repair> = nbrs.iter().map(|x| traverse(&x.1.repairs)[0][0]).collect();
    inserted.sort_by_key(|r| format!("{:?}", r));
    let close = grm.token_idx(b")").unwrap();
    let plus = grm.token_idx(b"+").unwrap();
    let mut expected = vec![Repair::InsertTerm(close), Repair::InsertTerm(plus)];
    expected.sort_by_key(|r| format!("{:?}", r));
    assert_eq!(inserted, expected);
    for (cost, nbr) in nbrs.iter() {
        assert_eq!((*cost, nbr.cf, nbr.laidx), (1, 1, 2));
        // `N` has become `E`, and the inserted token is shifted.
        assert_eq!(nbr.pstack.len(), pstack.len() + 1);
        assert!(nbr.pstack != n.pstack);
    }

    let mut nbrs = Vec::new();
    rec.delete(&n, &mut nbrs);
    assert_eq!(nbrs.len(), 1);
    assert_eq!((nbrs[0].0, nbrs[0].1.cf, nbrs[0].1.laidx), (1, 1, 3));
    assert!(nbrs[0].1.pstack == n.pstack);
    assert_eq!(traverse(&nbrs[0].1.repairs), vec![vec![Repair::Delete]]);

    // The lookahead cannot be shifted, and no reduction is made on it.
    let mut nbrs = Vec::new();
    rec.shift(&n, &mut nbrs);
    assert_eq!(nbrs.len(), 0);

    let mut nbrs = Vec::new();
    rec.neighbours(true, &n, &mut nbrs);
    assert_eq!(nbrs.len(), 3);
    assert!(nbrs.iter().all(|x| x.1.cf >= n.cf && x.0 == x.1.cf));
    let mut nbrs = Vec::new();
    rec.neighbours(false, &n, &mut nbrs);
    assert_eq!(nbrs.len(), 0);

    // Behind a deletion nothing is inserted.
    let after_delete = node(&pstack, laidx, plain(&[Repair::Delete]), 1);
    let mut nbrs = Vec::new();
    rec.neighbours(true, &after_delete, &mut nbrs);
    assert_eq!(nbrs.len(), 1);
    assert_eq!(traverse(&nbrs[0].1.repairs), vec![vec![Repair::Delete, Repair::Delete]]);
}

#[test]
fn shift_neighbour() {
    let (grm, stable) = yacc_to_statetable(CORCHUELO).unwrap();
    let costs = vec![1; grm.tokens_len() as usize];
    let lexs = lexemes(&grm, "n+n");
    let parser = Parser::new(&grm, &stable, &costs, &lexs);
    let rec = recoverer(&parser);
    let n = node(&[stable.start_state()], 0, plain(&[Repair::InsertTerm(0)]), 5);
    let mut nbrs = Vec::new();
    rec.shift(&n, &mut nbrs);
    assert_eq!(nbrs.len(), 1);
    assert_eq!((nbrs[0].0, nbrs[0].1.cf, nbrs[0].1.laidx), (5, 5, 1));
    assert_eq!(nbrs[0].1.pstack.len(), 2);
    assert_eq!(traverse(&nbrs[0].1.repairs), vec![vec![Repair::InsertTerm(0), Repair::Shift]]);
    // At the end of the input nothing is deleted; the reductions that lead to acceptance
    // change the stack and leave the repairs.
    let (laidx, pstack, _) = {
        let mut pstack = vec![stable.start_state()];
        let mut tstack = Vec::new();
        let mut laidx = 0;
        while laidx < 3 {
            laidx = parser.lr_upto(None, laidx, laidx + 1, &mut pstack, &mut tstack);
        }
        (laidx, pstack, tstack)
    };
    let n = node(&pstack, laidx, plain(&[Repair::Shift]), 0);
    let mut nbrs = Vec::new();
    rec.delete(&n, &mut nbrs);
    assert_eq!(nbrs.len(), 0);
    rec.shift(&n, &mut nbrs);
    assert_eq!(nbrs.len(), 1);
    assert_eq!(nbrs[0].1.laidx, 3);
    assert_eq!(nbrs[0].1.pstack.len(), 2);
    assert_eq!(traverse(&nbrs[0].1.repairs), vec![vec![Repair::Shift]]);
    assert!(!rec.success(&n));
    assert!(rec.success(&nbrs[0].1));
}

#[test]
fn cost_within_sixteen_bits() {
    let (grm, stable) = yacc_to_statetable(CORCHUELO).unwrap();
    assert_eq!(COST_CEILING, 65280);
    let costs = vec![255; grm.tokens_len() as usize];
    let lexs = lexemes(&grm, "(nn");
    let parser = Parser::new(&grm, &stable, &costs, &lexs);
    let (laidx, pstack, _) = run_to_error(&parser, &stable);
    let rec = recoverer(&parser);
    // At the ceiling the dearest neighbour still fits.
    let mut nbrs = Vec::new();
    rec.neighbours(true, &node(&pstack, laidx, plain(&[]), COST_CEILING), &mut nbrs);
    assert_eq!(nbrs.len(), 3);
    assert!(nbrs.iter().all(|x| x.0 == 65535 && x.1.cf == 65535));
    // Above it nothing is inserted or deleted, whatever it would cost.
    let mut nbrs = Vec::new();
    rec.neighbours(true, &node(&pstack, laidx, plain(&[]), COST_CEILING + 1), &mut nbrs);
    assert_eq!(nbrs.len(), 0);
    let cheap = vec![0; grm.tokens_len() as usize];
    let parser = Parser::new(&grm, &stable, &cheap, &lexs);
    let rec = recoverer(&parser);
    let mut nbrs = Vec::new();
    rec.neighbours(true, &node(&pstack, laidx, plain(&[]), COST_CEILING + 1), &mut nbrs);
    assert_eq!(nbrs.len(), 0);
    // A run of the simulator on the input is tried all the same.
    let mut nbrs = Vec::new();
    rec.neighbours(true, &node(&[0], 0, plain(&[]), COST_CEILING + 1), &mut nbrs);
    assert_eq!(nbrs.len(), 1);
    assert_eq!(nbrs[0].1.cf, COST_CEILING + 1);
    assert_eq!(nbrs[0].1.laidx, 1);
}

#[test]
fn an_insertion_counts_where_the_stack_changes() {
    // Rule 0 is the start, rule 1 is S, rule 2 is A, whose production is empty.
    let (grm, _) = yacc_to_statetable("%start S %% S: A 'b'; A: ;").unwrap();
    assert_eq!(grm.tokens_len(), 2);
    let b = grm.token_idx(b"b").unwrap();
    assert_eq!(b, 0);
    let a = grm.rule_idx(b"A").unwrap();
    let empty = (0..grm.prods_len()).find(|p| grm.prod(*p).is_empty()).unwrap();
    // State 0 reduces by the empty production on 'b', and state 1, which follows it after
    // A, fails on 'b': the inserted token is not shifted, but the stack changes.
    let mut row0 = vec![Action::Error; 2];
    row0[b as usize] = Action::Reduce(empty);
    let mut goto0 = vec![None; grm.rules_len() as usize];
    goto0[a as usize] = Some(1);
    let table = StateTable::from_rows(
        vec![row0, vec![Action::Error; 2]],
        vec![goto0, vec![None; grm.rules_len() as usize]],
        0,
    );
    let costs = vec![1; 2];
    let lexs = Vec::new();
    let parser = Parser::new(&grm, &table, &costs, &lexs);
    let (laidx, after) = parser.lr_cactus(Some(Lexeme::new(b, 0, 0)), 0, 1, lift(&vec![0]));
    assert_eq!(laidx, 0);
    assert_eq!(after.vals().cloned().collect::<Vec<u32>>(), vec![1, 0]);
    let rec = recoverer(&parser);
    let mut nbrs = Vec::new();
    rec.insert(&node(&[0], 0, plain(&[]), 0), &mut nbrs);
    assert_eq!(nbrs.len(), 1);
    assert_eq!(nbrs[0].0, 1);
    assert!(nbrs[0].1 == node(&[0, 1], 0, plain(&[Repair::InsertTerm(b)]), 1));
    assert!(same_list(&nbrs[0].1.repairs, &plain(&[Repair::InsertTerm(b)])));
    // Where the stack stays, there is no neighbour.
    let mut nbrs = Vec::new();
    rec.insert(&node(&[0, 1], 0, plain(&[]), 0), &mut nbrs);
    assert_eq!(nbrs.len(), 0);
}

#[test]
fn each_token_is_inserted_once() {
    let (grm, stable) = yacc_to_statetable(CORCHUELO).unwrap();
    let costs = vec![1; grm.tokens_len() as usize];
    let lexs = lexemes(&grm, "(nn");
    let parser = Parser::new(&grm, &stable, &costs, &lexs);
    let (laidx, pstack, _) = run_to_error(&parser, &stable);
    let rec = recoverer(&parser);
    let mut nbrs = Vec::new();
    rec.insert(&node(&pstack, laidx, plain(&[]), 0), &mut nbrs);
    let mut inserted: Vec<Vec<Vec<Repair>>> = nbrs.iter().map(|x| traverse(&x.1.repairs)).collect();
    inserted.sort_by_key(|x| format!("{:?}", x));
    let plus = grm.token_idx(b"+").unwrap();
    let close = grm.token_idx(b")").unwrap();
    let mut want = vec![vec![vec![Repair::InsertTerm(plus)]], vec![vec![Repair::InsertTerm(close)]]];
    want.sort_by_key(|x| format!("{:?}", x));
    assert_eq!(inserted, want);
}

#[test]
fn merging() {
    let (grm, stable) = yacc_to_statetable(CORCHUELO).unwrap();
    let costs = vec![1; grm.tokens_len() as usize];
    let lexs = lexemes(&grm, "n");
    let parser = Parser::new(&grm, &stable, &costs, &lexs);
    let rec = recoverer(&parser);
    let a = Repair::InsertTerm(0);
    let b = Repair::InsertTerm(1);
    let c = Repair::InsertTerm(2);
    let mut kept = node(&[0, 3], 1, plain(&[a, b]), 2);
    // Merging the same repairs changes nothing.
    rec.merge(&mut kept, node(&[0, 3], 1, plain(&[a, b]), 2));
    assert_eq!(traverse(&kept.repairs), vec![vec![a, b]]);
    rec.merge(&mut kept, node(&[0, 3], 1, plain(&[c, c]), 2));
    assert_eq!(sorted(traverse(&kept.repairs)), sorted(vec![vec![a, b], vec![c, c]]));
    assert_eq!(kept.last_repair(), Some(b));
    assert_eq!((kept.laidx, kept.cf, kept.pstack.len()), (1, 2, 2));
    // A node that holds merged repairs brings all of them.
    let mut other = node(&[0, 3], 1, plain(&[b]), 2);
    rec.merge(&mut other, node(&[0, 3], 1, plain(&[c]), 2));
    rec.merge(&mut kept, other);
    assert_eq!(
        sorted(traverse(&kept.repairs)),
        sorted(vec![vec![a, b], vec![c, c], vec![b], vec![c]])
    );
    // What follows a merged entry follows every sequence that the entry stands for.
    let longer = kept.repairs.child(RepairMerge::Repair(Repair::Shift));
    let s = Repair::Shift;
    assert_eq!(
        sorted(traverse(&longer)),
        sorted(vec![vec![a, b, s], vec![c, c, s], vec![b, s], vec![c, s]])
    );
    // A node without repairs takes over the repairs of the other.
    let mut empty = node(&[0, 3], 1, plain(&[]), 0);
    rec.merge(&mut empty, node(&[0, 3], 1, plain(&[a]), 0));
    assert_eq!(traverse(&empty.repairs), vec![vec![a]]);
}

#[test]
fn placing_in_a_bucket() {
    let (grm, stable) = yacc_to_statetable(CORCHUELO).unwrap();
    let costs = vec![1; grm.tokens_len() as usize];
    let lexs = lexemes(&grm, "n");
    let parser = Parser::new(&grm, &stable, &costs, &lexs);
    let rec = recoverer(&parser);
    let a = Repair::InsertTerm(0);
    let b = Repair::InsertTerm(1);
    let mut bucket = Vec::new();
    place(&rec, &mut bucket, node(&[0, 1], 0, plain(&[a]), 1));
    place(&rec, &mut bucket, node(&[0, 2], 0, plain(&[b]), 1));
    assert_eq!(bucket.len(), 2);
    place(&rec, &mut bucket, node(&[0, 2], 0, plain(&[a]), 1));
    assert_eq!(bucket.len(), 2);
    assert_eq!(traverse(&bucket[0].repairs), vec![vec![a]]);
    assert_eq!(sorted(traverse(&bucket[1].repairs)), sorted(vec![vec![a], vec![b]]));
    // A node that ends with a deletion is kept apart.
    place(&rec, &mut bucket, node(&[0, 2], 0, plain(&[Repair::Delete]), 1));
    assert_eq!(bucket.len(), 3);
}

#[test]
fn a_step_of_the_search() {
    let (grm, stable) = yacc_to_statetable(CORCHUELO).unwrap();
    let costs = vec![1; grm.tokens_len() as usize];
    let lexs = lexemes(&grm, "(nn");
    let parser = Parser::new(&grm, &stable, &costs, &lexs);
    let (laidx, pstack, _) = run_to_error(&parser, &stable);
    let rec = recoverer(&parser);
    let n = node(&pstack, laidx, plain(&[]), 0);
    // After the deadline nothing is done.
    let mut todo: Vec<Vec<PathFNode>> = vec![Vec::new()];
    assert!(!expand(&rec, &mut todo, &n, None, true));
    assert_eq!(todo.len(), 1);
    assert!(todo[0].is_empty());
    // Before it the neighbours go into the buckets of their costs.
    assert!(expand(&rec, &mut todo, &n, None, false));
    assert_eq!(todo.len(), 2);
    assert!(todo[0].is_empty());
    assert_eq!(todo[1].len(), 3);
    let mut nbrs = Vec::new();
    rec.neighbours(true, &n, &mut nbrs);
    for (k, (cost, nbr)) in nbrs.iter().enumerate() {
        assert_eq!(*cost, 1);
        assert!(todo[1][k] == *nbr);
        assert!(same_list(&todo[1][k].repairs, &nbr.repairs));
    }
    // A neighbour that can be merged with a node of its bucket is merged into it.
    let other = node(&pstack, laidx, plain(&[Repair::Shift, Repair::InsertTerm(0)]), 0);
    assert!(expand(&rec, &mut todo, &other, None, false));
    assert_eq!(todo[1].len(), 3);
    let merged: usize = todo[1].iter().map(|x| traverse(&x.repairs).len()).sum();
    assert_eq!(merged, 6);
    // With a cost given, only what a run of the simulator leads to is put in, at that cost.
    let start = node(&[0], 0, plain(&[]), 0);
    let mut todo: Vec<Vec<PathFNode>> = vec![Vec::new()];
    assert!(expand(&rec, &mut todo, &start, Some(0), false));
    assert_eq!(todo.len(), 1);
    assert_eq!(todo[0].len(), 1);
    assert_eq!(todo[0][0].laidx, 1);
    assert_eq!(traverse(&todo[0][0].repairs), vec![vec![Repair::Shift]]);
    let mut todo: Vec<Vec<PathFNode>> = vec![Vec::new()];
    assert!(expand(&rec, &mut todo, &start, Some(1), false));
    assert!(todo.iter().all(|b| b.is_empty()));
    assert!(expand(&rec, &mut todo, &n, Some(1), false));
    assert!(todo.iter().all(|b| b.is_empty()));
}

#[test]
fn recovery_from_the_nodes_found() {
    let (grm, stable) = yacc_to_statetable(CORCHUELO).unwrap();
    let costs = vec![1; grm.tokens_len() as usize];
    let lexs = lexemes(&grm, "(nn");
    let parser = Parser::new(&grm, &stable, &costs, &lexs);
    let (laidx, pstack, _) = run_to_error(&parser, &stable);
    let rec = recoverer(&parser);
    // Without a node nothing changes.
    let mut stack = pstack.clone();
    let mut trees = Vec::new();
    let (at, repairs) = rec.recover_with(laidx, &mut stack, &mut trees, Vec::new());
    assert_eq!(at, laidx);
    assert!(repairs.is_empty());
    assert_eq!(stack, pstack);
    assert!(trees.is_empty());
    // With the nodes of a search that came to its end, the result is what recovery owes.
    let found = search(&rec, &far_future(), node(&pstack, laidx, plain(&[]), 0));
    assert!(found.complete);
    let mut stack = pstack.clone();
    let mut trees = Vec::new();
    let (at, repairs) = rec.recover_with(laidx, &mut stack, &mut trees, found.nodes);
    let close = grm.token_idx(b")").unwrap();
    let plus = grm.token_idx(b"+").unwrap();
    let mut got: Vec<String> = repairs.iter().map(|r| format!("{:?}", r)).collect();
    got.sort();
    let mut want: Vec<String> = vec![
        vec![ParseRepair::Insert(close), ParseRepair::Insert(plus)],
        vec![ParseRepair::Insert(close), ParseRepair::Delete(lexs[2])],
        vec![ParseRepair::Insert(plus), ParseRepair::Shift(lexs[2]), ParseRepair::Insert(close)],
    ]
    .iter()
    .map(|r| format!("{:?}", r))
    .collect();
    want.sort();
    assert_eq!(got, want);
    // The first of them was replayed.
    let mut again = pstack.clone();
    let mut no_trees = Vec::new();
    assert_eq!(apply_repairs(&parser, laidx, &mut again, &mut no_trees, &repairs[0]), at);
    assert_eq!(again, stack);
    // Recovery itself does the same.
    let mut stack2 = pstack.clone();
    let mut trees2 = Vec::new();
    let (at2, repairs2) = rec.recover(far_future(), laidx, &mut stack2, &mut trees2);
    assert_eq!((at2, &repairs2, &stack2), (at, &repairs, &stack));
}

#[test]
fn success() {
    let (grm, stable) = yacc_to_statetable(CORCHUELO).unwrap();
    let costs = vec![1; grm.tokens_len() as usize];
    let lexs = lexemes(&grm, "n+n+n+n");
    let parser = Parser::new(&grm, &stable, &costs, &lexs);
    let rec = recoverer(&parser);
    let s = Repair::Shift;
    assert!(rec.success(&node(&[0], 0, plain(&[s, s, s]), 0)));
    assert!(!rec.success(&node(&[0], 0, plain(&[s, s]), 0)));
    assert!(!rec.success(&node(&[], 0, plain(&[]), 0)));
    let e = grm.rule_idx(b"E").unwrap();
    let after_e = stable.goto(stable.start_state(), e).unwrap();
    // The parser accepts behind the input only.
    assert!(rec.success(&node(&[0, after_e], 7, plain(&[]), 0)));
    assert!(!rec.success(&node(&[0, after_e], 1, plain(&[]), 0)));
}

#[test]
fn search_finds_the_cheapest() {
    let (grm, stable) = yacc_to_statetable(CORCHUELO).unwrap();
    let costs = vec![1; grm.tokens_len() as usize];
    let lexs = lexemes(&grm, "(nn");
    let parser = Parser::new(&grm, &stable, &costs, &lexs);
    let (laidx, pstack, _) = run_to_error(&parser, &stable);
    let rec = recoverer(&parser);
    let found = dijkstra(&rec, &far_future(), node(&pstack, laidx, plain(&[]), 0));
    assert!(!found.is_empty());
    let mut all = Vec::new();
    for n in found.iter() {
        assert_eq!(n.cf, 2);
        assert!(rec.success(n));
        all.extend(traverse(&n.repairs));
    }
    let close = Repair::InsertTerm(grm.token_idx(b")").unwrap());
    let plus = Repair::InsertTerm(grm.token_idx(b"+").unwrap());
    assert_eq!(
        sorted(all),
        sorted(vec![
            vec![close, plus, Repair::Shift],
            vec![close, Repair::Delete],
            vec![plus, Repair::Shift, close],
        ])
    );
}

#[test]
fn search_counts_what_tokens_cost() {
    let (grm, stable) = yacc_to_statetable(CORCHUELO).unwrap();
    let mut costs = vec![1; grm.tokens_len() as usize];
    costs[grm.token_idx(b")").unwrap() as usize] = 3;
    let lexs = lexemes(&grm, "n)");
    let parser = Parser::new(&grm, &stable, &costs, &lexs);
    let (laidx, pstack, _) = run_to_error(&parser, &stable);
    assert_eq!(laidx, 1);
    let rec = recoverer(&parser);
    let found = dijkstra(&rec, &far_future(), node(&pstack, laidx, plain(&[]), 0));
    assert_eq!(found.len(), 1);
    assert_eq!(found[0].cf, 3);
    assert_eq!(traverse(&found[0].repairs), vec![vec![Repair::Delete]]);
}

#[test]
fn search_ends_at_the_deadline() {
    let (grm, stable) = yacc_to_statetable(CORCHUELO).unwrap();
    let costs = vec![1; grm.tokens_len() as usize];
    let lexs = lexemes(&grm, "(nn");
    let parser = Parser::new(&grm, &stable, &costs, &lexs);
    let (laidx, pstack, tstack) = run_to_error(&parser, &stable);
    let rec = recoverer(&parser);
    let gone = Instant::now();
    assert!(dijkstra(&rec, &gone, node(&pstack, laidx, plain(&[]), 0)).is_empty());
    let mut stack = pstack.clone();
    let mut trees = tstack;
    let n_trees = trees.len();
    let (end, repairs) = rec.recover(gone, laidx, &mut stack, &mut trees);
    assert_eq!(end, laidx);
    assert!(repairs.is_empty());
    assert_eq!(stack, pstack);
    assert_eq!(trees.len(), n_trees);
}

#[test]
fn search_says_whether_it_came_to_its_end() {
    let (grm, stable) = yacc_to_statetable(CORCHUELO).unwrap();
    let costs = vec![1; grm.tokens_len() as usize];
    let lexs = lexemes(&grm, "(nn");
    let parser = Parser::new(&grm, &stable, &costs, &lexs);
    let (laidx, pstack, _) = run_to_error(&parser, &stable);
    let rec = recoverer(&parser);
    let found = search(&rec, &far_future(), node(&pstack, laidx, plain(&[]), 0));
    assert!(found.complete);
    assert_eq!(found.nodes.iter().map(|n| traverse(&n.repairs).len()).sum::<usize>(), 3);
    let found = search(&rec, &Instant::now(), node(&pstack, laidx, plain(&[]), 0));
    assert!(!found.complete);
    assert!(found.nodes.is_empty());
    // With a table that acts on nothing, the search deletes what is left of the input, and
    // comes to its end without a success.
    let nothing = StateTable::from_rows(vec![vec![Action::Error; 5]], vec![vec![None; 2]], 0);
    let parser = Parser::new(&grm, &nothing, &costs, &lexs);
    let rec = recoverer(&parser);
    let found = search(&rec, &far_future(), node(&[0], 0, plain(&[]), 0));
    assert!(found.complete);
    assert!(found.nodes.is_empty());
}

#[test]
fn a_success_node_is_found_whatever_the_clock_shows() {
    let (grm, stable) = yacc_to_statetable(CORCHUELO).unwrap();
    let costs = vec![1; grm.tokens_len() as usize];
    let lexs = lexemes(&grm, "(nn");
    let parser = Parser::new(&grm, &stable, &costs, &lexs);
    let (laidx, pstack, _) = run_to_error(&parser, &stable);
    let rec = recoverer(&parser);
    let s = Repair::Shift;
    let start = || node(&pstack, laidx, plain(&[Repair::Delete, Repair::Delete, s, s, s]), 2);
    assert!(rec.success(&start()));
    // The deadline has passed before the search begins.
    let found = search(&rec, &Instant::now(), start());
    assert!(!found.nodes.is_empty());
    assert!(found.nodes[0] == start());
    assert_eq!(found.nodes[0].cf, 2);
    assert!(same_list(&found.nodes[0].repairs, &start().repairs));
    let nodes = dijkstra(&rec, &Instant::now(), start());
    assert!(!nodes.is_empty());
    assert!(same_list(&nodes[0].repairs, &start().repairs));
    // A node that is no success node is not expanded after the deadline.
    let found = search(&rec, &Instant::now(), node(&pstack, laidx, plain(&[s, s]), 2));
    assert!(found.nodes.is_empty());
    assert!(!found.complete);
}

#[test]
fn small_grammars_have_a_table() {
    for text in [
        CORCHUELO,
        "%start S %% S: ;",
        "%start S %% S: 'a' S | ;",
        "%start S %% S: A B; A: 'a' | ; B: 'b' | ;",
        "%start E %% E: E '+' T | T; T: T '*' F | F; F: '(' E ')' | 'n';",
    ] {
        let (grm, _) = yacc_to_statetable(text).unwrap();
        let st = StateTable::new(&grm).unwrap();
        // The table acts on the end of the input in some state: it can accept.
        let eof = grm.eof_token_idx();
        let mut accepts = false;
        let mut s = 0;
        while !st.state_actions(s).is_empty() || s == st.start_state() {
            if st.action(s, eof) == Action::Accept {
                accepts = true;
            }
            s += 1;
            if s > 10_000 {
                break;
            }
        }
        assert!(accepts);
    }
}

#[test]
fn repairs_as_reported() {
    let (grm, stable) = yacc_to_statetable(CORCHUELO).unwrap();
    let costs = vec![1; grm.tokens_len() as usize];
    let lexs = lexemes(&grm, "(n+");
    let parser = Parser::new(&grm, &stable, &costs, &lexs);
    let rec = recoverer(&parser);
    let seq = vec![Repair::Delete, Repair::InsertTerm(9), Repair::Shift, Repair::Shift, Repair::Delete];
    let out = rec.repair_to_parse_repair(1, &seq);
    let eof = Lexeme::new(grm.eof_token_idx(), 3, 0);
    assert_eq!(
        out,
        vec![
            ParseRepair::Delete(lexs[1]),
            ParseRepair::Insert(9),
            ParseRepair::Shift(lexs[2]),
            ParseRepair::Shift(eof),
            ParseRepair::Delete(eof),
        ]
    );
    // Each sequence of each node is reported from the same position.
    let nodes = vec![
        node(&[0], 2, plain(&[Repair::Delete]), 1),
        node(&[0], 2, merged_entry(&plain(&[]), Repair::Shift, &[&[Repair::Delete]]), 1),
        node(&[0], 2, plain(&[]), 0),
    ];
    let all = rec.collect_repairs(0, nodes);
    assert_eq!(all.len(), 3);
    assert_eq!(all[0], vec![vec![ParseRepair::Delete(lexs[0])]]);
    assert_eq!(all[1], vec![vec![ParseRepair::Shift(lexs[0])], vec![ParseRepair::Delete(lexs[0])]]);
    assert_eq!(all[2].len(), 0);
}

#[test]
fn ranking() {
    let (grm, stable) = yacc_to_statetable(CORCHUELO).unwrap();
    let costs = vec![1; grm.tokens_len() as usize];
    let lexs = lexemes(&grm, "n)+n");
    let parser = Parser::new(&grm, &stable, &costs, &lexs);
    let (laidx, pstack, _) = run_to_error(&parser, &stable);
    assert_eq!(laidx, 1);
    let plus = grm.token_idx(b"+").unwrap();
    let del = ParseRepair::Delete(lexs[1]);
    // After the deletion of `)` the parser gets to the end; after the insertion of `+` it
    // gets nowhere; after two deletions it stops before the last `n`.
    let cnds = vec![
        vec![vec![ParseRepair::Insert(plus)]],
        vec![vec![del], vec![del, ParseRepair::Delete(lexs[2])]],
        vec![],
        vec![vec![del, ParseRepair::Shift(lexs[2])]],
    ];
    let ranked = rank_cnds(&parser, laidx, &pstack, cnds);
    assert_eq!(ranked, vec![vec![del], vec![del, ParseRepair::Shift(lexs[2])]]);
    assert_eq!(rank_cnds(&parser, laidx, &pstack, vec![vec![], vec![]]).len(), 0);
    // How far the parser gets.
    let (end, stack) = apply_repairs_cactus(&parser, laidx, lift(&pstack), &vec![del]);
    assert_eq!(end, 2);
    assert_eq!(parse_on(&parser, end, stack), 4);
    let (end, stack) = apply_repairs_cactus(&parser, laidx, lift(&pstack), &vec![ParseRepair::Insert(plus)]);
    assert_eq!(end, 1);
    assert_eq!(stack.len(), pstack.len() + 1);
    assert_eq!(parse_on(&parser, end, stack), 1);
}

#[test]
fn simplifying() {
    let l = Lexeme::new(0, 0, 1);
    let i = ParseRepair::Insert(1);
    let d = ParseRepair::Delete(l);
    let s = ParseRepair::Shift(l);
    let mut all = vec![
        vec![d, i, s],
        vec![i, s, s],
        vec![i, s, d, s],
        vec![i],
        vec![s, s],
        vec![d, i],
        vec![],
    ];
    simplify_repairs(&mut all);
    assert_eq!(all, vec![vec![], vec![i], vec![d, i], vec![i, s, d]]);
    let mut none: Vec<Vec<ParseRepair>> = vec![];
    simplify_repairs(&mut none);
    assert!(none.is_empty());
    assert_eq!(copy_vec(&vec![d, i, s]), vec![d, i, s]);
}

fn show(n: &Node) -> String {
    match n {
        Node::Term { lexeme } => format!("t{}@{}+{}", lexeme.tok_id(), lexeme.start(), lexeme.len()),
        Node::Nonterm { ridx, nodes } => {
            let inner: Vec<String> = nodes.iter().map(show).collect();
            format!("r{}({})", ridx, inner.join(" "))
        }
    }
}

#[test]
fn replay_builds_trees() {
    let (grm, stable) = yacc_to_statetable(CORCHUELO).unwrap();
    let costs = vec![1; grm.tokens_len() as usize];
    let lexs = lexemes(&grm, "(nn");
    let parser = Parser::new(&grm, &stable, &costs, &lexs);
    let (laidx, mut pstack, mut tstack) = run_to_error(&parser, &stable);
    let close = grm.token_idx(b")").unwrap();
    let open = grm.token_idx(b"(").unwrap();
    let n = grm.token_idx(b"N").unwrap();
    let e = grm.rule_idx(b"E").unwrap();
    let repairs = vec![ParseRepair::Insert(close), ParseRepair::Delete(lexs[2])];
    let end = apply_repairs(&parser, laidx, &mut pstack, &mut tstack, &repairs);
    assert_eq!(end, 3);
    // The inserted token has a lexeme of length 0 where the lookahead began; the deleted
    // lexeme has no tree.
    assert_eq!(
        tstack.iter().map(show).collect::<Vec<_>>(),
        vec![format!("t{}@0+1", open), format!("r{}(t{}@1+1)", e, n), format!("t{}@2+0", close)]
    );
    assert_eq!(pstack.len(), 4);
    let end = parser.lr_upto(None, 3, 4, &mut pstack, &mut tstack);
    assert_eq!(end, 3);
    assert_eq!(stable.action(*pstack.last().unwrap(), parser.next_tidx(3)), Action::Accept);
}

/// What holds of everything that recovery returns.
fn check_recovery(grms: &str, input: &str, costs_of: &dyn Fn(&YaccGrammar) -> Vec<u8>) -> usize {
    let (grm, stable) = yacc_to_statetable(grms).unwrap();
    let costs = costs_of(&grm);
    let lexs = lexemes(&grm, input);
    let parser = Parser::new(&grm, &stable, &costs, &lexs);
    let (laidx, pstack, tstack) = run_to_error(&parser, &stable);
    let rec = recoverer(&parser);
    let mut stack = pstack.clone();
    let mut trees = tstack;
    let (end, repairs) = rec.recover(far_future(), laidx, &mut stack, &mut trees);
    assert!(end >= laidx);
    if repairs.is_empty() {
        assert_eq!((end, &stack), (laidx, &pstack));
        return 0;
    }
    let cost = |rs: &Vec<ParseRepair>| -> u32 {
        rs.iter()
            .map(|r| match r {
                ParseRepair::Insert(t) => costs[*t as usize] as u32,
                ParseRepair::Delete(l) => costs[l.tok_id() as usize] as u32,
                ParseRepair::Shift(_) => 0,
            })
            .sum()
    };
    let mut reach = None;
    for (k, rs) in repairs.iter().enumerate() {
        // All of them cost the same.
        assert_eq!(cost(rs), cost(&repairs[0]));
        // No insertion directly behind a deletion, and no shift at the end.
        for w in rs.windows(2) {
            assert!(!(matches!(w[0], ParseRepair::Delete(_)) && matches!(w[1], ParseRepair::Insert(_))));
        }
        assert!(!matches!(rs.last(), Some(ParseRepair::Shift(_))));
        // The shorter come first, and none comes twice.
        if k > 0 {
            assert!(repairs[k - 1].len() <= rs.len());
        }
        assert!(repairs.iter().filter(|x| *x == rs).count() == 1);
        // After each of them the parser shifts what follows, or accepts; and it gets as far
        // after each as after the others.
        let (at, after) = apply_repairs_cactus(&parser, laidx, lift(&pstack), rs);
        let (next, settled) = parser.lr_cactus(None, at, at + 1, after.clone());
        let accepts = match settled.val() {
            Some(top) => stable.action(*top, parser.next_tidx(at)) == Action::Accept,
            None => false,
        };
        assert!(next == at + 1 || accepts);
        let far = parse_on(&parser, at, after);
        assert_eq!(*reach.get_or_insert(far), far);
    }
    // The first of them has been replayed.
    let (at, after) = apply_repairs_cactus(&parser, laidx, lift(&pstack), &repairs[0]);
    assert_eq!(end, at);
    let mut top_first: Vec<u32> = after.vals().cloned().collect();
    top_first.reverse();
    assert_eq!(stack, top_first);
    repairs.len()
}

#[test]
fn what_recovery_returns() {
    let one = |g: &YaccGrammar| vec![1; g.tokens_len() as usize];
    assert_eq!(check_recovery(CORCHUELO, "(nn", &one), 3);
    assert_eq!(check_recovery(CORCHUELO, "n)+n+n+n)", &one), 1);
    assert_eq!(check_recovery(CORCHUELO, "(((+n)+n+n+n)", &one), 2);
    assert_eq!(check_recovery(CORCHUELO, "", &one), 1);
    assert_eq!(check_recovery(CORCHUELO, "n+", &one), 1);
    assert_eq!(check_recovery(CORCHUELO, "((n", &one), 1);
    assert!(check_recovery(CORCHUELO, "+)(", &one) >= 1);
    let dear = |g: &YaccGrammar| {
        let mut c = vec![2; g.tokens_len() as usize];
        c[g.token_idx(b"+").unwrap() as usize] = 5;
        c
    };
    // With `+` dear, only the repair without it is left.
    assert_eq!(check_recovery(CORCHUELO, "(nn", &dear), 1);
    assert!(check_recovery("%start S %% S: A 'b'; A: 'a' | ;", "aa", &one) >= 1);
}
