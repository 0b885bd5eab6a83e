//! Context-free grammars: rules, productions, tokens and symbols, all indexed from 0.

use vstd::prelude::*;

verus! {

/// The index of a rule.
pub type RIdx = u32;

/// The index of a token.
pub type TIdx = u32;

/// The index of a production.
pub type PIdx = u32;

/// One symbol of a production body: a reference to a rule or a token.
#[derive(Clone, Copy, Debug, Hash, PartialEq, Eq, Structural)]
pub enum Symbol {
    Rule(RIdx),
    Token(TIdx),
}

/// The mathematical content of a grammar: what the analyses and the parser read.
pub struct Cfg {
    /// The body of each production.
    pub prods: Seq<Seq<Symbol>>,
    /// The rule that each production belongs to.
    pub prod_rules: Seq<RIdx>,
    /// The number of rules.
    pub rules_len: nat,
    /// The number of tokens, the end-of-input token included.
    pub tokens_len: nat,
    /// The rule that derivations start from.
    pub start_rule: RIdx,
    /// The token that marks the end of the input.
    pub eof_token: TIdx,
}

impl Cfg {
    /// `sym` names a rule or a token of this grammar.
    pub open spec fn symbol_ok(self, sym: Symbol) -> bool {
        match sym {
            Symbol::Rule(r) => r < self.rules_len,
            Symbol::Token(t) => t < self.tokens_len,
        }
    }

    /// Every index that the grammar mentions is in range.
    pub open spec fn wf(self) -> bool {
        &&& self.prods.len() == self.prod_rules.len()
        &&& self.prods.len() <= u32::MAX
        &&& self.rules_len <= u32::MAX
        &&& self.tokens_len <= u32::MAX
        &&& self.start_rule < self.rules_len
        &&& self.eof_token < self.tokens_len
        &&& forall|p: int| 0 <= p < self.prods.len() ==> #[trigger] self.prod_rules[p] < self.rules_len
        &&& forall|p: int, i: int|
            0 <= p < self.prods.len() && 0 <= i < self.prods[p].len() ==> self.symbol_ok(
                #[trigger] self.prods[p][i],
            )
    }

    /// `p` is a production of rule `r`.
    pub open spec fn is_prod_of(self, p: int, r: int) -> bool {
        0 <= p < self.prods.len() && self.prod_rules[p] == r
    }
}

/// The names that a vector of names holds.
pub open spec fn names_view(names: Seq<Vec<u8>>) -> Seq<Seq<u8>> {
    Seq::new(names.len(), |r: int| names[r]@)
}

/// The names that a vector of optional names holds.
pub open spec fn opt_names_view(names: Seq<Option<Vec<u8>>>) -> Seq<Option<Seq<u8>>> {
    Seq::new(
        names.len(),
        |t: int|
            match names[t] {
                Some(n) => Some(n@),
                None => None,
            },
    )
}

/// The bodies that a vector of productions holds.
pub open spec fn prods_view(prods: Seq<Vec<Symbol>>) -> Seq<Seq<Symbol>> {
    Seq::new(prods.len(), |p: int| prods[p]@)
}

/// A grammar as the analyses and the parser use it.
pub struct YaccGrammar {
    rule_names: Vec<Vec<u8>>,
    token_names: Vec<Option<Vec<u8>>>,
    prods: Vec<Vec<Symbol>>,
    prods_rules: Vec<RIdx>,
    rules_prods: Vec<Vec<PIdx>>,
    start_rule: RIdx,
    eof_token: TIdx,
}

impl View for YaccGrammar {
    type V = Cfg;

    closed spec fn view(&self) -> Cfg {
        Cfg {
            prods: prods_view(self.prods@),
            prod_rules: self.prods_rules@,
            rules_len: self.rule_names@.len(),
            tokens_len: self.token_names@.len(),
            start_rule: self.start_rule,
            eof_token: self.eof_token,
        }
    }
}

impl YaccGrammar {
    #[verifier::type_invariant]
    closed spec fn inv(&self) -> bool {
        &&& self@.wf()
        &&& self.rules_prods@.len() == self.rule_names@.len()
        &&& forall|r: int, k: int|
            0 <= r < self.rules_prods@.len() && 0 <= k < self.rules_prods@[r]@.len() ==> self@.is_prod_of(
                #[trigger] self.rules_prods@[r]@[k] as int,
                r,
            )
        &&& forall|p: int|
            0 <= p < self.prods@.len() ==> self.rules_prods@[(#[trigger] self.prods_rules@[p]) as int]@.contains(
                p as PIdx,
            )
    }

    /// The names of this grammar's rules, by rule index.
    pub closed spec fn rule_names_view(&self) -> Seq<Seq<u8>> {
        names_view(self.rule_names@)
    }

    /// The names of this grammar's tokens, by token index; a token may have none.
    pub closed spec fn token_names_view(&self) -> Seq<Option<Seq<u8>>> {
        opt_names_view(self.token_names@)
    }

    /// The productions of each rule, in the order in which the grammar lists them.
    pub closed spec fn rules_prods_view(&self) -> Seq<Seq<PIdx>> {
        Seq::new(self.rules_prods@.len(), |r: int| self.rules_prods@[r]@)
    }

    /// A grammar from its parts: the names of the rules and of the tokens, the body and the
    /// rule of each production, the start rule and the end-of-input token. The result is
    /// `None` if an index that the parts mention is out of range, or if there are more rules,
    /// tokens or productions than 32 bits can count.
    pub fn from_parts(
        rule_names: Vec<Vec<u8>>,
        token_names: Vec<Option<Vec<u8>>>,
        prods: Vec<Vec<Symbol>>,
        prods_rules: Vec<RIdx>,
        start_rule: RIdx,
        eof_token: TIdx,
    ) -> (res: Option<YaccGrammar>)
        ensures
            res is Some <==> (Cfg {
                prods: prods_view(prods@),
                prod_rules: prods_rules@,
                rules_len: rule_names@.len(),
                tokens_len: token_names@.len(),
                start_rule,
                eof_token,
            }).wf(),
            res matches Some(g) ==> {
                &&& g@ == (Cfg {
                    prods: prods_view(prods@),
                    prod_rules: prods_rules@,
                    rules_len: rule_names@.len(),
                    tokens_len: token_names@.len(),
                    start_rule,
                    eof_token,
                })
                &&& g.rule_names_view() == names_view(rule_names@)
                &&& g.token_names_view() == opt_names_view(token_names@)
            },
    {
        let ghost g = Cfg {
            prods: prods_view(prods@),
            prod_rules: prods_rules@,
            rules_len: rule_names@.len(),
            tokens_len: token_names@.len(),
            start_rule,
            eof_token,
        };
        let rules_len = rule_names.len();
        let tokens_len = token_names.len();
        if prods.len() != prods_rules.len() || prods.len() > u32::MAX as usize || rules_len > u32::MAX as usize
            || tokens_len > u32::MAX as usize || start_rule as usize >= rules_len || eof_token as usize
            >= tokens_len {
            return None;
        }
        let mut rules_prods: Vec<Vec<PIdx>> = Vec::new();
        while rules_prods.len() < rules_len
            invariant
                rules_prods@.len() <= rules_len,
                forall|r: int| 0 <= r < rules_prods@.len() ==> (#[trigger] rules_prods@[r])@.len() == 0,
            decreases rules_len - rules_prods@.len(),
        {
            rules_prods.push(Vec::new());
        }
        let mut p: usize = 0;
        while p < prods.len()
            invariant
                p <= prods@.len(),
                prods@.len() == prods_rules@.len(),
                prods@.len() <= u32::MAX,
                rules_len == rule_names@.len(),
                tokens_len == token_names@.len(),
                rules_prods@.len() == rules_len,
                g == (Cfg {
                    prods: prods_view(prods@),
                    prod_rules: prods_rules@,
                    rules_len: rule_names@.len(),
                    tokens_len: token_names@.len(),
                    start_rule,
                    eof_token,
                }),
                forall|q: int| 0 <= q < p ==> #[trigger] prods_rules@[q] < rules_len,
                forall|q: int, i: int| 0 <= q < p && 0 <= i < prods@[q]@.len() ==> g.symbol_ok(#[trigger] prods@[q]@[i]),
                forall|r: int, k: int|
                    0 <= r < rules_prods@.len() && 0 <= k < rules_prods@[r]@.len() ==> (
                    #[trigger] rules_prods@[r]@[k]) < p && prods_rules@[rules_prods@[r]@[k] as int] == r,
                forall|q: int|
                    0 <= q < p ==> rules_prods@[(#[trigger] prods_rules@[q]) as int]@.contains(q as PIdx),
            decreases prods@.len() - p,
        {
            let r = prods_rules[p];
            if r as usize >= rules_len {
                proof {
                    assert(!(g.prod_rules[p as int] < g.rules_len));
                }
                return None;
            }
            let body = &prods[p];
            let mut i: usize = 0;
            while i < body.len()
                invariant
                    i <= body@.len(),
                    body@ == prods@[p as int]@,
                    p < prods@.len(),
                    g.prods[p as int] == body@,
                    g.prods.len() == prods@.len(),
                    g == (Cfg {
                        prods: prods_view(prods@),
                        prod_rules: prods_rules@,
                        rules_len: rule_names@.len(),
                        tokens_len: token_names@.len(),
                        start_rule,
                        eof_token,
                    }),
                    g.rules_len == rules_len,
                    g.tokens_len == tokens_len,
                    forall|j: int| 0 <= j < i ==> g.symbol_ok(#[trigger] body@[j]),
                decreases body@.len() - i,
            {
                let ok = match body[i] {
                    Symbol::Rule(q) => (q as usize) < rules_len,
                    Symbol::Token(t) => (t as usize) < tokens_len,
                };
                if !ok {
                    proof {
                        assert(!g.symbol_ok(g.prods[p as int][i as int]));
                    }
                    return None;
                }
                i += 1;
            }
            let ghost before = rules_prods@;
            rules_prods[r as usize].push(p as PIdx);
            proof {
                assert forall|r2: int, k: int|
                    0 <= r2 < rules_prods@.len() && 0 <= k < rules_prods@[r2]@.len() implies (
                #[trigger] rules_prods@[r2]@[k]) < p + 1 && prods_rules@[rules_prods@[r2]@[k] as int] == r2 by {
                    if r2 != r {
                        assert(rules_prods@[r2] == before[r2]);
                    } else if k < before[r2]@.len() {
                        assert(rules_prods@[r2]@[k] == before[r2]@[k]);
                    }
                }
                assert forall|q: int| 0 <= q < p + 1 implies rules_prods@[(#[trigger] prods_rules@[q]) as int]@.contains(
                    q as PIdx,
                ) by {
                    let r2 = prods_rules@[q] as int;
                    if q < p {
                        assert(before[r2]@.contains(q as PIdx));
                        let k = choose|k: int| 0 <= k < before[r2]@.len() && before[r2]@[k] == q as PIdx;
                        if r2 != r {
                            assert(rules_prods@[r2] == before[r2]);
                        } else {
                            assert(rules_prods@[r2]@[k] == before[r2]@[k]);
                        }
                    } else {
                        assert(rules_prods@[r2]@[before[r2]@.len() as int] == q as PIdx);
                    }
                }
            }
            p += 1;
        }
        proof {
            assert(g.wf());
        }
        Some(YaccGrammar { rule_names, token_names, prods, prods_rules, rules_prods, start_rule, eof_token })
    }

    /// The name of rule `ridx`.
    pub fn rule_name(&self, ridx: RIdx) -> (name: &Vec<u8>)
        requires
            ridx < self@.rules_len,
        ensures
            name@ == self.rule_names_view()[ridx as int],
    {
        proof {
            use_type_invariant(self);
        }
        &self.rule_names[ridx as usize]
    }

    /// The name of token `tidx`, where it has one.
    pub fn token_name(&self, tidx: TIdx) -> (name: Option<&Vec<u8>>)
        requires
            tidx < self@.tokens_len,
        ensures
            match name {
                Some(n) => self.token_names_view()[tidx as int] == Some(n@),
                None => self.token_names_view()[tidx as int] is None,
            },
    {
        proof {
            use_type_invariant(self);
        }
        match &self.token_names[tidx as usize] {
            Some(n) => Some(n),
            None => None,
        }
    }

    /// The first rule named `n`, if there is one.
    pub fn rule_idx(&self, n: &[u8]) -> (r: Option<RIdx>)
        ensures
            match r {
                Some(ridx) => ridx < self@.rules_len && self.rule_names_view()[ridx as int] == n@ && forall|q: int|
                    0 <= q < ridx ==> self.rule_names_view()[q] != n@,
                None => forall|q: int| 0 <= q < self@.rules_len ==> self.rule_names_view()[q] != n@,
            },
    {
        proof {
            use_type_invariant(self);
        }
        let mut i: usize = 0;
        while i < self.rule_names.len()
            invariant
                i <= self.rule_names@.len(),
                self.rule_names@.len() <= u32::MAX,
                forall|q: int| 0 <= q < i ==> self.rule_names_view()[q] != n@,
            decreases self.rule_names@.len() - i,
        {
            if same_bytes(self.rule_names[i].as_slice(), n) {
                return Some(i as RIdx);
            }
            i += 1;
        }
        None
    }

    /// The first token named `n`, if there is one.
    pub fn token_idx(&self, n: &[u8]) -> (t: Option<TIdx>)
        ensures
            match t {
                Some(tidx) => tidx < self@.tokens_len && self.token_names_view()[tidx as int] == Some(n@)
                    && forall|q: int| 0 <= q < tidx ==> self.token_names_view()[q] != Some(n@),
                None => forall|q: int| 0 <= q < self@.tokens_len ==> self.token_names_view()[q] != Some(n@),
            },
    {
        proof {
            use_type_invariant(self);
        }
        let mut i: usize = 0;
        while i < self.token_names.len()
            invariant
                i <= self.token_names@.len(),
                self.token_names@.len() <= u32::MAX,
                forall|q: int| 0 <= q < i ==> self.token_names_view()[q] != Some(n@),
            decreases self.token_names@.len() - i,
        {
            let same = match &self.token_names[i] {
                Some(name) => same_bytes(name.as_slice(), n),
                None => false,
            };
            if same {
                return Some(i as TIdx);
            }
            i += 1;
        }
        None
    }

    /// How many rules the grammar has.
    pub fn rules_len(&self) -> (n: u32)
        ensures
            n == self@.rules_len,
            self@.wf(),
    {
        proof {
            use_type_invariant(self);
        }
        self.rule_names.len() as u32
    }

    /// How many tokens the grammar has, the end-of-input token included.
    pub fn tokens_len(&self) -> (n: u32)
        ensures
            n == self@.tokens_len,
            self@.wf(),
    {
        proof {
            use_type_invariant(self);
        }
        self.token_names.len() as u32
    }

    /// How many productions the grammar has.
    pub fn prods_len(&self) -> (n: u32)
        ensures
            n == self@.prods.len(),
            self@.wf(),
    {
        proof {
            use_type_invariant(self);
        }
        self.prods.len() as u32
    }

    /// The rule that derivations start from.
    pub fn start_rule_idx(&self) -> (r: RIdx)
        ensures
            r == self@.start_rule,
            r < self@.rules_len,
    {
        proof {
            use_type_invariant(self);
        }
        self.start_rule
    }

    /// The token that marks the end of the input.
    pub fn eof_token_idx(&self) -> (t: TIdx)
        ensures
            t == self@.eof_token,
            t < self@.tokens_len,
    {
        proof {
            use_type_invariant(self);
        }
        self.eof_token
    }

    /// The body of production `pidx`.
    pub fn prod(&self, pidx: PIdx) -> (body: &Vec<Symbol>)
        requires
            pidx < self@.prods.len(),
        ensures
            body@ == self@.prods[pidx as int],
            forall|i: int| 0 <= i < body@.len() ==> self@.symbol_ok(#[trigger] body@[i]),
    {
        proof {
            use_type_invariant(self);
            assert forall|i: int| 0 <= i < self.prods@[pidx as int]@.len() implies self@.symbol_ok(
                #[trigger] self.prods@[pidx as int]@[i],
            ) by {
                assert(self@.symbol_ok(self@.prods[pidx as int][i]));
            }
        }
        &self.prods[pidx as usize]
    }

    /// The rule that production `pidx` belongs to.
    pub fn prod_to_rule(&self, pidx: PIdx) -> (r: RIdx)
        requires
            pidx < self@.prods.len(),
        ensures
            r == self@.prod_rules[pidx as int],
            r < self@.rules_len,
    {
        proof {
            use_type_invariant(self);
        }
        self.prods_rules[pidx as usize]
    }

    /// The productions of rule `ridx`.
    pub fn rule_to_prods(&self, ridx: RIdx) -> (ps: &Vec<PIdx>)
        requires
            ridx < self@.rules_len,
        ensures
            ps@ == self.rules_prods_view()[ridx as int],
            forall|k: int| 0 <= k < ps@.len() ==> self@.is_prod_of(#[trigger] ps@[k] as int, ridx as int),
            forall|p: int| self@.is_prod_of(p, ridx as int) ==> ps@.contains(p as PIdx),
    {
        proof {
            use_type_invariant(self);
        }
        proof {
            assert forall|p: int| self@.is_prod_of(p, ridx as int) implies self.rules_prods@[ridx as int]@.contains(
                p as PIdx,
            ) by {
                assert(self.prods_rules@[p] == ridx);
            }
        }
        &self.rules_prods[ridx as usize]
    }
}


/// Whether two slices hold the same bytes.
pub fn same_bytes(a: &[u8], b: &[u8]) -> (same: bool)
    ensures
        same == (a@ == b@),
{
    if a.len() != b.len() {
        return false;
    }
    let mut i: usize = 0;
    while i < a.len()
        invariant
            a@.len() == b@.len(),
            i <= a@.len(),
            forall|k: int| 0 <= k < i ==> a@[k] == b@[k],
        decreases a@.len() - i,
    {
        if a[i] != b[i] {
            return false;
        }
        i += 1;
    }
    assert(a@ =~= b@);
    true
}

} // verus!
