//! The rules of a grammar over numbered symbols.
//!
//! Every name gets a number in order of first appearance: the names of
//! productions first, which are the nonterminals, then the other names in
//! arms, which are the terminals. Rule 0 is the goal rule; the others
//! follow the arms in declaration order.

use vstd::prelude::*;
use crate::error::{CompileError, ErrorView};
use crate::grammar::declares;
use crate::syntax::{ArmView, Production, ProductionArm, ProductionView};

verus! {

/// One rule: a left side and the symbols of one arm.
#[derive(Debug, PartialEq, Eq)]
pub struct Rule {
    /// The nonterminal that the rule derives; `usize::MAX`, which is no
    /// symbol, for the goal rule.
    pub lhs: usize,
    pub rhs: Vec<usize>,
    /// The production that the rule comes from.
    pub production: usize,
    /// The arm of that production.
    pub arm: usize,
}

/// The numbered symbols of a grammar and its rules.
#[derive(Debug, PartialEq, Eq)]
pub struct Rules {
    /// The name of each symbol.
    pub names: Vec<String>,
    /// How many of the symbols, from 0 on, are nonterminals.
    pub nonterminals: usize,
    pub rules: Vec<Rule>,
}

/// A rule as plain values.
pub struct RuleView {
    pub lhs: usize,
    pub rhs: Seq<usize>,
    pub production: usize,
    pub arm: usize,
}

/// Numbered symbols and rules as plain values.
pub struct RulesView {
    pub names: Seq<Seq<char>>,
    pub nonterminals: usize,
    pub rules: Seq<RuleView>,
}

impl DeepView for Rule {
    type V = RuleView;

    open spec fn deep_view(&self) -> RuleView {
        RuleView { lhs: self.lhs, rhs: self.rhs@, production: self.production, arm: self.arm }
    }
}

impl DeepView for Rules {
    type V = RulesView;

    open spec fn deep_view(&self) -> RulesView {
        RulesView {
            names: self.names.deep_view(),
            nonterminals: self.nonterminals,
            rules: self.rules.deep_view(),
        }
    }
}

impl RulesView {
    /// The symbols are in range: the goal rule derives one nonterminal,
    /// every other rule belongs to a nonterminal, and right sides hold
    /// symbols.
    pub open spec fn wf(self) -> bool {
        &&& self.nonterminals <= self.names.len()
        &&& self.rules.len() >= 1
        &&& self.rules[0].lhs == usize::MAX
        &&& self.rules[0].rhs.len() == 1
        &&& self.rules[0].rhs[0] < self.nonterminals
        &&& forall|r: int| 1 <= r < self.rules.len() ==> (#[trigger] self.rules[r]).lhs
            < self.nonterminals
        &&& forall|r: int, k: int|
            0 <= r < self.rules.len() && 0 <= k < self.rules[r].rhs.len()
                ==> #[trigger] self.rules[r].rhs[k] < self.names.len()
    }

    /// The number of terminals, the end of input not counted.
    pub open spec fn terminals(self) -> int {
        self.names.len() - self.nonterminals
    }
}

/// A list of names with one more name, unless it holds the name already.
pub open spec fn add_name(acc: Seq<Seq<char>>, x: Seq<char>) -> Seq<Seq<char>> {
    if acc.contains(x) {
        acc
    } else {
        acc.push(x)
    }
}

/// A list of names with more names, each added unless the list holds it
/// already.
pub open spec fn add_names(acc: Seq<Seq<char>>, more: Seq<Seq<char>>) -> Seq<Seq<char>>
    decreases more.len(),
{
    if more.len() == 0 {
        acc
    } else {
        add_name(add_names(acc, more.drop_last()), more.last())
    }
}

/// A list of names with the symbols of the arms, in order.
pub open spec fn add_arms(acc: Seq<Seq<char>>, arms: Seq<ArmView>) -> Seq<Seq<char>>
    decreases arms.len(),
{
    if arms.len() == 0 {
        acc
    } else {
        add_names(add_arms(acc, arms.drop_last()), arms.last().symbols)
    }
}

/// A list of names with the symbols of all arms of the productions, in
/// order.
pub open spec fn add_productions(acc: Seq<Seq<char>>, ps: Seq<ProductionView>) -> Seq<Seq<char>>
    decreases ps.len(),
{
    if ps.len() == 0 {
        acc
    } else {
        add_arms(add_productions(acc, ps.drop_last()), ps.last().arms)
    }
}

/// A list of names with the names of the productions, in order.
pub open spec fn add_idents(acc: Seq<Seq<char>>, ps: Seq<ProductionView>) -> Seq<Seq<char>>
    decreases ps.len(),
{
    if ps.len() == 0 {
        acc
    } else {
        add_name(add_idents(acc, ps.drop_last()), ps.last().ident)
    }
}

/// The names of the productions, each once, in declaration order.
pub open spec fn nonterminal_names(ps: Seq<ProductionView>) -> Seq<Seq<char>> {
    add_idents(Seq::empty(), ps)
}

/// The names of all symbols, each once: the nonterminals, then the other
/// names in order of first appearance in an arm.
pub open spec fn symbol_names(ps: Seq<ProductionView>) -> Seq<Seq<char>> {
    add_productions(nonterminal_names(ps), ps)
}

/// The number of arms in the productions before `p`.
pub open spec fn arms_before(ps: Seq<ProductionView>, p: int) -> int
    decreases p,
{
    if p <= 0 {
        0
    } else {
        arms_before(ps, p - 1) + ps[p - 1].arms.len()
    }
}

/// A rule is the rule of arm `a` of production `p`.
pub open spec fn rule_matches(
    names: Seq<Seq<char>>,
    nonterminals: usize,
    ps: Seq<ProductionView>,
    p: int,
    a: int,
    rule: RuleView,
) -> bool {
    &&& rule.production == p
    &&& rule.arm == a
    &&& rule.lhs < nonterminals
    &&& rule.lhs < names.len()
    &&& names[rule.lhs as int] == ps[p].ident
    &&& rule.rhs.len() == ps[p].arms[a].symbols.len()
    &&& forall|k: int|
        0 <= k < rule.rhs.len() ==> (#[trigger] rule.rhs[k]) < names.len()
            && names[rule.rhs[k] as int] == ps[p].arms[a].symbols[k]
}

/// The rules are those of the productions, with `start` as the goal.
pub open spec fn encodes(ps: Seq<ProductionView>, start: Seq<char>, g: RulesView) -> bool {
    &&& g.names == symbol_names(ps)
    &&& g.names.no_duplicates()
    &&& g.nonterminals == nonterminal_names(ps).len()
    &&& g.nonterminals <= g.names.len()
    &&& forall|i: int|
        0 <= i < g.names.len() ==> (i < g.nonterminals <==> declares(ps, #[trigger] g.names[i]))
    &&& g.rules.len() == 1 + arms_before(ps, ps.len() as int)
    &&& g.rules[0].lhs == usize::MAX
    &&& g.rules[0].rhs.len() == 1
    &&& g.rules[0].rhs[0] < g.nonterminals
    &&& g.rules[0].rhs[0] < g.names.len()
    &&& g.names[g.rules[0].rhs[0] as int] == start
    &&& g.rules[0].production == ps.len()
    &&& g.rules[0].arm == 0
    &&& forall|p: int, a: int|
        0 <= p < ps.len() && 0 <= a < ps[p].arms.len() ==> rule_matches(
            g.names,
            g.nonterminals,
            ps,
            p,
            a,
            #[trigger] g.rules[1 + arms_before(ps, p) + a],
        )
}

/// A list of names grew: what it held stays in place, and what was added
/// is new to it.
pub open spec fn grows(old: Seq<Seq<char>>, new: Seq<Seq<char>>) -> bool {
    &&& old.len() <= new.len()
    &&& forall|i: int| 0 <= i < old.len() ==> #[trigger] new[i] == old[i]
    &&& (old.no_duplicates() ==> new.no_duplicates())
    &&& forall|i: int| old.len() <= i < new.len() ==> !old.contains(#[trigger] new[i])
}

proof fn lemma_grows_trans(a: Seq<Seq<char>>, b: Seq<Seq<char>>, c: Seq<Seq<char>>)
    requires
        grows(a, b),
        grows(b, c),
    ensures
        grows(a, c),
{
    assert forall|i: int| a.len() <= i < c.len() implies !a.contains(#[trigger] c[i]) by {
        if a.contains(c[i]) {
            let j = choose|j: int| 0 <= j < a.len() && a[j] == c[i];
            assert(b[j] == a[j]);
            if i < b.len() {
                assert(c[i] == b[i]);
                assert(!a.contains(b[i]));
            } else {
                assert(b.contains(c[i]));
            }
        }
    }
}

proof fn lemma_add_name_grows(acc: Seq<Seq<char>>, x: Seq<char>)
    ensures
        grows(acc, add_name(acc, x)),
        add_name(acc, x).contains(x),
{
    let new = add_name(acc, x);
    if acc.contains(x) {
    } else {
        assert(new[acc.len() as int] == x);
        if acc.no_duplicates() {
            assert forall|i: int, j: int|
                0 <= i < new.len() && 0 <= j < new.len() && i != j implies new[i] != new[j] by {
                if i < acc.len() && j < acc.len() {
                } else if i < acc.len() {
                    assert(acc.contains(acc[i]));
                } else if j < acc.len() {
                    assert(acc.contains(acc[j]));
                }
            }
        }
    }
}

/// Finds the number of a name.
pub fn find_name(names: &Vec<String>, name: &String) -> (r: Option<usize>)
    ensures
        match r {
            Some(i) => i < names.len() && names.deep_view()[i as int] == name@ && forall|k: int|
                0 <= k < i ==> names.deep_view()[k] != name@,
            None => !names.deep_view().contains(name@),
        },
{
    let mut i: usize = 0;
    while i < names.len()
        invariant
            i <= names.len(),
            forall|k: int| 0 <= k < i ==> names.deep_view()[k] != name@,
        decreases names.len() - i,
    {
        if names[i] == *name {
            return Some(i);
        }
        i += 1;
    }
    None
}

/// Gives a name its number, a new one if it has none yet.
fn intern(names: &mut Vec<String>, name: &String) -> (r: usize)
    ensures
        final(names).deep_view() == add_name(old(names).deep_view(), name@),
        grows(old(names).deep_view(), final(names).deep_view()),
        r < final(names).len(),
        final(names).deep_view()[r as int] == name@,
{
    proof {
        lemma_add_name_grows(names.deep_view(), name@);
    }
    match find_name(names, name) {
        Some(i) => {
            assert(names.deep_view().contains(name@));
            i
        },
        None => {
            let ghost before = names.deep_view();
            let copy = name.clone();
            names.push(copy);
            assert(names.deep_view() =~= before.push(name@));
            names.len() - 1
        },
    }
}

/// Numbers the symbols of an arm, in order.
fn encode_arm(names: &mut Vec<String>, arm: &ProductionArm) -> (rhs: Vec<usize>)
    ensures
        final(names).deep_view() == add_names(old(names).deep_view(), arm.deep_view().symbols),
        grows(old(names).deep_view(), final(names).deep_view()),
        rhs.len() == arm.symbols.len(),
        forall|k: int|
            0 <= k < rhs.len() ==> (#[trigger] rhs[k]) < final(names).len()
                && final(names).deep_view()[rhs[k] as int] == arm.deep_view().symbols[k],
{
    let ghost start = names.deep_view();
    let ghost symbols = arm.deep_view().symbols;
    let mut rhs: Vec<usize> = Vec::new();
    let mut k: usize = 0;
    assert(symbols.take(0) =~= Seq::empty());
    proof {
        lemma_add_name_grows(start, Seq::empty());
    }
    assert(grows(start, start));
    while k < arm.symbols.len()
        invariant
            symbols == arm.deep_view().symbols,
            k <= arm.symbols.len(),
            names.deep_view() == add_names(start, symbols.take(k as int)),
            grows(start, names.deep_view()),
            rhs.len() == k,
            forall|j: int|
                0 <= j < k ==> (#[trigger] rhs[j]) < names.len() && names.deep_view()[rhs[j] as int]
                    == symbols[j],
        decreases arm.symbols.len() - k,
    {
        let ghost before = names.deep_view();
        proof {
            assert(symbols.take(k + 1).drop_last() =~= symbols.take(k as int));
            assert(symbols.take(k + 1).last() == symbols[k as int]);
            assert(symbols[k as int] == arm.symbols[k as int].0@);
        }
        let id = intern(names, &arm.symbols[k].0);
        proof {
            lemma_grows_trans(start, before, names.deep_view());
        }
        rhs.push(id);
        k += 1;
    }
    assert(symbols.take(k as int) =~= symbols);
    rhs
}

impl Rules {
    /// Numbers the symbols of the productions and lists their rules. The
    /// start symbol has to be the name of a production.
    pub fn build(productions: &Vec<Production>, start: &String) -> (r: Result<Rules, CompileError>)
        ensures
            match r {
                Ok(g) => declares(productions.deep_view(), start@) && encodes(
                    productions.deep_view(),
                    start@,
                    g.deep_view(),
                ) && g.deep_view().wf(),
                Err(e) => !declares(productions.deep_view(), start@) && e.deep_view()
                    == ErrorView::UndefinedSymbol(start@),
            },
    {
        let ghost ps = productions.deep_view();
        let mut names: Vec<String> = Vec::new();
        let mut lhs_of: Vec<usize> = Vec::new();
        let mut p: usize = 0;
        assert(ps.take(0) =~= Seq::empty());
        assert(names.deep_view() =~= Seq::empty());
        while p < productions.len()
            invariant
                ps == productions.deep_view(),
                p <= productions.len(),
                names.deep_view() == nonterminal_names(ps.take(p as int)),
                names.deep_view().no_duplicates(),
                lhs_of.len() == p,
                forall|q: int|
                    0 <= q < p ==> (#[trigger] lhs_of[q]) < names.len() && names.deep_view()[lhs_of[q] as int]
                        == ps[q].ident,
                forall|i: int|
                    0 <= i < names.len() ==> declares(ps, #[trigger] names.deep_view()[i]),
            decreases productions.len() - p,
        {
            let ghost before = names.deep_view();
            proof {
                assert(ps.take(p + 1).drop_last() =~= ps.take(p as int));
                assert(ps.take(p + 1).last() == ps[p as int]);
                assert(ps[p as int].ident == productions[p as int].ident@);
            }
            let id = intern(&mut names, &productions[p].ident);
            lhs_of.push(id);
            proof {
                assert forall|i: int| 0 <= i < names.len() implies declares(
                    ps,
                    #[trigger] names.deep_view()[i],
                ) by {
                    if i < before.len() {
                        assert(names.deep_view()[i] == before[i]);
                    } else {
                        assert(names.deep_view()[i] == ps[p as int].ident);
                    }
                }
            }
            p += 1;
        }
        assert(ps.take(p as int) =~= ps);
        let nonterminals = names.len();
        let ghost idents = names.deep_view();
        let start_id = match find_name(&names, start) {
            Some(i) => i,
            None => {
                proof {
                    if declares(ps, start@) {
                        let q = choose|q: int| 0 <= q < ps.len() && (#[trigger] ps[q]).ident == start@;
                        assert(idents[lhs_of[q] as int] == start@);
                    }
                }
                return Err(CompileError::UndefinedSymbol(start.clone()));
            },
        };
        let mut rhs0: Vec<usize> = Vec::new();
        rhs0.push(start_id);
        let mut rules: Vec<Rule> = Vec::new();
        rules.push(Rule { lhs: usize::MAX, rhs: rhs0, production: productions.len(), arm: 0 });
        let mut p: usize = 0;
        proof {
            lemma_add_name_grows(idents, Seq::empty());
            assert(grows(idents, idents));
        }
        while p < productions.len()
            invariant
                ps == productions.deep_view(),
                p <= productions.len(),
                idents == nonterminal_names(ps),
                nonterminals == idents.len(),
                idents.no_duplicates(),
                names.deep_view() == add_productions(idents, ps.take(p as int)),
                grows(idents, names.deep_view()),
                lhs_of.len() == ps.len(),
                forall|q: int|
                    0 <= q < ps.len() ==> (#[trigger] lhs_of[q]) < idents.len() && idents[lhs_of[q] as int]
                        == ps[q].ident,
                forall|i: int| 0 <= i < idents.len() ==> declares(ps, #[trigger] idents[i]),
                rules.len() == 1 + arms_before(ps, p as int),
                arms_before(ps, p as int) >= 0,
                rules.deep_view()[0].lhs == usize::MAX,
                rules.deep_view()[0].rhs =~= seq![start_id],
                rules.deep_view()[0].production == ps.len(),
                rules.deep_view()[0].arm == 0,
                start_id < nonterminals,
                idents[start_id as int] == start@,
                forall|q: int, a: int|
                    0 <= q < p && 0 <= a < ps[q].arms.len() ==> rule_matches(
                        names.deep_view(),
                        nonterminals,
                        ps,
                        q,
                        a,
                        #[trigger] rules.deep_view()[1 + arms_before(ps, q) + a],
                    ),
            decreases productions.len() - p,
        {
            let production = &productions[p];
            let ghost names_p = names.deep_view();
            let mut a: usize = 0;
            proof {
                assert(ps.take(p + 1).drop_last() =~= ps.take(p as int));
                assert(ps.take(p + 1).last() == ps[p as int]);
                assert(ps[p as int].arms.take(0) =~= Seq::empty());
                lemma_arms_before_step(ps, p as int);
            }
            while a < production.arms.len()
                invariant
                    ps == productions.deep_view(),
                    p < productions.len(),
                    production == &productions[p as int],
                    a <= production.arms.len(),
                    idents == nonterminal_names(ps),
                    nonterminals == idents.len(),
                    idents.no_duplicates(),
                    names.deep_view() == add_arms(
                        add_productions(idents, ps.take(p as int)),
                        ps[p as int].arms.take(a as int),
                    ),
                    grows(idents, names.deep_view()),
                    lhs_of.len() == ps.len(),
                    forall|q: int|
                        0 <= q < ps.len() ==> (#[trigger] lhs_of[q]) < idents.len()
                            && idents[lhs_of[q] as int] == ps[q].ident,
                    rules.len() == 1 + arms_before(ps, p as int) + a,
                    arms_before(ps, p as int) >= 0,
                    arms_before(ps, p + 1) == arms_before(ps, p as int) + ps[p as int].arms.len(),
                    rules.deep_view()[0].lhs == usize::MAX,
                    rules.deep_view()[0].rhs =~= seq![start_id],
                    rules.deep_view()[0].production == ps.len(),
                    rules.deep_view()[0].arm == 0,
                    forall|q: int, b: int|
                        0 <= q < p && 0 <= b < ps[q].arms.len() ==> rule_matches(
                            names.deep_view(),
                            nonterminals,
                            ps,
                            q,
                            b,
                            #[trigger] rules.deep_view()[1 + arms_before(ps, q) + b],
                        ),
                    forall|b: int|
                        0 <= b < a ==> rule_matches(
                            names.deep_view(),
                            nonterminals,
                            ps,
                            p as int,
                            b,
                            #[trigger] rules.deep_view()[1 + arms_before(ps, p as int) + b],
                        ),
                decreases production.arms.len() - a,
            {
                let ghost before = names.deep_view();
                let ghost rules_before = rules.deep_view();
                let ghost arms = ps[p as int].arms;
                proof {
                    assert(arms.take(a + 1).drop_last() =~= arms.take(a as int));
                    assert(arms.take(a + 1).last() == arms[a as int]);
                    assert(arms[a as int] == production.arms[a as int].deep_view());
                }
                let rhs = encode_arm(&mut names, &production.arms[a]);
                let rule = Rule { lhs: lhs_of[p], rhs, production: p, arm: a };
                rules.push(rule);
                proof {
                    let now = names.deep_view();
                    lemma_grows_trans(idents, before, now);
                    assert(rules.deep_view() =~= rules_before.push(rule.deep_view()));
                    assert(rules.deep_view()[0] == rules_before[0]);
                    assert forall|q: int, b: int|
                        0 <= q < p && 0 <= b < ps[q].arms.len() implies rule_matches(
                        now,
                        nonterminals,
                        ps,
                        q,
                        b,
                        #[trigger] rules.deep_view()[1 + arms_before(ps, q) + b],
                    ) by {
                        lemma_arms_before_mono(ps, q + 1, p as int);
                        lemma_arms_before_step(ps, q);
                        let old_rule = rules_before[1 + arms_before(ps, q) + b];
                        assert(rule_matches(before, nonterminals, ps, q, b, old_rule));
                        assert(rules.deep_view()[1 + arms_before(ps, q) + b] == old_rule);
                    }
                    assert forall|b: int| 0 <= b < a + 1 implies rule_matches(
                        now,
                        nonterminals,
                        ps,
                        p as int,
                        b,
                        #[trigger] rules.deep_view()[1 + arms_before(ps, p as int) + b],
                    ) by {
                        if b < a {
                            let old_rule = rules_before[1 + arms_before(ps, p as int) + b];
                            assert(rule_matches(before, nonterminals, ps, p as int, b, old_rule));
                            assert(rules.deep_view()[1 + arms_before(ps, p as int) + b]
                                == old_rule);
                        } else {
                            assert(rules.deep_view()[1 + arms_before(ps, p as int) + b]
                                == rule.deep_view());
                            assert(now[lhs_of[p as int] as int] == idents[lhs_of[p as int] as int]);
                        }
                    }
                }
                a += 1;
            }
            proof {
                assert(ps[p as int].arms.take(a as int) =~= ps[p as int].arms);
            }
            p += 1;
        }
        assert(ps.take(p as int) =~= ps);
        let g = Rules { names, nonterminals, rules };
        proof {
            let v = g.deep_view();
            assert(v.rules[0].rhs[0] == start_id);
            assert(v.names[start_id as int] == idents[start_id as int]);
            assert forall|i: int| 0 <= i < v.names.len() implies (i < v.nonterminals <==> declares(
                ps,
                #[trigger] v.names[i],
            )) by {
                if i < v.nonterminals {
                    assert(v.names[i] == idents[i]);
                } else if declares(ps, v.names[i]) {
                    let q = choose|q: int| 0 <= q < ps.len() && (#[trigger] ps[q]).ident == v.names[i];
                    assert(idents[lhs_of[q] as int] == v.names[i]);
                    assert(idents.contains(v.names[i]));
                }
            }
            lemma_encodes_wf(ps, start@, v);
        }
        Ok(g)
    }
}

/// The arms before a production and its own arms are the arms before the
/// next production.
pub proof fn lemma_arms_before_step(ps: Seq<ProductionView>, p: int)
    requires
        0 <= p < ps.len(),
    ensures
        arms_before(ps, p + 1) == arms_before(ps, p) + ps[p].arms.len(),
        arms_before(ps, p) >= 0,
    decreases p,
{
    if p > 0 {
        lemma_arms_before_step(ps, p - 1);
    }
}

/// Later productions have no fewer arms before them.
pub proof fn lemma_arms_before_mono(ps: Seq<ProductionView>, p: int, q: int)
    requires
        0 <= p <= q <= ps.len(),
    ensures
        0 <= arms_before(ps, p) <= arms_before(ps, q),
    decreases q,
{
    if p < q {
        lemma_arms_before_mono(ps, p, q - 1);
        lemma_arms_before_step(ps, q - 1);
    } else if p > 0 {
        lemma_arms_before_step(ps, p - 1);
    }
}

/// The symbols of rules that encode productions are in range.
pub proof fn lemma_encodes_wf(ps: Seq<ProductionView>, start: Seq<char>, g: RulesView)
    requires
        encodes(ps, start, g),
    ensures
        g.wf(),
{
    lemma_arms_before_mono(ps, 0, ps.len() as int);
    assert forall|r: int| 1 <= r < g.rules.len() implies (#[trigger] g.rules[r]).lhs
        < g.nonterminals by {
        let (q, b) = lemma_rule_origin(ps, ps.len() as int, r - 1);
        assert(rule_matches(g.names, g.nonterminals, ps, q, b, g.rules[1 + arms_before(ps, q) + b]));
    }
    assert forall|r: int, k: int|
        0 <= r < g.rules.len() && 0 <= k < g.rules[r].rhs.len() implies #[trigger] g.rules[r].rhs[k]
        < g.names.len() by {
        if r >= 1 {
            let (q, b) = lemma_rule_origin(ps, ps.len() as int, r - 1);
            assert(rule_matches(g.names, g.nonterminals, ps, q, b, g.rules[1 + arms_before(ps, q) + b]));
        }
    }
}

/// Every rule but the goal rule is the rule of one arm.
pub proof fn lemma_rule_origin(ps: Seq<ProductionView>, n: int, j: int) -> (r: (int, int))
    requires
        0 <= n <= ps.len(),
        0 <= j < arms_before(ps, n),
    ensures
        0 <= r.0 < n,
        0 <= r.1 < ps[r.0].arms.len(),
        j == arms_before(ps, r.0) + r.1,
    decreases n,
{
    lemma_arms_before_step(ps, n - 1);
    if j >= arms_before(ps, n - 1) {
        (n - 1, j - arms_before(ps, n - 1))
    } else {
        lemma_rule_origin(ps, n - 1, j)
    }
}

} // verus!
