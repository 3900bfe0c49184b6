//! The parser table generator: from a grammar to its LALR(1) tables.

use vstd::prelude::*;
use crate::analysis::{
    find_unproductive, first_of, first_sets, first_unproductive, least_set,
    lemma_self_recursive_unproductive, nullable, productive, stranded, stranded_set,
};
use crate::automaton::{automaton_of, Automaton};
use crate::bits::rows;
use crate::error::{agrees, CompileError, ErrorView};
use crate::grammar::{declares, grammar_of, OxiSyntax, SyntaxView};
use crate::items::Items;
use crate::lookahead::{lookahead_of, lookaheads};
use crate::rules::{encodes, lemma_rule_origin, rule_matches, Rules, RulesView};
use crate::syntax::ProductionView;
use crate::table::{
    action_table, ambiguity_table, conflict_at, fill_actions, fill_gotos, first_conflict,
    goto_table, table_rows, Action,
};

verus! {

/// The tables of a grammar.
#[derive(Debug, PartialEq, Eq)]
pub struct ParseTables {
    /// The numbered symbols and the rules. A reduce action names a rule,
    /// and the rule names the production arm that it comes from.
    pub rules: Rules,
    /// For each state and each terminal column, what to do. The columns
    /// are the terminals in the order of their numbers; the last column is
    /// the end of input.
    pub action: Vec<Vec<Action>>,
    /// For each state and each nonterminal, the state to go to after a
    /// reduction to that nonterminal.
    pub goto: Vec<Vec<Option<usize>>>,
    /// The cells of the ACTION table in which more than one rule could be
    /// reduced and the rule declared first was taken. Each is worth a
    /// warning.
    pub ambiguous: Vec<Vec<bool>>,
    /// The nonterminals that cannot be reached from the start symbol.
    /// Each is worth a warning.
    pub stranded: Vec<bool>,
}

/// The tables as plain sequences.
pub struct TablesView {
    pub rules: RulesView,
    pub action: Seq<Seq<Action>>,
    pub goto: Seq<Seq<Option<usize>>>,
    pub ambiguous: Seq<Seq<bool>>,
    pub stranded: Seq<bool>,
}

impl DeepView for ParseTables {
    type V = TablesView;

    open spec fn deep_view(&self) -> TablesView {
        TablesView {
            rules: self.rules.deep_view(),
            action: table_rows(self.action@),
            goto: table_rows(self.goto@),
            ambiguous: rows(self.ambiguous@),
            stranded: self.stranded@,
        }
    }
}

/// A defect of a grammar that does not stand in the way of its tables.
#[derive(Clone, Copy, Debug, PartialEq, Eq, Structural)]
pub enum Warning {
    /// The nonterminal cannot be reached from the start symbol.
    Unreachable(usize),
    /// In the state, on the terminal column, more than one rule could be
    /// reduced; the rule declared first was taken.
    ReduceReduce(usize, usize),
}

/// The warnings for the stranded nonterminals from `x` on, after those in
/// `acc`.
pub open spec fn stranded_warnings(stranded: Seq<bool>, x: int, acc: Seq<Warning>) -> Seq<Warning>
    decreases stranded.len() - x,
{
    if x < 0 || x >= stranded.len() {
        acc
    } else if stranded[x] {
        stranded_warnings(stranded, x + 1, acc.push(Warning::Unreachable(x as usize)))
    } else {
        stranded_warnings(stranded, x + 1, acc)
    }
}

/// The warnings for the marked cells from column `k` of state `s` on,
/// after those in `acc`.
pub open spec fn cell_warnings(marks: Seq<Seq<bool>>, s: int, k: int, acc: Seq<Warning>) -> Seq<
    Warning,
>
    decreases marks.len() - s, (if 0 <= s < marks.len() { marks[s].len() - k } else { 0 }),
{
    if s < 0 || k < 0 || s >= marks.len() {
        acc
    } else if k >= marks[s].len() {
        cell_warnings(marks, s + 1, 0, acc)
    } else if marks[s][k] {
        cell_warnings(marks, s, k + 1, acc.push(Warning::ReduceReduce(s as usize, k as usize)))
    } else {
        cell_warnings(marks, s, k + 1, acc)
    }
}

/// The warnings that tables carry: one for each stranded nonterminal, in
/// order, then one for each ambiguous cell, state by state.
pub open spec fn warnings_of(t: TablesView) -> Seq<Warning> {
    cell_warnings(t.ambiguous, 0, 0, stranded_warnings(t.stranded, 0, Seq::empty()))
}

impl ParseTables {
    /// Lists the warnings that the tables carry.
    pub fn warnings(&self) -> (out: Vec<Warning>)
        ensures
            out@ == warnings_of(self.deep_view()),
    {
        let ghost stranded = self.stranded@;
        let ghost marks = rows(self.ambiguous@);
        let mut out: Vec<Warning> = Vec::new();
        let mut x: usize = 0;
        while x < self.stranded.len()
            invariant
                stranded == self.stranded@,
                x <= self.stranded.len(),
                stranded_warnings(stranded, 0, Seq::empty()) == stranded_warnings(
                    stranded,
                    x as int,
                    out@,
                ),
            decreases self.stranded.len() - x,
        {
            if self.stranded[x] {
                out.push(Warning::Unreachable(x));
            }
            x += 1;
        }
        let ghost first_part = out@;
        let mut s: usize = 0;
        while s < self.ambiguous.len()
            invariant
                marks == rows(self.ambiguous@),
                s <= self.ambiguous.len(),
                cell_warnings(marks, 0, 0, first_part) == cell_warnings(marks, s as int, 0, out@),
            decreases self.ambiguous.len() - s,
        {
            let row = &self.ambiguous[s];
            assert(marks[s as int] == row@);
            let mut k: usize = 0;
            while k < row.len()
                invariant
                    marks == rows(self.ambiguous@),
                    s < self.ambiguous.len(),
                    marks[s as int] == row@,
                    k <= row.len(),
                    cell_warnings(marks, 0, 0, first_part) == cell_warnings(
                        marks,
                        s as int,
                        k as int,
                        out@,
                    ),
                decreases row.len() - k,
            {
                if row[k] {
                    out.push(Warning::ReduceReduce(s, k));
                }
                k += 1;
            }
            s += 1;
        }
        out
    }

    /// The number of states of the automaton.
    pub fn states(&self) -> (n: usize)
        ensures
            n == self.deep_view().action.len(),
    {
        self.action.len()
    }
}

/// A grammar and its tables.
#[derive(Debug, PartialEq, Eq)]
pub struct Compiled {
    pub syntax: OxiSyntax,
    pub tables: ParseTables,
}

/// A grammar and its tables as plain values.
pub struct CompiledView {
    pub syntax: SyntaxView,
    pub tables: TablesView,
}

impl DeepView for Compiled {
    type V = CompiledView;

    open spec fn deep_view(&self) -> CompiledView {
        CompiledView { syntax: self.syntax.deep_view(), tables: self.tables.deep_view() }
    }
}

/// The numbered rules of the productions are determined by them.
pub proof fn lemma_encodes_unique(
    ps: Seq<ProductionView>,
    start: Seq<char>,
    g1: RulesView,
    g2: RulesView,
)
    requires
        encodes(ps, start, g1),
        encodes(ps, start, g2),
    ensures
        g1 == g2,
{
    let names = g1.names;
    assert forall|j: int| 0 <= j < g1.rules.len() implies g1.rules[j] == g2.rules[j] by {
        let r1 = g1.rules[j];
        let r2 = g2.rules[j];
        if j == 0 {
            assert(names[r1.rhs[0] as int] == names[r2.rhs[0] as int]);
            assert(r1.rhs[0] == r2.rhs[0]);
            assert(r1.rhs =~= r2.rhs);
        } else {
            let (p, a) = lemma_rule_origin(ps, ps.len() as int, j - 1);
            assert(rule_matches(names, g1.nonterminals, ps, p, a, g1.rules[1 + crate::rules::arms_before(ps, p) + a]));
            assert(rule_matches(names, g2.nonterminals, ps, p, a, g2.rules[1 + crate::rules::arms_before(ps, p) + a]));
            assert(names[r1.lhs as int] == names[r2.lhs as int]);
            assert(r1.lhs == r2.lhs);
            assert forall|k: int| 0 <= k < r1.rhs.len() implies r1.rhs[k] == r2.rhs[k] by {
                assert(names[r1.rhs[k] as int] == names[r2.rhs[k] as int]);
            }
            assert(r1.rhs =~= r2.rhs);
        }
    }
    assert(g1.rules =~= g2.rules);
}

/// The numbered rules of the productions with `start` as the goal.
pub open spec fn rules_for(ps: Seq<ProductionView>, start: Seq<char>) -> RulesView {
    choose|g: RulesView| encodes(ps, start, g)
}

/// The tables of a grammar, or the first defect that stands in their way:
/// a start symbol that is no production, a production that derives no
/// finite sentence, or a conflict that precedence does not settle.
pub open spec fn generated(sv: SyntaxView) -> Result<TablesView, ErrorView> {
    let ps = sv.productions;
    let start = sv.config.start_production;
    if !declares(ps, start) {
        Err(ErrorView::UndefinedSymbol(start))
    } else {
        let g = rules_for(ps, start);
        match first_unproductive(g, 0) {
            Some(x) => Err(ErrorView::NonTerminatingProduction(g.names[x])),
            None => {
                let nul = nullable(g);
                let first = first_of(g, nul);
                let a = automaton_of(g);
                let la = lookahead_of(g, nul, first, a);
                match first_conflict(g, sv.precedence, a, la, 0, 0) {
                    Some((s, k)) => Err(ErrorView::UnresolvableConflict(conflict_at(g, a, la, s, k))),
                    None => Ok(
                        TablesView {
                            rules: g,
                            action: action_table(g, sv.precedence, a, la),
                            goto: goto_table(g, a),
                            ambiguous: ambiguity_table(g, a, la),
                            stranded: stranded(g),
                        },
                    ),
                }
            },
        }
    }
}

/// What a grammar text compiles to.
pub open spec fn compiled(text: Seq<char>) -> Result<CompiledView, ErrorView> {
    match grammar_of(text) {
        Err(e) => Err(e),
        Ok(sv) => match generated(sv) {
            Err(e) => Err(e),
            Ok(tables) => Ok(CompiledView { syntax: sv, tables }),
        },
    }
}

/// Builds the tables of a grammar.
pub fn generate(syntax: &OxiSyntax) -> (r: Result<ParseTables, CompileError>)
    ensures
        agrees(r, generated(syntax.deep_view())),
{
    let ghost sv = syntax.deep_view();
    let ghost ps = sv.productions;
    let ghost start = sv.config.start_production;
    let g = match Rules::build(&syntax.productions, &syntax.config.start_production) {
        Ok(g) => g,
        Err(e) => {
            return Err(e);
        },
    };
    let ghost gv = g.deep_view();
    proof {
        let c = rules_for(ps, start);
        assert(encodes(ps, start, c));
        lemma_encodes_unique(ps, start, gv, c);
    }
    match find_unproductive(&g) {
        Some(x) => {
            assert(gv.names[x as int] == g.names[x as int]@);
            return Err(CompileError::NonTerminatingProduction(g.names[x].clone()));
        },
        None => {},
    }
    let nul = least_set(&g, false);
    let first = first_sets(&g, &nul);
    let it = Items::build(&g);
    let a = Automaton::build(&g, &it);
    let la = lookaheads(&g, &it, &nul, &first, &a);
    let (action, ambiguous) = match fill_actions(&g, &it, &syntax.precedence, &a, &la) {
        Ok(filled) => filled,
        Err(conflict) => {
            return Err(CompileError::UnresolvableConflict(conflict));
        },
    };
    let goto = fill_gotos(&g, &a);
    let stranded = stranded_set(&g);
    Ok(ParseTables { rules: g, action, goto, ambiguous, stranded })
}

/// Compiles a grammar text: parses it, builds the grammar and generates
/// its tables.
pub fn compile(text: &str) -> (r: Result<Compiled, CompileError>)
    ensures
        agrees(r, compiled(text@)),
{
    let syntax = match OxiSyntax::parse(text) {
        Ok(s) => s,
        Err(e) => {
            return Err(e);
        },
    };
    match generate(&syntax) {
        Ok(tables) => Ok(Compiled { syntax, tables }),
        Err(e) => Err(e),
    }
}

/// Generation is repeatable: two runs on the same grammar end alike, with
/// the same tables, cell for cell, or with the same error.
pub proof fn lemma_generation_repeatable(
    first_grammar: OxiSyntax,
    second_grammar: OxiSyntax,
    first: Result<ParseTables, CompileError>,
    second: Result<ParseTables, CompileError>,
)
    requires
        first_grammar.deep_view() == second_grammar.deep_view(),
        agrees(first, generated(first_grammar.deep_view())),
        agrees(second, generated(second_grammar.deep_view())),
    ensures
        match (first, second) {
            (Ok(a), Ok(b)) => a.deep_view() == b.deep_view(),
            (Err(a), Err(b)) => a.deep_view() == b.deep_view(),
            _ => false,
        },
{
}

/// Compilation is repeatable: two runs on the same text end alike.
pub proof fn lemma_compilation_repeatable(
    first_text: Seq<char>,
    second_text: Seq<char>,
    first: Result<Compiled, CompileError>,
    second: Result<Compiled, CompileError>,
)
    requires
        first_text == second_text,
        agrees(first, compiled(first_text)),
        agrees(second, compiled(second_text)),
    ensures
        match (first, second) {
            (Ok(a), Ok(b)) => a.deep_view() == b.deep_view(),
            (Err(a), Err(b)) => a.deep_view() == b.deep_view(),
            _ => false,
        },
{
}

proof fn lemma_first_unproductive(g: RulesView, x: int, a: int)
    requires
        0 <= x <= a < g.nonterminals,
        !productive(g)[a],
    ensures
        first_unproductive(g, x) is Some,
    decreases a - x,
{
    if x < a && productive(g)[x] {
        lemma_first_unproductive(g, x + 1, a);
    }
}

/// A production without a base case is rejected: where every arm of the
/// productions of one name holds that name, the grammar is rejected for a
/// production that does not terminate. Here `g` stands for the numbered
/// rules of the grammar.
pub proof fn lemma_recursion_without_base_rejected(sv: SyntaxView, g: RulesView, p: int)
    requires
        declares(sv.productions, sv.config.start_production),
        encodes(sv.productions, sv.config.start_production, g),
        0 <= p < sv.productions.len(),
        sv.productions[p].arms.len() > 0,
        forall|q: int, a: int|
            0 <= q < sv.productions.len() && sv.productions[q].ident == sv.productions[p].ident
                && 0 <= a < sv.productions[q].arms.len() ==> (
            #[trigger] sv.productions[q].arms[a]).symbols.contains(sv.productions[p].ident),
    ensures
        generated(sv) matches Err(e) && e is NonTerminatingProduction,
{
    let ps = sv.productions;
    let start = sv.config.start_production;
    let name = ps[p].ident;
    let c = rules_for(ps, start);
    assert(encodes(ps, start, c));
    lemma_encodes_unique(ps, start, g, c);
    let own = g.rules[1 + crate::rules::arms_before(ps, p) + 0];
    assert(rule_matches(g.names, g.nonterminals, ps, p, 0, own));
    let x = own.lhs as int;
    assert forall|r: int| 1 <= r < g.rules.len() && (#[trigger] g.rules[r]).lhs == x implies g.rules[r].rhs.contains(
        x as usize,
    ) by {
        let (q, a) = lemma_rule_origin(ps, ps.len() as int, r - 1);
        assert(rule_matches(g.names, g.nonterminals, ps, q, a, g.rules[1 + crate::rules::arms_before(ps, q) + a]));
        assert(ps[q].ident == name);
        let symbols = ps[q].arms[a].symbols;
        assert(symbols.contains(name));
        let k = choose|k: int| 0 <= k < symbols.len() && symbols[k] == name;
        assert(g.names[g.rules[r].rhs[k] as int] == g.names[x]);
        assert(g.rules[r].rhs[k] == x as usize);
    }
    crate::rules::lemma_encodes_wf(ps, start, g);
    lemma_self_recursive_unproductive(g, x);
    lemma_first_unproductive(g, 0, x);
}

} // verus!
