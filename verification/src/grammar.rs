//! The grammar model: settings, productions in declaration order and
//! precedence levels, built once from the terms of a grammar text.

use vstd::prelude::*;
use crate::config::{resolved, ConfigView, OxiConfig};
use crate::error::{agrees, CompileError, ErrorView};
use crate::placeholder::{check_placeholders, first_bad_arm, placeholders_in_range};
use crate::precedence::{precedence, LevelView, PrecedenceTable};
use crate::syntax::{
    parse_terms, parsed, Production, ProductionArm, ProductionView, Symbol, Term, TermView,
};

verus! {

/// A grammar: its settings, its productions and its precedence levels.
#[derive(Clone, Debug, PartialEq, Eq)]
pub struct OxiSyntax {
    pub config: OxiConfig,
    pub productions: Vec<Production>,
    pub precedence: PrecedenceTable,
}

/// A grammar as plain values.
pub struct SyntaxView {
    pub config: ConfigView,
    pub productions: Seq<ProductionView>,
    pub precedence: Seq<LevelView>,
}

impl DeepView for OxiSyntax {
    type V = SyntaxView;

    open spec fn deep_view(&self) -> SyntaxView {
        SyntaxView {
            config: self.config.deep_view(),
            productions: self.productions.deep_view(),
            precedence: self.precedence.deep_view(),
        }
    }
}

/// The productions among the terms, in declaration order.
pub open spec fn productions_of(ts: Seq<TermView>) -> Seq<ProductionView>
    decreases ts.len(),
{
    if ts.len() == 0 {
        Seq::empty()
    } else {
        match ts.last() {
            TermView::Production(p) => productions_of(ts.drop_last()).push(p),
            _ => productions_of(ts.drop_last()),
        }
    }
}

/// Some production has the name.
pub open spec fn declares(ps: Seq<ProductionView>, name: Seq<char>) -> bool {
    exists|p: int| 0 <= p < ps.len() && (#[trigger] ps[p]).ident == name
}

/// The grammar that a sequence of terms describes, or the first defect in
/// it: in its settings, then in its precedence levels, then in its start
/// symbol, then in its placeholders.
pub open spec fn grammar(ts: Seq<TermView>) -> Result<SyntaxView, ErrorView> {
    match resolved(ts) {
        Err(e) => Err(e),
        Ok(config) => match precedence(ts) {
            Err(e) => Err(e),
            Ok(levels) => {
                let ps = productions_of(ts);
                if !declares(ps, config.start_production) {
                    Err(ErrorView::UndefinedSymbol(config.start_production))
                } else {
                    match first_bad_arm(ps, 0, 0) {
                        Some(bad) => Err(ErrorView::PlaceholderOutOfRange(bad)),
                        None => Ok(
                            SyntaxView { config, productions: ps, precedence: levels },
                        ),
                    }
                }
            },
        },
    }
}

/// The grammar that a text describes.
pub open spec fn grammar_of(text: Seq<char>) -> Result<SyntaxView, ErrorView> {
    match parsed(text) {
        Err(e) => Err(e),
        Ok(ts) => grammar(ts),
    }
}

/// The declared type of the first production with the name.
pub open spec fn type_of(ps: Seq<ProductionView>, name: Seq<char>, p: int) -> Option<Seq<char>>
    decreases ps.len() - p,
{
    if p < 0 || p >= ps.len() {
        None
    } else if ps[p].ident == name {
        Some(ps[p].typ)
    } else {
        type_of(ps, name, p + 1)
    }
}

/// Terms without a production describe no grammar, whatever they
/// configure: an explicit start symbol does not stand in for productions.
pub proof fn lemma_grammar_needs_productions(ts: Seq<TermView>)
    requires
        forall|k: int| 0 <= k < ts.len() ==> !(#[trigger] ts[k] is Production),
    ensures
        grammar(ts) == Err::<SyntaxView, ErrorView>(ErrorView::NoProductions),
{
    crate::config::lemma_no_productions(ts);
}

/// What holds of every grammar that was built: its start symbol is a
/// production and its placeholders are in range.
pub open spec fn well_formed(g: SyntaxView) -> bool {
    declares(g.productions, g.config.start_production) && placeholders_in_range(g.productions)
}

impl ProductionArm {
    /// A copy of the arm.
    pub fn copy(&self) -> (r: ProductionArm)
        ensures
            r.deep_view() == self.deep_view(),
    {
        let mut symbols: Vec<Symbol> = Vec::new();
        let mut i: usize = 0;
        while i < self.symbols.len()
            invariant
                i <= self.symbols.len(),
                symbols.deep_view() == self.symbols.deep_view().take(i as int),
            decreases self.symbols.len() - i,
        {
            let ghost before = symbols.deep_view();
            let name = self.symbols[i].0.clone();
            symbols.push(Symbol(name));
            assert(symbols.deep_view() =~= before.push(name@));
            i += 1;
            assert(symbols.deep_view() =~= self.symbols.deep_view().take(i as int));
        }
        assert(self.symbols.deep_view().take(i as int) =~= self.symbols.deep_view());
        ProductionArm { symbols, code: self.code.clone() }
    }
}

impl Production {
    /// A copy of the production.
    pub fn copy(&self) -> (r: Production)
        ensures
            r.deep_view() == self.deep_view(),
    {
        let mut arms: Vec<ProductionArm> = Vec::new();
        let mut i: usize = 0;
        while i < self.arms.len()
            invariant
                i <= self.arms.len(),
                arms.deep_view() == self.arms.deep_view().take(i as int),
            decreases self.arms.len() - i,
        {
            let ghost before = arms.deep_view();
            let arm = self.arms[i].copy();
            arms.push(arm);
            assert(arms.deep_view() =~= before.push(arm.deep_view()));
            i += 1;
            assert(arms.deep_view() =~= self.arms.deep_view().take(i as int));
        }
        assert(self.arms.deep_view().take(i as int) =~= self.arms.deep_view());
        Production { ident: self.ident.clone(), typ: self.typ.clone(), arms }
    }
}

/// Whether some production has the name.
pub fn declares_name(productions: &Vec<Production>, name: &String) -> (r: bool)
    ensures
        r == declares(productions.deep_view(), name@),
{
    let ghost ps = productions.deep_view();
    let mut p: usize = 0;
    while p < productions.len()
        invariant
            ps == productions.deep_view(),
            p <= productions.len(),
            forall|q: int| 0 <= q < p ==> (#[trigger] ps[q]).ident != name@,
        decreases productions.len() - p,
    {
        if productions[p].ident == *name {
            assert(ps[p as int].ident == name@);
            return true;
        }
        p += 1;
    }
    false
}

/// Collects the productions among the terms, in declaration order.
pub fn collect_productions(terms: &Vec<Term>) -> (r: Vec<Production>)
    ensures
        r.deep_view() == productions_of(terms.deep_view()),
{
    let ghost ts = terms.deep_view();
    let mut out: Vec<Production> = Vec::new();
    let mut i: usize = 0;
    assert(ts.take(0) =~= Seq::empty());
    assert(out.deep_view() =~= Seq::empty());
    while i < terms.len()
        invariant
            ts == terms.deep_view(),
            i <= terms.len(),
            out.deep_view() == productions_of(ts.take(i as int)),
        decreases terms.len() - i,
    {
        proof {
            assert(ts.take(i + 1).drop_last() =~= ts.take(i as int));
            assert(ts.take(i + 1).last() == ts[i as int]);
            assert(ts[i as int] == terms[i as int].deep_view());
        }
        let ghost before = out.deep_view();
        match &terms[i] {
            Term::Production(p) => {
                let c = p.copy();
                out.push(c);
                assert(out.deep_view() =~= before.push(c.deep_view()));
            },
            _ => {},
        }
        i += 1;
    }
    assert(ts.take(i as int) =~= ts);
    out
}

impl OxiSyntax {
    /// Builds the grammar that a sequence of terms describes.
    pub fn from_terms(terms: &Vec<Term>) -> (r: Result<OxiSyntax, CompileError>)
        ensures
            agrees(r, grammar(terms.deep_view())),
            r matches Ok(g) ==> well_formed(g.deep_view()),
    {
        let config = match OxiConfig::from_terms(terms) {
            Ok(c) => c,
            Err(e) => {
                return Err(e);
            },
        };
        let precedence = match PrecedenceTable::from_terms(terms) {
            Ok(t) => t,
            Err(e) => {
                return Err(e);
            },
        };
        let productions = collect_productions(terms);
        if !declares_name(&productions, &config.start_production) {
            return Err(CompileError::UndefinedSymbol(config.start_production));
        }
        match check_placeholders(&productions) {
            Some(bad) => Err(CompileError::PlaceholderOutOfRange(bad)),
            None => Ok(OxiSyntax { config, productions, precedence }),
        }
    }

    /// The type of the value that the generated parser returns: the
    /// declared type of the start production.
    pub fn start_type(&self) -> (r: Option<String>)
        ensures
            r.deep_view() == type_of(
                self.deep_view().productions,
                self.deep_view().config.start_production,
                0,
            ),
    {
        let ghost ps = self.deep_view().productions;
        let ghost name = self.deep_view().config.start_production;
        let mut p: usize = 0;
        while p < self.productions.len()
            invariant
                ps == self.productions.deep_view(),
                name == self.config.start_production@,
                p <= self.productions.len(),
                type_of(ps, name, 0) == type_of(ps, name, p as int),
            decreases self.productions.len() - p,
        {
            assert(ps[p as int] == self.productions[p as int].deep_view());
            if self.productions[p].ident == self.config.start_production {
                return Some(self.productions[p].typ.clone());
            }
            p += 1;
        }
        None
    }

    /// Builds the grammar that a text describes.
    pub fn parse(text: &str) -> (r: Result<OxiSyntax, CompileError>)
        ensures
            agrees(r, grammar_of(text@)),
            r matches Ok(g) ==> well_formed(g.deep_view()),
    {
        match parse_terms(text) {
            Err(e) => Err(e),
            Ok(terms) => OxiSyntax::from_terms(&terms),
        }
    }
}

} // verus!
