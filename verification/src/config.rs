//! The configuration resolver: folds the directives of a grammar into its
//! settings, with defaults and required-field checks.

use vstd::prelude::*;
use crate::error::{agrees, CompileError, ErrorView};
use crate::syntax::{ConfigOption, ConfigOptionView, Term, TermView};

verus! {

/// The resolved settings of a grammar.
#[derive(Clone, Debug, PartialEq, Eq)]
pub struct OxiConfig {
    /// The name the generated parser function should have.
    pub name: String,
    /// Whether the generated parser function is public.
    pub public: bool,
    /// The type of the tokens that are passed to the parser.
    pub token_type: String,
    /// The entry production.
    pub start_production: String,
}

/// The settings as plain values.
pub struct ConfigView {
    pub name: Seq<char>,
    pub public: bool,
    pub token_type: Seq<char>,
    pub start_production: Seq<char>,
}

impl DeepView for OxiConfig {
    type V = ConfigView;

    open spec fn deep_view(&self) -> ConfigView {
        ConfigView {
            name: self.name@,
            public: self.public,
            token_type: self.token_type@,
            start_production: self.start_production@,
        }
    }
}

/// The settings that hold one value, the last one written.
pub enum Setting {
    Name,
    TokenType,
    Start,
}

/// The value that a term writes to a setting, if it writes one.
pub open spec fn written(t: TermView, which: Setting) -> Option<Seq<char>> {
    match (t, which) {
        (TermView::ConfigOption(ConfigOptionView::Name(n)), Setting::Name) => Some(n),
        (TermView::ConfigOption(ConfigOptionView::TokenType(n)), Setting::TokenType) => Some(n),
        (TermView::ConfigOption(ConfigOptionView::Start(n)), Setting::Start) => Some(n),
        _ => None,
    }
}

/// The last value written to a setting: last write wins.
pub open spec fn last_written(ts: Seq<TermView>, which: Setting) -> Option<Seq<char>>
    decreases ts.len(),
{
    if ts.len() == 0 {
        None
    } else {
        match written(ts.last(), which) {
            Some(n) => Some(n),
            None => last_written(ts.drop_last(), which),
        }
    }
}

/// Some term is the `public` directive.
pub open spec fn declared_public(ts: Seq<TermView>) -> bool {
    exists|k: int| 0 <= k < ts.len() && #[trigger] ts[k] == TermView::ConfigOption(
        ConfigOptionView::Public,
    )
}

/// The index of the first production at or after `i`.
pub open spec fn first_production(ts: Seq<TermView>, i: int) -> Option<int>
    decreases ts.len() - i,
{
    if i < 0 || i >= ts.len() {
        None
    } else if ts[i] is Production {
        Some(i)
    } else {
        first_production(ts, i + 1)
    }
}

/// The name of a parser for which the grammar gives none.
pub open spec fn default_name() -> Seq<char> {
    "generated_parser"@
}

/// The settings that a sequence of terms resolves to. A grammar without
/// productions is rejected first, whatever it configures; then one without
/// a token type.
pub open spec fn resolved(ts: Seq<TermView>) -> Result<ConfigView, ErrorView> {
    match first_production(ts, 0) {
        None => Err(ErrorView::NoProductions),
        Some(p) => match last_written(ts, Setting::TokenType) {
            None => Err(ErrorView::MissingRequiredConfig("token_type"@)),
            Some(token_type) => Ok(
                ConfigView {
                    name: match last_written(ts, Setting::Name) {
                        Some(n) => n,
                        None => default_name(),
                    },
                    public: declared_public(ts),
                    token_type,
                    start_production: match last_written(ts, Setting::Start) {
                        Some(n) => n,
                        None => ts[p]->Production_0.ident,
                    },
                },
            ),
        },
    }
}

impl OxiConfig {
    /// Resolves the settings of a grammar from its terms.
    pub fn from_terms(terms: &Vec<Term>) -> (r: Result<OxiConfig, CompileError>)
        ensures
            agrees(r, resolved(terms.deep_view())),
    {
        let ghost ts = terms.deep_view();
        let mut name: Option<String> = None;
        let mut token_type: Option<String> = None;
        let mut start: Option<String> = None;
        let mut public = false;
        let mut first: Option<String> = None;
        let mut i: usize = 0;
        assert(ts.take(0) =~= Seq::empty());
        while i < terms.len()
            invariant
                ts == terms.deep_view(),
                i <= terms.len(),
                name.deep_view() == last_written(ts.take(i as int), Setting::Name),
                token_type.deep_view() == last_written(ts.take(i as int), Setting::TokenType),
                start.deep_view() == last_written(ts.take(i as int), Setting::Start),
                public <==> exists|k: int|
                    0 <= k < i && #[trigger] ts[k] == TermView::ConfigOption(
                        ConfigOptionView::Public,
                    ),
                first is None ==> first_production(ts, 0) == first_production(ts, i as int),
                first matches Some(n) ==> (first_production(ts, 0) matches Some(p) && 0 <= p
                    < ts.len() && ts[p] is Production && ts[p]->Production_0.ident == n@),
            decreases terms.len() - i,
        {
            proof {
                assert(ts.take(i + 1).drop_last() =~= ts.take(i as int));
                assert(ts.take(i + 1).last() == ts[i as int]);
                assert(ts[i as int] == terms[i as int].deep_view());
            }
            match &terms[i] {
                Term::ConfigOption(ConfigOption::Name(n)) => {
                    name = Some(n.clone());
                },
                Term::ConfigOption(ConfigOption::TokenType(n)) => {
                    token_type = Some(n.clone());
                },
                Term::ConfigOption(ConfigOption::Start(n)) => {
                    start = Some(n.clone());
                },
                Term::ConfigOption(ConfigOption::Public) => {
                    public = true;
                },
                Term::ConfigOption(_) => {},
                Term::Production(p) => {
                    if first.is_none() {
                        first = Some(p.ident.clone());
                    }
                },
            }
            i += 1;
        }
        assert(ts.take(i as int) =~= ts);
        match first {
            None => Err(CompileError::NoProductions),
            Some(first_name) => match token_type {
                None => Err(CompileError::MissingRequiredConfig("token_type".to_owned())),
                Some(token_type) => Ok(
                    OxiConfig {
                        name: match name {
                            Some(n) => n,
                            None => "generated_parser".to_owned(),
                        },
                        public,
                        token_type,
                        start_production: match start {
                            Some(n) => n,
                            None => first_name,
                        },
                    },
                ),
            },
        }
    }
}

/// Resolution is repeatable: two resolutions of the same terms end alike,
/// with the same settings or with the same error.
pub proof fn lemma_resolution_repeatable(
    first_terms: Vec<Term>,
    second_terms: Vec<Term>,
    first: Result<OxiConfig, CompileError>,
    second: Result<OxiConfig, CompileError>,
)
    requires
        first_terms.deep_view() == second_terms.deep_view(),
        agrees(first, resolved(first_terms.deep_view())),
        agrees(second, resolved(second_terms.deep_view())),
    ensures
        match (first, second) {
            (Ok(a), Ok(b)) => a.deep_view() == b.deep_view(),
            (Err(a), Err(b)) => a.deep_view() == b.deep_view(),
            _ => false,
        },
{
}

/// An explicit start does not stand in for productions: terms without a
/// production resolve to `NoProductions`, whatever they configure.
pub proof fn lemma_no_productions(ts: Seq<TermView>)
    requires
        forall|k: int| 0 <= k < ts.len() ==> !(#[trigger] ts[k] is Production),
    ensures
        resolved(ts) == Err::<ConfigView, ErrorView>(ErrorView::NoProductions),
{
    lemma_first_production_none(ts, 0);
}

proof fn lemma_first_production_none(ts: Seq<TermView>, i: int)
    requires
        forall|k: int| i <= k < ts.len() && 0 <= k ==> !(#[trigger] ts[k] is Production),
    ensures
        first_production(ts, i) is None,
    decreases ts.len() - i,
{
    if 0 <= i < ts.len() {
        lemma_first_production_none(ts, i + 1);
    }
}

proof fn lemma_first_production_some(ts: Seq<TermView>, i: int)
    requires
        0 <= i,
    ensures
        match first_production(ts, i) {
            Some(p) => 0 <= i <= p < ts.len() && ts[p] is Production && forall|k: int|
                i <= k < p ==> !(#[trigger] ts[k] is Production),
            None => forall|k: int|
                i <= k < ts.len() && 0 <= k ==> !(#[trigger] ts[k] is Production),
        },
    decreases ts.len() - i,
{
    if 0 <= i < ts.len() && !(ts[i] is Production) {
        lemma_first_production_some(ts, i + 1);
    }
}

proof fn lemma_first_production_is(ts: Seq<TermView>, i: int, p: int)
    requires
        0 <= i <= p < ts.len(),
        ts[p] is Production,
        forall|k: int| i <= k < p ==> !(#[trigger] ts[k] is Production),
    ensures
        first_production(ts, i) == Some(p),
    decreases p - i,
{
    if i < p {
        lemma_first_production_is(ts, i + 1, p);
    }
}

proof fn lemma_last_written_append(a: Seq<TermView>, b: Seq<TermView>, which: Setting)
    ensures
        last_written(a + b, which) == match last_written(b, which) {
            Some(n) => Some(n),
            None => last_written(a, which),
        },
    decreases b.len(),
{
    if b.len() == 0 {
        assert(a + b =~= a);
    } else {
        assert((a + b).drop_last() =~= a + b.drop_last());
        assert((a + b).last() == b.last());
        lemma_last_written_append(a, b.drop_last(), which);
    }
}

/// Resolution is idempotent: writing the same terms a second time after
/// the first changes nothing of what they resolve to.
pub proof fn lemma_resolution_idempotent(ts: Seq<TermView>)
    ensures
        resolved(ts + ts) == resolved(ts),
{
    let twice = ts + ts;
    lemma_last_written_append(ts, ts, Setting::Name);
    lemma_last_written_append(ts, ts, Setting::TokenType);
    lemma_last_written_append(ts, ts, Setting::Start);
    lemma_first_production_some(ts, 0);
    match first_production(ts, 0) {
        Some(p) => {
            assert forall|k: int| 0 <= k < p implies !(#[trigger] twice[k] is Production) by {
                assert(twice[k] == ts[k]);
            }
            assert(twice[p] == ts[p]);
            lemma_first_production_is(twice, 0, p);
        },
        None => {
            assert forall|k: int| 0 <= k < twice.len() implies !(#[trigger] twice[k]
                is Production) by {
                if k < ts.len() {
                    assert(twice[k] == ts[k]);
                } else {
                    assert(twice[k] == ts[k - ts.len()]);
                }
            }
            lemma_first_production_none(twice, 0);
        },
    }
    let public = TermView::ConfigOption(ConfigOptionView::Public);
    if declared_public(ts) {
        let k = choose|k: int| 0 <= k < ts.len() && #[trigger] ts[k] == public;
        assert(twice[k] == public);
    }
    if declared_public(twice) {
        let k = choose|k: int| 0 <= k < twice.len() && #[trigger] twice[k] == public;
        if k < ts.len() {
            assert(ts[k] == public);
        } else {
            assert(ts[k - ts.len()] == public);
        }
    }
}

} // verus!
