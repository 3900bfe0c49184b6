//! The fatal diagnostics of the compiler.

use vstd::prelude::*;

verus! {

/// Why a grammar was rejected.
#[derive(Clone, Debug, PartialEq, Eq)]
pub enum CompileError {
    /// The text does not follow the grammar syntax. Holds the index of the
    /// top-level token at which parsing stopped, or `None` when the text
    /// could not be split into tokens at all.
    SyntaxError(Option<usize>),
    /// A directive with a name that is not recognised.
    UnknownDirective(String),
    /// A required directive is absent. Holds the directive's name.
    MissingRequiredConfig(String),
    /// The grammar declares no production.
    NoProductions,
    /// A name is used as a production but no production declares it.
    UndefinedSymbol(String),
    /// A name is listed under more than one precedence level.
    AmbiguousPrecedence(String),
    /// A production from which no finite sentence can be derived.
    NonTerminatingProduction(String),
    /// A shift/reduce conflict that precedence does not settle.
    UnresolvableConflict(Conflict),
    /// A placeholder in action code that refers past the end of its arm.
    PlaceholderOutOfRange(BadPlaceholder),
}

/// The parties of a shift/reduce conflict.
#[derive(Clone, Debug, PartialEq, Eq)]
pub struct Conflict {
    /// The automaton state in which the conflict arises.
    pub state: usize,
    /// The rule that could be reduced.
    pub reduce_rule: usize,
    /// The rule of an item that could shift the token.
    pub shift_rule: usize,
    /// The name of the token on which both apply.
    pub token: String,
}

/// Where an out-of-range placeholder stands.
#[derive(Clone, Debug, PartialEq, Eq)]
pub struct BadPlaceholder {
    /// The name of the production.
    pub production: String,
    /// The index of the arm inside the production.
    pub arm: usize,
    /// The index that the placeholder names.
    pub index: usize,
}

/// A conflict as plain values.
pub struct ConflictView {
    pub state: usize,
    pub reduce_rule: usize,
    pub shift_rule: usize,
    pub token: Seq<char>,
}

/// An out-of-range placeholder as plain values.
pub struct BadPlaceholderView {
    pub production: Seq<char>,
    pub arm: usize,
    pub index: usize,
}

/// A diagnostic as plain values.
pub enum ErrorView {
    SyntaxError(Option<usize>),
    UnknownDirective(Seq<char>),
    MissingRequiredConfig(Seq<char>),
    NoProductions,
    UndefinedSymbol(Seq<char>),
    AmbiguousPrecedence(Seq<char>),
    NonTerminatingProduction(Seq<char>),
    UnresolvableConflict(ConflictView),
    PlaceholderOutOfRange(BadPlaceholderView),
}

impl DeepView for Conflict {
    type V = ConflictView;

    open spec fn deep_view(&self) -> ConflictView {
        ConflictView {
            state: self.state,
            reduce_rule: self.reduce_rule,
            shift_rule: self.shift_rule,
            token: self.token@,
        }
    }
}

impl DeepView for BadPlaceholder {
    type V = BadPlaceholderView;

    open spec fn deep_view(&self) -> BadPlaceholderView {
        BadPlaceholderView { production: self.production@, arm: self.arm, index: self.index }
    }
}

impl DeepView for CompileError {
    type V = ErrorView;

    open spec fn deep_view(&self) -> ErrorView {
        match self {
            CompileError::SyntaxError(at) => ErrorView::SyntaxError(*at),
            CompileError::UnknownDirective(n) => ErrorView::UnknownDirective(n@),
            CompileError::MissingRequiredConfig(n) => ErrorView::MissingRequiredConfig(n@),
            CompileError::NoProductions => ErrorView::NoProductions,
            CompileError::UndefinedSymbol(n) => ErrorView::UndefinedSymbol(n@),
            CompileError::AmbiguousPrecedence(n) => ErrorView::AmbiguousPrecedence(n@),
            CompileError::NonTerminatingProduction(n) => ErrorView::NonTerminatingProduction(n@),
            CompileError::UnresolvableConflict(c) => ErrorView::UnresolvableConflict(
                c.deep_view(),
            ),
            CompileError::PlaceholderOutOfRange(p) => ErrorView::PlaceholderOutOfRange(
                p.deep_view(),
            ),
        }
    }
}

/// An executable result and its model agree: both succeed with matching
/// values, or both fail with matching errors.
pub open spec fn agrees<T: DeepView>(
    r: Result<T, CompileError>,
    model: Result<T::V, ErrorView>,
) -> bool {
    match (r, model) {
        (Ok(v), Ok(m)) => v.deep_view() == m,
        (Err(e), Err(m)) => e.deep_view() == m,
        _ => false,
    }
}

} // verus!
