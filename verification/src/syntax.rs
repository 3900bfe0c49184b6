//! The structural parser: from tokens to an ordered sequence of terms.
//!
//! ```text
//! grammar       := term*
//! term          := config_option | production
//! config_option := '%' name config_args
//! production    := ident ':' type '=' arm ('|' arm)* ';'
//! arm           := symbol* '{' action_code '}'
//! ```

use vstd::prelude::*;
use crate::error::{CompileError, ErrorView};
use crate::token::{
    is_type, lex, lexed, render, rendered, text_is, type_text, Token, TokenKind, TokenView,
};

verus! {

/// A terminal or nonterminal as written inside a production arm.
#[derive(Clone, Debug, PartialEq, Eq)]
pub struct Symbol(pub String);

/// One alternative of a production: its symbols and its action code, the
/// brace group kept as written.
#[derive(Clone, Debug, PartialEq, Eq)]
pub struct ProductionArm {
    pub symbols: Vec<Symbol>,
    pub code: String,
}

/// A named production with its result type and its arms in order.
#[derive(Clone, Debug, PartialEq, Eq)]
pub struct Production {
    pub ident: String,
    pub typ: String,
    pub arms: Vec<ProductionArm>,
}

/// One configuration directive.
#[derive(Clone, Debug, PartialEq, Eq)]
pub enum ConfigOption {
    /// The name of the generated parser function.
    Name(String),
    /// The generated parser function is public.
    Public,
    /// The type of the tokens handed to the parser.
    TokenType(String),
    /// The production at which parsing starts.
    Start(String),
    /// A precedence level of left-associative names.
    LeftAssoc(Vec<String>),
    /// A precedence level of right-associative names.
    RightAssoc(Vec<String>),
    /// A precedence level of non-associative names.
    NonAssoc(Vec<String>),
    /// A precedence level without associativity.
    Precedence(Vec<String>),
}

/// One term of a grammar text.
#[derive(Clone, Debug, PartialEq, Eq)]
pub enum Term {
    ConfigOption(ConfigOption),
    Production(Production),
}

/// An arm as plain values.
pub struct ArmView {
    pub symbols: Seq<Seq<char>>,
    pub code: Seq<char>,
}

/// A production as plain values.
pub struct ProductionView {
    pub ident: Seq<char>,
    pub typ: Seq<char>,
    pub arms: Seq<ArmView>,
}

/// A directive as plain values.
pub enum ConfigOptionView {
    Name(Seq<char>),
    Public,
    TokenType(Seq<char>),
    Start(Seq<char>),
    LeftAssoc(Seq<Seq<char>>),
    RightAssoc(Seq<Seq<char>>),
    NonAssoc(Seq<Seq<char>>),
    Precedence(Seq<Seq<char>>),
}

/// A term as plain values.
pub enum TermView {
    ConfigOption(ConfigOptionView),
    Production(ProductionView),
}

impl DeepView for Symbol {
    type V = Seq<char>;

    open spec fn deep_view(&self) -> Seq<char> {
        self.0@
    }
}

impl DeepView for ProductionArm {
    type V = ArmView;

    open spec fn deep_view(&self) -> ArmView {
        ArmView { symbols: self.symbols.deep_view(), code: self.code@ }
    }
}

impl DeepView for Production {
    type V = ProductionView;

    open spec fn deep_view(&self) -> ProductionView {
        ProductionView { ident: self.ident@, typ: self.typ@, arms: self.arms.deep_view() }
    }
}

impl DeepView for ConfigOption {
    type V = ConfigOptionView;

    open spec fn deep_view(&self) -> ConfigOptionView {
        match self {
            ConfigOption::Name(n) => ConfigOptionView::Name(n@),
            ConfigOption::Public => ConfigOptionView::Public,
            ConfigOption::TokenType(t) => ConfigOptionView::TokenType(t@),
            ConfigOption::Start(n) => ConfigOptionView::Start(n@),
            ConfigOption::LeftAssoc(l) => ConfigOptionView::LeftAssoc(l.deep_view()),
            ConfigOption::RightAssoc(l) => ConfigOptionView::RightAssoc(l.deep_view()),
            ConfigOption::NonAssoc(l) => ConfigOptionView::NonAssoc(l.deep_view()),
            ConfigOption::Precedence(l) => ConfigOptionView::Precedence(l.deep_view()),
        }
    }
}

impl DeepView for Term {
    type V = TermView;

    open spec fn deep_view(&self) -> TermView {
        match self {
            Term::ConfigOption(c) => TermView::ConfigOption(c.deep_view()),
            Term::Production(p) => TermView::Production(p.deep_view()),
        }
    }
}

/// The four directives that declare a precedence level.
#[derive(Clone, Copy, Debug, PartialEq, Eq, Structural)]
pub enum LevelKind {
    Left,
    Right,
    NonAssoc,
    Precedence,
}

// ---------------------------------------------------------------------
// The grammar of grammar texts, over tokens
// ---------------------------------------------------------------------

/// A step of the parser and its model agree: both succeed with matching
/// values at the same position, or both fail with matching errors.
pub open spec fn step_agrees<T: DeepView>(
    r: Result<(T, usize), CompileError>,
    model: Result<(T::V, int), ErrorView>,
) -> bool {
    match (r, model) {
        (Ok((v, j)), Ok((m, k))) => v.deep_view() == m && j == k,
        (Err(e), Err(m)) => e.deep_view() == m,
        _ => false,
    }
}

/// The syntax error raised at token `i`.
pub open spec fn syntax_error(i: int) -> ErrorView {
    ErrorView::SyntaxError(Some(i as usize))
}

/// A token of the kind stands at `i`.
pub open spec fn token_at(ts: Seq<TokenView>, i: int, kind: TokenKind) -> bool {
    0 <= i < ts.len() && ts[i].kind == kind
}

/// The punctuation character `c` stands at `i`.
pub open spec fn punct_at(ts: Seq<TokenView>, i: int, c: Seq<char>) -> bool {
    token_at(ts, i, TokenKind::Punct) && ts[i].text == c
}

/// An identifier stands at `i`.
pub open spec fn ident_at(ts: Seq<TokenView>, i: int) -> bool {
    token_at(ts, i, TokenKind::Ident)
}

/// A brace group stands at `i`.
pub open spec fn brace_at(ts: Seq<TokenView>, i: int) -> bool {
    token_at(ts, i, TokenKind::Group) && ts[i].text.len() > 0 && ts[i].text[0] == '{'
}

/// A production begins at `i`: an identifier followed by a lone colon.
pub open spec fn production_at(ts: Seq<TokenView>, i: int) -> bool {
    ident_at(ts, i) && punct_at(ts, i + 1, ":"@) && !ts[i + 1].joint
}

/// Where the run of names that begins at `i` ends. In a directive's list a
/// name that begins a production does not belong to the run.
pub open spec fn names_end(ts: Seq<TokenView>, i: int, in_list: bool) -> int
    decreases ts.len() - i,
{
    if ident_at(ts, i) && !(in_list && production_at(ts, i)) {
        names_end(ts, i + 1, in_list)
    } else {
        i
    }
}

/// The texts of the tokens from `from` up to `to`.
pub open spec fn names(ts: Seq<TokenView>, from: int, to: int) -> Seq<Seq<char>> {
    Seq::new((to - from) as nat, |k: int| ts[from + k].text)
}

/// Where a type may end: in a production header before an equals sign, in
/// a directive before the next term or at the end of the text.
pub open spec fn type_stop(ts: Seq<TokenView>, k: int, header: bool) -> bool {
    if header {
        punct_at(ts, k, "="@)
    } else {
        k == ts.len() || punct_at(ts, k, "%"@) || production_at(ts, k)
    }
}

/// The tokens from `from` up to `k` are a type that ends at a stop.
pub open spec fn type_found(ts: Seq<TokenView>, from: int, k: int, header: bool) -> bool {
    type_stop(ts, k, header) && type_text(rendered(ts.subrange(from, k)))
}

/// The first position at or after `k` at which a type that begins at
/// `from` is found.
pub open spec fn type_end(ts: Seq<TokenView>, from: int, k: int, header: bool) -> Option<int>
    decreases ts.len() - k,
{
    if k < from || from < 0 || k > ts.len() {
        None
    } else if type_found(ts, from, k, header) {
        Some(k)
    } else if k == ts.len() {
        None
    } else {
        type_end(ts, from, k + 1, header)
    }
}

/// The level kind that a directive name declares.
pub open spec fn level_kind(name: Seq<char>) -> Option<LevelKind> {
    if name == "left"@ {
        Some(LevelKind::Left)
    } else if name == "right"@ {
        Some(LevelKind::Right)
    } else if name == "nonassoc"@ {
        Some(LevelKind::NonAssoc)
    } else if name == "precedence"@ {
        Some(LevelKind::Precedence)
    } else {
        None
    }
}

/// The directive that declares a level of the kind with the names.
pub open spec fn level_option(kind: LevelKind, list: Seq<Seq<char>>) -> ConfigOptionView {
    match kind {
        LevelKind::Left => ConfigOptionView::LeftAssoc(list),
        LevelKind::Right => ConfigOptionView::RightAssoc(list),
        LevelKind::NonAssoc => ConfigOptionView::NonAssoc(list),
        LevelKind::Precedence => ConfigOptionView::Precedence(list),
    }
}

/// The directive that begins at `i`, and where it ends.
pub open spec fn directive(ts: Seq<TokenView>, i: int) -> Result<(ConfigOptionView, int), ErrorView> {
    if !punct_at(ts, i, "%"@) {
        Err(syntax_error(i))
    } else if !ident_at(ts, i + 1) {
        Err(syntax_error(i + 1))
    } else {
        let name = ts[i + 1].text;
        if name == "name"@ {
            if ident_at(ts, i + 2) {
                Ok((ConfigOptionView::Name(ts[i + 2].text), i + 3))
            } else {
                Err(syntax_error(i + 2))
            }
        } else if name == "public"@ {
            Ok((ConfigOptionView::Public, i + 2))
        } else if name == "token_type"@ {
            match type_end(ts, i + 2, i + 2, false) {
                Some(k) => Ok((ConfigOptionView::TokenType(rendered(ts.subrange(i + 2, k))), k)),
                None => Err(syntax_error(i + 2)),
            }
        } else if name == "start"@ {
            if ident_at(ts, i + 2) {
                Ok((ConfigOptionView::Start(ts[i + 2].text), i + 3))
            } else {
                Err(syntax_error(i + 2))
            }
        } else {
            match level_kind(name) {
                Some(kind) => {
                    let e = names_end(ts, i + 2, true);
                    if e == i + 2 {
                        Err(syntax_error(i + 2))
                    } else {
                        Ok((level_option(kind, names(ts, i + 2, e)), e))
                    }
                },
                None => Err(ErrorView::UnknownDirective(name)),
            }
        }
    }
}

/// The arm that begins at `i`, and where it ends.
pub open spec fn arm(ts: Seq<TokenView>, i: int) -> Result<(ArmView, int), ErrorView> {
    let e = names_end(ts, i, false);
    if brace_at(ts, e) {
        Ok((ArmView { symbols: names(ts, i, e), code: ts[e].text }, e + 1))
    } else {
        Err(syntax_error(e))
    }
}

/// The arms of a production from `i` on, after those in `acc`, up to the
/// closing semicolon.
pub open spec fn arms(ts: Seq<TokenView>, i: int, acc: Seq<ArmView>) -> Result<
    (Seq<ArmView>, int),
    ErrorView,
>
    decreases ts.len() - i,
{
    match arm(ts, i) {
        Err(e) => Err(e),
        Ok((a, j)) => {
            if punct_at(ts, j, ";"@) {
                Ok((acc.push(a), j + 1))
            } else if punct_at(ts, j, "|"@) {
                proof {
                    if 0 <= i <= ts.len() {
                        lemma_names_end_bounds(ts, i, false);
                    }
                }
                arms(ts, j + 1, acc.push(a))
            } else {
                Err(syntax_error(j))
            }
        },
    }
}

/// The production that begins at `i`, and where it ends.
pub open spec fn production(ts: Seq<TokenView>, i: int) -> Result<(ProductionView, int), ErrorView> {
    if !ident_at(ts, i) {
        Err(syntax_error(i))
    } else if !punct_at(ts, i + 1, ":"@) {
        Err(syntax_error(i + 1))
    } else {
        match type_end(ts, i + 2, i + 2, true) {
            None => Err(syntax_error(i + 2)),
            Some(k) => match arms(ts, k + 1, Seq::empty()) {
                Err(e) => Err(e),
                Ok((a, j)) => Ok(
                    (
                        ProductionView {
                            ident: ts[i].text,
                            typ: rendered(ts.subrange(i + 2, k)),
                            arms: a,
                        },
                        j,
                    ),
                ),
            },
        }
    }
}

/// The term that begins at `i`: a directive after a percent sign, a
/// production otherwise.
pub open spec fn term(ts: Seq<TokenView>, i: int) -> Result<(TermView, int), ErrorView> {
    if punct_at(ts, i, "%"@) {
        match directive(ts, i) {
            Ok((c, j)) => Ok((TermView::ConfigOption(c), j)),
            Err(e) => Err(e),
        }
    } else {
        match production(ts, i) {
            Ok((p, j)) => Ok((TermView::Production(p), j)),
            Err(e) => Err(e),
        }
    }
}

/// The terms from `i` to the end of the tokens, after those in `acc`.
pub open spec fn terms(ts: Seq<TokenView>, i: int, acc: Seq<TermView>) -> Result<
    Seq<TermView>,
    ErrorView,
>
    decreases ts.len() - i,
{
    if i >= ts.len() {
        Ok(acc)
    } else {
        match term(ts, i) {
            Err(e) => Err(e),
            Ok((t, j)) => {
                proof {
                    if 0 <= i {
                        lemma_term_advances(ts, i);
                    }
                }
                terms(ts, j, acc.push(t))
            },
        }
    }
}

/// The terms of a grammar text.
pub open spec fn parsed(text: Seq<char>) -> Result<Seq<TermView>, ErrorView> {
    match lexed(text) {
        None => Err(ErrorView::SyntaxError(None)),
        Some(ts) => terms(ts, 0, Seq::empty()),
    }
}

// ---------------------------------------------------------------------
// Forward progress
// ---------------------------------------------------------------------

/// A run of names ends at or after its beginning, inside the text.
pub proof fn lemma_names_end_bounds(ts: Seq<TokenView>, i: int, in_list: bool)
    requires
        0 <= i <= ts.len(),
    ensures
        i <= names_end(ts, i, in_list) <= ts.len(),
    decreases ts.len() - i,
{
    if ident_at(ts, i) && !(in_list && production_at(ts, i)) {
        lemma_names_end_bounds(ts, i + 1, in_list);
    }
}

/// A type ends at or after the position from which it is looked for,
/// inside the text, where a type is found.
pub proof fn lemma_type_end_bounds(ts: Seq<TokenView>, from: int, k: int, header: bool)
    ensures
        type_end(ts, from, k, header) matches Some(e) ==> k <= e <= ts.len() && type_found(
            ts,
            from,
            e,
            header,
        ),
    decreases ts.len() - k,
{
    if k < from || from < 0 || k > ts.len() {
    } else if type_found(ts, from, k, header) {
    } else if k == ts.len() {
    } else {
        lemma_type_end_bounds(ts, from, k + 1, header);
    }
}

/// The arms of a production that parse end strictly after their
/// beginning, inside the text.
pub proof fn lemma_arms_advance(ts: Seq<TokenView>, i: int, acc: Seq<ArmView>)
    requires
        0 <= i <= ts.len(),
    ensures
        arms(ts, i, acc) matches Ok((_, j)) ==> i < j <= ts.len(),
    decreases ts.len() - i,
{
    lemma_names_end_bounds(ts, i, false);
    match arm(ts, i) {
        Err(e) => {},
        Ok((a, j)) => {
            if punct_at(ts, j, ";"@) {
            } else if punct_at(ts, j, "|"@) {
                lemma_arms_advance(ts, j + 1, acc.push(a));
            }
        },
    }
}

/// Every term that parses consumes at least one token and ends inside the
/// text.
pub proof fn lemma_term_advances(ts: Seq<TokenView>, i: int)
    requires
        0 <= i,
    ensures
        term(ts, i) matches Ok((_, j)) ==> i < j <= ts.len(),
{
    if punct_at(ts, i, "%"@) {
        if ident_at(ts, i + 1) {
            lemma_type_end_bounds(ts, i + 2, i + 2, false);
            lemma_names_end_bounds(ts, i + 2, true);
        }
    } else if ident_at(ts, i) && punct_at(ts, i + 1, ":"@) {
        lemma_type_end_bounds(ts, i + 2, i + 2, true);
        match type_end(ts, i + 2, i + 2, true) {
            None => {},
            Some(k) => {
                lemma_arms_advance(ts, k + 1, Seq::empty());
            },
        }
    }
}

// ---------------------------------------------------------------------
// The parser
// ---------------------------------------------------------------------

pub(crate) fn is_kind(tokens: &Vec<Token>, i: usize, kind: TokenKind) -> (r: bool)
    ensures
        r == token_at(tokens.deep_view(), i as int, kind),
        r ==> i < usize::MAX,
{
    i < tokens.len() && tokens[i].kind == kind
}

pub(crate) fn is_punct(tokens: &Vec<Token>, i: usize, c: &str) -> (r: bool)
    ensures
        r == punct_at(tokens.deep_view(), i as int, c@),
        r ==> i < usize::MAX,
{
    i < tokens.len() && tokens[i].kind == TokenKind::Punct && text_is(&tokens[i].text, c)
}

fn starts_production(tokens: &Vec<Token>, i: usize) -> (r: bool)
    ensures
        r == production_at(tokens.deep_view(), i as int),
{
    is_kind(tokens, i, TokenKind::Ident) && is_punct(tokens, i + 1, ":") && !tokens[i + 1].joint
}

fn is_brace(tokens: &Vec<Token>, i: usize) -> (r: bool)
    ensures
        r == brace_at(tokens.deep_view(), i as int),
        r ==> i < usize::MAX,
{
    if i < tokens.len() && tokens[i].kind == TokenKind::Group {
        let text = tokens[i].text.as_str();
        text.unicode_len() > 0 && text.get_char(0) == '{'
    } else {
        false
    }
}

fn is_type_stop(tokens: &Vec<Token>, k: usize, header: bool) -> (r: bool)
    ensures
        r == type_stop(tokens.deep_view(), k as int, header),
{
    if header {
        is_punct(tokens, k, "=")
    } else {
        k == tokens.len() || is_punct(tokens, k, "%") || starts_production(tokens, k)
    }
}

/// Reads the run of names that begins at `from`.
fn read_names(tokens: &Vec<Token>, from: usize, in_list: bool) -> (r: (Vec<String>, usize))
    requires
        from <= tokens.len(),
    ensures
        r.1 == names_end(tokens.deep_view(), from as int, in_list),
        from <= r.1 <= tokens.len(),
        r.0.deep_view() == names(tokens.deep_view(), from as int, r.1 as int),
{
    let ghost ts = tokens.deep_view();
    let mut out: Vec<String> = Vec::new();
    let mut i: usize = from;
    assert(out.deep_view() =~= names(ts, from as int, from as int));
    while is_kind(tokens, i, TokenKind::Ident) && !(in_list && starts_production(tokens, i))
        invariant
            ts == tokens.deep_view(),
            from <= i <= tokens.len(),
            names_end(ts, from as int, in_list) == names_end(ts, i as int, in_list),
            out.deep_view() == names(ts, from as int, i as int),
        decreases tokens.len() - i,
    {
        let ghost before = out.deep_view();
        let name = tokens[i].text.clone();
        out.push(name);
        assert(out.deep_view() =~= before.push(name@));
        i += 1;
        assert(out.deep_view() =~= names(ts, from as int, i as int));
    }
    (out, i)
}

fn to_symbols(list: Vec<String>) -> (r: Vec<Symbol>)
    ensures
        r.deep_view() == list.deep_view(),
{
    let mut out: Vec<Symbol> = Vec::new();
    let mut i: usize = 0;
    assert(out.deep_view() =~= list.deep_view().take(0));
    while i < list.len()
        invariant
            i <= list.len(),
            out.deep_view() == list.deep_view().take(i as int),
        decreases list.len() - i,
    {
        let ghost before = out.deep_view();
        let name = list[i].clone();
        out.push(Symbol(name));
        assert(out.deep_view() =~= before.push(name@));
        i += 1;
        assert(out.deep_view() =~= list.deep_view().take(i as int));
    }
    assert(list.deep_view().take(i as int) =~= list.deep_view());
    out
}

/// Finds the type that begins at `from`: its text and where it ends.
fn find_type(tokens: &Vec<Token>, from: usize, header: bool) -> (r: Option<(String, usize)>)
    requires
        from <= tokens.len(),
    ensures
        match type_end(tokens.deep_view(), from as int, from as int, header) {
            Some(k) => r matches Some((text, e)) && e == k && text@ == rendered(
                tokens.deep_view().subrange(from as int, k),
            ),
            None => r is None,
        },
{
    let ghost ts = tokens.deep_view();
    let mut k: usize = from;
    loop
        invariant
            ts == tokens.deep_view(),
            from <= k <= tokens.len(),
            type_end(ts, from as int, from as int, header) == type_end(
                ts,
                from as int,
                k as int,
                header,
            ),
        decreases tokens.len() - k,
    {
        if is_type_stop(tokens, k, header) {
            let text = render(tokens, from, k);
            if is_type(text.as_str()) {
                return Some((text, k));
            }
        }
        if k == tokens.len() {
            return None;
        }
        k += 1;
    }
}

impl Symbol {
    /// The symbol that the identifier at `at` names.
    pub fn parse(tokens: &Vec<Token>, at: usize) -> (r: Result<(Symbol, usize), CompileError>)
        ensures
            step_agrees(
                r,
                if ident_at(tokens.deep_view(), at as int) {
                    Ok((tokens.deep_view()[at as int].text, at + 1))
                } else {
                    Err(syntax_error(at as int))
                },
            ),
    {
        if is_kind(tokens, at, TokenKind::Ident) {
            Ok((Symbol(tokens[at].text.clone()), at + 1))
        } else {
            Err(CompileError::SyntaxError(Some(at)))
        }
    }
}

impl ProductionArm {
    /// Parses the arm that begins at `at`.
    pub fn parse(tokens: &Vec<Token>, at: usize) -> (r: Result<
        (ProductionArm, usize),
        CompileError,
    >)
        ensures
            step_agrees(r, arm(tokens.deep_view(), at as int)),
    {
        if at > tokens.len() {
            return Err(CompileError::SyntaxError(Some(at)));
        }
        let (list, e) = read_names(tokens, at, false);
        if is_brace(tokens, e) {
            let symbols = to_symbols(list);
            Ok((ProductionArm { symbols, code: tokens[e].text.clone() }, e + 1))
        } else {
            Err(CompileError::SyntaxError(Some(e)))
        }
    }
}

/// Parses the arms of a production from `from` up to the semicolon.
fn parse_arms(tokens: &Vec<Token>, from: usize) -> (r: Result<
    (Vec<ProductionArm>, usize),
    CompileError,
>)
    requires
        from <= tokens.len(),
    ensures
        step_agrees(r, arms(tokens.deep_view(), from as int, Seq::empty())),
{
    let ghost ts = tokens.deep_view();
    let mut out: Vec<ProductionArm> = Vec::new();
    let mut i: usize = from;
    assert(out.deep_view() =~= Seq::empty());
    loop
        invariant
            ts == tokens.deep_view(),
            from <= i <= tokens.len(),
            arms(ts, from as int, Seq::empty()) == arms(ts, i as int, out.deep_view()),
        decreases tokens.len() - i,
    {
        proof {
            lemma_names_end_bounds(ts, i as int, false);
        }
        let ghost before = out.deep_view();
        match ProductionArm::parse(tokens, i) {
            Err(e) => {
                return Err(e);
            },
            Ok((a, j)) => {
                out.push(a);
                assert(out.deep_view() =~= before.push(a.deep_view()));
                if is_punct(tokens, j, ";") {
                    return Ok((out, j + 1));
                } else if is_punct(tokens, j, "|") {
                    i = j + 1;
                } else {
                    return Err(CompileError::SyntaxError(Some(j)));
                }
            },
        }
    }
}

impl Production {
    /// Parses the production that begins at `at`.
    pub fn parse(tokens: &Vec<Token>, at: usize) -> (r: Result<(Production, usize), CompileError>)
        ensures
            step_agrees(r, production(tokens.deep_view(), at as int)),
    {
        if !is_kind(tokens, at, TokenKind::Ident) {
            return Err(CompileError::SyntaxError(Some(at)));
        }
        if !is_punct(tokens, at + 1, ":") {
            return Err(CompileError::SyntaxError(Some(at + 1)));
        }
        // reading the length tells the verifier that positions fit in `usize`
        let _length = tokens.len();
        proof {
            lemma_type_end_bounds(tokens.deep_view(), at + 2, at + 2, true);
        }
        match find_type(tokens, at + 2, true) {
            None => Err(CompileError::SyntaxError(Some(at + 2))),
            Some((typ, k)) => match parse_arms(tokens, k + 1) {
                Err(e) => Err(e),
                Ok((arms, j)) => Ok((Production { ident: tokens[at].text.clone(), typ, arms }, j)),
            },
        }
    }
}

fn named_level(name: &String) -> (r: Option<LevelKind>)
    ensures
        r == level_kind(name@),
{
    if text_is(name, "left") {
        Some(LevelKind::Left)
    } else if text_is(name, "right") {
        Some(LevelKind::Right)
    } else if text_is(name, "nonassoc") {
        Some(LevelKind::NonAssoc)
    } else if text_is(name, "precedence") {
        Some(LevelKind::Precedence)
    } else {
        None
    }
}

impl ConfigOption {
    /// Parses the directive that begins at `at`.
    pub fn parse(tokens: &Vec<Token>, at: usize) -> (r: Result<
        (ConfigOption, usize),
        CompileError,
    >)
        ensures
            step_agrees(r, directive(tokens.deep_view(), at as int)),
    {
        if !is_punct(tokens, at, "%") {
            return Err(CompileError::SyntaxError(Some(at)));
        }
        if !is_kind(tokens, at + 1, TokenKind::Ident) {
            return Err(CompileError::SyntaxError(Some(at + 1)));
        }
        let name = &tokens[at + 1].text;
        if text_is(name, "name") {
            if is_kind(tokens, at + 2, TokenKind::Ident) {
                Ok((ConfigOption::Name(tokens[at + 2].text.clone()), at + 3))
            } else {
                Err(CompileError::SyntaxError(Some(at + 2)))
            }
        } else if text_is(name, "public") {
            Ok((ConfigOption::Public, at + 2))
        } else if text_is(name, "token_type") {
            match find_type(tokens, at + 2, false) {
                Some((text, k)) => Ok((ConfigOption::TokenType(text), k)),
                None => Err(CompileError::SyntaxError(Some(at + 2))),
            }
        } else if text_is(name, "start") {
            if is_kind(tokens, at + 2, TokenKind::Ident) {
                Ok((ConfigOption::Start(tokens[at + 2].text.clone()), at + 3))
            } else {
                Err(CompileError::SyntaxError(Some(at + 2)))
            }
        } else {
            match named_level(name) {
                Some(kind) => {
                    let (list, e) = read_names(tokens, at + 2, true);
                    if e == at + 2 {
                        Err(CompileError::SyntaxError(Some(at + 2)))
                    } else {
                        let option = match kind {
                            LevelKind::Left => ConfigOption::LeftAssoc(list),
                            LevelKind::Right => ConfigOption::RightAssoc(list),
                            LevelKind::NonAssoc => ConfigOption::NonAssoc(list),
                            LevelKind::Precedence => ConfigOption::Precedence(list),
                        };
                        Ok((option, e))
                    }
                },
                None => Err(CompileError::UnknownDirective(name.clone())),
            }
        }
    }
}

impl Term {
    /// Whether the term is a directive.
    pub fn is_config_option(&self) -> (r: bool)
        ensures
            r == (self is ConfigOption),
    {
        match self {
            Term::ConfigOption(_) => true,
            _ => false,
        }
    }

    /// Whether the term is a production.
    pub fn is_production(&self) -> (r: bool)
        ensures
            r == (self is Production),
    {
        match self {
            Term::Production(_) => true,
            _ => false,
        }
    }

    /// The directive, if the term is one.
    pub fn config_option(&self) -> (r: Option<&ConfigOption>)
        ensures
            r == match self {
                Term::ConfigOption(c) => Some(c),
                _ => None,
            },
    {
        match self {
            Term::ConfigOption(cfg) => Some(cfg),
            _ => None,
        }
    }

    /// The production, if the term is one.
    pub fn production(&self) -> (r: Option<&Production>)
        ensures
            r == match self {
                Term::Production(p) => Some(p),
                _ => None,
            },
    {
        match self {
            Term::Production(prod) => Some(prod),
            _ => None,
        }
    }

    /// Parses the term that begins at `at`. A term that parses ends
    /// strictly after `at`.
    pub fn parse(tokens: &Vec<Token>, at: usize) -> (r: Result<(Term, usize), CompileError>)
        ensures
            step_agrees(r, term(tokens.deep_view(), at as int)),
            r matches Ok((_, next)) ==> at < next <= tokens.len(),
    {
        proof {
            lemma_term_advances(tokens.deep_view(), at as int);
        }
        if is_punct(tokens, at, "%") {
            match ConfigOption::parse(tokens, at) {
                Ok((c, j)) => Ok((Term::ConfigOption(c), j)),
                Err(e) => Err(e),
            }
        } else {
            match Production::parse(tokens, at) {
                Ok((p, j)) => Ok((Term::Production(p), j)),
                Err(e) => Err(e),
            }
        }
    }
}

/// Parses a whole token sequence into its terms, in order.
pub fn parse_token_terms(tokens: &Vec<Token>) -> (r: Result<Vec<Term>, CompileError>)
    ensures
        crate::error::agrees(r, terms(tokens.deep_view(), 0, Seq::empty())),
{
    let ghost ts = tokens.deep_view();
    let mut out: Vec<Term> = Vec::new();
    let mut i: usize = 0;
    assert(out.deep_view() =~= Seq::empty());
    while i < tokens.len()
        invariant
            ts == tokens.deep_view(),
            i <= tokens.len(),
            terms(ts, 0, Seq::empty()) == terms(ts, i as int, out.deep_view()),
        decreases tokens.len() - i,
    {
        let ghost before = out.deep_view();
        match Term::parse(tokens, i) {
            Err(e) => {
                return Err(e);
            },
            Ok((t, j)) => {
                out.push(t);
                assert(out.deep_view() =~= before.push(t.deep_view()));
                i = j;
            },
        }
    }
    Ok(out)
}

/// Parses a grammar text into its terms, in order.
pub fn parse_terms(text: &str) -> (r: Result<Vec<Term>, CompileError>)
    ensures
        crate::error::agrees(r, parsed(text@)),
{
    match lex(text) {
        None => Err(CompileError::SyntaxError(None)),
        Some(tokens) => parse_token_terms(&tokens),
    }
}

} // verus!
