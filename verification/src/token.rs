//! Tokens of grammar text, as the Rust lexer splits it.

use vstd::prelude::*;
use vstd::string::*;
use proc_macro2::{Spacing, TokenStream, TokenTree};

verus! {

/// The four kinds of top-level token.
#[derive(Clone, Copy, Debug, PartialEq, Eq, Structural)]
pub enum TokenKind {
    Ident,
    Punct,
    Literal,
    Group,
}

/// One top-level token. A delimited group is a single token whose text
/// holds the group as a whole, delimiters included.
#[derive(Clone, Debug, PartialEq, Eq)]
pub struct Token {
    pub kind: TokenKind,
    pub text: String,
    /// For a punctuation character: whether the next token follows it
    /// without a gap. False for every other kind.
    pub joint: bool,
}

/// A token as plain values.
pub struct TokenView {
    pub kind: TokenKind,
    pub text: Seq<char>,
    pub joint: bool,
}

impl DeepView for Token {
    type V = TokenView;

    open spec fn deep_view(&self) -> TokenView {
        TokenView { kind: self.kind, text: self.text@, joint: self.joint }
    }
}

/// The top-level tokens of a text, or `None` where the text is not a
/// sequence of Rust tokens with balanced delimiters.
pub uninterp spec fn lexed(text: Seq<char>) -> Option<Seq<TokenView>>;

/// Whether a text is, as a whole, the syntax of one Rust type.
pub uninterp spec fn type_text(text: Seq<char>) -> bool;

/// Splits a text with `proc_macro2::TokenStream`'s `FromStr` and hands each
/// top-level token tree out by kind, text and spacing. The contract only
/// names the outcome: the lexer is a function of the text alone, since the
/// crate is built without its compiler bridge.
#[verifier::external_body]
pub(crate) fn lex(text: &str) -> (r: Option<Vec<Token>>)
    ensures
        r.deep_view() == lexed(text@),
{
    let stream = text.parse::<TokenStream>().ok()?;
    Some(stream.into_iter().map(|tree| match tree {
        TokenTree::Ident(i) => Token { kind: TokenKind::Ident, text: i.to_string(), joint: false },
        TokenTree::Punct(p) => Token { kind: TokenKind::Punct, text: p.to_string(), joint: p.spacing() == Spacing::Joint },
        TokenTree::Literal(l) => Token { kind: TokenKind::Literal, text: l.to_string(), joint: false },
        TokenTree::Group(g) => Token { kind: TokenKind::Group, text: g.to_string(), joint: false },
    }).collect())
}

/// Asks `syn::parse_str::<syn::Type>` whether a text parses, as a whole, as
/// a type. The contract only names the answer.
#[verifier::external_body]
pub(crate) fn is_type(text: &str) -> (ok: bool)
    ensures
        ok == type_text(text@),
{
    syn::parse_str::<syn::Type>(text).is_ok()
}

/// The text between a token and the next when tokens are written out
/// again: nothing after a joint punctuation character, one space otherwise.
pub open spec fn gap(t: TokenView) -> Seq<char> {
    if t.kind == TokenKind::Punct && t.joint {
        Seq::empty()
    } else {
        " "@
    }
}

/// The tokens written out in order, with the gaps between them.
pub open spec fn rendered(ts: Seq<TokenView>) -> Seq<char>
    decreases ts.len(),
{
    if ts.len() == 0 {
        Seq::empty()
    } else if ts.len() == 1 {
        ts[0].text
    } else {
        rendered(ts.drop_last()) + gap(ts[ts.len() - 2]) + ts.last().text
    }
}

/// Whether a text equals a literal.
pub fn text_is(text: &String, lit: &str) -> (r: bool)
    ensures
        r == (text@ == lit@),
{
    let owned = lit.to_owned();
    *text == owned
}

/// Writes out the tokens from `from` up to `to`.
pub fn render(tokens: &Vec<Token>, from: usize, to: usize) -> (r: String)
    requires
        from <= to <= tokens.len(),
    ensures
        r@ == rendered(tokens.deep_view().subrange(from as int, to as int)),
{
    let mut out = String::new();
    let mut i: usize = from;
    let ghost ts = tokens.deep_view();
    while i < to
        invariant
            from <= i <= to <= tokens.len(),
            ts == tokens.deep_view(),
            out@ == rendered(ts.subrange(from as int, i as int)),
        decreases to - i,
    {
        let tok = &tokens[i];
        proof {
            let next = ts.subrange(from as int, i + 1);
            assert(next.drop_last() =~= ts.subrange(from as int, i as int));
            assert(next.last() == tok.deep_view());
            if i > from {
                assert(next[next.len() - 2] == tokens[i - 1].deep_view());
            } else {
                assert(out@ + tok.text@ =~= tok.text@);
            }
        }
        if i > from {
            let prev = &tokens[i - 1];
            if !(prev.kind == TokenKind::Punct && prev.joint) {
                out.append(" ");
            }
        }
        out.append(tok.text.as_str());
        i += 1;
    }
    out
}

} // verus!
