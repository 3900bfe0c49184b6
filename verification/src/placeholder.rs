//! Placeholders in action code: `$i` stands for the value of the i-th
//! symbol of the arm, counted from one; `$$` stands for the value under
//! construction.

use vstd::prelude::*;
use vstd::string::*;
use crate::error::{BadPlaceholder, BadPlaceholderView};
use crate::syntax::{is_kind, is_punct, punct_at, token_at, Production, ProductionView};
use crate::token::{lex, lexed, Token, TokenKind, TokenView};

verus! {

/// A decimal digit.
pub open spec fn is_digit(c: char) -> bool {
    '0' <= c <= '9'
}

/// A nonempty text of decimal digits.
pub open spec fn all_digits(s: Seq<char>) -> bool {
    s.len() > 0 && forall|i: int| 0 <= i < s.len() ==> is_digit(#[trigger] s[i])
}

/// The number that a text of decimal digits writes.
pub open spec fn digits_value(s: Seq<char>) -> nat
    decreases s.len(),
{
    if s.len() == 0 {
        0
    } else {
        digits_value(s.drop_last()) * 10 + ((s.last() as int) - ('0' as int)) as nat
    }
}

/// A number as it is reported: numbers beyond the machine's range are
/// reported as the largest number in range.
pub open spec fn capped(v: nat) -> usize {
    if v > usize::MAX {
        usize::MAX
    } else {
        v as usize
    }
}

/// The text of a group without its two delimiters.
pub open spec fn inside(group: Seq<char>) -> Seq<char> {
    group.subrange(1, group.len() - 1)
}

/// The first placeholder, from token `i` on, whose index is not one of
/// `1..=arity`. Groups are looked into up to `depth` levels deep.
pub open spec fn first_bad(ts: Seq<TokenView>, i: int, arity: nat, depth: nat) -> Option<usize>
    decreases depth, ts.len() - i,
{
    if i < 0 || i >= ts.len() {
        None
    } else if punct_at(ts, i, "$"@) && punct_at(ts, i + 1, "$"@) {
        first_bad(ts, i + 2, arity, depth)
    } else if punct_at(ts, i, "$"@) && token_at(ts, i + 1, TokenKind::Literal) && all_digits(
        ts[i + 1].text,
    ) {
        let v = digits_value(ts[i + 1].text);
        if 1 <= v <= arity {
            first_bad(ts, i + 2, arity, depth)
        } else {
            Some(capped(v))
        }
    } else if token_at(ts, i, TokenKind::Group) && depth > 0 && ts[i].text.len() >= 2 {
        match lexed(inside(ts[i].text)) {
            Some(sub) => match first_bad(sub, 0, arity, (depth - 1) as nat) {
                Some(v) => Some(v),
                None => first_bad(ts, i + 1, arity, depth),
            },
            None => first_bad(ts, i + 1, arity, depth),
        }
    } else {
        first_bad(ts, i + 1, arity, depth)
    }
}

/// The first out-of-range placeholder index in the action code of an arm
/// with `arity` symbols. No group nests deeper than its text is long.
pub open spec fn bad_index(code: Seq<char>, arity: nat) -> Option<usize> {
    if code.len() < 2 {
        None
    } else {
        match lexed(inside(code)) {
            Some(ts) => first_bad(ts, 0, arity, code.len()),
            None => None,
        }
    }
}

/// The first arm, from arm `a` of production `p` on, that holds an
/// out-of-range placeholder.
pub open spec fn first_bad_arm(ps: Seq<ProductionView>, p: int, a: int) -> Option<
    BadPlaceholderView,
>
    decreases ps.len() - p, (if 0 <= p < ps.len() { ps[p].arms.len() - a } else { 0 }),
{
    if p < 0 || a < 0 || p >= ps.len() {
        None
    } else if a >= ps[p].arms.len() {
        first_bad_arm(ps, p + 1, 0)
    } else {
        match bad_index(ps[p].arms[a].code, ps[p].arms[a].symbols.len()) {
            Some(v) => Some(
                BadPlaceholderView { production: ps[p].ident, arm: a as usize, index: v },
            ),
            None => first_bad_arm(ps, p, a + 1),
        }
    }
}

/// An arm's placeholders are all in range exactly if no arm is reported.
pub open spec fn placeholders_in_range(ps: Seq<ProductionView>) -> bool {
    forall|p: int, a: int|
        0 <= p < ps.len() && 0 <= a < ps[p].arms.len() ==> bad_index(
            #[trigger] ps[p].arms[a].code,
            ps[p].arms[a].symbols.len(),
        ) is None
}

/// No arm is reported exactly if, from arm `a` of production `p` on, no
/// arm holds an out-of-range placeholder.
pub proof fn lemma_first_bad_arm(ps: Seq<ProductionView>, p: int, a: int)
    requires
        0 <= p,
        0 <= a,
    ensures
        first_bad_arm(ps, p, a) is None <==> forall|p2: int, a2: int|
            p <= p2 < ps.len() && 0 <= a2 < ps[p2].arms.len() && (p2 == p ==> a <= a2)
                ==> bad_index(#[trigger] ps[p2].arms[a2].code, ps[p2].arms[a2].symbols.len())
                is None,
    decreases ps.len() - p, (if 0 <= p < ps.len() { ps[p].arms.len() - a } else { 0 }),
{
    if p >= ps.len() {
    } else if a >= ps[p].arms.len() {
        lemma_first_bad_arm(ps, p + 1, 0);
    } else {
        match bad_index(ps[p].arms[a].code, ps[p].arms[a].symbols.len()) {
            Some(v) => {},
            None => {
                lemma_first_bad_arm(ps, p, a + 1);
            },
        }
    }
}

fn is_index_text(text: &String) -> (r: bool)
    ensures
        r == all_digits(text@),
{
    let s = text.as_str();
    let n = s.unicode_len();
    if n == 0 {
        return false;
    }
    let mut i: usize = 0;
    while i < n
        invariant
            n == text@.len(),
            s@ == text@,
            i <= n,
            forall|k: int| 0 <= k < i ==> is_digit(#[trigger] text@[k]),
        decreases n - i,
    {
        let c = s.get_char(i);
        if !('0' <= c && c <= '9') {
            return false;
        }
        i += 1;
    }
    true
}

/// Reads the number that a text of digits writes, or `None` where it is
/// beyond the machine's range.
fn read_index(text: &String) -> (r: Option<usize>)
    requires
        all_digits(text@),
    ensures
        match r {
            Some(v) => v == digits_value(text@),
            None => digits_value(text@) > usize::MAX,
        },
{
    let s = text.as_str();
    let n = s.unicode_len();
    let mut acc: usize = 0;
    let mut i: usize = 0;
    assert(text@.take(0) =~= Seq::empty());
    while i < n
        invariant
            n == text@.len(),
            s@ == text@,
            i <= n,
            all_digits(text@),
            acc == digits_value(text@.take(i as int)),
        decreases n - i,
    {
        let c = s.get_char(i);
        proof {
            assert(text@.take(i + 1).drop_last() =~= text@.take(i as int));
            assert(text@.take(i + 1).last() == c);
            assert(is_digit(text@[i as int]));
        }
        let d: usize = (c as u32 - '0' as u32) as usize;
        let next = match acc.checked_mul(10) {
            Some(m) => m.checked_add(d),
            None => None,
        };
        match next {
            Some(v) => {
                acc = v;
            },
            None => {
                proof {
                    lemma_digits_grow(text@, i + 1);
                }
                return None;
            },
        }
        i += 1;
    }
    assert(text@.take(i as int) =~= text@);
    Some(acc)
}

/// A longer prefix of a digit text writes no smaller number.
proof fn lemma_digits_grow(s: Seq<char>, i: int)
    requires
        0 <= i <= s.len(),
        forall|k: int| 0 <= k < s.len() ==> is_digit(#[trigger] s[k]),
    ensures
        digits_value(s.take(i)) <= digits_value(s),
    decreases s.len() - i,
{
    if i < s.len() {
        assert(s.take(i + 1).drop_last() =~= s.take(i));
        assert(is_digit(s[i]));
        lemma_digits_grow(s, i + 1);
    } else {
        assert(s.take(i) =~= s);
    }
}

/// Finds the first out-of-range placeholder among the tokens.
fn scan(tokens: &Vec<Token>, arity: usize, depth: usize) -> (r: Option<usize>)
    ensures
        r == first_bad(tokens.deep_view(), 0, arity as nat, depth as nat),
    decreases depth,
{
    let ghost ts = tokens.deep_view();
    let mut i: usize = 0;
    while i < tokens.len()
        invariant
            ts == tokens.deep_view(),
            i <= tokens.len(),
            first_bad(ts, 0, arity as nat, depth as nat) == first_bad(
                ts,
                i as int,
                arity as nat,
                depth as nat,
            ),
        decreases tokens.len() - i,
    {
        if is_punct(tokens, i, "$") && is_punct(tokens, i + 1, "$") {
            i += 2;
        } else if is_punct(tokens, i, "$") && is_kind(tokens, i + 1, TokenKind::Literal)
            && is_index_text(&tokens[i + 1].text) {
            match read_index(&tokens[i + 1].text) {
                Some(v) => {
                    if 1 <= v && v <= arity {
                        i += 2;
                    } else {
                        return Some(v);
                    }
                },
                None => {
                    return Some(usize::MAX);
                },
            }
        } else if is_kind(tokens, i, TokenKind::Group) && depth > 0 {
            let text = tokens[i].text.as_str();
            let n = text.unicode_len();
            if n >= 2 {
                let inner = text.substring_char(1, n - 1);
                match lex(inner) {
                    Some(sub) => {
                        match scan(&sub, arity, depth - 1) {
                            Some(v) => {
                                return Some(v);
                            },
                            None => {},
                        }
                    },
                    None => {},
                }
            }
            i += 1;
        } else {
            i += 1;
        }
    }
    None
}

/// Finds the first out-of-range placeholder in the action code of an arm
/// with `arity` symbols.
pub fn check_code(code: &String, arity: usize) -> (r: Option<usize>)
    ensures
        r == bad_index(code@, arity as nat),
{
    let text = code.as_str();
    let n = text.unicode_len();
    if n < 2 {
        return None;
    }
    let inner = text.substring_char(1, n - 1);
    match lex(inner) {
        Some(tokens) => scan(&tokens, arity, n),
        None => None,
    }
}

/// Finds the first arm with an out-of-range placeholder.
pub fn check_placeholders(productions: &Vec<Production>) -> (r: Option<BadPlaceholder>)
    ensures
        r.deep_view() == first_bad_arm(productions.deep_view(), 0, 0),
        r is None <==> placeholders_in_range(productions.deep_view()),
{
    let ghost ps = productions.deep_view();
    proof {
        lemma_first_bad_arm(ps, 0, 0);
    }
    let mut p: usize = 0;
    while p < productions.len()
        invariant
            ps == productions.deep_view(),
            p <= productions.len(),
            first_bad_arm(ps, 0, 0) == first_bad_arm(ps, p as int, 0),
        decreases productions.len() - p,
    {
        let production = &productions[p];
        let mut a: usize = 0;
        while a < production.arms.len()
            invariant
                ps == productions.deep_view(),
                p < productions.len(),
                production == &productions[p as int],
                a <= production.arms.len(),
                first_bad_arm(ps, 0, 0) == first_bad_arm(ps, p as int, a as int),
            decreases production.arms.len() - a,
        {
            let arm = &production.arms[a];
            assert(ps[p as int].arms[a as int] == arm.deep_view());
            match check_code(&arm.code, arm.symbols.len()) {
                Some(index) => {
                    return Some(
                        BadPlaceholder { production: production.ident.clone(), arm: a, index },
                    );
                },
                None => {},
            }
            a += 1;
        }
        assert(ps[p as int].arms.len() == production.arms.len());
        p += 1;
    }
    None
}

} // verus!
