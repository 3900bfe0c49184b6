//! LR(0) items and their closure.
//!
//! An item is a rule with a dot at some position of its right side. Items
//! are numbered rule by rule, dot position by dot position.

use vstd::prelude::*;
use crate::bits::{count, lemma_count_bound, lemma_count_set, lemma_subset_both, subset};
use crate::rules::{Rules, RulesView};

verus! {

/// The items of the rules before `r`, in order: each as its rule and the
/// position of its dot.
pub open spec fn items_upto(g: RulesView, r: int) -> Seq<(int, int)>
    decreases r,
{
    if r <= 0 {
        Seq::empty()
    } else {
        items_upto(g, r - 1) + Seq::new(
            (g.rules[r - 1].rhs.len() + 1) as nat,
            |d: int| (r - 1, d),
        )
    }
}

/// All items of a grammar.
pub open spec fn items(g: RulesView) -> Seq<(int, int)> {
    items_upto(g, g.rules.len() as int)
}

/// The number of the first item of rule `r`, the one with its dot in
/// front.
pub open spec fn base(g: RulesView, r: int) -> int {
    items_upto(g, r).len() as int
}

/// The number of the item of rule `r` with its dot at position `d`.
pub open spec fn item_at(g: RulesView, r: int, d: int) -> int {
    base(g, r) + d
}

/// The symbol behind the dot of item `i`, if the dot is not at the end.
pub open spec fn after_dot(g: RulesView, i: int) -> Option<usize> {
    let (r, d) = items(g)[i];
    if d < g.rules[r].rhs.len() {
        Some(g.rules[r].rhs[d])
    } else {
        None
    }
}

/// Item `i` is complete: its dot stands at the end.
pub open spec fn complete(g: RulesView, i: int) -> bool {
    items(g)[i].1 == g.rules[items(g)[i].0].rhs.len()
}

proof fn lemma_items_upto(g: RulesView, m: int)
    requires
        0 <= m <= g.rules.len(),
    ensures
        forall|r: int, d: int|
            0 <= r < m && 0 <= d <= g.rules[r].rhs.len() ==> 0 <= #[trigger] item_at(g, r, d)
                < items_upto(g, m).len() && items_upto(g, m)[item_at(g, r, d)] == (r, d),
        forall|i: int|
            0 <= i < items_upto(g, m).len() ==> {
                let (r, d) = #[trigger] items_upto(g, m)[i];
                0 <= r < m && 0 <= d <= g.rules[r].rhs.len() && item_at(g, r, d) == i
            },
    decreases m,
{
    if m > 0 {
        lemma_items_upto(g, m - 1);
        let prev = items_upto(g, m - 1);
        let last = Seq::new((g.rules[m - 1].rhs.len() + 1) as nat, |d: int| (m - 1, d));
        assert(items_upto(g, m) == prev + last);
        assert forall|r: int, d: int|
            0 <= r < m && 0 <= d <= g.rules[r].rhs.len() implies 0 <= #[trigger] item_at(g, r, d)
            < items_upto(g, m).len() && items_upto(g, m)[item_at(g, r, d)] == (r, d) by {
            if r < m - 1 {
                assert(0 <= item_at(g, r, d) < prev.len());
                assert(prev[item_at(g, r, d)] == (r, d));
            } else {
                assert(item_at(g, r, d) == prev.len() + d);
                assert(last[d] == (r, d));
            }
        }
        assert forall|i: int| 0 <= i < items_upto(g, m).len() implies {
            let (r, d) = #[trigger] items_upto(g, m)[i];
            0 <= r < m && 0 <= d <= g.rules[r].rhs.len() && item_at(g, r, d) == i
        } by {
            if i < prev.len() {
                assert(items_upto(g, m)[i] == prev[i]);
            } else {
                assert(items_upto(g, m)[i] == last[i - prev.len()]);
            }
        }
    }
}

/// Items and their numbers correspond one to one.
pub proof fn lemma_items(g: RulesView)
    ensures
        forall|r: int, d: int|
            0 <= r < g.rules.len() && 0 <= d <= g.rules[r].rhs.len() ==> 0 <= #[trigger] item_at(
                g,
                r,
                d,
            ) < items(g).len() && items(g)[item_at(g, r, d)] == (r, d),
        forall|i: int|
            0 <= i < items(g).len() ==> {
                let (r, d) = #[trigger] items(g)[i];
                0 <= r < g.rules.len() && 0 <= d <= g.rules[r].rhs.len() && item_at(g, r, d) == i
            },
{
    lemma_items_upto(g, g.rules.len() as int);
}

/// The item that follows an item with a symbol behind its dot is the same
/// rule with the dot moved over that symbol.
pub proof fn lemma_next_item(g: RulesView, i: int)
    requires
        0 <= i < items(g).len(),
        after_dot(g, i) is Some,
    ensures
        i + 1 < items(g).len(),
        items(g)[i + 1] == (items(g)[i].0, items(g)[i].1 + 1),
{
    lemma_items(g);
    let (r, d) = items(g)[i];
    assert(item_at(g, r, d) == i);
    assert(items(g)[item_at(g, r, d + 1)] == (r, d + 1));
}

/// The items of a grammar as tables.
pub struct Items {
    /// The rule of each item.
    pub rule: Vec<usize>,
    /// The dot position of each item.
    pub dot: Vec<usize>,
    /// The first item of each rule.
    pub base: Vec<usize>,
}

impl Items {
    /// The tables hold the items of the grammar.
    pub open spec fn matches(&self, g: RulesView) -> bool {
        &&& self.rule.len() == items(g).len()
        &&& self.dot.len() == items(g).len()
        &&& self.base.len() == g.rules.len()
        &&& forall|i: int|
            0 <= i < self.rule.len() ==> (#[trigger] self.rule[i] as int, self.dot[i] as int)
                == items(g)[i]
        &&& forall|r: int| 0 <= r < self.base.len() ==> #[trigger] self.base[r] == base(g, r)
    }

    /// Lists the items of a grammar.
    pub fn build(g: &Rules) -> (it: Items)
        ensures
            it.matches(g.deep_view()),
    {
        let ghost gv = g.deep_view();
        let mut rule: Vec<usize> = Vec::new();
        let mut dot: Vec<usize> = Vec::new();
        let mut base: Vec<usize> = Vec::new();
        let mut r: usize = 0;
        while r < g.rules.len()
            invariant
                gv == g.deep_view(),
                r <= g.rules.len(),
                rule.len() == items_upto(gv, r as int).len(),
                dot.len() == rule.len(),
                base.len() == r,
                forall|i: int|
                    0 <= i < rule.len() ==> (#[trigger] rule[i] as int, dot[i] as int)
                        == items_upto(gv, r as int)[i],
                forall|q: int| 0 <= q < r ==> #[trigger] base[q] == crate::items::base(gv, q),
            decreases g.rules.len() - r,
        {
            let len = g.rules[r].rhs.len();
            assert(gv.rules[r as int].rhs.len() == len);
            let ghost prev = items_upto(gv, r as int);
            let ghost last = Seq::new((len + 1) as nat, |d: int| (r as int, d));
            assert(items_upto(gv, r + 1) == prev + last);
            base.push(rule.len());
            rule.push(r);
            dot.push(0);
            let mut d: usize = 0;
            while d < len
                invariant
                    d <= len,
                    rule.len() == prev.len() + d + 1,
                    dot.len() == rule.len(),
                    last.len() == len + 1,
                    forall|j: int| 0 <= j <= len ==> #[trigger] last[j] == (r as int, j),
                    forall|i: int|
                        0 <= i < rule.len() ==> (#[trigger] rule[i] as int, dot[i] as int) == (prev
                            + last)[i],
                decreases len - d,
            {
                rule.push(r);
                dot.push(d + 1);
                d += 1;
            }
            r += 1;
        }
        Items { rule, dot, base }
    }

    /// The symbol behind the dot of item `i`.
    pub fn next_symbol(&self, g: &Rules, i: usize) -> (x: Option<usize>)
        requires
            self.matches(g.deep_view()),
            i < self.rule.len(),
        ensures
            x == after_dot(g.deep_view(), i as int),
    {
        proof {
            lemma_items(g.deep_view());
            assert((self.rule[i as int] as int, self.dot[i as int] as int) == items(
                g.deep_view(),
            )[i as int]);
        }
        let r = self.rule[i];
        let d = self.dot[i];
        assert(g.deep_view().rules[r as int].rhs == g.rules[r as int].rhs@);
        if d < g.rules[r].rhs.len() {
            Some(g.rules[r].rhs[d])
        } else {
            None
        }
    }
}

// ---------------------------------------------------------------------
// Closure
// ---------------------------------------------------------------------

/// Item `i` has the left side of rule `q` behind its dot.
pub open spec fn expands(g: RulesView, i: int, q: int) -> bool {
    1 <= q < g.rules.len() && after_dot(g, i) == Some(g.rules[q].lhs)
}

/// With every item that has a nonterminal behind its dot, the set holds
/// the first item of each rule of that nonterminal.
pub open spec fn item_closed(g: RulesView, set: Seq<bool>) -> bool {
    set.len() == items(g).len() && forall|i: int, q: int|
        0 <= i < set.len() && set[i] && #[trigger] expands(g, i, q) ==> set[item_at(g, q, 0)]
}

/// The set is the closure of the kernel: the least closed set that holds
/// the kernel.
pub open spec fn is_closure(g: RulesView, kernel: Seq<bool>, set: Seq<bool>) -> bool {
    subset(kernel, set) && item_closed(g, set) && forall|other: Seq<bool>|
        subset(kernel, other) && #[trigger] item_closed(g, other) ==> subset(set, other)
}

/// The closure of a kernel.
pub open spec fn closure(g: RulesView, kernel: Seq<bool>) -> Seq<bool> {
    choose|s: Seq<bool>| is_closure(g, kernel, s)
}

/// A kernel has one closure.
pub proof fn lemma_closure_unique(g: RulesView, kernel: Seq<bool>, s: Seq<bool>)
    requires
        is_closure(g, kernel, s),
    ensures
        s == closure(g, kernel),
{
    let c = closure(g, kernel);
    assert(is_closure(g, kernel, c));
    lemma_subset_both(s, c);
}

/// Closes a set of items in place.
pub fn close(g: &Rules, it: &Items, set: &mut Vec<bool>)
    requires
        g.deep_view().wf(),
        it.matches(g.deep_view()),
        old(set).len() == it.rule.len(),
    ensures
        final(set)@ == closure(g.deep_view(), old(set)@),
        is_closure(g.deep_view(), old(set)@, final(set)@),
        final(set).len() == old(set).len(),
{
    let ghost gv = g.deep_view();
    let ghost kernel = set@;
    let n = set.len();
    let mut changed = true;
    proof {
        lemma_count_bound(set@);
        lemma_items(gv);
    }
    while changed
        invariant
            gv == g.deep_view(),
            gv.wf(),
            it.matches(gv),
            n == it.rule.len(),
            set.len() == n,
            count(set@) <= n,
            subset(kernel, set@),
            forall|other: Seq<bool>|
                subset(kernel, other) && #[trigger] item_closed(gv, other) ==> subset(set@, other),
            !changed ==> item_closed(gv, set@),
        decreases n - count(set@), (if changed { 1int } else { 0int }),
    {
        changed = false;
        let ghost start = set@;
        let mut i: usize = 0;
        while i < n
            invariant
                gv == g.deep_view(),
                gv.wf(),
                it.matches(gv),
                n == it.rule.len(),
                set.len() == n,
                i <= n,
                subset(kernel, set@),
                forall|other: Seq<bool>|
                    subset(kernel, other) && #[trigger] item_closed(gv, other) ==> subset(
                        set@,
                        other,
                    ),
                count(set@) >= count(start),
                changed ==> count(set@) > count(start),
                !changed ==> set@ == start && forall|j: int, q: int|
                    0 <= j < i && set@[j] && #[trigger] expands(gv, j, q) ==> set@[item_at(gv, q, 0)],
            decreases n - i,
        {
            if set[i] {
                match it.next_symbol(g, i) {
                    Some(b) => {
                        let mut q: usize = 1;
                        while q < g.rules.len()
                            invariant
                                gv == g.deep_view(),
                                gv.wf(),
                                it.matches(gv),
                                n == it.rule.len(),
                                set.len() == n,
                                i < n,
                                set@[i as int],
                                after_dot(gv, i as int) == Some(b),
                                1 <= q <= g.rules.len(),
                                subset(kernel, set@),
                                forall|other: Seq<bool>|
                                    subset(kernel, other) && #[trigger] item_closed(gv, other)
                                        ==> subset(set@, other),
                                count(set@) >= count(start),
                                changed ==> count(set@) > count(start),
                                !changed ==> set@ == start && forall|j: int, p: int|
                                    0 <= j < i && set@[j] && #[trigger] expands(gv, j, p)
                                        ==> set@[item_at(gv, p, 0)],
                                !changed ==> forall|p: int|
                                    1 <= p < q && #[trigger] expands(gv, i as int, p)
                                        ==> set@[item_at(gv, p, 0)],
                            decreases g.rules.len() - q,
                        {
                            assert(gv.rules[q as int].lhs == g.rules[q as int].lhs);
                            if g.rules[q].lhs == b {
                                let first = it.base[q];
                                proof {
                                    lemma_items(gv);
                                    assert(first == item_at(gv, q as int, 0));
                                    assert(items(gv)[item_at(gv, q as int, 0)] == (q as int, 0int));
                                    assert(expands(gv, i as int, q as int));
                                }
                                if !set[first] {
                                    proof {
                                        let ghost now = set@.update(first as int, true);
                                        assert forall|other: Seq<bool>|
                                            subset(kernel, other) && #[trigger] item_closed(
                                                gv,
                                                other,
                                            ) implies subset(now, other) by {
                                            assert(subset(set@, other));
                                            assert(other[i as int]);
                                            assert(expands(gv, i as int, q as int));
                                        }
                                        lemma_count_set(set@, first as int);
                                    }
                                    set[first] = true;
                                    changed = true;
                                }
                            }
                            q += 1;
                        }
                    },
                    None => {},
                }
            }
            i += 1;
        }
        proof {
            lemma_count_bound(set@);
        }
    }
    proof {
        lemma_closure_unique(gv, kernel, set@);
    }
}

} // verus!
