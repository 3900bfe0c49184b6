//! Least fixed points over the rules of a grammar: which nonterminals can
//! derive a finite sentence, which can derive the empty one, and which
//! terminals can begin what a nonterminal derives.

use vstd::prelude::*;
use crate::bits::{
    cells2, cleared, cleared_and_one, count, count2, lemma_count2_bound, lemma_count2_set,
    lemma_count_bound, lemma_count_set, lemma_subset2_both, lemma_subset_both, rows, subset,
    subset2,
};
use crate::rules::{Rules, RulesView};

verus! {

/// A symbol on a right side is settled: a nonterminal if it is in the set,
/// a terminal as `terminals_hold` says.
pub open spec fn sym_holds(g: RulesView, x: usize, set: Seq<bool>, terminals_hold: bool) -> bool {
    if x < g.nonterminals {
        set[x as int]
    } else {
        terminals_hold
    }
}

/// Every symbol on the right side of rule `r` is settled.
pub open spec fn body_holds(g: RulesView, r: int, set: Seq<bool>, terminals_hold: bool) -> bool {
    forall|k: int|
        0 <= k < g.rules[r].rhs.len() ==> sym_holds(
            g,
            #[trigger] g.rules[r].rhs[k],
            set,
            terminals_hold,
        )
}

/// The set holds the left side of every rule whose right side is settled.
pub open spec fn closed(g: RulesView, terminals_hold: bool, set: Seq<bool>) -> bool {
    set.len() == g.nonterminals && forall|r: int|
        1 <= r < g.rules.len() && #[trigger] body_holds(g, r, set, terminals_hold)
            ==> set[g.rules[r].lhs as int]
}

/// The set is closed and part of every closed set.
pub open spec fn is_least(g: RulesView, terminals_hold: bool, set: Seq<bool>) -> bool {
    closed(g, terminals_hold, set) && forall|other: Seq<bool>| #[trigger]
        closed(g, terminals_hold, other) ==> subset(set, other)
}

/// The least closed set.
pub open spec fn least(g: RulesView, terminals_hold: bool) -> Seq<bool> {
    choose|s: Seq<bool>| is_least(g, terminals_hold, s)
}

/// The nonterminals that derive some finite sentence of terminals.
pub open spec fn productive(g: RulesView) -> Seq<bool> {
    least(g, true)
}

/// The nonterminals that derive the empty sentence.
pub open spec fn nullable(g: RulesView) -> Seq<bool> {
    least(g, false)
}

/// Only one set is the least closed one.
pub proof fn lemma_least_unique(g: RulesView, terminals_hold: bool, s: Seq<bool>)
    requires
        is_least(g, terminals_hold, s),
    ensures
        s == least(g, terminals_hold),
{
    let c = least(g, terminals_hold);
    assert(is_least(g, terminals_hold, c));
    lemma_subset_both(s, c);
}

/// A nonterminal whose every rule holds the nonterminal itself on its
/// right side derives no finite sentence.
pub proof fn lemma_self_recursive_unproductive(g: RulesView, a: int)
    requires
        g.wf(),
        0 <= a < g.nonterminals,
        forall|r: int|
            1 <= r < g.rules.len() && (#[trigger] g.rules[r]).lhs == a ==> g.rules[r].rhs.contains(
                a as usize,
            ),
    ensures
        !productive(g)[a],
{
    let set = productive(g);
    let other = Seq::new(g.nonterminals as nat, |i: int| i != a);
    let trivial = Seq::new(g.nonterminals as nat, |i: int| true);
    assert(closed(g, true, trivial));
    assert(closed(g, true, other)) by {
        assert forall|r: int| 1 <= r < g.rules.len() && #[trigger] body_holds(g, r, other, true)
            implies other[g.rules[r].lhs as int] by {
            if g.rules[r].lhs == a {
                let k = choose|k: int| 0 <= k < g.rules[r].rhs.len() && g.rules[r].rhs[k] == a as usize;
                assert(sym_holds(g, g.rules[r].rhs[k], other, true));
            }
        }
    }
    lemma_least_exists(g, true);
    assert(subset(set, other));
}

/// Some set is the least closed one: the members that all closed sets
/// share.
pub proof fn lemma_least_exists(g: RulesView, terminals_hold: bool)
    requires
        g.wf(),
    ensures
        is_least(g, terminals_hold, least(g, terminals_hold)),
{
    let meet = Seq::new(
        g.nonterminals as nat,
        |i: int| forall|other: Seq<bool>| #[trigger] closed(g, terminals_hold, other) ==> other[i],
    );
    assert(closed(g, terminals_hold, meet)) by {
        assert forall|r: int|
            1 <= r < g.rules.len() && #[trigger] body_holds(g, r, meet, terminals_hold) implies meet[g.rules[r].lhs as int] by {
            assert forall|other: Seq<bool>| #[trigger] closed(g, terminals_hold, other) implies other[g.rules[r].lhs as int] by {
                assert forall|k: int| 0 <= k < g.rules[r].rhs.len() implies sym_holds(
                    g,
                    #[trigger] g.rules[r].rhs[k],
                    other,
                    terminals_hold,
                ) by {
                    assert(sym_holds(g, g.rules[r].rhs[k], meet, terminals_hold));
                }
                assert(body_holds(g, r, other, terminals_hold));
            }
        }
    }
    assert(is_least(g, terminals_hold, meet));
}

/// Whether every symbol on the right side of rule `r` is settled.
fn holds(g: &Rules, r: usize, set: &Vec<bool>, terminals_hold: bool) -> (ok: bool)
    requires
        g.deep_view().wf(),
        r < g.rules.len(),
        set.len() == g.nonterminals,
    ensures
        ok == body_holds(g.deep_view(), r as int, set@, terminals_hold),
{
    let ghost gv = g.deep_view();
    let rhs = &g.rules[r].rhs;
    assert(gv.rules[r as int].rhs == rhs@);
    let mut k: usize = 0;
    while k < rhs.len()
        invariant
            gv == g.deep_view(),
            r < g.rules.len(),
            rhs == &g.rules[r as int].rhs,
            gv.rules[r as int].rhs == rhs@,
            set.len() == g.nonterminals,
            k <= rhs.len(),
            forall|j: int| 0 <= j < k ==> sym_holds(gv, #[trigger] rhs@[j], set@, terminals_hold),
        decreases rhs.len() - k,
    {
        let x = rhs[k];
        let ok = if x < g.nonterminals {
            set[x]
        } else {
            terminals_hold
        };
        if !ok {
            assert(!sym_holds(gv, rhs@[k as int], set@, terminals_hold));
            return false;
        }
        k += 1;
    }
    true
}

/// Computes the least set of nonterminals that holds the left side of
/// every rule whose right side is settled.
pub fn least_set(g: &Rules, terminals_hold: bool) -> (set: Vec<bool>)
    requires
        g.deep_view().wf(),
    ensures
        set@ == least(g.deep_view(), terminals_hold),
        is_least(g.deep_view(), terminals_hold, set@),
{
    let ghost gv = g.deep_view();
    let n = g.nonterminals;
    let mut set = cleared(n);
    let mut changed = true;
    proof {
        lemma_count_bound(set@);
    }
    while changed
        invariant
            gv == g.deep_view(),
            gv.wf(),
            n == g.nonterminals,
            set.len() == n,
            count(set@) <= n,
            forall|other: Seq<bool>| #[trigger] closed(gv, terminals_hold, other) ==> subset(set@, other),
            !changed ==> closed(gv, terminals_hold, set@),
        decreases n - count(set@), (if changed { 1int } else { 0int }),
    {
        changed = false;
        let ghost start = set@;
        let mut r: usize = 1;
        while r < g.rules.len()
            invariant
                gv == g.deep_view(),
                gv.wf(),
                n == g.nonterminals,
                set.len() == n,
                1 <= r <= g.rules.len(),
                forall|other: Seq<bool>| #[trigger] closed(gv, terminals_hold, other) ==> subset(set@, other),
                count(set@) >= count(start),
                changed ==> count(set@) > count(start),
                !changed ==> set@ == start && forall|q: int|
                    1 <= q < r && #[trigger] body_holds(gv, q, set@, terminals_hold)
                        ==> set@[gv.rules[q].lhs as int],
            decreases g.rules.len() - r,
        {
            let lhs = g.rules[r].lhs;
            assert(gv.rules[r as int].lhs == lhs);
            if !set[lhs] && holds(g, r, &set, terminals_hold) {
                proof {
                    let ghost now = set@.update(lhs as int, true);
                    assert forall|other: Seq<bool>| #[trigger] closed(gv, terminals_hold, other) implies subset(now, other) by {
                        assert(subset(set@, other));
                        assert forall|k: int| 0 <= k < gv.rules[r as int].rhs.len() implies sym_holds(
                            gv,
                            #[trigger] gv.rules[r as int].rhs[k],
                            other,
                            terminals_hold,
                        ) by {
                            assert(sym_holds(gv, gv.rules[r as int].rhs[k], set@, terminals_hold));
                        }
                        assert(body_holds(gv, r as int, other, terminals_hold));
                    }
                    lemma_count_set(set@, lhs as int);
                }
                set[lhs] = true;
                changed = true;
            }
            r += 1;
        }
        proof {
            lemma_count_bound(set@);
        }
    }
    proof {
        lemma_least_unique(gv, terminals_hold, set@);
    }
    set
}

// ---------------------------------------------------------------------
// FIRST sets
// ---------------------------------------------------------------------

/// Terminal column `k` can begin what the right side of rule `r` derives
/// from position `e` on, given FIRST sets for the nonterminals.
pub open spec fn starts(
    g: RulesView,
    nul: Seq<bool>,
    first: Seq<Seq<bool>>,
    r: int,
    e: int,
    k: int,
) -> bool
    decreases g.rules[r].rhs.len() - e,
{
    if e < 0 || e >= g.rules[r].rhs.len() {
        false
    } else {
        let x = g.rules[r].rhs[e];
        if x >= g.nonterminals {
            x - g.nonterminals == k
        } else {
            first[x as int][k] || (nul[x as int] && starts(g, nul, first, r, e + 1, k))
        }
    }
}

/// The symbols of rule `r` from position `e` on are nullable nonterminals.
pub open spec fn rest_nullable(g: RulesView, nul: Seq<bool>, r: int, e: int) -> bool {
    forall|j: int|
        e <= j < g.rules[r].rhs.len() && 0 <= j ==> (#[trigger] g.rules[r].rhs[j]) < g.nonterminals
            && nul[g.rules[r].rhs[j] as int]
}

/// The symbols of rule `r` before position `e` are nullable nonterminals.
pub open spec fn prefix_nullable(g: RulesView, nul: Seq<bool>, r: int, e: int) -> bool {
    forall|j: int|
        0 <= j < e && j < g.rules[r].rhs.len() ==> (#[trigger] g.rules[r].rhs[j]) < g.nonterminals
            && nul[g.rules[r].rhs[j] as int]
}

/// One row per nonterminal, one column per terminal and one for the end
/// of input.
pub open spec fn first_shape(g: RulesView, first: Seq<Seq<bool>>) -> bool {
    first.len() == g.nonterminals && forall|a: int|
        0 <= a < first.len() ==> (#[trigger] first[a]).len() == g.terminals() + 1
}

/// The sets hold, for every rule, what can begin its right side.
pub open spec fn first_closed(g: RulesView, nul: Seq<bool>, first: Seq<Seq<bool>>) -> bool {
    first_shape(g, first) && forall|r: int, k: int|
        1 <= r < g.rules.len() && 0 <= k <= g.terminals() && #[trigger] starts(
            g,
            nul,
            first,
            r,
            0,
            k,
        ) ==> first[g.rules[r].lhs as int][k]
}

/// The sets are closed and part of all closed sets.
pub open spec fn is_first(g: RulesView, nul: Seq<bool>, first: Seq<Seq<bool>>) -> bool {
    first_closed(g, nul, first) && forall|other: Seq<Seq<bool>>| #[trigger]
        first_closed(g, nul, other) ==> subset2(first, other)
}

/// The FIRST sets: the least sets closed under the rules.
pub open spec fn first_of(g: RulesView, nul: Seq<bool>) -> Seq<Seq<bool>> {
    choose|f: Seq<Seq<bool>>| is_first(g, nul, f)
}

/// Only one family of sets is the least closed one.
pub proof fn lemma_first_unique(g: RulesView, nul: Seq<bool>, f: Seq<Seq<bool>>)
    requires
        is_first(g, nul, f),
    ensures
        f == first_of(g, nul),
{
    let c = first_of(g, nul);
    assert(is_first(g, nul, c));
    lemma_subset2_both(f, c);
}

/// What begins the rest of a right side after a nullable prefix begins
/// the whole right side.
pub proof fn lemma_starts_prefix(
    g: RulesView,
    nul: Seq<bool>,
    first: Seq<Seq<bool>>,
    r: int,
    e: int,
    k: int,
)
    requires
        0 <= e,
        prefix_nullable(g, nul, r, e),
        starts(g, nul, first, r, e, k),
    ensures
        starts(g, nul, first, r, 0, k),
    decreases e,
{
    if e > 0 {
        assert(g.rules[r].rhs[e - 1] < g.nonterminals && nul[g.rules[r].rhs[e - 1] as int]);
        assert(starts(g, nul, first, r, e - 1, k));
        lemma_starts_prefix(g, nul, first, r, e - 1, k);
    }
}

/// Adds terminal column `k` to the FIRST set of `a`.
fn mark(first: &mut Vec<Vec<bool>>, a: usize, k: usize)
    requires
        a < old(first).len(),
        k < old(first)[a as int].len(),
    ensures
        rows(final(first)@) == rows(old(first)@).update(
            a as int,
            rows(old(first)@)[a as int].update(k as int, true),
        ),
        final(first).len() == old(first).len(),
        forall|i: int|
            0 <= i < final(first).len() ==> (#[trigger] final(first)[i]).len() == old(first)[i].len(),
{
    let ghost before = rows(first@);
    first[a][k] = true;
    assert(rows(first@) =~= before.update(a as int, before[a as int].update(k as int, true)));
}

/// Computes the FIRST sets of the nonterminals.
pub fn first_sets(g: &Rules, nul: &Vec<bool>) -> (first: Vec<Vec<bool>>)
    requires
        g.deep_view().wf(),
        nul.len() == g.nonterminals,
    ensures
        rows(first@) == first_of(g.deep_view(), nul@),
        is_first(g.deep_view(), nul@, rows(first@)),
{
    let ghost gv = g.deep_view();
    let n = g.nonterminals;
    let t = g.names.len() - n;
    let mut first: Vec<Vec<bool>> = Vec::new();
    while first.len() < n
        invariant
            first.len() <= n,
            forall|a: int| 0 <= a < first.len() ==> (#[trigger] first[a]).len() == t + 1,
            forall|a: int, k: int| 0 <= a < first.len() && 0 <= k <= t ==> !(#[trigger] first[a][k]),
        decreases n - first.len(),
    {
        first.push(cleared_and_one(t));
    }
    let w = first[0].len();
    let mut changed = true;
    proof {
        lemma_count2_bound(rows(first@));
        assert forall|other: Seq<Seq<bool>>| #[trigger] first_closed(gv, nul@, other) implies subset2(
            rows(first@),
            other,
        ) by {
            assert forall|i: int| 0 <= i < first.len() implies subset(
                #[trigger] rows(first@)[i],
                other[i],
            ) by {
                assert(other[i].len() == t + 1);
                assert forall|j: int| 0 <= j < rows(first@)[i].len() implies !(#[trigger] rows(
                    first@,
                )[i][j]) by {
                    assert(!first[i][j]);
                }
            }
        }
    }
    while changed
        invariant
            gv == g.deep_view(),
            gv.wf(),
            n == g.nonterminals,
            t == gv.terminals(),
            w == t + 1,
            nul.len() == n,
            first.len() == n,
            forall|a: int| 0 <= a < first.len() ==> (#[trigger] first[a]).len() == w,
            count2(rows(first@)) <= cells2(rows(first@)),
            forall|other: Seq<Seq<bool>>| #[trigger]
                first_closed(gv, nul@, other) ==> subset2(rows(first@), other),
            !changed ==> first_closed(gv, nul@, rows(first@)),
        decreases cells2(rows(first@)) - count2(rows(first@)), (if changed { 1int } else { 0int }),
    {
        changed = false;
        let ghost start = rows(first@);
        let mut r: usize = 1;
        while r < g.rules.len()
            invariant
                gv == g.deep_view(),
                gv.wf(),
                n == g.nonterminals,
                t == gv.terminals(),
                w == t + 1,
                nul.len() == n,
                first.len() == n,
                forall|a: int| 0 <= a < first.len() ==> (#[trigger] first[a]).len() == w,
                1 <= r <= g.rules.len(),
                forall|other: Seq<Seq<bool>>| #[trigger]
                    first_closed(gv, nul@, other) ==> subset2(rows(first@), other),
                cells2(rows(first@)) == cells2(start),
                count2(rows(first@)) >= count2(start),
                changed ==> count2(rows(first@)) > count2(start),
                !changed ==> rows(first@) == start && forall|q: int, k: int|
                    1 <= q < r && 0 <= k <= t && #[trigger] starts(gv, nul@, rows(first@), q, 0, k)
                        ==> rows(first@)[gv.rules[q].lhs as int][k],
            decreases g.rules.len() - r,
        {
            let lhs = g.rules[r].lhs;
            let rhs = &g.rules[r].rhs;
            assert(gv.rules[r as int].lhs == lhs);
            assert(gv.rules[r as int].rhs == rhs@);
            let mut e: usize = 0;
            let mut stop = false;
            while e < rhs.len() && !stop
                invariant
                    gv == g.deep_view(),
                    gv.wf(),
                    n == g.nonterminals,
                    t == gv.terminals(),
                    w == t + 1,
                    nul.len() == n,
                    first.len() == n,
                    forall|a: int| 0 <= a < first.len() ==> (#[trigger] first[a]).len() == w,
                    1 <= r < g.rules.len(),
                    lhs == gv.rules[r as int].lhs,
                    lhs < n,
                    rhs == &g.rules[r as int].rhs,
                    gv.rules[r as int].rhs == rhs@,
                    e <= rhs.len(),
                    prefix_nullable(gv, nul@, r as int, e as int),
                    forall|other: Seq<Seq<bool>>| #[trigger]
                        first_closed(gv, nul@, other) ==> subset2(rows(first@), other),
                    cells2(rows(first@)) == cells2(start),
                    count2(rows(first@)) >= count2(start),
                    changed ==> count2(rows(first@)) > count2(start),
                    !changed ==> rows(first@) == start && forall|q: int, k: int|
                        1 <= q < r && 0 <= k <= t && #[trigger] starts(
                            gv,
                            nul@,
                            rows(first@),
                            q,
                            0,
                            k,
                        ) ==> rows(first@)[gv.rules[q].lhs as int][k],
                    !changed ==> forall|k: int|
                        0 <= k <= t && #[trigger] starts(gv, nul@, rows(first@), r as int, 0, k)
                            ==> rows(first@)[lhs as int][k] || (!stop && starts(
                            gv,
                            nul@,
                            rows(first@),
                            r as int,
                            e as int,
                            k,
                        )),
                decreases rhs.len() - e, (if stop { 0int } else { 1int }),
            {
                let x = rhs[e];
                assert(x == gv.rules[r as int].rhs[e as int]);
                assert(x < gv.names.len());
                let ghost entry = rows(first@);
                let ghost was_changed = changed;
                if x >= n {
                    let k = x - n;
                    if !first[lhs][k] {
                        proof {
                            let ghost cur = rows(first@);
                            let ghost now = cur.update(lhs as int, cur[lhs as int].update(k as int, true));
                            assert forall|other: Seq<Seq<bool>>| #[trigger]
                                first_closed(gv, nul@, other) implies subset2(now, other) by {
                                assert(subset2(cur, other));
                                assert(starts(gv, nul@, other, r as int, e as int, k as int));
                                lemma_starts_prefix(gv, nul@, other, r as int, e as int, k as int);
                                assert(other[lhs as int][k as int]);
                                assert forall|i: int| 0 <= i < now.len() implies subset(
                                    #[trigger] now[i],
                                    other[i],
                                ) by {
                                    assert(subset(cur[i], other[i]));
                                }
                            }
                            lemma_count2_set(cur, lhs as int, k as int);
                        }
                        mark(&mut first, lhs, k);
                        changed = true;
                    }
                    stop = true;
                    proof {
                        if !changed {
                            assert forall|j: int|
                                0 <= j <= t && #[trigger] starts(gv, nul@, rows(first@), r as int, 0, j) implies rows(
                                first@,
                            )[lhs as int][j] by {
                                if starts(gv, nul@, rows(first@), r as int, e as int, j) {
                                    assert(j == k);
                                }
                            }
                        }
                    }
                } else {
                    let mut k: usize = 0;
                    while k < w
                        invariant
                            gv == g.deep_view(),
                            gv.wf(),
                            n == g.nonterminals,
                            t == gv.terminals(),
                            w == t + 1,
                            nul.len() == n,
                            first.len() == n,
                            forall|a: int| 0 <= a < first.len() ==> (#[trigger] first[a]).len() == w,
                            1 <= r < g.rules.len(),
                            lhs == gv.rules[r as int].lhs,
                            lhs < n,
                            x < n,
                            e < rhs.len(),
                            gv.rules[r as int].rhs == rhs@,
                            x == rhs@[e as int],
                            k <= w,
                            prefix_nullable(gv, nul@, r as int, e as int),
                            forall|other: Seq<Seq<bool>>| #[trigger]
                                first_closed(gv, nul@, other) ==> subset2(rows(first@), other),
                            cells2(rows(first@)) == cells2(start),
                            count2(rows(first@)) >= count2(start),
                            changed ==> count2(rows(first@)) > count2(start),
                            !changed ==> !was_changed && rows(first@) == entry,
                            !changed ==> forall|j: int|
                                0 <= j < k ==> (#[trigger] rows(first@)[x as int][j] ==> rows(
                                    first@,
                                )[lhs as int][j]),
                        decreases w - k,
                    {
                        if first[x][k] && !first[lhs][k] {
                            proof {
                                let ghost cur = rows(first@);
                                let ghost now = cur.update(
                                    lhs as int,
                                    cur[lhs as int].update(k as int, true),
                                );
                                assert forall|other: Seq<Seq<bool>>| #[trigger]
                                    first_closed(gv, nul@, other) implies subset2(now, other) by {
                                    assert(subset2(cur, other));
                                    assert(subset(cur[x as int], other[x as int]));
                                    assert(cur[x as int][k as int]);
                                    assert(starts(gv, nul@, other, r as int, e as int, k as int));
                                    lemma_starts_prefix(gv, nul@, other, r as int, e as int, k as int);
                                    assert(other[lhs as int][k as int]);
                                    assert forall|i: int| 0 <= i < now.len() implies subset(
                                        #[trigger] now[i],
                                        other[i],
                                    ) by {
                                        assert(subset(cur[i], other[i]));
                                    }
                                }
                                lemma_count2_set(cur, lhs as int, k as int);
                            }
                            mark(&mut first, lhs, k);
                            changed = true;
                        }
                        k += 1;
                    }
                    let ghost cur = rows(first@);
                    if !nul[x] {
                        stop = true;
                        proof {
                            if !changed {
                                assert forall|j: int|
                                    0 <= j <= t && #[trigger] starts(gv, nul@, cur, r as int, 0, j) implies cur[lhs as int][j] by {
                                    if starts(gv, nul@, cur, r as int, e as int, j) {
                                        assert(cur[x as int][j]);
                                    }
                                }
                            }
                        }
                    } else {
                        proof {
                            if !changed {
                                assert forall|j: int|
                                    0 <= j <= t && #[trigger] starts(gv, nul@, cur, r as int, 0, j) implies cur[lhs as int][j]
                                    || starts(gv, nul@, cur, r as int, e + 1, j) by {
                                    if starts(gv, nul@, cur, r as int, e as int, j) {
                                        if cur[x as int][j] {
                                        }
                                    }
                                }
                            }
                        }
                        e += 1;
                    }
                }
            }
            r += 1;
        }
        proof {
            lemma_count2_bound(rows(first@));
            if !changed {
                assert(first_shape(gv, rows(first@)));
            }
        }
    }
    proof {
        lemma_first_unique(gv, nul@, rows(first@));
    }
    first
}

// ---------------------------------------------------------------------
// Reachable nonterminals
// ---------------------------------------------------------------------

/// Position `k` of rule `r` holds a nonterminal.
pub open spec fn refers(g: RulesView, r: int, k: int) -> bool {
    1 <= r < g.rules.len() && 0 <= k < g.rules[r].rhs.len() && g.rules[r].rhs[k] < g.nonterminals
}

/// The set holds the start symbol and, with a nonterminal, every
/// nonterminal on the right side of one of its rules.
pub open spec fn reach_closed(g: RulesView, set: Seq<bool>) -> bool {
    &&& set.len() == g.nonterminals
    &&& set[g.rules[0].rhs[0] as int]
    &&& forall|r: int, k: int|
        #[trigger] refers(g, r, k) && set[g.rules[r].lhs as int] ==> set[g.rules[r].rhs[k] as int]
}

/// The set is closed and part of every closed set.
pub open spec fn is_reachable(g: RulesView, set: Seq<bool>) -> bool {
    reach_closed(g, set) && forall|other: Seq<bool>| #[trigger]
        reach_closed(g, other) ==> subset(set, other)
}

/// The nonterminals that can be reached from the start symbol.
pub open spec fn reachable(g: RulesView) -> Seq<bool> {
    choose|s: Seq<bool>| is_reachable(g, s)
}

/// The nonterminals that cannot be reached from the start symbol.
pub open spec fn stranded(g: RulesView) -> Seq<bool> {
    Seq::new(g.nonterminals as nat, |x: int| !reachable(g)[x])
}

/// Only one set is the least closed one.
pub proof fn lemma_reachable_unique(g: RulesView, s: Seq<bool>)
    requires
        is_reachable(g, s),
    ensures
        s == reachable(g),
{
    let c = reachable(g);
    assert(is_reachable(g, c));
    lemma_subset_both(s, c);
}

/// Finds the nonterminals that cannot be reached from the start symbol.
pub fn stranded_set(g: &Rules) -> (out: Vec<bool>)
    requires
        g.deep_view().wf(),
    ensures
        out@ == stranded(g.deep_view()),
{
    let ghost gv = g.deep_view();
    let n = g.nonterminals;
    let mut set = cleared(n);
    let start = g.rules[0].rhs[0];
    assert(gv.rules[0].rhs == g.rules[0].rhs@);
    proof {
        let ghost now = set@.update(start as int, true);
        assert forall|other: Seq<bool>| #[trigger] reach_closed(gv, other) implies subset(
            now,
            other,
        ) by {}
    }
    set[start] = true;
    let mut changed = true;
    proof {
        lemma_count_bound(set@);
    }
    while changed
        invariant
            gv == g.deep_view(),
            gv.wf(),
            n == g.nonterminals,
            set.len() == n,
            set@[gv.rules[0].rhs[0] as int],
            count(set@) <= n,
            forall|other: Seq<bool>| #[trigger] reach_closed(gv, other) ==> subset(set@, other),
            !changed ==> reach_closed(gv, set@),
        decreases n - count(set@), (if changed { 1int } else { 0int }),
    {
        changed = false;
        let ghost begin = set@;
        let mut r: usize = 1;
        while r < g.rules.len()
            invariant
                gv == g.deep_view(),
                gv.wf(),
                n == g.nonterminals,
                set.len() == n,
                set@[gv.rules[0].rhs[0] as int],
                1 <= r <= g.rules.len(),
                forall|other: Seq<bool>| #[trigger] reach_closed(gv, other) ==> subset(set@, other),
                count(set@) >= count(begin),
                changed ==> count(set@) > count(begin),
                !changed ==> set@ == begin && forall|q: int, k: int|
                    q < r && #[trigger] refers(gv, q, k) && set@[gv.rules[q].lhs as int]
                        ==> set@[gv.rules[q].rhs[k] as int],
            decreases g.rules.len() - r,
        {
            let lhs = g.rules[r].lhs;
            let rhs = &g.rules[r].rhs;
            assert(gv.rules[r as int].lhs == lhs);
            assert(gv.rules[r as int].rhs == rhs@);
            if set[lhs] {
                let mut k: usize = 0;
                while k < rhs.len()
                    invariant
                        gv == g.deep_view(),
                        gv.wf(),
                        n == g.nonterminals,
                        set.len() == n,
                        set@[gv.rules[0].rhs[0] as int],
                        1 <= r < g.rules.len(),
                        lhs == gv.rules[r as int].lhs,
                        lhs < n,
                        set@[lhs as int],
                        rhs == &g.rules[r as int].rhs,
                        gv.rules[r as int].rhs == rhs@,
                        k <= rhs.len(),
                        forall|other: Seq<bool>| #[trigger]
                            reach_closed(gv, other) ==> subset(set@, other),
                        count(set@) >= count(begin),
                        changed ==> count(set@) > count(begin),
                        !changed ==> set@ == begin && forall|q: int, j: int|
                            q < r && #[trigger] refers(gv, q, j) && set@[gv.rules[q].lhs as int]
                                ==> set@[gv.rules[q].rhs[j] as int],
                        !changed ==> forall|j: int|
                            j < k && #[trigger] refers(gv, r as int, j) ==> set@[gv.rules[r as int].rhs[j] as int],
                    decreases rhs.len() - k,
                {
                    let x = rhs[k];
                    if x < n && !set[x] {
                        proof {
                            let ghost now = set@.update(x as int, true);
                            assert forall|other: Seq<bool>| #[trigger]
                                reach_closed(gv, other) implies subset(now, other) by {
                                assert(subset(set@, other));
                                assert(refers(gv, r as int, k as int));
                            }
                            lemma_count_set(set@, x as int);
                        }
                        set[x] = true;
                        changed = true;
                    }
                    k += 1;
                }
            }
            r += 1;
        }
        proof {
            lemma_count_bound(set@);
        }
    }
    proof {
        lemma_reachable_unique(gv, set@);
    }
    let mut out: Vec<bool> = Vec::new();
    let mut x: usize = 0;
    while x < n
        invariant
            n == set.len(),
            x <= n,
            out.len() == x,
            forall|c: int| 0 <= c < x ==> #[trigger] out[c] == !set[c],
        decreases n - x,
    {
        out.push(!set[x]);
        x += 1;
    }
    assert(out@ =~= stranded(gv));
    out
}

/// The first nonterminal from `x` on that derives no finite sentence.
pub open spec fn first_unproductive(g: RulesView, x: int) -> Option<int>
    decreases g.nonterminals - x,
{
    if x < 0 || x >= g.nonterminals {
        None
    } else if !productive(g)[x] {
        Some(x)
    } else {
        first_unproductive(g, x + 1)
    }
}

/// Finds the first nonterminal that derives no finite sentence.
pub fn find_unproductive(g: &Rules) -> (r: Option<usize>)
    requires
        g.deep_view().wf(),
    ensures
        match first_unproductive(g.deep_view(), 0) {
            Some(x) => r == Some(x as usize) && 0 <= x < g.nonterminals,
            None => r is None,
        },
{
    let ghost gv = g.deep_view();
    let set = least_set(g, true);
    let mut x: usize = 0;
    while x < g.nonterminals
        invariant
            gv == g.deep_view(),
            set@ == productive(gv),
            set.len() == g.nonterminals,
            x <= g.nonterminals,
            first_unproductive(gv, 0) == first_unproductive(gv, x as int),
        decreases g.nonterminals - x,
    {
        if !set[x] {
            return Some(x);
        }
        x += 1;
    }
    None
}

} // verus!
