//! LALR(1) lookahead sets.
//!
//! Every item of every state gets the set of terminals that may follow the
//! rule when it is reduced there. The sets are the least ones under three
//! laws: the goal item of the first state is followed by the end of input;
//! an item with a nonterminal behind its dot gives the first items of that
//! nonterminal's rules what can begin the rest of its right side, and its
//! own set where that rest can vanish; and an item hands its set on to the
//! item with the dot moved in the state that the symbol leads to.

use vstd::prelude::*;
use crate::analysis::{first_shape, rest_nullable, starts};
use crate::automaton::{Automaton, AutomatonView};
use crate::bits::{
    cells3, cleared, cleared_and_one, count3, lemma_count3_bound, lemma_count3_set,
    lemma_subset3_both, planes, rows, subset, subset2, subset3,
};
use crate::items::{after_dot, expands, item_at, items, lemma_items, lemma_next_item, Items};
use crate::rules::{Rules, RulesView};

verus! {

/// The terminals that can begin what stands behind the dot of item `j`.
pub open spec fn heads(g: RulesView, nul: Seq<bool>, first: Seq<Seq<bool>>, j: int) -> Seq<bool> {
    Seq::new(
        (g.terminals() + 1) as nat,
        |k: int| starts(g, nul, first, items(g)[j].0, items(g)[j].1, k),
    )
}

/// What stands behind the dot of item `j` can derive the empty sentence.
pub open spec fn vanishes(g: RulesView, nul: Seq<bool>, j: int) -> bool {
    rest_nullable(g, nul, items(g)[j].0, items(g)[j].1)
}

/// The receiving set holds the extra members and, if `through` holds,
/// the members of the giving set.
pub open spec fn feeds(src: Seq<bool>, extra: Seq<bool>, through: bool, dst: Seq<bool>) -> bool {
    forall|k: int| 0 <= k < dst.len() ==> #[trigger] fed_at(src, extra, through, dst, k)
}

/// If `k` is an extra member or, where `through` holds, a member of the
/// giving set, it is a member of the receiving set.
pub open spec fn fed_at(src: Seq<bool>, extra: Seq<bool>, through: bool, dst: Seq<bool>, k: int) -> bool {
    (extra[k] || (through && src[k])) ==> dst[k]
}

/// The empty set of terminal columns.
pub open spec fn no_terminals(g: RulesView) -> Seq<bool> {
    Seq::new((g.terminals() + 1) as nat, |k: int| false)
}

/// One plane per state, one row per item, one column per terminal and
/// one for the end of input.
pub open spec fn la_shape(g: RulesView, a: AutomatonView, la: Seq<Seq<Seq<bool>>>) -> bool {
    &&& la.len() == a.states.len()
    &&& forall|s: int| 0 <= s < la.len() ==> (#[trigger] la[s]).len() == items(g).len()
    &&& forall|s: int, i: int|
        0 <= s < la.len() && 0 <= i < la[s].len() ==> (#[trigger] la[s][i]).len() == g.terminals()
            + 1
}

/// Item `i` of state `s` has the left side of rule `q` behind its dot.
pub open spec fn spawn_at(g: RulesView, a: AutomatonView, s: int, i: int, q: int) -> bool {
    a.states[s][i] && expands(g, i, q)
}

/// Item `i` of state `s` has a symbol behind its dot that leads somewhere.
pub open spec fn move_at(g: RulesView, a: AutomatonView, s: int, i: int) -> bool {
    a.states[s][i] && after_dot(g, i) is Some && a.trans[s][after_dot(g, i).unwrap() as int] is Some
}

/// The state that the symbol behind the dot of item `i` leads to from
/// state `s`.
pub open spec fn target(g: RulesView, a: AutomatonView, s: int, i: int) -> int {
    a.trans[s][after_dot(g, i).unwrap() as int].unwrap() as int
}

/// Item `i` of state `s` has given the first item of rule `q` what the
/// second law asks.
pub open spec fn spawn_ok(
    g: RulesView,
    nul: Seq<bool>,
    first: Seq<Seq<bool>>,
    la: Seq<Seq<Seq<bool>>>,
    s: int,
    i: int,
    q: int,
) -> bool {
    feeds(la[s][i], heads(g, nul, first, i + 1), vanishes(g, nul, i + 1), la[s][item_at(g, q, 0)])
}

/// Item `i` of state `s` has handed its set on as the third law asks.
pub open spec fn move_ok(g: RulesView, a: AutomatonView, la: Seq<Seq<Seq<bool>>>, s: int, i: int) -> bool {
    feeds(la[s][i], no_terminals(g), true, la[target(g, a, s, i)][i + 1])
}

/// The sets obey the three laws.
pub open spec fn la_closed(
    g: RulesView,
    nul: Seq<bool>,
    first: Seq<Seq<bool>>,
    a: AutomatonView,
    la: Seq<Seq<Seq<bool>>>,
) -> bool {
    &&& la_shape(g, a, la)
    &&& la[0][0][g.terminals()]
    &&& forall|s: int, i: int, q: int|
        0 <= s < a.states.len() && 0 <= i < items(g).len() && #[trigger] spawn_at(g, a, s, i, q)
            ==> spawn_ok(g, nul, first, la, s, i, q)
    &&& forall|s: int, i: int|
        0 <= s < a.states.len() && 0 <= i < items(g).len() && #[trigger] move_at(g, a, s, i)
            ==> move_ok(g, a, la, s, i)
}

/// The sets obey the laws and are part of all sets that do.
pub open spec fn is_lookahead(
    g: RulesView,
    nul: Seq<bool>,
    first: Seq<Seq<bool>>,
    a: AutomatonView,
    la: Seq<Seq<Seq<bool>>>,
) -> bool {
    la_closed(g, nul, first, a, la) && forall|other: Seq<Seq<Seq<bool>>>| #[trigger]
        la_closed(g, nul, first, a, other) ==> subset3(la, other)
}

/// The lookahead sets: the least sets that obey the three laws.
pub open spec fn lookahead_of(
    g: RulesView,
    nul: Seq<bool>,
    first: Seq<Seq<bool>>,
    a: AutomatonView,
) -> Seq<Seq<Seq<bool>>> {
    choose|la: Seq<Seq<Seq<bool>>>| is_lookahead(g, nul, first, a, la)
}

/// Only one family of sets is the least one that obeys the laws.
pub proof fn lemma_lookahead_unique(
    g: RulesView,
    nul: Seq<bool>,
    first: Seq<Seq<bool>>,
    a: AutomatonView,
    la: Seq<Seq<Seq<bool>>>,
)
    requires
        is_lookahead(g, nul, first, a, la),
    ensures
        la == lookahead_of(g, nul, first, a),
{
    let c = lookahead_of(g, nul, first, a);
    assert(is_lookahead(g, nul, first, a, c));
    lemma_subset3_both(la, c);
}

/// For every item, what can begin the rest of its right side from the dot
/// on, and whether that rest can vanish.
pub fn item_heads(g: &Rules, it: &Items, nul: &Vec<bool>, first: &Vec<Vec<bool>>) -> (r: (
    Vec<Vec<bool>>,
    Vec<bool>,
))
    requires
        g.deep_view().wf(),
        it.matches(g.deep_view()),
        nul.len() == g.nonterminals,
        first_shape(g.deep_view(), rows(first@)),
    ensures
        r.0.len() == it.rule.len(),
        r.1.len() == it.rule.len(),
        forall|j: int|
            0 <= j < r.0.len() ==> (#[trigger] r.0[j])@ == heads(
                g.deep_view(),
                nul@,
                rows(first@),
                j,
            ),
        forall|j: int| 0 <= j < r.1.len() ==> #[trigger] r.1[j] == vanishes(g.deep_view(), nul@, j),
{
    let ghost gv = g.deep_view();
    let ghost fv = rows(first@);
    let n = it.rule.len();
    let nn = g.nonterminals;
    let t = g.names.len() - nn;
    let mut rows_out: Vec<Vec<bool>> = Vec::new();
    while rows_out.len() < n
        invariant
            rows_out.len() <= n,
        decreases n - rows_out.len(),
    {
        rows_out.push(Vec::new());
    }
    let mut van = cleared(n);
    let mut j: usize = n;
    proof {
        lemma_items(gv);
    }
    while j > 0
        invariant
            gv == g.deep_view(),
            gv.wf(),
            it.matches(gv),
            fv == rows(first@),
            first_shape(gv, fv),
            nul.len() == nn,
            nn == g.nonterminals,
            t == gv.terminals(),
            n == it.rule.len(),
            rows_out.len() == n,
            van.len() == n,
            j <= n,
            forall|i: int| j <= i < n ==> (#[trigger] rows_out[i])@ == heads(gv, nul@, fv, i),
            forall|i: int| j <= i < n ==> #[trigger] van[i] == vanishes(gv, nul@, i),
        decreases j,
    {
        j -= 1;
        let ghost r = items(gv)[j as int].0;
        let ghost d = items(gv)[j as int].1;
        proof {
            lemma_items(gv);
            assert(0 <= r < gv.rules.len() && 0 <= d <= gv.rules[r].rhs.len());
        }
        let mut row = cleared_and_one(t);
        let mut vanish = true;
        match it.next_symbol(g, j) {
            None => {
                proof {
                    assert(d == gv.rules[r].rhs.len());
                    assert(row@ =~= heads(gv, nul@, fv, j as int));
                }
            },
            Some(x) => {
                proof {
                    lemma_next_item(gv, j as int);
                    assert(x == gv.rules[r].rhs[d]);
                    assert(x < gv.names.len());
                }
                if x >= nn {
                    row[x - nn] = true;
                    vanish = false;
                    proof {
                        assert(row@ =~= heads(gv, nul@, fv, j as int));
                        assert(!rest_nullable(gv, nul@, r, d));
                    }
                } else {
                    let tail = &rows_out[j + 1];
                    let given = &first[x];
                    assert(given@ == fv[x as int]);
                    assert(tail@ == heads(gv, nul@, fv, j + 1));
                    let pass = nul[x];
                    let mut k: usize = 0;
                    let w = row.len();
                    while k < w
                        invariant
                            w == t + 1,
                            row.len() == w,
                            given.len() == w,
                            tail.len() == w,
                            k <= w,
                            forall|c: int|
                                0 <= c < k ==> #[trigger] row[c] == (given[c] || (pass && tail[c])),
                        decreases w - k,
                    {
                        if given[k] || (pass && tail[k]) {
                            row[k] = true;
                        } else {
                            row[k] = false;
                        }
                        k += 1;
                    }
                    vanish = pass && van[j + 1];
                    proof {
                        assert(items(gv)[j + 1] == (r, d + 1));
                        assert forall|c: int| 0 <= c < w implies #[trigger] row@[c] == heads(
                            gv,
                            nul@,
                            fv,
                            j as int,
                        )[c] by {
                            assert(tail@[c] == starts(gv, nul@, fv, r, d + 1, c));
                        }
                        assert(row@ =~= heads(gv, nul@, fv, j as int));
                        assert(van[j + 1] == rest_nullable(gv, nul@, r, d + 1));
                        if vanish {
                            assert forall|e: int|
                                d <= e < gv.rules[r].rhs.len() && 0 <= e implies (#[trigger] gv.rules[r].rhs[e])
                                < gv.nonterminals && nul@[gv.rules[r].rhs[e] as int] by {
                                if e > d {
                                    assert(rest_nullable(gv, nul@, r, d + 1));
                                }
                            }
                        } else if pass {
                            assert(!rest_nullable(gv, nul@, r, d + 1));
                        } else {
                            assert(!(gv.rules[r].rhs[d] < gv.nonterminals && nul@[gv.rules[r].rhs[d] as int]));
                        }
                    }
                }
            },
        }
        rows_out[j] = row;
        van[j] = vanish;
    }
    (rows_out, van)
}

/// The other sets hold what the sets held before, and obey the law that
/// is being applied.
pub open spec fn admits(
    old: Seq<Seq<Seq<bool>>>,
    other: Seq<Seq<Seq<bool>>>,
    s: int,
    i: int,
    t: int,
    j: int,
    extra: Seq<bool>,
    through: bool,
) -> bool {
    subset3(old, other) && feeds(other[s][i], extra, through, other[t][j])
}

/// The sets have the same shape.
pub open spec fn same_shape(a: Seq<Seq<Seq<bool>>>, b: Seq<Seq<Seq<bool>>>) -> bool {
    &&& a.len() == b.len()
    &&& forall|s: int| 0 <= s < a.len() ==> (#[trigger] a[s]).len() == b[s].len()
    &&& forall|s: int, i: int|
        0 <= s < a.len() && 0 <= i < a[s].len() ==> (#[trigger] a[s][i]).len() == b[s][i].len()
}

/// A cube holds its own members.
pub proof fn lemma_subset3_refl(a: Seq<Seq<Seq<bool>>>)
    ensures
        subset3(a, a),
{
    assert forall|u: int| 0 <= u < a.len() implies subset2(#[trigger] a[u], a[u]) by {
        assert forall|v: int| 0 <= v < a[u].len() implies subset(#[trigger] a[u][v], a[u][v]) by {}
    }
}

/// Adds to the set of item `j` of state `t` the extra members and, if
/// `through` holds, the members of the set of item `i` of state `s`.
fn merge(
    la: &mut Vec<Vec<Vec<bool>>>,
    s: usize,
    i: usize,
    t: usize,
    j: usize,
    extra: &Vec<bool>,
    through: bool,
) -> (changed: bool)
    requires
        s < old(la).len(),
        t < old(la).len(),
        i < old(la)[s as int].len(),
        j < old(la)[t as int].len(),
        old(la)[s as int][i as int].len() == extra.len(),
        old(la)[t as int][j as int].len() == extra.len(),
    ensures
        same_shape(planes(old(la)@), planes(final(la)@)),
        final(la).len() == old(la).len(),
        cells3(planes(final(la)@)) == cells3(planes(old(la)@)),
        count3(planes(final(la)@)) >= count3(planes(old(la)@)),
        changed ==> count3(planes(final(la)@)) > count3(planes(old(la)@)),
        !changed ==> planes(final(la)@) == planes(old(la)@) && feeds(
            planes(old(la)@)[s as int][i as int],
            extra@,
            through,
            planes(old(la)@)[t as int][j as int],
        ),
        subset3(planes(old(la)@), planes(final(la)@)),
        forall|other: Seq<Seq<Seq<bool>>>| #[trigger]
            admits(planes(old(la)@), other, s as int, i as int, t as int, j as int, extra@, through)
                ==> subset3(planes(final(la)@), other),
{
    let ghost start = planes(la@);
    let w = extra.len();
    let mut changed = false;
    let mut k: usize = 0;
    assert(start[s as int][i as int] == la[s as int][i as int]@);
    assert(start[t as int][j as int] == la[t as int][j as int]@);
    proof {
        lemma_subset3_refl(start);
    }
    while k < w
        invariant
            w == extra.len(),
            k <= w,
            s < la.len(),
            t < la.len(),
            i < la[s as int].len(),
            j < la[t as int].len(),
            la[s as int][i as int].len() == w,
            la[t as int][j as int].len() == w,
            la.len() == start.len(),
            same_shape(start, planes(la@)),
            cells3(planes(la@)) == cells3(start),
            count3(planes(la@)) >= count3(start),
            changed ==> count3(planes(la@)) > count3(start),
            !changed ==> planes(la@) == start,
            !changed ==> forall|c: int|
                0 <= c < k ==> #[trigger] fed_at(
                    start[s as int][i as int],
                    extra@,
                    through,
                    start[t as int][j as int],
                    c,
                ),
            subset3(start, planes(la@)),
            forall|other: Seq<Seq<Seq<bool>>>| #[trigger]
                admits(start, other, s as int, i as int, t as int, j as int, extra@, through)
                    ==> subset3(planes(la@), other),
        decreases w - k,
    {
        let ghost cur = planes(la@);
        assert(cur[s as int][i as int] == la[s as int][i as int]@);
        assert(cur[t as int][j as int] == la[t as int][j as int]@);
        let bit = extra[k] || (through && la[s][i][k]);
        if bit && !la[t][j][k] {
            la[t][j][k] = true;
            proof {
                let now = planes(la@);
                let plane = cur[t as int].update(j as int, cur[t as int][j as int].update(k as int, true));
                assert(now =~~= cur.update(t as int, plane));
                lemma_count3_set(cur, t as int, j as int, k as int);
                assert forall|u: int| 0 <= u < start.len() implies subset2(
                    #[trigger] start[u],
                    now[u],
                ) by {
                    assert(subset2(start[u], cur[u]));
                    assert forall|v: int| 0 <= v < start[u].len() implies subset(
                        #[trigger] start[u][v],
                        now[u][v],
                    ) by {
                        assert(subset(start[u][v], cur[u][v]));
                    }
                }
                assert forall|other: Seq<Seq<Seq<bool>>>| #[trigger]
                    admits(start, other, s as int, i as int, t as int, j as int, extra@, through) implies subset3(
                    now,
                    other,
                ) by {
                    assert(subset3(cur, other));
                    assert(subset2(cur[s as int], other[s as int]));
                    assert(subset(cur[s as int][i as int], other[s as int][i as int]));
                    assert(subset2(cur[t as int], other[t as int]));
                    assert(subset(cur[t as int][j as int], other[t as int][j as int]));
                    assert(extra@[k as int] || (through && other[s as int][i as int][k as int]));
                    assert(fed_at(
                        other[s as int][i as int],
                        extra@,
                        through,
                        other[t as int][j as int],
                        k as int,
                    ));
                    assert(other[t as int][j as int][k as int]);
                    assert forall|u: int| 0 <= u < now.len() implies subset2(
                        #[trigger] now[u],
                        other[u],
                    ) by {
                        assert(subset2(cur[u], other[u]));
                        assert forall|v: int| 0 <= v < now[u].len() implies subset(
                            #[trigger] now[u][v],
                            other[u][v],
                        ) by {
                            assert(subset(cur[u][v], other[u][v]));
                        }
                    }
                }
            }
            changed = true;
        } else {
            proof {
                if !changed {
                    assert(cur == start);
                    assert(la[s as int][i as int]@[k as int] == start[s as int][i as int][k as int]);
                    assert(la[t as int][j as int]@[k as int] == start[t as int][j as int][k as int]);
                    assert(bit == (extra@[k as int] || (through && start[s as int][i as int][k as int])));
                    assert(bit ==> start[t as int][j as int][k as int]);
                }
            }
        }
        k += 1;
    }
    changed
}

/// Item `i` of state `s` has handed on all that the laws ask of it.
pub open spec fn settled(
    g: RulesView,
    nul: Seq<bool>,
    first: Seq<Seq<bool>>,
    a: AutomatonView,
    la: Seq<Seq<Seq<bool>>>,
    s: int,
    i: int,
) -> bool {
    &&& move_at(g, a, s, i) ==> move_ok(g, a, la, s, i)
    &&& forall|q: int| #[trigger] spawn_at(g, a, s, i, q) ==> spawn_ok(g, nul, first, la, s, i, q)
}

/// A cube of cleared flags: one plane per state, one row per item, one
/// column per terminal and one for the end of input.
fn cleared_cube(states: usize, items: usize, terminals: usize) -> (la: Vec<Vec<Vec<bool>>>)
    ensures
        la.len() == states,
        forall|s: int| 0 <= s < la.len() ==> (#[trigger] la[s]).len() == items,
        forall|s: int, i: int|
            0 <= s < la.len() && 0 <= i < la[s].len() ==> (#[trigger] la[s][i]).len() == terminals
                + 1,
        forall|s: int, i: int, k: int|
            0 <= s < la.len() && 0 <= i < la[s].len() && 0 <= k < la[s][i].len() ==> !(
            #[trigger] la[s][i][k]),
{
    let mut la: Vec<Vec<Vec<bool>>> = Vec::new();
    while la.len() < states
        invariant
            la.len() <= states,
            forall|s: int| 0 <= s < la.len() ==> (#[trigger] la[s]).len() == items,
            forall|s: int, i: int|
                0 <= s < la.len() && 0 <= i < la[s].len() ==> (#[trigger] la[s][i]).len()
                    == terminals + 1,
            forall|s: int, i: int, k: int|
                0 <= s < la.len() && 0 <= i < la[s].len() && 0 <= k < la[s][i].len() ==> !(
                #[trigger] la[s][i][k]),
        decreases states - la.len(),
    {
        let mut plane: Vec<Vec<bool>> = Vec::new();
        while plane.len() < items
            invariant
                plane.len() <= items,
                forall|i: int| 0 <= i < plane.len() ==> (#[trigger] plane[i]).len() == terminals + 1,
                forall|i: int, k: int|
                    0 <= i < plane.len() && 0 <= k < plane[i].len() ==> !(#[trigger] plane[i][k]),
            decreases items - plane.len(),
        {
            plane.push(cleared_and_one(terminals));
        }
        la.push(plane);
    }
    la
}

/// Computes the lookahead sets of every item of every state.
pub fn lookaheads(
    g: &Rules,
    it: &Items,
    nul: &Vec<bool>,
    first: &Vec<Vec<bool>>,
    a: &Automaton,
) -> (la: Vec<Vec<Vec<bool>>>)
    requires
        g.deep_view().wf(),
        it.matches(g.deep_view()),
        nul.len() == g.nonterminals,
        first_shape(g.deep_view(), rows(first@)),
        crate::automaton::is_automaton(g.deep_view(), a@),
    ensures
        planes(la@) == lookahead_of(g.deep_view(), nul@, rows(first@), a@),
        is_lookahead(g.deep_view(), nul@, rows(first@), a@, planes(la@)),
{
    let ghost gv = g.deep_view();
    let ghost fv = rows(first@);
    let ghost av = a@;
    let n = it.rule.len();
    let ns = a.states.len();
    let nn = g.nonterminals;
    let t = g.names.len() - nn;
    let (tails, van) = item_heads(g, it, nul, first);
    let zeros = cleared_and_one(t);
    let mut la = cleared_cube(ns, n, t);
    proof {
        lemma_items(gv);
        assert(0 <= item_at(gv, 0, 0) < items(gv).len());
        assert(zeros@ =~= no_terminals(gv));
        lemma_count3_bound(planes(la@));
    }
    let ghost blank = planes(la@);
    la[0][0][t] = true;
    proof {
        let now = planes(la@);
        assert(now =~~= blank.update(0, blank[0].update(0, blank[0][0].update(t as int, true))));
        assert forall|other: Seq<Seq<Seq<bool>>>| #[trigger]
            la_closed(gv, nul@, fv, av, other) implies subset3(now, other) by {
            assert forall|u: int| 0 <= u < now.len() implies subset2(#[trigger] now[u], other[u]) by {
                assert(other[u].len() == items(gv).len());
                assert forall|v: int| 0 <= v < now[u].len() implies subset(
                    #[trigger] now[u][v],
                    other[u][v],
                ) by {
                    assert(other[u][v].len() == gv.terminals() + 1);
                    assert forall|k: int| 0 <= k < now[u][v].len() && #[trigger] now[u][v][k] implies other[u][v][k] by {
                        if !(u == 0 && v == 0 && k == t) {
                            assert(!blank[u][v][k]);
                        }
                    }
                }
            }
        }
        lemma_count3_bound(now);
    }
    let mut changed = true;
    while changed
        invariant
            gv == g.deep_view(),
            gv.wf(),
            it.matches(gv),
            fv == rows(first@),
            av == a@,
            crate::automaton::is_automaton(gv, av),
            first_shape(gv, fv),
            nul.len() == nn,
            nn == g.nonterminals,
            t == gv.terminals(),
            n == it.rule.len(),
            n == items(gv).len(),
            ns == a.states.len(),
            zeros@ == no_terminals(gv),
            tails.len() == n,
            van.len() == n,
            forall|j: int| 0 <= j < n ==> (#[trigger] tails[j])@ == heads(gv, nul@, fv, j),
            forall|j: int| 0 <= j < n ==> #[trigger] van[j] == vanishes(gv, nul@, j),
            la_shape(gv, av, planes(la@)),
            planes(la@)[0][0][t as int],
            count3(planes(la@)) <= cells3(planes(la@)),
            forall|other: Seq<Seq<Seq<bool>>>| #[trigger]
                la_closed(gv, nul@, fv, av, other) ==> subset3(planes(la@), other),
            !changed ==> la_closed(gv, nul@, fv, av, planes(la@)),
        decreases cells3(planes(la@)) - count3(planes(la@)), (if changed { 1int } else { 0int }),
    {
        changed = false;
        let ghost start = planes(la@);
        let mut s: usize = 0;
        while s < ns
            invariant
                gv == g.deep_view(),
                gv.wf(),
                it.matches(gv),
                fv == rows(first@),
                av == a@,
                crate::automaton::is_automaton(gv, av),
                first_shape(gv, fv),
                nul.len() == nn,
                nn == g.nonterminals,
                t == gv.terminals(),
                n == it.rule.len(),
                n == items(gv).len(),
                ns == a.states.len(),
                s <= ns,
                zeros@ == no_terminals(gv),
                tails.len() == n,
                van.len() == n,
                forall|j: int| 0 <= j < n ==> (#[trigger] tails[j])@ == heads(gv, nul@, fv, j),
                forall|j: int| 0 <= j < n ==> #[trigger] van[j] == vanishes(gv, nul@, j),
                la_shape(gv, av, planes(la@)),
                planes(la@)[0][0][t as int],
                cells3(planes(la@)) == cells3(start),
                count3(planes(la@)) >= count3(start),
                changed ==> count3(planes(la@)) > count3(start),
                forall|other: Seq<Seq<Seq<bool>>>| #[trigger]
                    la_closed(gv, nul@, fv, av, other) ==> subset3(planes(la@), other),
                !changed ==> planes(la@) == start && forall|u: int, v: int|
                    0 <= u < s && 0 <= v < n ==> #[trigger] settled(
                        gv,
                        nul@,
                        fv,
                        av,
                        planes(la@),
                        u,
                        v,
                    ),
            decreases ns - s,
        {
            let mut i: usize = 0;
            while i < n
                invariant
                    gv == g.deep_view(),
                    gv.wf(),
                    it.matches(gv),
                    fv == rows(first@),
                    av == a@,
                    crate::automaton::is_automaton(gv, av),
                    first_shape(gv, fv),
                    nul.len() == nn,
                    nn == g.nonterminals,
                    t == gv.terminals(),
                    n == it.rule.len(),
                    n == items(gv).len(),
                    ns == a.states.len(),
                    s < ns,
                    i <= n,
                    zeros@ == no_terminals(gv),
                    tails.len() == n,
                    van.len() == n,
                    forall|j: int| 0 <= j < n ==> (#[trigger] tails[j])@ == heads(gv, nul@, fv, j),
                    forall|j: int| 0 <= j < n ==> #[trigger] van[j] == vanishes(gv, nul@, j),
                    la_shape(gv, av, planes(la@)),
                    planes(la@)[0][0][t as int],
                    cells3(planes(la@)) == cells3(start),
                    count3(planes(la@)) >= count3(start),
                    changed ==> count3(planes(la@)) > count3(start),
                    forall|other: Seq<Seq<Seq<bool>>>| #[trigger]
                        la_closed(gv, nul@, fv, av, other) ==> subset3(planes(la@), other),
                    !changed ==> planes(la@) == start && forall|u: int, v: int|
                        0 <= u < s && 0 <= v < n ==> #[trigger] settled(
                            gv,
                            nul@,
                            fv,
                            av,
                            planes(la@),
                            u,
                            v,
                        ),
                    !changed ==> forall|v: int|
                        0 <= v < i ==> #[trigger] settled(gv, nul@, fv, av, planes(la@), s as int, v),
                decreases n - i,
            {
                proof {
                    assert(av.states[s as int] == a.states[s as int]@);
                    assert(av.states[s as int].len() == items(gv).len());
                    assert(av.trans[s as int] == a.trans[s as int]@);
                    assert(av.trans[s as int].len() == crate::automaton::row_len(
                        gv,
                        s as int,
                        ns as int,
                        0,
                    ));
                }
                let mut symbol: Option<usize> = None;
                if a.states[s][i] {
                    symbol = it.next_symbol(g, i);
                }
                match symbol {
                    None => {
                        proof {
                            if !changed {
                                assert(settled(gv, nul@, fv, av, planes(la@), s as int, i as int));
                            }
                        }
                    },
                    Some(x) => {
                        proof {
                            lemma_next_item(gv, i as int);
                            lemma_items(gv);
                            let r = items(gv)[i as int].0;
                            let d = items(gv)[i as int].1;
                            assert(x == gv.rules[r].rhs[d]);
                            assert(x < gv.names.len());
                            assert(crate::automaton::done(s as int, x as int, ns as int, 0));
                            assert(crate::automaton::step_ok(gv, av, s as int, x as int));
                        }
                        match a.trans[s][x] {
                            Some(tgt) => {
                                let ghost before = planes(la@);
                                proof {
                                    assert(move_at(gv, av, s as int, i as int));
                                    assert(target(gv, av, s as int, i as int) == tgt);
                                    assert(before[s as int].len() == la[s as int].len());
                                    assert(before[tgt as int].len() == la[tgt as int].len());
                                    assert(before[s as int][i as int] == la[s as int][i as int]@);
                                    assert(before[tgt as int][i + 1] == la[tgt as int][i + 1]@);
                                }
                                let moved = merge(&mut la, s, i, tgt, i + 1, &zeros, true);
                                proof {
                                    let now = planes(la@);
                                    assert forall|other: Seq<Seq<Seq<bool>>>| #[trigger]
                                        la_closed(gv, nul@, fv, av, other) implies subset3(now, other) by {
                                        assert(move_ok(gv, av, other, s as int, i as int));
                                        assert(admits(
                                            before,
                                            other,
                                            s as int,
                                            i as int,
                                            tgt as int,
                                            i + 1,
                                            zeros@,
                                            true,
                                        ));
                                    }
                                    lemma_shape_kept(gv, av, before, now);
                                    assert(subset2(before[0], now[0]));
                                    assert(subset(before[0][0], now[0][0]));
                                }
                                if moved {
                                    changed = true;
                                }
                            },
                            None => {},
                        }
                        let mut q: usize = 1;
                        while q < g.rules.len()
                            invariant
                                gv == g.deep_view(),
                                gv.wf(),
                                it.matches(gv),
                                fv == rows(first@),
                                av == a@,
                                crate::automaton::is_automaton(gv, av),
                                first_shape(gv, fv),
                                nul.len() == nn,
                                nn == g.nonterminals,
                                t == gv.terminals(),
                                n == it.rule.len(),
                                n == items(gv).len(),
                                ns == a.states.len(),
                                s < ns,
                                i < n,
                                i + 1 < n,
                                1 <= q <= g.rules.len(),
                                av.states[s as int][i as int],
                                after_dot(gv, i as int) == Some(x),
                                zeros@ == no_terminals(gv),
                                tails.len() == n,
                                van.len() == n,
                                forall|j: int|
                                    0 <= j < n ==> (#[trigger] tails[j])@ == heads(gv, nul@, fv, j),
                                forall|j: int|
                                    0 <= j < n ==> #[trigger] van[j] == vanishes(gv, nul@, j),
                                la_shape(gv, av, planes(la@)),
                                planes(la@)[0][0][t as int],
                                cells3(planes(la@)) == cells3(start),
                                count3(planes(la@)) >= count3(start),
                                changed ==> count3(planes(la@)) > count3(start),
                                forall|other: Seq<Seq<Seq<bool>>>| #[trigger]
                                    la_closed(gv, nul@, fv, av, other) ==> subset3(
                                        planes(la@),
                                        other,
                                    ),
                                !changed ==> planes(la@) == start && forall|u: int, v: int|
                                    0 <= u < s && 0 <= v < n ==> #[trigger] settled(
                                        gv,
                                        nul@,
                                        fv,
                                        av,
                                        planes(la@),
                                        u,
                                        v,
                                    ),
                                !changed ==> forall|v: int|
                                    0 <= v < i ==> #[trigger] settled(
                                        gv,
                                        nul@,
                                        fv,
                                        av,
                                        planes(la@),
                                        s as int,
                                        v,
                                    ),
                                !changed ==> (move_at(gv, av, s as int, i as int) ==> move_ok(
                                    gv,
                                    av,
                                    planes(la@),
                                    s as int,
                                    i as int,
                                )),
                                !changed ==> forall|p: int|
                                    p < q && #[trigger] spawn_at(gv, av, s as int, i as int, p)
                                        ==> spawn_ok(gv, nul@, fv, planes(la@), s as int, i as int, p),
                            decreases g.rules.len() - q,
                        {
                            assert(gv.rules[q as int].lhs == g.rules[q as int].lhs);
                            if g.rules[q].lhs == x {
                                let j = it.base[q];
                                let ghost before = planes(la@);
                                proof {
                                    lemma_items(gv);
                                    assert(j == item_at(gv, q as int, 0));
                                    assert(0 <= item_at(gv, q as int, 0) < items(gv).len());
                                    assert(spawn_at(gv, av, s as int, i as int, q as int));
                                    assert(before[s as int].len() == la[s as int].len());
                                    assert(before[s as int][i as int] == la[s as int][i as int]@);
                                    assert(before[s as int][j as int] == la[s as int][j as int]@);
                                    assert(tails[i + 1]@ == heads(gv, nul@, fv, i + 1));
                                }
                                let spawned = merge(&mut la, s, i, s, j, &tails[i + 1], van[i + 1]);
                                proof {
                                    let now = planes(la@);
                                    assert forall|other: Seq<Seq<Seq<bool>>>| #[trigger]
                                        la_closed(gv, nul@, fv, av, other) implies subset3(now, other) by {
                                        assert(spawn_ok(gv, nul@, fv, other, s as int, i as int, q as int));
                                        assert(admits(
                                            before,
                                            other,
                                            s as int,
                                            i as int,
                                            s as int,
                                            j as int,
                                            tails[i + 1]@,
                                            van[i + 1],
                                        ));
                                    }
                                    lemma_shape_kept(gv, av, before, now);
                                    assert(subset2(before[0], now[0]));
                                    assert(subset(before[0][0], now[0][0]));
                                }
                                if spawned {
                                    changed = true;
                                }
                            }
                            q += 1;
                        }
                        proof {
                            if !changed {
                                assert forall|p: int| #[trigger]
                                    spawn_at(gv, av, s as int, i as int, p) implies spawn_ok(
                                    gv,
                                    nul@,
                                    fv,
                                    planes(la@),
                                    s as int,
                                    i as int,
                                    p,
                                ) by {
                                    assert(expands(gv, i as int, p));
                                }
                                assert(settled(gv, nul@, fv, av, planes(la@), s as int, i as int));
                            }
                        }
                    },
                }
                i += 1;
            }
            s += 1;
        }
        proof {
            lemma_count3_bound(planes(la@));
            if !changed {
                let cur = planes(la@);
                assert forall|u: int, v: int, q: int|
                    0 <= u < av.states.len() && 0 <= v < items(gv).len() && #[trigger] spawn_at(
                        gv,
                        av,
                        u,
                        v,
                        q,
                    ) implies spawn_ok(gv, nul@, fv, cur, u, v, q) by {
                    assert(settled(gv, nul@, fv, av, cur, u, v));
                }
                assert forall|u: int, v: int|
                    0 <= u < av.states.len() && 0 <= v < items(gv).len() && #[trigger] move_at(
                        gv,
                        av,
                        u,
                        v,
                    ) implies move_ok(gv, av, cur, u, v) by {
                    assert(settled(gv, nul@, fv, av, cur, u, v));
                }
            }
        }
    }
    proof {
        lemma_lookahead_unique(gv, nul@, fv, av, planes(la@));
    }
    la
}

proof fn lemma_shape_kept(
    g: RulesView,
    a: AutomatonView,
    before: Seq<Seq<Seq<bool>>>,
    now: Seq<Seq<Seq<bool>>>,
)
    requires
        la_shape(g, a, before),
        same_shape(before, now),
    ensures
        la_shape(g, a, now),
{
    assert forall|s: int| 0 <= s < now.len() implies (#[trigger] now[s]).len() == items(g).len() by {
        assert(before[s].len() == items(g).len());
    }
    assert forall|s: int, i: int| 0 <= s < now.len() && 0 <= i < now[s].len() implies (#[trigger] now[s][i]).len()
        == g.terminals() + 1 by {
        assert(before[s].len() == now[s].len());
        assert(before[s][i].len() == g.terminals() + 1);
    }
}

} // verus!
