//! The canonical collection of LR(0) item sets.
//!
//! State 0 is the closure of the goal item. Every state is tried with
//! every symbol in turn; a successor that is no state yet becomes the next
//! state. So the states are numbered in the order in which they are first
//! reached.

use vstd::prelude::*;
use crate::bits::{cleared, rows, same_flags};
use crate::items::{
    after_dot, close, closure, item_at, items, lemma_items, Items,
};
use crate::rules::{Rules, RulesView};

verus! {

/// The states of a grammar's LR(0) automaton and the moves between them.
pub struct Automaton {
    /// The items of each state.
    pub states: Vec<Vec<bool>>,
    /// For each state and symbol, the state that the symbol leads to.
    pub trans: Vec<Vec<Option<usize>>>,
    /// For each state but the first, the state and symbol by which it was
    /// first reached.
    pub origin: Vec<(usize, usize)>,
}

/// An automaton as plain sequences.
pub struct AutomatonView {
    pub states: Seq<Seq<bool>>,
    pub trans: Seq<Seq<Option<usize>>>,
    pub origin: Seq<(usize, usize)>,
}

impl View for Automaton {
    type V = AutomatonView;

    open spec fn view(&self) -> AutomatonView {
        AutomatonView {
            states: rows(self.states@),
            trans: Seq::new(self.trans.len() as nat, |i: int| self.trans[i]@),
            origin: self.origin@,
        }
    }
}

/// The kernel of the first state: the goal item with its dot in front.
pub open spec fn start_kernel(g: RulesView) -> Seq<bool> {
    Seq::new(items(g).len(), |i: int| i == 0)
}

/// The items of a set with their dot moved over the symbol `x`.
pub open spec fn shifted(g: RulesView, set: Seq<bool>, x: usize) -> Seq<bool> {
    Seq::new(items(g).len(), |j: int| j >= 1 && set[j - 1] && after_dot(g, j - 1) == Some(x))
}

/// The set has a member.
pub open spec fn nonempty(s: Seq<bool>) -> bool {
    exists|j: int| 0 <= j < s.len() && #[trigger] s[j]
}

/// The order in which pairs of a state and a symbol are tried.
pub open spec fn before(a: (usize, usize), b: (usize, usize)) -> bool {
    a.0 < b.0 || (a.0 == b.0 && a.1 < b.1)
}

/// The pair `(u, y)` has been tried when the construction stands at
/// `(s, x)`.
pub open spec fn done(u: int, y: int, s: int, x: int) -> bool {
    u < s || (u == s && y < x)
}

/// How many moves of state `u` are listed when the construction stands
/// at `(s, x)`.
pub open spec fn row_len(g: RulesView, u: int, s: int, x: int) -> int {
    if u < s {
        g.names.len() as int
    } else if u == s {
        x
    } else {
        0
    }
}

/// The parts of the automaton fit together: one row of moves and one
/// origin per state, and the rows as long as the construction has come.
pub open spec fn shape_ok(g: RulesView, a: AutomatonView, s: int, x: int) -> bool {
    &&& a.states.len() >= 1
    &&& a.trans.len() == a.states.len()
    &&& a.origin.len() == a.states.len()
    &&& 0 <= s <= a.states.len()
    &&& 0 <= x <= g.names.len()
    &&& (s == a.states.len() ==> x == 0)
    &&& forall|u: int| 0 <= u < a.states.len() ==> (#[trigger] a.states[u]).len() == items(g).len()
    &&& forall|u: int| 0 <= u < a.trans.len() ==> (#[trigger] a.trans[u]).len() == row_len(g, u, s, x)
}

/// The move from state `s` on symbol `x` is right: it leads to the state
/// that closes the shifted items, or nowhere if there are none.
pub open spec fn step_ok(g: RulesView, a: AutomatonView, s: int, x: int) -> bool {
    let k = shifted(g, a.states[s], x as usize);
    if nonempty(k) {
        a.trans[s][x] matches Some(t) && t < a.states.len() && a.states[t as int] == closure(g, k)
    } else {
        a.trans[s][x] is None
    }
}

/// Every move that has been tried is right.
pub open spec fn steps_ok(g: RulesView, a: AutomatonView, s: int, x: int) -> bool {
    forall|u: int, y: int|
        0 <= u && 0 <= y < g.names.len() && done(u, y, s, x) ==> #[trigger] step_ok(g, a, u, y)
}

/// No two states hold the same items.
pub open spec fn distinct(a: AutomatonView) -> bool {
    forall|u: int, v: int|
        #![trigger a.states[u], a.states[v]]
        0 <= u < v < a.states.len() ==> a.states[u] != a.states[v]
}

/// State `t` is the target of the move that its origin names, a move from
/// an earlier state.
pub open spec fn origin_ok(g: RulesView, a: AutomatonView, t: int, s: int, x: int) -> bool {
    let o = a.origin[t];
    o.0 < t && o.1 < g.names.len() && done(o.0 as int, o.1 as int, s, x) && (a.trans[o.0 as int][o.1 as int]
        matches Some(v) && v == t)
}

/// Every state but the first has its origin.
pub open spec fn origins_ok(g: RulesView, a: AutomatonView, s: int, x: int) -> bool {
    a.origin[0] == (0usize, 0usize) && forall|t: int|
        1 <= t < a.states.len() ==> #[trigger] origin_ok(g, a, t, s, x)
}

/// Later states have later origins.
pub open spec fn origins_rise(a: AutomatonView) -> bool {
    forall|t1: int, t2: int|
        #![trigger a.origin[t1], a.origin[t2]]
        1 <= t1 < t2 < a.states.len() ==> before(a.origin[t1], a.origin[t2])
}

/// The move from `u` on `y` does not come before the origin of its target.
pub open spec fn first_reach(a: AutomatonView, u: int, y: int) -> bool {
    a.trans[u][y] matches Some(t) ==> !before((u as usize, y as usize), a.origin[t as int])
}

/// No move that has been tried comes before the origin of its target.
pub open spec fn reaches_ok(g: RulesView, a: AutomatonView, s: int, x: int) -> bool {
    forall|u: int, y: int|
        0 <= u && 0 <= y < g.names.len() && done(u, y, s, x) ==> #[trigger] first_reach(a, u, y)
}

/// The automaton is right as far as the pairs before `(s, x)` go.
pub open spec fn is_partial(g: RulesView, a: AutomatonView, s: int, x: int) -> bool {
    &&& shape_ok(g, a, s, x)
    &&& a.states[0] == closure(g, start_kernel(g))
    &&& steps_ok(g, a, s, x)
    &&& distinct(a)
    &&& origins_ok(g, a, s, x)
    &&& origins_rise(a)
    &&& reaches_ok(g, a, s, x)
}

/// The automaton is the canonical collection of the grammar: the first
/// state closes the goal item, every move is right, no state occurs twice,
/// and the states stand in the order in which they are first reached.
pub open spec fn is_automaton(g: RulesView, a: AutomatonView) -> bool {
    is_partial(g, a, a.states.len() as int, 0)
}

/// The canonical collection of a grammar.
pub open spec fn automaton_of(g: RulesView) -> AutomatonView {
    choose|a: AutomatonView| is_automaton(g, a)
}

// ---------------------------------------------------------------------
// The automaton of a grammar is unique
// ---------------------------------------------------------------------

proof fn lemma_same_target(g: RulesView, a: AutomatonView, b: AutomatonView, s: int, x: int) -> (u:
    usize)
    requires
        is_automaton(g, a),
        is_automaton(g, b),
        0 <= s < a.states.len(),
        s < b.states.len(),
        a.states[s] == b.states[s],
        0 <= x < g.names.len(),
        a.trans[s][x] is Some,
    ensures
        b.trans[s][x] == Some(u),
        u < b.states.len(),
        b.states[u as int] == a.states[a.trans[s][x].unwrap() as int],
{
    assert(done(s, x, a.states.len() as int, 0));
    assert(done(s, x, b.states.len() as int, 0));
    assert(step_ok(g, a, s, x));
    assert(step_ok(g, b, s, x));
    b.trans[s][x].unwrap()
}

proof fn lemma_agree(g: RulesView, a: AutomatonView, b: AutomatonView, t: int)
    requires
        is_automaton(g, a),
        is_automaton(g, b),
        0 <= t < a.states.len(),
        t < b.states.len(),
    ensures
        forall|u: int| 0 <= u <= t ==> #[trigger] a.states[u] == b.states[u],
        forall|u: int| 0 <= u <= t ==> #[trigger] a.origin[u] == b.origin[u],
    decreases t,
{
    if t > 0 {
        lemma_agree(g, a, b, t - 1);
        let oa = a.origin[t];
        let ob = b.origin[t];
        assert(origin_ok(g, a, t, a.states.len() as int, 0));
        assert(origin_ok(g, b, t, b.states.len() as int, 0));
        assert(a.states[oa.0 as int] == b.states[oa.0 as int]);
        assert(a.states[ob.0 as int] == b.states[ob.0 as int]);
        let uab = lemma_same_target(g, a, b, oa.0 as int, oa.1 as int) as int;
        let uba = lemma_same_target(g, b, a, ob.0 as int, ob.1 as int) as int;
        assert(b.states[uab] == a.states[t]);
        assert(a.states[uba] == b.states[t]);
        assert(done(oa.0 as int, oa.1 as int, b.states.len() as int, 0));
        assert(done(ob.0 as int, ob.1 as int, a.states.len() as int, 0));
        assert(first_reach(b, oa.0 as int, oa.1 as int));
        assert(first_reach(a, ob.0 as int, ob.1 as int));
        assert(!before(oa, b.origin[uab]));
        assert(!before(ob, a.origin[uba]));
        if uab < t {
            assert(a.states[uab] == b.states[uab]);
            assert(a.states[uab] != a.states[t]);
            assert(false);
        }
        if uba < t {
            assert(a.states[uba] == b.states[uba]);
            assert(b.states[uba] != b.states[t]);
            assert(false);
        }
        if uab > t && uba > t {
            assert(before(b.origin[t], b.origin[uab]));
            assert(before(a.origin[t], a.origin[uba]));
            assert(false);
        }
        if uab == t && uba > t {
            assert(a.states[t] != a.states[uba]);
            assert(false);
        }
        if uba == t && uab > t {
            assert(b.states[t] != b.states[uab]);
            assert(false);
        }
        assert(uab == t && uba == t);
        assert(oa.0 == ob.0 && oa.1 == ob.1);
    }
}

proof fn lemma_not_shorter(g: RulesView, a: AutomatonView, b: AutomatonView)
    requires
        is_automaton(g, a),
        is_automaton(g, b),
    ensures
        a.states.len() >= b.states.len(),
{
    if a.states.len() < b.states.len() {
        let t = a.states.len() as int;
        lemma_agree(g, a, b, t - 1);
        let ob = b.origin[t];
        assert(origin_ok(g, b, t, b.states.len() as int, 0));
        assert(a.states[ob.0 as int] == b.states[ob.0 as int]);
        let u = lemma_same_target(g, b, a, ob.0 as int, ob.1 as int) as int;
        assert(a.states[u] == b.states[u]);
        assert(b.states[u] != b.states[t]);
        assert(false);
    }
}

/// A grammar has one canonical collection.
pub proof fn lemma_automaton_unique(g: RulesView, a: AutomatonView, b: AutomatonView)
    requires
        is_automaton(g, a),
        is_automaton(g, b),
    ensures
        a == b,
{
    lemma_not_shorter(g, a, b);
    lemma_not_shorter(g, b, a);
    let n = a.states.len() as int;
    lemma_agree(g, a, b, n - 1);
    assert(a.states =~= b.states);
    assert(a.origin =~= b.origin);
    assert forall|s: int| 0 <= s < n implies #[trigger] a.trans[s] == b.trans[s] by {
        assert(a.trans[s].len() == row_len(g, s, n, 0));
        assert(b.trans[s].len() == row_len(g, s, n, 0));
        assert forall|x: int| 0 <= x < g.names.len() implies a.trans[s][x] == b.trans[s][x] by {
            assert(done(s, x, n, 0));
            assert(step_ok(g, a, s, x));
            assert(step_ok(g, b, s, x));
            if a.trans[s][x] is Some {
                let ta = a.trans[s][x].unwrap() as int;
                let tb = b.trans[s][x].unwrap() as int;
                assert(a.states[ta] == a.states[tb]);
                if ta < tb {
                    assert(a.states[ta] != a.states[tb]);
                } else if tb < ta {
                    assert(a.states[tb] != a.states[ta]);
                }
            }
        }
        assert(a.trans[s] =~= b.trans[s]);
    }
    assert(a.trans =~= b.trans);
}

// ---------------------------------------------------------------------
// Construction
// ---------------------------------------------------------------------

/// Moves the dot of the items of a set over the symbol `x`, and tells
/// whether any item could move.
pub fn shift(g: &Rules, it: &Items, set: &Vec<bool>, x: usize) -> (r: (Vec<bool>, bool))
    requires
        g.deep_view().wf(),
        it.matches(g.deep_view()),
        set.len() == it.rule.len(),
    ensures
        r.0@ == shifted(g.deep_view(), set@, x),
        r.1 == nonempty(r.0@),
{
    let ghost gv = g.deep_view();
    let n = set.len();
    let mut out = cleared(n);
    let mut any = false;
    let mut j: usize = 1;
    proof {
        lemma_items(gv);
        assert(0 <= item_at(gv, 0, 0) < items(gv).len());
    }
    while j < n
        invariant
            gv == g.deep_view(),
            gv.wf(),
            it.matches(gv),
            n == set.len(),
            n == it.rule.len(),
            out.len() == n,
            1 <= j <= n,
            forall|i: int|
                0 <= i < j ==> #[trigger] out[i] == (i >= 1 && set[i - 1] && after_dot(gv, i - 1)
                    == Some(x)),
            forall|i: int| j <= i < n ==> !#[trigger] out[i],
            any <==> exists|i: int| 0 <= i < j && #[trigger] out[i],
        decreases n - j,
    {
        let ghost before_any = any;
        let ghost before_out = out@;
        if set[j - 1] {
            match it.next_symbol(g, j - 1) {
                Some(y) => {
                    if y == x {
                        out[j] = true;
                        any = true;
                    }
                },
                None => {},
            }
        }
        proof {
            if before_any {
                let i = choose|i: int| 0 <= i < j && #[trigger] before_out[i];
                assert(out[i]);
            }
            if exists|i: int| 0 <= i < j + 1 && #[trigger] out[i] {
                let i = choose|i: int| 0 <= i < j + 1 && #[trigger] out[i];
                if i < j {
                    assert(before_out[i]);
                }
            }
        }
        j += 1;
    }
    assert(out@ =~= shifted(gv, set@, x));
    (out, any)
}

fn find_state(states: &Vec<Vec<bool>>, set: &Vec<bool>) -> (r: Option<usize>)
    ensures
        match r {
            Some(t) => t < states.len() && states[t as int]@ == set@,
            None => forall|u: int| 0 <= u < states.len() ==> (#[trigger] states[u])@ != set@,
        },
{
    let mut t: usize = 0;
    while t < states.len()
        invariant
            t <= states.len(),
            forall|u: int| 0 <= u < t ==> (#[trigger] states[u])@ != set@,
        decreases states.len() - t,
    {
        if same_flags(&states[t], set) {
            return Some(t);
        }
        t += 1;
    }
    None
}

impl Automaton {
    /// Tries state `s` with symbol `x`.
    fn extend(&mut self, g: &Rules, it: &Items, s: usize, x: usize)
        requires
            g.deep_view().wf(),
            it.matches(g.deep_view()),
            is_partial(g.deep_view(), old(self)@, s as int, x as int),
            s < old(self).states.len(),
            x < g.names.len(),
        ensures
            is_partial(g.deep_view(), final(self)@, s as int, x + 1),
            final(self).states.len() >= old(self).states.len(),
    {
        let ghost gv = g.deep_view();
        let ghost old_a = self@;
        proof {
            assert(old_a.states[s as int].len() == items(gv).len());
            assert(old_a.states[s as int] == self.states[s as int]@);
        }
        let (kernel, any) = shift(g, it, &self.states[s], x);
        let ghost k = kernel@;
        let mut target: Option<usize> = None;
        if any {
            let mut set = kernel;
            close(g, it, &mut set);
            match find_state(&self.states, &set) {
                Some(t) => {
                    assert(old_a.states[t as int] == self.states[t as int]@);
                    target = Some(t);
                },
                None => {
                    let t = self.states.len();
                    proof {
                        assert forall|u: int| 0 <= u < old_a.states.len() implies #[trigger] old_a.states[u]
                            != set@ by {
                            assert(old_a.states[u] == self.states[u]@);
                        }
                    }
                    self.states.push(set);
                    self.origin.push((s, x));
                    self.trans.push(Vec::new());
                    target = Some(t);
                },
            }
        }
        let ghost mid = self@;
        self.trans[s].push(target);
        proof {
            let new_a = self@;
            let n_old = old_a.states.len() as int;
            let grown = mid.states.len() > n_old;
            assert(forall|u: int| 0 <= u < n_old ==> #[trigger] mid.states[u] == old_a.states[u]);
            assert(forall|u: int| 0 <= u < n_old ==> #[trigger] mid.origin[u] == old_a.origin[u]);
            assert(forall|u: int| 0 <= u < n_old ==> #[trigger] mid.trans[u] == old_a.trans[u]);
            assert(new_a.states =~= mid.states);
            assert(new_a.origin =~= mid.origin);
            assert(new_a.trans =~= mid.trans.update(s as int, mid.trans[s as int].push(target)));
            assert(old_a.trans[s as int].len() == row_len(gv, s as int, s as int, x as int));
            // the moves
            assert forall|u: int, y: int|
                0 <= u && 0 <= y < gv.names.len() && done(u, y, s as int, x + 1) implies #[trigger] step_ok(
                gv,
                new_a,
                u,
                y,
            ) by {
                if u == s && y == x {
                    assert(new_a.trans[u][y] == target);
                    assert(new_a.states[s as int] == old_a.states[s as int]);
                } else {
                    assert(done(u, y, s as int, x as int));
                    assert(step_ok(gv, old_a, u, y));
                    assert(old_a.trans[u].len() == row_len(gv, u, s as int, x as int));
                    assert(new_a.trans[u][y] == old_a.trans[u][y]);
                    assert(new_a.states[u] == old_a.states[u]);
                }
            }
            // no state twice
            assert forall|u: int, v: int|
                #![trigger new_a.states[u], new_a.states[v]]
                0 <= u < v < new_a.states.len() implies new_a.states[u] != new_a.states[v] by {
                if v < n_old {
                    assert(old_a.states[u] != old_a.states[v]);
                } else {
                    assert(new_a.states[u] == old_a.states[u]);
                }
            }
            // origins
            assert forall|t: int| 1 <= t < new_a.states.len() implies #[trigger] origin_ok(
                gv,
                new_a,
                t,
                s as int,
                x + 1,
            ) by {
                if t < n_old {
                    assert(origin_ok(gv, old_a, t, s as int, x as int));
                    let o = old_a.origin[t];
                    assert(new_a.origin[t] == o);
                    assert(old_a.trans[o.0 as int].len() == row_len(gv, o.0 as int, s as int, x as int));
                    assert(new_a.trans[o.0 as int][o.1 as int] == old_a.trans[o.0 as int][o.1 as int]);
                } else {
                    assert(new_a.origin[t] == (s, x));
                    assert(new_a.trans[s as int][x as int] == target);
                }
            }
            assert forall|t1: int, t2: int|
                #![trigger new_a.origin[t1], new_a.origin[t2]]
                1 <= t1 < t2 < new_a.states.len() implies before(
                new_a.origin[t1],
                new_a.origin[t2],
            ) by {
                if t2 < n_old {
                    assert(before(old_a.origin[t1], old_a.origin[t2]));
                } else {
                    assert(origin_ok(gv, old_a, t1, s as int, x as int));
                    assert(new_a.origin[t1] == old_a.origin[t1]);
                    assert(new_a.origin[t2] == (s, x));
                }
            }
            assert forall|u: int, y: int|
                0 <= u && 0 <= y < gv.names.len() && done(u, y, s as int, x + 1) implies #[trigger] first_reach(
                new_a,
                u,
                y,
            ) by {
                if u == s && y == x {
                    assert(new_a.trans[u][y] == target);
                    if target is Some {
                        let t = target.unwrap() as int;
                        if t >= n_old {
                            assert(new_a.origin[t] == (s, x));
                        } else if t >= 1 {
                            assert(origin_ok(gv, old_a, t, s as int, x as int));
                            assert(new_a.origin[t] == old_a.origin[t]);
                        } else {
                            assert(new_a.origin[0] == old_a.origin[0]);
                        }
                    }
                } else {
                    assert(done(u, y, s as int, x as int));
                    assert(first_reach(old_a, u, y));
                    assert(step_ok(gv, old_a, u, y));
                    assert(old_a.trans[u].len() == row_len(gv, u, s as int, x as int));
                    assert(new_a.trans[u][y] == old_a.trans[u][y]);
                    if old_a.trans[u][y] is Some {
                        let t = old_a.trans[u][y].unwrap() as int;
                        assert(new_a.origin[t] == old_a.origin[t]);
                    }
                }
            }
            // shape
            assert forall|u: int| 0 <= u < new_a.states.len() implies (#[trigger] new_a.states[u]).len()
                == items(gv).len() by {
                if u < n_old {
                    assert(new_a.states[u] == old_a.states[u]);
                }
            }
            assert forall|u: int| 0 <= u < new_a.trans.len() implies (#[trigger] new_a.trans[u]).len()
                == row_len(gv, u, s as int, x + 1) by {
                if u < n_old {
                    assert(old_a.trans[u].len() == row_len(gv, u, s as int, x as int));
                }
            }
            assert(new_a.states[0] == old_a.states[0]);
            assert(new_a.origin[0] == old_a.origin[0]);
        }
    }

    /// Builds the canonical collection of a grammar.
    pub fn build(g: &Rules, it: &Items) -> (a: Automaton)
        requires
            g.deep_view().wf(),
            it.matches(g.deep_view()),
        ensures
            is_automaton(g.deep_view(), a@),
            a@ == automaton_of(g.deep_view()),
    {
        let ghost gv = g.deep_view();
        let n = it.rule.len();
        proof {
            lemma_items(gv);
            assert(0 <= item_at(gv, 0, 0) < items(gv).len());
        }
        let mut start = cleared(n);
        start[0] = true;
        assert(start@ =~= start_kernel(gv));
        close(g, it, &mut start);
        let mut a = Automaton { states: Vec::new(), trans: Vec::new(), origin: Vec::new() };
        a.states.push(start);
        a.trans.push(Vec::new());
        a.origin.push((0, 0));
        let mut s: usize = 0;
        proof {
            let v = a@;
            assert(v.states[0] == closure(gv, start_kernel(gv)));
            assert(v.trans[0].len() == 0);
            assert(is_partial(gv, v, 0, 0));
        }
        while s < a.states.len()
            invariant
                gv == g.deep_view(),
                gv.wf(),
                it.matches(gv),
                s <= a.states.len(),
                a.states.len() <= usize::MAX,
                is_partial(gv, a@, s as int, 0),
            decreases usize::MAX - a.states.len(), a.states.len() - s,
        {
            let ghost len0 = a.states.len();
            let mut x: usize = 0;
            while x < g.names.len()
                invariant
                    gv == g.deep_view(),
                    gv.wf(),
                    it.matches(gv),
                    s < a.states.len(),
                    a.states.len() >= len0,
                    x <= g.names.len(),
                    is_partial(gv, a@, s as int, x as int),
                decreases g.names.len() - x,
            {
                a.extend(g, it, s, x);
                x += 1;
            }
            proof {
                let v = a@;
                assert forall|u: int| 0 <= u < v.trans.len() implies (#[trigger] v.trans[u]).len()
                    == row_len(gv, u, s + 1, 0) by {
                    assert(v.trans[u].len() == row_len(gv, u, s as int, x as int));
                }
                assert forall|u: int, y: int|
                    0 <= u && 0 <= y < gv.names.len() && done(u, y, s + 1, 0) implies #[trigger] step_ok(
                    gv,
                    v,
                    u,
                    y,
                ) by {
                    assert(done(u, y, s as int, x as int));
                }
                assert forall|t: int| 1 <= t < v.states.len() implies #[trigger] origin_ok(
                    gv,
                    v,
                    t,
                    s + 1,
                    0,
                ) by {
                    assert(origin_ok(gv, v, t, s as int, x as int));
                }
                assert forall|u: int, y: int|
                    0 <= u && 0 <= y < gv.names.len() && done(u, y, s + 1, 0) implies #[trigger] first_reach(
                    v,
                    u,
                    y,
                ) by {
                    assert(done(u, y, s as int, x as int));
                }
            }
            s += 1;
            // reading the length tells the verifier that it fits in `usize`,
            // which bounds the number of states that can still be added
            let _states = a.states.len();
        }
        proof {
            let c = automaton_of(gv);
            assert(is_automaton(gv, a@));
            assert(is_automaton(gv, c));
            lemma_automaton_unique(gv, a@, c);
        }
        a
    }
}

} // verus!
