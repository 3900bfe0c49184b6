//! The ACTION and GOTO tables, with conflicts settled by precedence.
//!
//! Where a state could both shift a terminal and reduce a rule, the one
//! of higher rank wins; at equal rank the level's associativity decides.
//! Where two rules could be reduced, the one declared first is taken and
//! the cell is marked.

use vstd::prelude::*;
use crate::automaton::{is_automaton, row_len, Automaton, AutomatonView};
use crate::bits::{planes, rows};
use crate::error::{Conflict, ConflictView};
use crate::items::{after_dot, item_at, items, lemma_items, Items};
use crate::lookahead::la_shape;
use crate::precedence::{rank_of, same_rank, LevelView, PrecedenceTable};
use crate::rules::{Rules, RulesView};
use crate::syntax::LevelKind;

verus! {

/// What the parser does in a state on a terminal.
#[derive(Clone, Copy, Debug, PartialEq, Eq, Structural)]
pub enum Action {
    /// The terminal is a syntax error here.
    Error,
    /// Consume the terminal and go to the state.
    Shift(usize),
    /// Reduce the rule.
    Reduce(usize),
    /// The input is a sentence of the grammar.
    Accept,
}

/// The rightmost terminal among the first `e` symbols of rule `r`.
pub open spec fn rightmost_terminal(g: RulesView, r: int, e: int) -> Option<usize>
    decreases e,
{
    if e <= 0 {
        None
    } else if g.rules[r].rhs[e - 1] >= g.nonterminals {
        Some(g.rules[r].rhs[e - 1])
    } else {
        rightmost_terminal(g, r, e - 1)
    }
}

/// The rank that a rule has from its rightmost terminal.
pub open spec fn own_rank(g: RulesView, ls: Seq<LevelView>, r: int) -> Option<int> {
    match rightmost_terminal(g, r, g.rules[r].rhs.len() as int) {
        Some(x) => rank_of(ls, g.names[x as int]),
        None => None,
    }
}

/// The rank of a rule: that of a precedence-only level that lists its
/// production, else that of its rightmost terminal.
pub open spec fn rule_rank(g: RulesView, ls: Seq<LevelView>, r: int) -> Option<int> {
    if r >= 1 {
        match rank_of(ls, g.names[g.rules[r].lhs as int]) {
            Some(p) => if ls[p].kind == LevelKind::Precedence {
                Some(p)
            } else {
                own_rank(g, ls, r)
            },
            None => own_rank(g, ls, r),
        }
    } else {
        own_rank(g, ls, r)
    }
}

/// The rank of the terminal in column `k`.
pub open spec fn token_rank(g: RulesView, ls: Seq<LevelView>, k: int) -> Option<int> {
    rank_of(ls, g.names[g.nonterminals + k])
}

/// Rule `r` is complete in state `s` and may be followed by column `k`.
pub open spec fn reducible(
    g: RulesView,
    a: AutomatonView,
    la: Seq<Seq<Seq<bool>>>,
    s: int,
    k: int,
    r: int,
) -> bool {
    let i = item_at(g, r, g.rules[r].rhs.len() as int);
    a.states[s][i] && la[s][i][k]
}

/// The first rule from `r` on that is reducible in state `s` on column
/// `k`.
pub open spec fn first_reducible(
    g: RulesView,
    a: AutomatonView,
    la: Seq<Seq<Seq<bool>>>,
    s: int,
    k: int,
    r: int,
) -> Option<int>
    decreases g.rules.len() - r,
{
    if r < 0 || r >= g.rules.len() {
        None
    } else if reducible(g, a, la, s, k, r) {
        Some(r)
    } else {
        first_reducible(g, a, la, s, k, r + 1)
    }
}

/// The state that column `k` leads to from state `s`. The end of input
/// leads nowhere.
pub open spec fn shift_target(g: RulesView, a: AutomatonView, s: int, k: int) -> Option<usize> {
    if k < g.terminals() {
        a.trans[s][g.nonterminals + k]
    } else {
        None
    }
}

/// The reduction of rule `r`; that of the goal rule accepts.
pub open spec fn reduce_action(r: int) -> Action {
    if r == 0 {
        Action::Accept
    } else {
        Action::Reduce(r as usize)
    }
}

/// The outcome of a shift/reduce conflict between rule `r` and a shift to
/// `t`, or `None` where precedence does not settle it.
pub open spec fn settle(
    ls: Seq<LevelView>,
    rule: Option<int>,
    token: Option<int>,
    r: int,
    t: usize,
) -> Option<Action> {
    match (rule, token) {
        (Some(p), Some(q)) => if p > q {
            Some(reduce_action(r))
        } else if p < q {
            Some(Action::Shift(t))
        } else {
            match ls[p].kind {
                LevelKind::Left => Some(reduce_action(r)),
                LevelKind::Right => Some(Action::Shift(t)),
                LevelKind::NonAssoc => Some(Action::Error),
                LevelKind::Precedence => None,
            }
        },
        _ => None,
    }
}

/// The action of state `s` on column `k`, or `None` for a conflict that
/// precedence does not settle.
pub open spec fn resolve(
    g: RulesView,
    ls: Seq<LevelView>,
    a: AutomatonView,
    la: Seq<Seq<Seq<bool>>>,
    s: int,
    k: int,
) -> Option<Action> {
    match (first_reducible(g, a, la, s, k, 0), shift_target(g, a, s, k)) {
        (None, None) => Some(Action::Error),
        (None, Some(t)) => Some(Action::Shift(t)),
        (Some(r), None) => Some(reduce_action(r)),
        (Some(r), Some(t)) => settle(ls, rule_rank(g, ls, r), token_rank(g, ls, k), r, t),
    }
}

/// More than one rule is reducible in state `s` on column `k`.
pub open spec fn ambiguous_cell(
    g: RulesView,
    a: AutomatonView,
    la: Seq<Seq<Seq<bool>>>,
    s: int,
    k: int,
) -> bool {
    match first_reducible(g, a, la, s, k, 0) {
        Some(r) => first_reducible(g, a, la, s, k, r + 1) is Some,
        None => false,
    }
}

/// The rule of the first item from `i` on, in state `s`, that has symbol
/// `x` behind its dot.
pub open spec fn shifting_rule(g: RulesView, a: AutomatonView, s: int, x: usize, i: int) -> int
    decreases items(g).len() - i,
{
    if i < 0 || i >= items(g).len() {
        0
    } else if a.states[s][i] && after_dot(g, i) == Some(x) {
        items(g)[i].0
    } else {
        shifting_rule(g, a, s, x, i + 1)
    }
}

/// The parties of the conflict in state `s` on column `k`.
pub open spec fn conflict_at(
    g: RulesView,
    a: AutomatonView,
    la: Seq<Seq<Seq<bool>>>,
    s: int,
    k: int,
) -> ConflictView {
    ConflictView {
        state: s as usize,
        reduce_rule: first_reducible(g, a, la, s, k, 0).unwrap() as usize,
        shift_rule: shifting_rule(g, a, s, (g.nonterminals + k) as usize, 0) as usize,
        token: g.names[g.nonterminals + k],
    }
}

/// The first cell, from column `k` of state `s` on, with a conflict that
/// precedence does not settle.
pub open spec fn first_conflict(
    g: RulesView,
    ls: Seq<LevelView>,
    a: AutomatonView,
    la: Seq<Seq<Seq<bool>>>,
    s: int,
    k: int,
) -> Option<(int, int)>
    decreases a.states.len() - s, g.terminals() + 1 - k,
{
    if s < 0 || k < 0 || s >= a.states.len() {
        None
    } else if k > g.terminals() {
        first_conflict(g, ls, a, la, s + 1, 0)
    } else if resolve(g, ls, a, la, s, k) is None {
        Some((s, k))
    } else {
        first_conflict(g, ls, a, la, s, k + 1)
    }
}

/// The rank of rule `r`.
pub fn rank_of_rule(g: &Rules, table: &PrecedenceTable, r: usize) -> (rank: Option<usize>)
    requires
        g.deep_view().wf(),
        r < g.rules.len(),
    ensures
        same_rank(rank, rule_rank(g.deep_view(), table.deep_view(), r as int)),
        rank matches Some(p) ==> p < table.levels.len(),
{
    let ghost gv = g.deep_view();
    let ghost ls = table.deep_view();
    let rule = &g.rules[r];
    assert(gv.rules[r as int].rhs == rule.rhs@);
    assert(gv.rules[r as int].lhs == rule.lhs);
    if r >= 1 {
        assert(gv.names[rule.lhs as int] == g.names[rule.lhs as int]@);
        match table.rank(&g.names[rule.lhs]) {
            Some(p) => {
                assert(ls[p as int].kind == table.levels[p as int].kind);
                if table.levels[p].kind == LevelKind::Precedence {
                    return Some(p);
                }
            },
            None => {},
        }
    }
    let mut e: usize = rule.rhs.len();
    assert(rule_rank(gv, ls, r as int) == own_rank(gv, ls, r as int));
    while e > 0
        invariant
            gv == g.deep_view(),
            ls == table.deep_view(),
            rule_rank(gv, ls, r as int) == own_rank(gv, ls, r as int),
            gv.wf(),
            r < g.rules.len(),
            rule == &g.rules[r as int],
            gv.rules[r as int].rhs == rule.rhs@,
            e <= rule.rhs.len(),
            rightmost_terminal(gv, r as int, rule.rhs.len() as int) == rightmost_terminal(
                gv,
                r as int,
                e as int,
            ),
        decreases e,
    {
        let x = rule.rhs[e - 1];
        assert(x == gv.rules[r as int].rhs[e - 1]);
        if x >= g.nonterminals {
            assert(x < gv.names.len());
            assert(gv.names[x as int] == g.names[x as int]@);
            return table.rank(&g.names[x]);
        }
        e -= 1;
    }
    None
}

/// Finds the first rule from `from` on that is reducible in state `s` on
/// column `k`.
fn find_reducible(
    g: &Rules,
    it: &Items,
    a: &Automaton,
    la: &Vec<Vec<Vec<bool>>>,
    s: usize,
    k: usize,
    from: usize,
) -> (r: Option<usize>)
    requires
        g.deep_view().wf(),
        it.matches(g.deep_view()),
        is_automaton(g.deep_view(), a@),
        la_shape(g.deep_view(), a@, planes(la@)),
        s < a.states.len(),
        k <= g.deep_view().terminals(),
    ensures
        same_rank(r, first_reducible(g.deep_view(), a@, planes(la@), s as int, k as int, from as int)),
        r matches Some(q) ==> from <= q < g.rules.len(),
{
    let ghost gv = g.deep_view();
    let ghost av = a@;
    let ghost lv = planes(la@);
    let mut r: usize = from;
    proof {
        lemma_items(gv);
    }
    while r < g.rules.len()
        invariant
            gv == g.deep_view(),
            gv.wf(),
            it.matches(gv),
            av == a@,
            lv == planes(la@),
            is_automaton(gv, av),
            la_shape(gv, av, lv),
            s < a.states.len(),
            k <= gv.terminals(),
            from <= r,
            first_reducible(gv, av, lv, s as int, k as int, from as int) == first_reducible(
                gv,
                av,
                lv,
                s as int,
                k as int,
                r as int,
            ),
        decreases g.rules.len() - r,
    {
        let len = g.rules[r].rhs.len();
        proof {
            lemma_items(gv);
            assert(gv.rules[r as int].rhs.len() == len);
            assert(0 <= item_at(gv, r as int, len as int) < items(gv).len());
            assert(it.base[r as int] == crate::items::base(gv, r as int));
            assert(av.states[s as int] == a.states[s as int]@);
            assert(av.states[s as int].len() == items(gv).len());
            assert(lv[s as int].len() == items(gv).len());
            assert(lv[s as int].len() == la[s as int].len());
        }
        let i = it.base[r] + len;
        proof {
            assert(lv[s as int][i as int].len() == gv.terminals() + 1);
            assert(lv[s as int][i as int] == la[s as int][i as int]@);
        }
        if a.states[s][i] && la[s][i][k] {
            return Some(r);
        }
        r += 1;
    }
    None
}

/// Finds the rule of the first item of state `s` that has symbol `x`
/// behind its dot.
fn find_shifting_rule(g: &Rules, it: &Items, a: &Automaton, s: usize, x: usize) -> (r: usize)
    requires
        g.deep_view().wf(),
        it.matches(g.deep_view()),
        is_automaton(g.deep_view(), a@),
        s < a.states.len(),
    ensures
        r == shifting_rule(g.deep_view(), a@, s as int, x, 0),
{
    let ghost gv = g.deep_view();
    let ghost av = a@;
    let n = it.rule.len();
    let mut i: usize = 0;
    proof {
        assert(av.states[s as int] == a.states[s as int]@);
        assert(av.states[s as int].len() == items(gv).len());
    }
    while i < n
        invariant
            gv == g.deep_view(),
            gv.wf(),
            it.matches(gv),
            av == a@,
            n == it.rule.len(),
            s < a.states.len(),
            a.states[s as int].len() == n,
            av.states[s as int] == a.states[s as int]@,
            i <= n,
            shifting_rule(gv, av, s as int, x, 0) == shifting_rule(gv, av, s as int, x, i as int),
        decreases n - i,
    {
        if a.states[s][i] {
            match it.next_symbol(g, i) {
                Some(y) => {
                    if y == x {
                        assert((it.rule[i as int] as int, it.dot[i as int] as int) == items(gv)[i as int]);
                        return it.rule[i];
                    }
                },
                None => {},
            }
        }
        i += 1;
    }
    0
}

/// Settles a shift/reduce conflict by precedence.
fn settle_conflict(table: &PrecedenceTable, rule: Option<usize>, token: Option<usize>, r: usize, t: usize) -> (action: Option<Action>)
    requires
        rule matches Some(p) ==> p < table.levels.len(),
    ensures
        forall|rm: Option<int>, tm: Option<int>|
            same_rank(rule, rm) && same_rank(token, tm) ==> action == #[trigger] settle(
                table.deep_view(),
                rm,
                tm,
                r as int,
                t,
            ),
{
    let reduce = if r == 0 {
        Action::Accept
    } else {
        Action::Reduce(r)
    };
    match (rule, token) {
        (Some(p), Some(q)) => {
            assert(table.deep_view()[p as int].kind == table.levels[p as int].kind);
            if p > q {
                Some(reduce)
            } else if p < q {
                Some(Action::Shift(t))
            } else {
                match table.levels[p].kind {
                    LevelKind::Left => Some(reduce),
                    LevelKind::Right => Some(Action::Shift(t)),
                    LevelKind::NonAssoc => Some(Action::Error),
                    LevelKind::Precedence => None,
                }
            }
        },
        _ => None,
    }
}

/// The action of state `s` on column `k` and whether the cell is
/// ambiguous, or `None` for a conflict that precedence does not settle.
pub fn resolve_cell(
    g: &Rules,
    it: &Items,
    table: &PrecedenceTable,
    a: &Automaton,
    la: &Vec<Vec<Vec<bool>>>,
    s: usize,
    k: usize,
) -> (r: Option<(Action, bool)>)
    requires
        g.deep_view().wf(),
        it.matches(g.deep_view()),
        is_automaton(g.deep_view(), a@),
        la_shape(g.deep_view(), a@, planes(la@)),
        s < a.states.len(),
        k <= g.deep_view().terminals(),
    ensures
        match r {
            Some((action, marked)) => resolve(
                g.deep_view(),
                table.deep_view(),
                a@,
                planes(la@),
                s as int,
                k as int,
            ) == Some(action) && marked == ambiguous_cell(
                g.deep_view(),
                a@,
                planes(la@),
                s as int,
                k as int,
            ),
            None => resolve(g.deep_view(), table.deep_view(), a@, planes(la@), s as int, k as int)
                is None,
        },
{
    let ghost gv = g.deep_view();
    let ghost av = a@;
    let nn = g.nonterminals;
    let t = g.names.len() - nn;
    let reduce = find_reducible(g, it, a, la, s, k, 0);
    let mut marked = false;
    match reduce {
        Some(r) => {
            marked = find_reducible(g, it, a, la, s, k, r + 1).is_some();
        },
        None => {},
    }
    let mut shift: Option<usize> = None;
    if k < t {
        proof {
            assert(av.trans[s as int] == a.trans[s as int]@);
            assert(av.trans[s as int].len() == row_len(gv, s as int, a.states.len() as int, 0));
        }
        shift = a.trans[s][nn + k];
    }
    match (reduce, shift) {
        (None, None) => Some((Action::Error, marked)),
        (None, Some(target)) => Some((Action::Shift(target), marked)),
        (Some(r), None) => {
            if r == 0 {
                Some((Action::Accept, marked))
            } else {
                Some((Action::Reduce(r), marked))
            }
        },
        (Some(r), Some(target)) => {
            let rule = rank_of_rule(g, table, r);
            assert(gv.names[nn + k] == g.names[nn + k]@);
            let token = table.rank(&g.names[nn + k]);
            match settle_conflict(table, rule, token, r, target) {
                Some(action) => Some((action, marked)),
                None => None,
            }
        },
    }
}

/// The ACTION table: one row per state, one column per terminal and one
/// for the end of input.
pub open spec fn action_table(
    g: RulesView,
    ls: Seq<LevelView>,
    a: AutomatonView,
    la: Seq<Seq<Seq<bool>>>,
) -> Seq<Seq<Action>> {
    Seq::new(
        a.states.len(),
        |s: int| Seq::new((g.terminals() + 1) as nat, |k: int| resolve(g, ls, a, la, s, k).unwrap()),
    )
}

/// The cells in which more than one rule could be reduced.
pub open spec fn ambiguity_table(g: RulesView, a: AutomatonView, la: Seq<Seq<Seq<bool>>>) -> Seq<
    Seq<bool>,
> {
    Seq::new(
        a.states.len(),
        |s: int| Seq::new((g.terminals() + 1) as nat, |k: int| ambiguous_cell(g, a, la, s, k)),
    )
}

/// The GOTO table: one row per state, one column per nonterminal.
pub open spec fn goto_table(g: RulesView, a: AutomatonView) -> Seq<Seq<Option<usize>>> {
    Seq::new(a.states.len(), |s: int| Seq::new(g.nonterminals as nat, |x: int| a.trans[s][x]))
}

/// The rows of a table.
pub open spec fn table_rows<T>(v: Seq<Vec<T>>) -> Seq<Seq<T>> {
    Seq::new(v.len(), |i: int| v[i]@)
}

/// Fills the ACTION table and marks its ambiguous cells, or names the
/// first conflict that precedence does not settle.
pub fn fill_actions(
    g: &Rules,
    it: &Items,
    table: &PrecedenceTable,
    a: &Automaton,
    la: &Vec<Vec<Vec<bool>>>,
) -> (r: Result<(Vec<Vec<Action>>, Vec<Vec<bool>>), Conflict>)
    requires
        g.deep_view().wf(),
        it.matches(g.deep_view()),
        is_automaton(g.deep_view(), a@),
        la_shape(g.deep_view(), a@, planes(la@)),
    ensures
        match first_conflict(g.deep_view(), table.deep_view(), a@, planes(la@), 0, 0) {
            Some((s, k)) => r matches Err(c) && c.deep_view() == conflict_at(
                g.deep_view(),
                a@,
                planes(la@),
                s,
                k,
            ),
            None => r matches Ok((actions, marks)) && table_rows(actions@) == action_table(
                g.deep_view(),
                table.deep_view(),
                a@,
                planes(la@),
            ) && rows(marks@) == ambiguity_table(g.deep_view(), a@, planes(la@)),
        },
{
    let ghost gv = g.deep_view();
    let ghost ls = table.deep_view();
    let ghost av = a@;
    let ghost lv = planes(la@);
    let nn = g.nonterminals;
    let t = g.names.len() - nn;
    let ns = a.states.len();
    let mut actions: Vec<Vec<Action>> = Vec::new();
    let mut marks: Vec<Vec<bool>> = Vec::new();
    let mut s: usize = 0;
    proof {
        lemma_items(gv);
        assert(0 <= item_at(gv, 0, 0) < items(gv).len());
    }
    while s < ns
        invariant
            gv == g.deep_view(),
            ls == table.deep_view(),
            av == a@,
            lv == planes(la@),
            gv.wf(),
            it.matches(gv),
            is_automaton(gv, av),
            la_shape(gv, av, lv),
            nn == g.nonterminals,
            t == gv.terminals(),
            nn + t <= usize::MAX,
            ns == a.states.len(),
            items(gv).len() >= 1,
            s <= ns,
            actions.len() == s,
            marks.len() == s,
            first_conflict(gv, ls, av, lv, 0, 0) == first_conflict(gv, ls, av, lv, s as int, 0),
            forall|u: int|
                0 <= u < s ==> (#[trigger] actions[u])@ == action_table(gv, ls, av, lv)[u],
            forall|u: int| 0 <= u < s ==> (#[trigger] marks[u])@ == ambiguity_table(gv, av, lv)[u],
        decreases ns - s,
    {
        proof {
            assert(lv[s as int].len() == items(gv).len());
            assert(lv[s as int].len() == la[s as int].len());
            assert(lv[s as int][0].len() == t + 1);
            assert(lv[s as int][0] == la[s as int][0]@);
        }
        let w = la[s][0].len();
        let mut row: Vec<Action> = Vec::new();
        let mut mark_row: Vec<bool> = Vec::new();
        let mut k: usize = 0;
        while k < w
            invariant
                gv == g.deep_view(),
                ls == table.deep_view(),
                av == a@,
                lv == planes(la@),
                gv.wf(),
                it.matches(gv),
                is_automaton(gv, av),
                la_shape(gv, av, lv),
                nn == g.nonterminals,
                t == gv.terminals(),
                nn + t <= usize::MAX,
                w == t + 1,
                ns == a.states.len(),
                s < ns,
                k <= w,
                row.len() == k,
                mark_row.len() == k,
                first_conflict(gv, ls, av, lv, 0, 0) == first_conflict(
                    gv,
                    ls,
                    av,
                    lv,
                    s as int,
                    k as int,
                ),
                forall|c: int|
                    0 <= c < k ==> #[trigger] row[c] == resolve(gv, ls, av, lv, s as int, c).unwrap(),
                forall|c: int|
                    0 <= c < k ==> #[trigger] mark_row[c] == ambiguous_cell(gv, av, lv, s as int, c),
            decreases w - k,
        {
            match resolve_cell(g, it, table, a, la, s, k) {
                Some((action, marked)) => {
                    row.push(action);
                    mark_row.push(marked);
                },
                None => {
                    proof {
                        assert(first_reducible(gv, av, lv, s as int, k as int, 0) is Some);
                        assert(shift_target(gv, av, s as int, k as int) is Some);
                        assert(k < t);
                        assert(gv.names[nn + k] == g.names[nn + k]@);
                    }
                    let reduce = find_reducible(g, it, a, la, s, k, 0);
                    let reduce_rule = match reduce {
                        Some(r) => r,
                        None => 0,
                    };
                    let shift_rule = find_shifting_rule(g, it, a, s, nn + k);
                    return Err(
                        Conflict { state: s, reduce_rule, shift_rule, token: g.names[nn + k].clone() },
                    );
                },
            }
            k += 1;
        }
        proof {
            assert(row@ =~= action_table(gv, ls, av, lv)[s as int]);
            assert(mark_row@ =~= ambiguity_table(gv, av, lv)[s as int]);
        }
        actions.push(row);
        marks.push(mark_row);
        s += 1;
    }
    proof {
        assert(table_rows(actions@) =~= action_table(gv, ls, av, lv));
        assert(rows(marks@) =~= ambiguity_table(gv, av, lv));
    }
    Ok((actions, marks))
}

/// Fills the GOTO table.
pub fn fill_gotos(g: &Rules, a: &Automaton) -> (gotos: Vec<Vec<Option<usize>>>)
    requires
        g.deep_view().wf(),
        is_automaton(g.deep_view(), a@),
    ensures
        table_rows(gotos@) == goto_table(g.deep_view(), a@),
{
    let ghost gv = g.deep_view();
    let ghost av = a@;
    let nn = g.nonterminals;
    let ns = a.states.len();
    let mut gotos: Vec<Vec<Option<usize>>> = Vec::new();
    let mut s: usize = 0;
    while s < ns
        invariant
            gv == g.deep_view(),
            av == a@,
            gv.wf(),
            is_automaton(gv, av),
            nn == g.nonterminals,
            ns == a.states.len(),
            s <= ns,
            gotos.len() == s,
            forall|u: int| 0 <= u < s ==> (#[trigger] gotos[u])@ == goto_table(gv, av)[u],
        decreases ns - s,
    {
        proof {
            assert(av.trans.len() == a.trans.len());
            assert(av.trans[s as int] == a.trans[s as int]@);
            assert(av.trans[s as int].len() == row_len(gv, s as int, ns as int, 0));
        }
        let mut row: Vec<Option<usize>> = Vec::new();
        let mut x: usize = 0;
        while x < nn
            invariant
                av == a@,
                s < a.trans.len(),
                av.trans[s as int] == a.trans[s as int]@,
                a.trans[s as int].len() >= nn,
                x <= nn,
                row.len() == x,
                forall|c: int| 0 <= c < x ==> #[trigger] row[c] == av.trans[s as int][c],
            decreases nn - x,
        {
            row.push(a.trans[s][x]);
            x += 1;
        }
        proof {
            assert(row@ =~= goto_table(gv, av)[s as int]);
        }
        gotos.push(row);
        s += 1;
    }
    proof {
        assert(table_rows(gotos@) =~= goto_table(gv, av));
    }
    gotos
}

} // verus!
