//! The precedence table: the levels that the associativity and precedence
//! directives declare, in declaration order. A later level binds tighter.

use vstd::prelude::*;
use crate::error::{agrees, CompileError, ErrorView};
use crate::syntax::{ConfigOption, ConfigOptionView, LevelKind, Term, TermView};

verus! {

/// One precedence level: the names declared together by one directive.
#[derive(Clone, Debug, PartialEq, Eq)]
pub struct PrecedenceLevel {
    /// The directive that declared the level; `Precedence` is a level
    /// without associativity.
    pub kind: LevelKind,
    pub names: Vec<String>,
}

/// The precedence levels of a grammar. The index of a level is its rank.
#[derive(Clone, Debug, PartialEq, Eq)]
pub struct PrecedenceTable {
    pub levels: Vec<PrecedenceLevel>,
}

/// A precedence level as plain values.
pub struct LevelView {
    pub kind: LevelKind,
    pub names: Seq<Seq<char>>,
}

impl DeepView for PrecedenceLevel {
    type V = LevelView;

    open spec fn deep_view(&self) -> LevelView {
        LevelView { kind: self.kind, names: self.names.deep_view() }
    }
}

impl DeepView for PrecedenceTable {
    type V = Seq<LevelView>;

    open spec fn deep_view(&self) -> Seq<LevelView> {
        self.levels.deep_view()
    }
}

/// The level that a term declares, if it declares one.
pub open spec fn level_of(t: TermView) -> Option<LevelView> {
    match t {
        TermView::ConfigOption(ConfigOptionView::LeftAssoc(l)) => Some(
            LevelView { kind: LevelKind::Left, names: l },
        ),
        TermView::ConfigOption(ConfigOptionView::RightAssoc(l)) => Some(
            LevelView { kind: LevelKind::Right, names: l },
        ),
        TermView::ConfigOption(ConfigOptionView::NonAssoc(l)) => Some(
            LevelView { kind: LevelKind::NonAssoc, names: l },
        ),
        TermView::ConfigOption(ConfigOptionView::Precedence(l)) => Some(
            LevelView { kind: LevelKind::Precedence, names: l },
        ),
        _ => None,
    }
}

/// The levels that the terms declare, in order.
pub open spec fn declared_levels(ts: Seq<TermView>) -> Seq<LevelView>
    decreases ts.len(),
{
    if ts.len() == 0 {
        Seq::empty()
    } else {
        match level_of(ts.last()) {
            Some(l) => declared_levels(ts.drop_last()).push(l),
            None => declared_levels(ts.drop_last()),
        }
    }
}

/// Some level before `j` lists the name.
pub open spec fn listed_before(ls: Seq<LevelView>, j: int, name: Seq<char>) -> bool {
    exists|i: int| 0 <= i < j && i < ls.len() && (#[trigger] ls[i]).names.contains(name)
}

/// Two different levels list one name.
pub open spec fn ambiguous(ls: Seq<LevelView>) -> bool {
    exists|j: int, k: int|
        0 <= j < ls.len() && 0 <= k < ls[j].names.len() && listed_before(
            ls,
            j,
            #[trigger] ls[j].names[k],
        )
}

/// The first name, from position `k` of level `j` on, that an earlier
/// level lists too.
pub open spec fn first_clash(ls: Seq<LevelView>, j: int, k: int) -> Option<Seq<char>>
    decreases ls.len() - j, (if 0 <= j < ls.len() { ls[j].names.len() - k } else { 0 }),
{
    if j < 0 || k < 0 || j >= ls.len() {
        None
    } else if k >= ls[j].names.len() {
        first_clash(ls, j + 1, 0)
    } else if listed_before(ls, j, ls[j].names[k]) {
        Some(ls[j].names[k])
    } else {
        first_clash(ls, j, k + 1)
    }
}

/// The precedence table of a sequence of terms, or the error that names the
/// first name listed under two levels.
pub open spec fn precedence(ts: Seq<TermView>) -> Result<Seq<LevelView>, ErrorView> {
    let ls = declared_levels(ts);
    match first_clash(ls, 0, 0) {
        Some(n) => Err(ErrorView::AmbiguousPrecedence(n)),
        None => Ok(ls),
    }
}

/// The rank of the level that lists a name: the last such level.
pub open spec fn rank_of(ls: Seq<LevelView>, name: Seq<char>) -> Option<int>
    decreases ls.len(),
{
    if ls.len() == 0 {
        None
    } else if ls.last().names.contains(name) {
        Some(ls.len() - 1)
    } else {
        rank_of(ls.drop_last(), name)
    }
}

proof fn lemma_first_clash(ls: Seq<LevelView>, j: int, k: int)
    requires
        0 <= j,
        0 <= k,
    ensures
        first_clash(ls, j, k) is Some <==> exists|j2: int, k2: int|
            j <= j2 < ls.len() && 0 <= k2 < ls[j2].names.len() && (j2 == j ==> k <= k2)
                && listed_before(ls, j2, #[trigger] ls[j2].names[k2]),
    decreases ls.len() - j, (if 0 <= j < ls.len() { ls[j].names.len() - k } else { 0 }),
{
    if j >= ls.len() {
    } else if k >= ls[j].names.len() {
        lemma_first_clash(ls, j + 1, 0);
    } else if listed_before(ls, j, ls[j].names[k]) {
    } else {
        lemma_first_clash(ls, j, k + 1);
    }
}

/// A name listed under two levels is rejected, and nothing else is:
/// whether the name plays any part in the grammar does not matter.
pub proof fn lemma_rejects_shared_names(ts: Seq<TermView>)
    ensures
        precedence(ts) is Err <==> ambiguous(declared_levels(ts)),
        precedence(ts) matches Err(e) ==> e is AmbiguousPrecedence,
{
    lemma_first_clash(declared_levels(ts), 0, 0);
}

fn contains_name(list: &Vec<String>, name: &String) -> (r: bool)
    ensures
        r == list.deep_view().contains(name@),
{
    let mut i: usize = 0;
    while i < list.len()
        invariant
            i <= list.len(),
            forall|k: int| 0 <= k < i ==> list.deep_view()[k] != name@,
        decreases list.len() - i,
    {
        if list[i] == *name {
            assert(list.deep_view()[i as int] == name@);
            return true;
        }
        i += 1;
    }
    false
}

/// A rank as a machine number and as a number agree.
pub open spec fn same_rank(r: Option<usize>, model: Option<int>) -> bool {
    match (r, model) {
        (Some(a), Some(b)) => a == b,
        (None, None) => true,
        _ => false,
    }
}

impl PrecedenceTable {
    /// The rank of the level that lists the name.
    pub fn rank(&self, name: &String) -> (r: Option<usize>)
        ensures
            same_rank(r, rank_of(self.deep_view(), name@)),
            r matches Some(p) ==> p < self.levels.len(),
    {
        let ghost ls = self.deep_view();
        let mut found: Option<usize> = None;
        let mut i: usize = 0;
        assert(ls.take(0) =~= Seq::empty());
        while i < self.levels.len()
            invariant
                ls == self.deep_view(),
                i <= self.levels.len(),
                same_rank(found, rank_of(ls.take(i as int), name@)),
                found matches Some(p) ==> p < i,
            decreases self.levels.len() - i,
        {
            proof {
                assert(ls.take(i + 1).drop_last() =~= ls.take(i as int));
                assert(ls.take(i + 1).last() == ls[i as int]);
                assert(ls[i as int].names == self.levels[i as int].names.deep_view());
            }
            if contains_name(&self.levels[i].names, name) {
                found = Some(i);
            }
            i += 1;
        }
        assert(ls.take(i as int) =~= ls);
        found
    }

    /// Whether a level before `j` lists the name.
    fn lists_before(&self, j: usize, name: &String) -> (r: bool)
        requires
            j <= self.levels.len(),
        ensures
            r == listed_before(self.deep_view(), j as int, name@),
    {
        let ghost ls = self.deep_view();
        let mut i: usize = 0;
        while i < j
            invariant
                ls == self.deep_view(),
                i <= j <= self.levels.len(),
                forall|h: int| 0 <= h < i ==> !(#[trigger] ls[h]).names.contains(name@),
            decreases j - i,
        {
            if contains_name(&self.levels[i].names, name) {
                assert(ls[i as int].names.contains(name@));
                return true;
            }
            i += 1;
        }
        false
    }

    /// The first name that two levels share, if there is one.
    fn shared_name(&self) -> (r: Option<String>)
        ensures
            r.deep_view() == first_clash(self.deep_view(), 0, 0),
    {
        let ghost ls = self.deep_view();
        let mut j: usize = 0;
        while j < self.levels.len()
            invariant
                ls == self.deep_view(),
                j <= self.levels.len(),
                first_clash(ls, 0, 0) == first_clash(ls, j as int, 0),
            decreases self.levels.len() - j,
        {
            let level = &self.levels[j];
            let mut k: usize = 0;
            while k < level.names.len()
                invariant
                    ls == self.deep_view(),
                    j < self.levels.len(),
                    level == &self.levels[j as int],
                    k <= level.names.len(),
                    first_clash(ls, 0, 0) == first_clash(ls, j as int, k as int),
                decreases level.names.len() - k,
            {
                assert(ls[j as int].names[k as int] == level.names[k as int]@);
                if self.lists_before(j, &level.names[k]) {
                    return Some(level.names[k].clone());
                }
                k += 1;
            }
            assert(ls[j as int].names.len() == level.names.len());
            j += 1;
        }
        None
    }

    /// Collects the precedence levels of a grammar from its terms.
    pub fn from_terms(terms: &Vec<Term>) -> (r: Result<PrecedenceTable, CompileError>)
        ensures
            agrees(r, precedence(terms.deep_view())),
            r is Err <==> ambiguous(declared_levels(terms.deep_view())),
    {
        let ghost ts = terms.deep_view();
        let mut levels: Vec<PrecedenceLevel> = Vec::new();
        let mut i: usize = 0;
        assert(ts.take(0) =~= Seq::empty());
        assert(levels.deep_view() =~= Seq::empty());
        while i < terms.len()
            invariant
                ts == terms.deep_view(),
                i <= terms.len(),
                levels.deep_view() == declared_levels(ts.take(i as int)),
            decreases terms.len() - i,
        {
            proof {
                assert(ts.take(i + 1).drop_last() =~= ts.take(i as int));
                assert(ts.take(i + 1).last() == ts[i as int]);
                assert(ts[i as int] == terms[i as int].deep_view());
            }
            let ghost before = levels.deep_view();
            let level = match &terms[i] {
                Term::ConfigOption(ConfigOption::LeftAssoc(l)) => Some(
                    PrecedenceLevel { kind: LevelKind::Left, names: l.clone() },
                ),
                Term::ConfigOption(ConfigOption::RightAssoc(l)) => Some(
                    PrecedenceLevel { kind: LevelKind::Right, names: l.clone() },
                ),
                Term::ConfigOption(ConfigOption::NonAssoc(l)) => Some(
                    PrecedenceLevel { kind: LevelKind::NonAssoc, names: l.clone() },
                ),
                Term::ConfigOption(ConfigOption::Precedence(l)) => Some(
                    PrecedenceLevel { kind: LevelKind::Precedence, names: l.clone() },
                ),
                _ => None,
            };
            match level {
                Some(l) => {
                    levels.push(l);
                    assert(levels.deep_view() =~= before.push(l.deep_view()));
                },
                None => {},
            }
            i += 1;
        }
        assert(ts.take(i as int) =~= ts);
        let table = PrecedenceTable { levels };
        proof {
            lemma_rejects_shared_names(ts);
        }
        match table.shared_name() {
            Some(name) => Err(CompileError::AmbiguousPrecedence(name)),
            None => Ok(table),
        }
    }
}

} // verus!
