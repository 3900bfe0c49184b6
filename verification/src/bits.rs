//! Sets of small numbers as vectors of flags, with the counting facts
//! that make fixed-point loops over them terminate.

use vstd::prelude::*;

verus! {

/// Every member of `a` is a member of `b`.
pub open spec fn subset(a: Seq<bool>, b: Seq<bool>) -> bool {
    a.len() == b.len() && forall|i: int| 0 <= i < a.len() ==> (#[trigger] a[i] ==> b[i])
}

/// Row by row, every member of `a` is a member of `b`.
pub open spec fn subset2(a: Seq<Seq<bool>>, b: Seq<Seq<bool>>) -> bool {
    a.len() == b.len() && forall|i: int| 0 <= i < a.len() ==> subset(#[trigger] a[i], b[i])
}

/// Plane by plane, every member of `a` is a member of `b`.
pub open spec fn subset3(a: Seq<Seq<Seq<bool>>>, b: Seq<Seq<Seq<bool>>>) -> bool {
    a.len() == b.len() && forall|i: int| 0 <= i < a.len() ==> subset2(#[trigger] a[i], b[i])
}

/// The rows of a grid of flags.
pub open spec fn rows(v: Seq<Vec<bool>>) -> Seq<Seq<bool>> {
    Seq::new(v.len(), |i: int| v[i]@)
}

/// The planes of a cube of flags.
pub open spec fn planes(v: Seq<Vec<Vec<bool>>>) -> Seq<Seq<Seq<bool>>> {
    Seq::new(v.len(), |i: int| rows(v[i]@))
}

/// The number of members.
pub open spec fn count(s: Seq<bool>) -> nat
    decreases s.len(),
{
    if s.len() == 0 {
        0
    } else {
        count(s.drop_last()) + if s.last() {
            1nat
        } else {
            0nat
        }
    }
}

/// The number of members in all rows.
pub open spec fn count2(g: Seq<Seq<bool>>) -> nat
    decreases g.len(),
{
    if g.len() == 0 {
        0
    } else {
        count2(g.drop_last()) + count(g.last())
    }
}

/// The number of places in all rows.
pub open spec fn cells2(g: Seq<Seq<bool>>) -> nat
    decreases g.len(),
{
    if g.len() == 0 {
        0
    } else {
        cells2(g.drop_last()) + g.last().len()
    }
}

/// The number of members in all planes.
pub open spec fn count3(c: Seq<Seq<Seq<bool>>>) -> nat
    decreases c.len(),
{
    if c.len() == 0 {
        0
    } else {
        count3(c.drop_last()) + count2(c.last())
    }
}

/// The number of places in all planes.
pub open spec fn cells3(c: Seq<Seq<Seq<bool>>>) -> nat
    decreases c.len(),
{
    if c.len() == 0 {
        0
    } else {
        cells3(c.drop_last()) + cells2(c.last())
    }
}

/// A set has no more members than places.
pub proof fn lemma_count_bound(s: Seq<bool>)
    ensures
        count(s) <= s.len(),
    decreases s.len(),
{
    if s.len() > 0 {
        lemma_count_bound(s.drop_last());
    }
}

/// A new member makes the count one larger.
pub proof fn lemma_count_set(s: Seq<bool>, i: int)
    requires
        0 <= i < s.len(),
        !s[i],
    ensures
        count(s.update(i, true)) == count(s) + 1,
    decreases s.len(),
{
    let t = s.update(i, true);
    if i == s.len() - 1 {
        assert(t.drop_last() =~= s.drop_last());
    } else {
        assert(t.drop_last() =~= s.drop_last().update(i, true));
        lemma_count_set(s.drop_last(), i);
    }
}

/// A grid has no more members than places.
pub proof fn lemma_count2_bound(g: Seq<Seq<bool>>)
    ensures
        count2(g) <= cells2(g),
    decreases g.len(),
{
    if g.len() > 0 {
        lemma_count2_bound(g.drop_last());
        lemma_count_bound(g.last());
    }
}

/// A new member makes the count of a grid one larger.
pub proof fn lemma_count2_set(g: Seq<Seq<bool>>, i: int, j: int)
    requires
        0 <= i < g.len(),
        0 <= j < g[i].len(),
        !g[i][j],
    ensures
        count2(g.update(i, g[i].update(j, true))) == count2(g) + 1,
        cells2(g.update(i, g[i].update(j, true))) == cells2(g),
    decreases g.len(),
{
    let t = g.update(i, g[i].update(j, true));
    if i == g.len() - 1 {
        assert(t.drop_last() =~= g.drop_last());
        lemma_count_set(g[i], j);
    } else {
        assert(t.drop_last() =~= g.drop_last().update(i, g[i].update(j, true)));
        lemma_count2_set(g.drop_last(), i, j);
    }
}

/// A cube has no more members than places.
pub proof fn lemma_count3_bound(c: Seq<Seq<Seq<bool>>>)
    ensures
        count3(c) <= cells3(c),
    decreases c.len(),
{
    if c.len() > 0 {
        lemma_count3_bound(c.drop_last());
        lemma_count2_bound(c.last());
    }
}

/// A new member makes the count of a cube one larger.
pub proof fn lemma_count3_set(c: Seq<Seq<Seq<bool>>>, h: int, i: int, j: int)
    requires
        0 <= h < c.len(),
        0 <= i < c[h].len(),
        0 <= j < c[h][i].len(),
        !c[h][i][j],
    ensures
        count3(c.update(h, c[h].update(i, c[h][i].update(j, true)))) == count3(c) + 1,
        cells3(c.update(h, c[h].update(i, c[h][i].update(j, true)))) == cells3(c),
    decreases c.len(),
{
    let plane = c[h].update(i, c[h][i].update(j, true));
    let t = c.update(h, plane);
    if h == c.len() - 1 {
        assert(t.drop_last() =~= c.drop_last());
        lemma_count2_set(c[h], i, j);
    } else {
        assert(t.drop_last() =~= c.drop_last().update(h, plane));
        lemma_count3_set(c.drop_last(), h, i, j);
    }
}

/// Two sets that hold each other's members are one set.
pub proof fn lemma_subset_both(a: Seq<bool>, b: Seq<bool>)
    requires
        subset(a, b),
        subset(b, a),
    ensures
        a == b,
{
    assert(a =~= b);
}

/// Two grids that hold each other's members are one grid.
pub proof fn lemma_subset2_both(a: Seq<Seq<bool>>, b: Seq<Seq<bool>>)
    requires
        subset2(a, b),
        subset2(b, a),
    ensures
        a == b,
{
    assert forall|i: int| 0 <= i < a.len() implies a[i] == b[i] by {
        lemma_subset_both(a[i], b[i]);
    }
    assert(a =~= b);
}

/// Two cubes that hold each other's members are one cube.
pub proof fn lemma_subset3_both(a: Seq<Seq<Seq<bool>>>, b: Seq<Seq<Seq<bool>>>)
    requires
        subset3(a, b),
        subset3(b, a),
    ensures
        a == b,
{
    assert forall|i: int| 0 <= i < a.len() implies a[i] == b[i] by {
        lemma_subset2_both(a[i], b[i]);
    }
    assert(a =~= b);
}

/// A vector of `n` cleared flags.
pub fn cleared(n: usize) -> (v: Vec<bool>)
    ensures
        v.len() == n,
        forall|i: int| 0 <= i < n ==> !v[i],
{
    let mut v: Vec<bool> = Vec::new();
    while v.len() < n
        invariant
            v.len() <= n,
            forall|i: int| 0 <= i < v.len() ==> !v[i],
        decreases n - v.len(),
    {
        v.push(false);
    }
    v
}

/// A vector of `n + 1` cleared flags.
pub fn cleared_and_one(n: usize) -> (v: Vec<bool>)
    ensures
        v.len() == n + 1,
        forall|i: int| 0 <= i <= n ==> !v[i],
{
    let mut v = cleared(n);
    v.push(false);
    v
}

/// Whether two vectors hold the same flags.
pub fn same_flags(a: &Vec<bool>, b: &Vec<bool>) -> (r: bool)
    ensures
        r == (a@ == b@),
{
    if a.len() != b.len() {
        return false;
    }
    let mut i: usize = 0;
    while i < a.len()
        invariant
            a.len() == b.len(),
            i <= a.len(),
            forall|k: int| 0 <= k < i ==> a[k] == b[k],
        decreases a.len() - i,
    {
        if a[i] != b[i] {
            return false;
        }
        i += 1;
    }
    assert(a@ =~= b@);
    true
}

} // verus!
