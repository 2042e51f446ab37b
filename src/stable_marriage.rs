use std::cmp::Ordering;
use vstd::prelude::*;

verus! {

/// How `a` compares with `b` as integers.
pub open spec fn ordering_of(a: int, b: int) -> Ordering {
    if a < b {
        Ordering::Less
    } else if a == b {
        Ordering::Equal
    } else {
        Ordering::Greater
    }
}

/// The preferences of one side of a matching. An item ranks the targets it
/// finds admissible; a lower rank is preferred.
pub trait Matcher {
    type Item;

    type Target;

    /// Whether `x` may be paired with `y`; every pair, unless an impl says more.
    open spec fn admissible(&self, x: &Self::Item, y: &Self::Target) -> bool {
        true
    }

    /// How far `to` is from `from`; all alike, unless an impl says more.
    open spec fn rank(&self, from: &Self::Item, to: &Self::Target) -> int {
        0
    }

    /// Whether `x` and `y` are made for each other; never, unless an impl says more.
    open spec fn perfect(&self, x: &Self::Item, y: &Self::Target) -> bool {
        false
    }

    fn is_admissible(&self, x: &Self::Item, y: &Self::Target) -> (r: bool)
        ensures
            r == self.admissible(x, y),
    ;

    /// Which of `left` and `right` is closer to `from`.
    fn cmp_3way(&self, from: &Self::Item, left: &Self::Target, right: &Self::Target) -> (r:
        Ordering)
        ensures
            r == ordering_of(self.rank(from, left), self.rank(from, right)),
    ;

    /// A pair that is made for each other: it is matched at once, and for good.
    fn is_perfect_match(&self, x: &Self::Item, y: &Self::Target) -> (r: bool)
        ensures
            r == self.perfect(x, y),
    ;
}

/// The engagement record of one target during the matching.
#[derive(Clone, Copy, Debug, PartialEq, Eq, Structural)]
pub struct Woman {
    pub current_match: Option<usize>,
    pub current_is_perfect: bool,
}

/// The result of a matching, by position: for each target the proposer it holds,
/// whether that pair was a perfect match, and the proposers left alone.
pub struct MatchOutcome {
    pub partners: Vec<Option<usize>>,
    pub perfect: Vec<bool>,
    pub unmatched: Vec<usize>,
}

/// Proposer `man` prefers target `a` to target `b`: a lower rank, or the same
/// rank and an earlier position.
pub open spec fn man_prefers<M, W, P: Matcher<Item = M, Target = W>>(
    pm: &P,
    man: &M,
    women: Seq<W>,
    a: int,
    b: int,
) -> bool {
    pm.rank(man, &women[a]) < pm.rank(man, &women[b]) || (pm.rank(man, &women[a]) == pm.rank(
        man,
        &women[b],
    ) && a < b)
}

/// Target `j` would not take proposer `k` from whom it holds: it holds a perfect
/// match, does not admit `k`, or holds one at least as close.
pub open spec fn holds_against<M, W, Q: Matcher<Item = W, Target = M>>(
    qm: &Q,
    men: Seq<M>,
    women: Seq<W>,
    partner: Option<usize>,
    is_perfect: bool,
    k: int,
    j: int,
) -> bool {
    is_perfect || !qm.admissible(&women[j], &men[k]) || (partner is Some && qm.rank(
        &women[j],
        &men[partner->0 as int],
    ) <= qm.rank(&women[j], &men[k]))
}

/// Proposer `k` is held by some target.
pub open spec fn is_partner(partners: Seq<Option<usize>>, k: int) -> bool {
    exists|j: int| 0 <= j < partners.len() && partners[j] == Some(k as usize)
}

/// Positions are in range, each proposer is held by at most one target or else
/// left alone, and each pair held is perfect or admissible both ways.
pub open spec fn valid_outcome<M, W, P: Matcher<Item = M, Target = W>, Q: Matcher<
    Item = W,
    Target = M,
>>(men: Seq<M>, women: Seq<W>, pm: &P, qm: &Q, partners: Seq<Option<usize>>, perfect: Seq<bool>, unmatched: Seq<usize>) -> bool {
    &&& partners.len() == women.len()
    &&& perfect.len() == women.len()
    &&& forall|j: int| 0 <= j < partners.len() && partners[j] is Some ==> partners[j]->0 < men.len()
    &&& forall|j1: int, j2: int|
        0 <= j1 < partners.len() && 0 <= j2 < partners.len() && j1 != j2 && partners[j1] is Some
            ==> partners[j1] != partners[j2]
    &&& forall|a: int| 0 <= a < unmatched.len() ==> unmatched[a] < men.len()
    &&& forall|a: int, b: int| 0 <= a < b < unmatched.len() ==> unmatched[a] != unmatched[b]
    &&& forall|a: int| 0 <= a < unmatched.len() ==> !is_partner(partners, unmatched[a] as int)
    &&& forall|k: int| 0 <= k < men.len() ==> is_partner(partners, k) || unmatched.contains(k as usize)
    &&& forall|j: int| 0 <= j < perfect.len() && perfect[j] ==> partners[j] is Some && pm.perfect(&men[partners[j]->0 as int], &women[j])
    &&& forall|j: int|
        0 <= j < partners.len() && partners[j] is Some && !perfect[j] ==> pm.admissible(&men[partners[j]->0 as int], &women[j])
            && qm.admissible(&women[j], &men[partners[j]->0 as int])
}

/// No proposer `k` outside a perfect pair and target `j` outside a perfect pair,
/// admissible both ways, where `k` prefers `j` to what it holds (or holds nothing)
/// and `j` prefers `k` to what it holds (or holds nothing).
pub open spec fn is_stable<M, W, P: Matcher<Item = M, Target = W>, Q: Matcher<Item = W, Target = M>>(
    men: Seq<M>,
    women: Seq<W>,
    pm: &P,
    qm: &Q,
    partners: Seq<Option<usize>>,
    perfect: Seq<bool>,
    unmatched: Seq<usize>,
) -> bool {
    &&& forall|k: int, j: int, h: int|
        0 <= k < men.len() && 0 <= j < women.len() && 0 <= h < women.len() && partners[h] == Some(k as usize) && !perfect[h]
            && pm.admissible(&men[k], &women[j]) && man_prefers(pm, &men[k], women, j, h)
            ==> holds_against(qm, men, women, partners[j], perfect[j], k, j)
    &&& forall|a: int, j: int|
        0 <= a < unmatched.len() && 0 <= j < women.len() && pm.admissible(&men[unmatched[a] as int], &women[j])
            ==> holds_against(qm, men, women, partners[j], perfect[j], unmatched[a] as int, j)
}

impl Woman {
    fn prefers_to_current<M, W, Q: Matcher<Item = W, Target = M>>(
        &self,
        matcher: &Q,
        data: &W,
        men: &Vec<M>,
        item: &M,
    ) -> (r: bool)
        requires
            self.current_match is Some ==> self.current_match->0 < men@.len(),
        ensures
            r == !(self.current_is_perfect || !matcher.admissible(data, item) || (
            self.current_match is Some && matcher.rank(data, &men@[self.current_match->0 as int])
                <= matcher.rank(data, item))),
    {
        if self.current_is_perfect || !matcher.is_admissible(data, item) {
            return false;
        }
        match self.current_match {
            Some(c) => match matcher.cmp_3way(data, &men[c], item) {
                Ordering::Greater => true,
                _ => false,
            },
            None => true,
        }
    }

    fn replace_match(&mut self, man: usize) -> (r: Option<usize>)
        ensures
            r == old(self).current_match,
            final(self).current_match == Some(man),
            final(self).current_is_perfect == old(self).current_is_perfect,
    {
        let r = self.current_match;
        self.current_match = Some(man);
        r
    }
}


/// Targets that `man` admits and that would take him now, least preferred first.
fn compute_preference_list<M, W, P: Matcher<Item = M, Target = W>, Q: Matcher<Item = W, Target = M>>(
    pm: &P,
    qm: &Q,
    men: &Vec<M>,
    man: usize,
    women: &Vec<W>,
    states: &Vec<Woman>,
) -> (r: Vec<usize>)
    requires
        man < men@.len(),
        states@.len() == women@.len(),
        forall|j: int| 0 <= j < states@.len() && states@[j].current_match is Some ==> states@[j].current_match->0 < men@.len(),
    ensures
        forall|a: int| 0 <= a < r@.len() ==> r@[a] < women@.len() && pm.admissible(&men@[man as int], &women@[r@[a] as int])
            && !holds_against(qm, men@, women@, states@[r@[a] as int].current_match, states@[r@[a] as int].current_is_perfect, man as int, r@[a] as int),
        forall|a: int, b: int| 0 <= a < b < r@.len() ==> man_prefers(pm, &men@[man as int], women@, r@[b] as int, r@[a] as int),
        forall|j: int| 0 <= j < women@.len() && pm.admissible(&men@[man as int], &women@[j]) && !r@.contains(j as usize)
            ==> holds_against(qm, men@, women@, states@[j].current_match, states@[j].current_is_perfect, man as int, j),
{
    let ghost mv = men@[man as int];
    let mut r: Vec<usize> = Vec::new();
    let mut j: usize = 0;
    while j < women.len()
        invariant
            j <= women@.len(),
            man < men@.len(),
            mv == men@[man as int],
            states@.len() == women@.len(),
            forall|i: int| 0 <= i < states@.len() && states@[i].current_match is Some ==> states@[i].current_match->0 < men@.len(),
            forall|a: int| 0 <= a < r@.len() ==> r@[a] < j && pm.admissible(&mv, &women@[r@[a] as int])
                && !holds_against(qm, men@, women@, states@[r@[a] as int].current_match, states@[r@[a] as int].current_is_perfect, man as int, r@[a] as int),
            forall|a: int, b: int| 0 <= a < b < r@.len() ==> man_prefers(pm, &mv, women@, r@[b] as int, r@[a] as int),
            forall|i: int| 0 <= i < j && pm.admissible(&mv, &women@[i]) && !r@.contains(i as usize)
                ==> holds_against(qm, men@, women@, states@[i].current_match, states@[i].current_is_perfect, man as int, i),
        decreases women@.len() - j,
    {
        if states[j].prefers_to_current(qm, &women[j], men, &men[man]) && pm.is_admissible(&men[man], &women[j]) {
            let mut p: usize = 0;
            while p < r.len()
                invariant
                    p <= r@.len(),
                    j < women@.len(),
                    man < men@.len(),
                    mv == men@[man as int],
                    forall|a: int| 0 <= a < r@.len() ==> r@[a] < j,
                    forall|q: int| 0 <= q < p ==> man_prefers(pm, &mv, women@, j as int, r@[q] as int),
                ensures
                    p <= r@.len(),
                    forall|q: int| 0 <= q < p ==> man_prefers(pm, &mv, women@, j as int, r@[q] as int),
                    p < r@.len() ==> man_prefers(pm, &mv, women@, r@[p as int] as int, j as int),
                decreases r@.len() - p,
            {
                match pm.cmp_3way(&men[man], &women[j], &women[r[p]]) {
                    Ordering::Less => {},
                    _ => break,
                }
                p = p + 1;
            }
            let ghost old_r = r@;
            r.insert(p, j);
            proof {
                assert forall|a: int, b: int| 0 <= a < b < r@.len() implies man_prefers(pm, &mv, women@, r@[b] as int, r@[a] as int) by {
                    if b < p {
                        assert(r@[a] == old_r[a] && r@[b] == old_r[b]);
                    } else if b == p {
                        assert(r@[a] == old_r[a]);
                    } else if a < p {
                        assert(r@[a] == old_r[a] && r@[b] == old_r[b - 1]);
                        assert(man_prefers(pm, &mv, women@, old_r[p as int] as int, j as int));
                    } else if a == p {
                        assert(r@[b] == old_r[b - 1]);
                        assert(man_prefers(pm, &mv, women@, old_r[p as int] as int, j as int));
                        if b - 1 > p {
                            assert(man_prefers(pm, &mv, women@, old_r[b - 1] as int, old_r[p as int] as int));
                        }
                    } else {
                        assert(r@[a] == old_r[a - 1] && r@[b] == old_r[b - 1]);
                    }
                }
                assert forall|i: int| 0 <= i < j + 1 && pm.admissible(&mv, &women@[i]) && !r@.contains(i as usize)
                    implies holds_against(qm, men@, women@, states@[i].current_match, states@[i].current_is_perfect, man as int, i) by {
                    if i < j {
                        if old_r.contains(i as usize) {
                            let q = choose|q: int| 0 <= q < old_r.len() && old_r[q] == i as usize;
                            if q < p {
                                assert(r@[q] == old_r[q]);
                            } else {
                                assert(r@[q + 1] == old_r[q]);
                            }
                        }
                    } else {
                        assert(r@[p as int] == j);
                    }
                }
            }
        } else {
            proof {
                assert forall|i: int| 0 <= i < j + 1 && pm.admissible(&mv, &women@[i]) && !r@.contains(i as usize)
                    implies holds_against(qm, men@, women@, states@[i].current_match, states@[i].current_is_perfect, man as int, i) by {
                }
            }
        }
        j = j + 1;
    }
    r
}


/// The proposer each target holds.
pub open spec fn partners_of(states: Seq<Woman>) -> Seq<Option<usize>> {
    states.map_values(|w: Woman| w.current_match)
}

/// Whether each target holds a perfect match.
pub open spec fn perfect_of(states: Seq<Woman>) -> Seq<bool> {
    states.map_values(|w: Woman| w.current_is_perfect)
}

spec fn total_len(s: Seq<Vec<usize>>) -> nat
    decreases s.len(),
{
    if s.len() == 0 {
        0
    } else {
        total_len(s.drop_last()) + s.last()@.len()
    }
}

proof fn lemma_total_len_update(s: Seq<Vec<usize>>, k: int, v: Vec<usize>)
    requires
        0 <= k < s.len(),
    ensures
        total_len(s.update(k, v)) == total_len(s) - s[k]@.len() + v@.len(),
    decreases s.len(),
{
    if k < s.len() - 1 {
        lemma_total_len_update(s.drop_last(), k, v);
        assert(s.update(k, v).drop_last() == s.drop_last().update(k, v));
    } else {
        assert(s.update(k, v).drop_last() == s.drop_last());
    }
}

/// The remaining preferences of proposer `k`: in range, least preferred first, and
/// every admissible target left out of them would not take `k`.
spec fn prefs_ok<M, W, P: Matcher<Item = M, Target = W>, Q: Matcher<Item = W, Target = M>>(
    men: Seq<M>,
    women: Seq<W>,
    pm: &P,
    qm: &Q,
    states: Seq<Woman>,
    prefs: Seq<usize>,
    k: int,
) -> bool {
    &&& forall|a: int| 0 <= a < prefs.len() ==> prefs[a] < women.len() && pm.admissible(&men[k], &women[prefs[a] as int])
    &&& forall|a: int, b: int| 0 <= a < b < prefs.len() ==> man_prefers(pm, &men[k], women, prefs[b] as int, prefs[a] as int)
    &&& forall|j: int| 0 <= j < women.len() && pm.admissible(&men[k], &women[j]) && !prefs.contains(j as usize)
        ==> holds_against(qm, men, women, states[j].current_match, states[j].current_is_perfect, k, j)
}

/// Every refusal that `before` gives still stands in `after`.
spec fn no_worse<M, W, Q: Matcher<Item = W, Target = M>>(
    men: Seq<M>,
    women: Seq<W>,
    qm: &Q,
    before: Seq<Woman>,
    after: Seq<Woman>,
) -> bool {
    forall|k: int, j: int|
        0 <= k < men.len() && 0 <= j < women.len() && #[trigger] holds_against(qm, men, women, before[j].current_match, before[j].current_is_perfect, k, j)
            ==> holds_against(qm, men, women, after[j].current_match, after[j].current_is_perfect, k, j)
}

spec fn state_ok<M, W, P: Matcher<Item = M, Target = W>, Q: Matcher<Item = W, Target = M>>(
    men: Seq<M>,
    women: Seq<W>,
    pm: &P,
    qm: &Q,
    states: Seq<Woman>,
    prefs: Seq<Vec<usize>>,
    unmatched: Seq<usize>,
) -> bool {
    &&& prefs.len() == men.len()
    &&& states.len() == women.len()
    &&& forall|j: int| 0 <= j < states.len() && states[j].current_is_perfect ==> states[j].current_match is Some
    &&& forall|j: int| 0 <= j < states.len() && states[j].current_match is Some ==> states[j].current_match->0 < men.len()
    &&& forall|h: int| 0 <= h < states.len() && states[h].current_match is Some && !states[h].current_is_perfect
        ==> {
            let k = states[h].current_match->0 as int;
            &&& prefs_ok(men, women, pm, qm, states, prefs[k]@, k)
            &&& forall|a: int| 0 <= a < prefs[k]@.len() ==> man_prefers(pm, &men[k], women, h, prefs[k]@[a] as int)
        }
    &&& forall|a: int| 0 <= a < unmatched.len() ==> prefs[unmatched[a] as int]@.len() == 0
        && prefs_ok(men, women, pm, qm, states, prefs[unmatched[a] as int]@, unmatched[a] as int)
}

proof fn lemma_state_no_worse<M, W, P: Matcher<Item = M, Target = W>, Q: Matcher<Item = W, Target = M>>(
    men: Seq<M>,
    women: Seq<W>,
    pm: &P,
    qm: &Q,
    before: Seq<Woman>,
    after: Seq<Woman>,
    prefs: Seq<usize>,
    k: int,
)
    requires
        0 <= k < men.len(),
        before.len() == women.len(),
        after.len() == women.len(),
        no_worse(men, women, qm, before, after),
        prefs_ok(men, women, pm, qm, before, prefs, k),
    ensures
        prefs_ok(men, women, pm, qm, after, prefs, k),
{
    assert forall|j: int| 0 <= j < women.len() && pm.admissible(&men[k], &women[j]) && !prefs.contains(j as usize)
        implies holds_against(qm, men, women, after[j].current_match, after[j].current_is_perfect, k, j) by {
        assert(holds_against(qm, men, women, before[j].current_match, before[j].current_is_perfect, k, j));
    }
}


spec fn settled_ok<M, W, P: Matcher<Item = M, Target = W>>(
    men: Seq<M>,
    women: Seq<W>,
    pm: &P,
    states: Seq<Woman>,
    unmatched: Seq<usize>,
    bound: int,
) -> bool {
    &&& forall|h: int| 0 <= h < states.len() && states[h].current_match is Some ==> states[h].current_match->0 < bound
    &&& forall|h1: int, h2: int|
        0 <= h1 < states.len() && 0 <= h2 < states.len() && h1 != h2 && states[h1].current_match is Some
            ==> states[h1].current_match != states[h2].current_match
    &&& forall|a: int| 0 <= a < unmatched.len() ==> unmatched[a] < bound
    &&& forall|a: int, b: int| 0 <= a < b < unmatched.len() ==> unmatched[a] != unmatched[b]
    &&& forall|a: int| 0 <= a < unmatched.len() ==> !is_partner(partners_of(states), unmatched[a] as int)
    &&& forall|h: int| 0 <= h < states.len() && states[h].current_is_perfect ==> pm.perfect(&men[states[h].current_match->0 as int], &women[h])
}

spec fn pairs_admissible<M, W, P: Matcher<Item = M, Target = W>, Q: Matcher<Item = W, Target = M>>(
    men: Seq<M>,
    women: Seq<W>,
    pm: &P,
    qm: &Q,
    states: Seq<Woman>,
) -> bool {
    forall|h: int| 0 <= h < states.len() && states[h].current_match is Some && !states[h].current_is_perfect
        ==> pm.admissible(&men[states[h].current_match->0 as int], &women[h])
            && qm.admissible(&women[h], &men[states[h].current_match->0 as int])
}


proof fn lemma_pop_prefs<M, W, P: Matcher<Item = M, Target = W>, Q: Matcher<Item = W, Target = M>>(
    men: Seq<M>,
    women: Seq<W>,
    pm: &P,
    qm: &Q,
    states: Seq<Woman>,
    list: Seq<usize>,
    k: int,
)
    requires
        0 <= k < men.len(),
        women.len() <= usize::MAX,
        states.len() == women.len(),
        list.len() > 0,
        prefs_ok(men, women, pm, qm, states, list, k),
        holds_against(qm, men, women, states[list.last() as int].current_match, states[list.last() as int].current_is_perfect, k, list.last() as int),
    ensures
        prefs_ok(men, women, pm, qm, states, list.drop_last(), k),
        forall|a: int| 0 <= a < list.drop_last().len() ==> man_prefers(pm, &men[k], women, list.last() as int, list.drop_last()[a] as int),
{
    let rest = list.drop_last();
    assert forall|a: int| 0 <= a < rest.len() implies man_prefers(pm, &men[k], women, list.last() as int, rest[a] as int) by {
        assert(rest[a] == list[a]);
    }
    assert forall|j: int| 0 <= j < women.len() && pm.admissible(&men[k], &women[j]) && !rest.contains(j as usize)
        implies holds_against(qm, men, women, states[j].current_match, states[j].current_is_perfect, k, j) by {
        if list.contains(j as usize) {
            let a = choose|a: int| 0 <= a < list.len() && list[a] == j as usize;
            if a < list.len() - 1 {
                assert(rest[a] == list[a]);
            } else {
                assert(list[a] == list.last());
                assert(j == list.last() as int);
            }
        }
    }
}

proof fn lemma_after_change<M, W, P: Matcher<Item = M, Target = W>, Q: Matcher<Item = W, Target = M>>(
    men: Seq<M>,
    women: Seq<W>,
    pm: &P,
    qm: &Q,
    before: Seq<Woman>,
    states: Seq<Woman>,
    before_prefs: Seq<Vec<usize>>,
    prefs: Seq<Vec<usize>>,
    unmatched: Seq<usize>,
    cur: int,
    w: int,
)
    requires
        0 <= cur < men.len(),
        men.len() <= usize::MAX,
        0 <= w < women.len(),
        state_ok(men, women, pm, qm, before, before_prefs, unmatched),
        !is_partner(partners_of(before), cur),
        !unmatched.contains(cur as usize),
        forall|a: int| 0 <= a < unmatched.len() ==> unmatched[a] < men.len(),
        prefs.len() == before_prefs.len(),
        forall|t: int| 0 <= t < prefs.len() && t != cur ==> prefs[t] == before_prefs[t],
        states.len() == before.len(),
        forall|h: int| 0 <= h < states.len() && h != w ==> states[h] == before[h],
        states[w].current_match is Some ==> states[w].current_match->0 < men.len(),
        states[w].current_is_perfect ==> states[w].current_match is Some,
        states[w] != before[w] && states[w].current_match is Some && !states[w].current_is_perfect ==> states[w].current_match == Some(cur as usize)
            && prefs_ok(men, women, pm, qm, states, prefs[cur]@, cur)
            && forall|a: int| 0 <= a < prefs[cur]@.len() ==> man_prefers(pm, &men[cur], women, w, prefs[cur]@[a] as int),
        no_worse(men, women, qm, before, states),
    ensures
        state_ok(men, women, pm, qm, states, prefs, unmatched),
{
    assert forall|h: int| 0 <= h < states.len() && states[h].current_match is Some && !states[h].current_is_perfect
        implies ({
            let k = states[h].current_match->0 as int;
            &&& prefs_ok(men, women, pm, qm, states, prefs[k]@, k)
            &&& forall|a: int| 0 <= a < prefs[k]@.len() ==> man_prefers(pm, &men[k], women, h, prefs[k]@[a] as int)
        }) by {
        let k = states[h].current_match->0 as int;
        if h != w || states[w] == before[w] {
            assert(states[h] == before[h]);
            if k == cur {
                assert(partners_of(before)[h] == Some(cur as usize));
            }
            assert(prefs[k] == before_prefs[k]);
            assert(prefs_ok(men, women, pm, qm, before, before_prefs[k]@, k));
            lemma_state_no_worse(men, women, pm, qm, before, states, prefs[k]@, k);
            assert(forall|a: int| 0 <= a < prefs[k]@.len() ==> man_prefers(pm, &men[k], women, h, prefs[k]@[a] as int));
        } else {
            assert(k == cur);
            assert(prefs_ok(men, women, pm, qm, states, prefs[k]@, k));
        }
    }
    assert forall|a: int| 0 <= a < unmatched.len() implies prefs[unmatched[a] as int]@.len() == 0
        && prefs_ok(men, women, pm, qm, states, prefs[unmatched[a] as int]@, unmatched[a] as int) by {
        assert(unmatched[a] != cur as usize);
        lemma_state_no_worse(men, women, pm, qm, before, states, prefs[unmatched[a] as int]@, unmatched[a] as int);
    }
}


/// A perfect pair is bound whatever else happens: for each proposer and each
/// target that is a perfect match for it, the target holds a perfect pair or the
/// proposer does.
pub open spec fn perfect_pairs_bound<M, W, P: Matcher<Item = M, Target = W>>(
    men: Seq<M>,
    women: Seq<W>,
    pm: &P,
    partners: Seq<Option<usize>>,
    perfect: Seq<bool>,
) -> bool {
    forall|k: int, j: int|
        0 <= k < men.len() && 0 <= j < women.len() && #[trigger] pm.perfect(&men[k], &women[j])
            ==> perfect[j] || exists|h: int| 0 <= h < perfect.len() && partners[h] == Some(k as usize) && perfect[h]
}

/// Proposer `k` holds a perfect pair.
pub open spec fn has_lock(states: Seq<Woman>, k: int) -> bool {
    exists|h: int| 0 <= h < states.len() && states[h].current_match == Some(k as usize) && states[h].current_is_perfect
}

/// Each of the first `bound` proposers holds a perfect pair, or every target that
/// is a perfect match for it holds one.
spec fn perfect_bound<M, W, P: Matcher<Item = M, Target = W>>(
    men: Seq<M>,
    women: Seq<W>,
    pm: &P,
    states: Seq<Woman>,
    bound: int,
) -> bool {
    forall|k: int, j: int|
        0 <= k < bound && 0 <= j < women.len() && #[trigger] pm.perfect(&men[k], &women[j])
            ==> states[j].current_is_perfect || has_lock(states, k)
}

proof fn lemma_locks_kept<M, W, P: Matcher<Item = M, Target = W>>(
    men: Seq<M>,
    women: Seq<W>,
    pm: &P,
    before: Seq<Woman>,
    after: Seq<Woman>,
    bound: int,
)
    requires
        before.len() == women.len(),
        after.len() == before.len(),
        perfect_bound(men, women, pm, before, bound),
        forall|h: int| 0 <= h < before.len() && before[h].current_is_perfect ==> after[h] == before[h],
    ensures
        perfect_bound(men, women, pm, after, bound),
{
    assert forall|k: int, j: int|
        0 <= k < bound && 0 <= j < women.len() && #[trigger] pm.perfect(&men[k], &women[j])
        implies after[j].current_is_perfect || has_lock(after, k) by {
        if !before[j].current_is_perfect {
            let h = choose|h: int| 0 <= h < before.len() && before[h].current_match == Some(k as usize) && before[h].current_is_perfect;
            assert(after[h] == before[h]);
        }
    }
}

/// Proposer `t` and target `t` are a perfect match, for every position `t`.
pub open spec fn diagonal<M, W, P: Matcher<Item = M, Target = W>>(men: Seq<M>, women: Seq<W>, pm: &P) -> bool {
    men.len() == women.len() && forall|t: int| 0 <= t < men.len() ==> pm.perfect(&men[t], &women[t])
}

/// Matches proposers `men` with targets `women` by proposals (Gale–Shapley,
/// extended): a proposer first takes a free target that is a perfect match for
/// it, for good; otherwise it proposes to the targets it admits, closest first,
/// and a target takes a proposer it admits when it holds none or one farther away.
/// Proposers keep their preferences to targets they admit, and are left alone
/// when none would have them.
pub fn stable_matching<M, W, P: Matcher<Item = M, Target = W>, Q: Matcher<Item = W, Target = M>>(
    men: &Vec<M>,
    women: &Vec<W>,
    men_matcher: &P,
    women_matcher: &Q,
) -> (r: MatchOutcome)
    ensures
        valid_outcome(men@, women@, men_matcher, women_matcher, r.partners@, r.perfect@, r.unmatched@),
        is_stable(men@, women@, men_matcher, women_matcher, r.partners@, r.perfect@, r.unmatched@),
        diagonal(men@, women@, men_matcher) ==> r.unmatched@.len() == 0 && forall|t: int|
            0 <= t < women@.len() ==> r.partners@[t] == Some(t as usize) && r.perfect@[t],
        perfect_pairs_bound(men@, women@, men_matcher, r.partners@, r.perfect@),
{
    let ghost diag = diagonal(men@, women@, men_matcher);
    let mut states: Vec<Woman> = Vec::new();
    let mut j: usize = 0;
    while j < women.len()
        invariant
            j <= women@.len(),
            states@.len() == j,
            forall|h: int| 0 <= h < j ==> states@[h] == (Woman { current_match: None, current_is_perfect: false }),
        decreases women@.len() - j,
    {
        states.push(Woman { current_match: None, current_is_perfect: false });
        j = j + 1;
    }
    let mut prefs: Vec<Vec<usize>> = Vec::new();
    let mut k: usize = 0;
    while k < men.len()
        invariant
            k <= men@.len(),
            prefs@.len() == k,
        decreases men@.len() - k,
    {
        prefs.push(Vec::new());
        k = k + 1;
    }
    let mut unmatched: Vec<usize> = Vec::new();
    let mut i: usize = 0;
    while i < men.len()
        invariant
            i <= men@.len(),
            diag == diagonal(men@, women@, men_matcher),
            state_ok(men@, women@, men_matcher, women_matcher, states@, prefs@, unmatched@),
            settled_ok(men@, women@, men_matcher, states@, unmatched@, i as int),
            pairs_admissible(men@, women@, men_matcher, women_matcher, states@),
            perfect_bound(men@, women@, men_matcher, states@, i as int),
            forall|t: int| 0 <= t < i ==> is_partner(partners_of(states@), t) || unmatched@.contains(t as usize),
            diag ==> unmatched@.len() == 0 && (forall|t: int| 0 <= t < i ==> states@[t] == (Woman { current_match: Some(t as usize), current_is_perfect: true }))
                && (forall|t: int| i <= t < women@.len() ==> states@[t].current_match is None),
        decreases men@.len() - i,
    {
        let mut found: Option<usize> = None;
        let mut j: usize = 0;
        while j < women.len()
            invariant_except_break
                found is None,
            invariant
                j <= women@.len(),
                i < men@.len(),
                states@.len() == women@.len(),
                forall|t: int| 0 <= t < j ==> !(!states@[t].current_is_perfect && men_matcher.perfect(&men@[i as int], &women@[t])),
            ensures
                found is Some ==> found->0 < women@.len() && !states@[found->0 as int].current_is_perfect
                    && men_matcher.perfect(&men@[i as int], &women@[found->0 as int])
                    && forall|t: int| 0 <= t < found->0 ==> !(!states@[t].current_is_perfect && men_matcher.perfect(&men@[i as int], &women@[t])),
                found is None ==> forall|t: int| 0 <= t < women@.len() ==> !(!states@[t].current_is_perfect && men_matcher.perfect(&men@[i as int], &women@[t])),
            decreases women@.len() - j,
        {
            if !states[j].current_is_perfect && men_matcher.is_perfect_match(&men[i], &women[j]) {
                found = Some(j);
                break;
            }
            j = j + 1;
        }
        let mut held: Option<usize> = None;
        match found {
            Some(f) => {
                let ghost before = states@;
                let old = states[f].current_match;
                states[f] = Woman { current_match: Some(i), current_is_perfect: true };
                held = old;
                proof {
                    assert(states@ == before.update(f as int, Woman { current_match: Some(i), current_is_perfect: true }));
                    assert(no_worse(men@, women@, women_matcher, before, states@));
                    assert forall|h: int| 0 <= h < states@.len() && states@[h].current_match is Some && !states@[h].current_is_perfect
                        implies prefs_ok(men@, women@, men_matcher, women_matcher, states@, prefs@[states@[h].current_match->0 as int]@, states@[h].current_match->0 as int) by {
                        assert(states@[h] == before[h]);
                        lemma_state_no_worse(men@, women@, men_matcher, women_matcher, before, states@, prefs@[states@[h].current_match->0 as int]@, states@[h].current_match->0 as int);
                    }
                    assert forall|a: int| 0 <= a < unmatched@.len()
                        implies prefs_ok(men@, women@, men_matcher, women_matcher, states@, prefs@[unmatched@[a] as int]@, unmatched@[a] as int) by {
                        lemma_state_no_worse(men@, women@, men_matcher, women_matcher, before, states@, prefs@[unmatched@[a] as int]@, unmatched@[a] as int);
                    }
                    assert forall|h: int| 0 <= h < states@.len() && h != f as int implies states@[h].current_match != Some(i) by {
                        assert(states@[h] == before[h]);
                    }
                    assert forall|a: int| 0 <= a < unmatched@.len() implies !is_partner(partners_of(states@), unmatched@[a] as int) by {
                        if is_partner(partners_of(states@), unmatched@[a] as int) {
                            let h = choose|h: int| 0 <= h < partners_of(states@).len() && partners_of(states@)[h] == Some(unmatched@[a]);
                            if h != f {
                                assert(partners_of(before)[h] == Some(unmatched@[a]));
                            }
                        }
                    }
                    assert(partners_of(states@)[f as int] == Some(i));
                    assert forall|t: int| 0 <= t < i + 1 && (old is None || t != old->0 as int)
                        implies is_partner(partners_of(states@), t) || unmatched@.contains(t as usize) by {
                        if t != i && is_partner(partners_of(before), t) {
                            let h = choose|h: int| 0 <= h < partners_of(before).len() && partners_of(before)[h] == Some(t as usize);
                            assert(h != f as int);
                            assert(partners_of(states@)[h] == Some(t as usize));
                        }
                    }
                    if let Some(o) = old {
                        assert(partners_of(before)[f as int] == Some(o));
                        assert(!is_partner(partners_of(states@), o as int)) by {
                            if is_partner(partners_of(states@), o as int) {
                                let h = choose|h: int| 0 <= h < partners_of(states@).len() && partners_of(states@)[h] == Some(o);
                                if h != f as int {
                                    assert(before[h].current_match == Some(o));
                                }
                            }
                        }
                        assert(!unmatched@.contains(o)) by {
                            if unmatched@.contains(o) {
                                let a = choose|a: int| 0 <= a < unmatched@.len() && unmatched@[a] == o;
                                assert(is_partner(partners_of(before), unmatched@[a] as int));
                            }
                        }
                        assert(prefs_ok(men@, women@, men_matcher, women_matcher, before, prefs@[o as int]@, o as int));
                        lemma_state_no_worse(men@, women@, men_matcher, women_matcher, before, states@, prefs@[o as int]@, o as int);
                    }
                    if diag {
                        assert(men_matcher.perfect(&men@[i as int], &women@[i as int]));
                        assert(!before[i as int].current_is_perfect);
                        assert(before[f as int].current_match is None);
                        assert(f == i);
                        assert(old is None);
                    }
                    lemma_locks_kept(men@, women@, men_matcher, before, states@, i as int);
                    assert forall|k: int, j: int|
                        0 <= k < i + 1 && 0 <= j < women@.len() && #[trigger] men_matcher.perfect(&men@[k], &women@[j])
                        implies states@[j].current_is_perfect || has_lock(states@, k) by {
                        if k == i {
                            assert(states@[f as int].current_match == Some(k as usize) && states@[f as int].current_is_perfect);
                        }
                    }
                }
            },
            None => {
                proof {
                    if diag {
                        assert(men_matcher.perfect(&men@[i as int], &women@[i as int]));
                        assert(!states@[i as int].current_is_perfect);
                        assert(false);
                    }
                }
                let list = compute_preference_list(men_matcher, women_matcher, men, i, women, &states);
                let ghost list_v = list@;
                let ghost prefs_before = prefs@;
                proof {
                    lemma_total_len_update(prefs@, i as int, list);
                }
                prefs[i] = list;
                held = Some(i);
                proof {
                    assert(prefs@[i as int]@ == list_v);
                    assert(prefs_ok(men@, women@, men_matcher, women_matcher, states@, list_v, i as int));
                    assert forall|h: int| 0 <= h < states@.len() && states@[h].current_match is Some && !states@[h].current_is_perfect
                        implies states@[h].current_match->0 != i by {
                        assert(partners_of(states@)[h] == states@[h].current_match);
                    }
                    assert forall|a: int| 0 <= a < unmatched@.len() implies unmatched@[a] != i by {}
                    assert(state_ok(men@, women@, men_matcher, women_matcher, states@, prefs@, unmatched@));
                    assert(!is_partner(partners_of(states@), i as int));
                    assert(!unmatched@.contains(i));
                    assert(perfect_bound(men@, women@, men_matcher, states@, i as int + 1));
                }
            },
        }
        match held {
            Some(c) => {
                let mut cur: usize = c;
                let mut engaged = false;
                loop
                    invariant_except_break
                        !engaged,
                        prefs_ok(men@, women@, men_matcher, women_matcher, states@, prefs@[cur as int]@, cur as int),
                        !is_partner(partners_of(states@), cur as int),
                        !unmatched@.contains(cur),
                        forall|t: int| 0 <= t <= i && t != cur ==> is_partner(partners_of(states@), t) || unmatched@.contains(t as usize),
                    invariant
                        i < men@.len(),
                        men@.len() == men.len(),
                        women@.len() == women.len(),
                        !diag,
                        cur <= i,
                        state_ok(men@, women@, men_matcher, women_matcher, states@, prefs@, unmatched@),
                        settled_ok(men@, women@, men_matcher, states@, unmatched@, i as int + 1),
                        pairs_admissible(men@, women@, men_matcher, women_matcher, states@),
                        perfect_bound(men@, women@, men_matcher, states@, i as int + 1),
                    ensures
                        perfect_bound(men@, women@, men_matcher, states@, i as int + 1),
                        state_ok(men@, women@, men_matcher, women_matcher, states@, prefs@, unmatched@),
                        settled_ok(men@, women@, men_matcher, states@, unmatched@, i as int + 1),
                        pairs_admissible(men@, women@, men_matcher, women_matcher, states@),
                        cur <= i,
                        !diag,
                        engaged ==> forall|t: int| 0 <= t <= i ==> is_partner(partners_of(states@), t) || unmatched@.contains(t as usize),
                        !engaged ==> prefs@[cur as int]@.len() == 0 && prefs_ok(men@, women@, men_matcher, women_matcher, states@, prefs@[cur as int]@, cur as int)
                            && !is_partner(partners_of(states@), cur as int) && !unmatched@.contains(cur)
                            && forall|t: int| 0 <= t <= i && t != cur ==> is_partner(partners_of(states@), t) || unmatched@.contains(t as usize),
                    decreases total_len(prefs@),
                {
                    if prefs[cur].len() == 0 {
                        break;
                    }
                    let ghost before_prefs = prefs@;
                    let next = prefs[cur].pop();
                    proof {
                        lemma_total_len_update(before_prefs, cur as int, prefs@[cur as int]);
                    }
                    match next {
                        None => {},
                        Some(w) => {
                            let ghost old_list = before_prefs[cur as int]@;
                            proof {
                                assert(prefs@ == before_prefs.update(cur as int, prefs@[cur as int]));
                                assert(old_list.len() > 0 && w == old_list.last());
                                assert(prefs@[cur as int]@ == old_list.drop_last());
                            }
                            if states[w].prefers_to_current(women_matcher, &women[w], men, &men[cur]) {
                                let ghost before = states@;
                                let old_match = states[w].replace_match(cur);
                                proof {
                                    assert(states@ == before.update(w as int, Woman { current_match: Some(cur), current_is_perfect: false }));
                                    assert forall|k: int, j: int|
                                        0 <= k < men@.len() && 0 <= j < women@.len() && #[trigger] holds_against(women_matcher, men@, women@, before[j].current_match, before[j].current_is_perfect, k, j)
                                        implies holds_against(women_matcher, men@, women@, states@[j].current_match, states@[j].current_is_perfect, k, j) by {
                                        if j == w as int {
                                            assert(!before[j].current_is_perfect);
                                            assert(women_matcher.admissible(&women@[j], &men@[cur as int]));
                                        }
                                    }
                                    assert(no_worse(men@, women@, women_matcher, before, states@));
                                    lemma_locks_kept(men@, women@, men_matcher, before, states@, i as int + 1);
                                    lemma_state_no_worse(men@, women@, men_matcher, women_matcher, before, states@, old_list, cur as int);
                                    lemma_pop_prefs(men@, women@, men_matcher, women_matcher, states@, old_list, cur as int);
                                    lemma_after_change(men@, women@, men_matcher, women_matcher, before, states@, before_prefs, prefs@, unmatched@, cur as int, w as int);
                                    assert forall|h: int| 0 <= h < states@.len() && h != w as int implies states@[h].current_match != Some(cur) by {
                                        if before[h].current_match == Some(cur) {
                                            assert(partners_of(before)[h] == Some(cur));
                                        }
                                    }
                                    assert forall|a: int| 0 <= a < unmatched@.len() implies !is_partner(partners_of(states@), unmatched@[a] as int) by {
                                        if is_partner(partners_of(states@), unmatched@[a] as int) {
                                            let h = choose|h: int| 0 <= h < partners_of(states@).len() && partners_of(states@)[h] == Some(unmatched@[a]);
                                            if h != w as int {
                                                assert(partners_of(before)[h] == Some(unmatched@[a]));
                                            }
                                        }
                                    }
                                    assert forall|t: int| 0 <= t <= i && t != cur && (before[w as int].current_match is None || t != before[w as int].current_match->0)
                                        implies is_partner(partners_of(states@), t) || unmatched@.contains(t as usize) by {
                                        if is_partner(partners_of(before), t) {
                                            let h = choose|h: int| 0 <= h < partners_of(before).len() && partners_of(before)[h] == Some(t as usize);
                                            if h != w as int {
                                                assert(partners_of(states@)[h] == Some(t as usize));
                                            }
                                        }
                                    }
                                    assert(partners_of(states@)[w as int] == Some(cur));
                                    if let Some(o) = old_match {
                                        assert(partners_of(before)[w as int] == Some(o));
                                        assert(!is_partner(partners_of(states@), o as int)) by {
                                            if is_partner(partners_of(states@), o as int) {
                                                let h = choose|h: int| 0 <= h < partners_of(states@).len() && partners_of(states@)[h] == Some(o);
                                                assert(h != w as int);
                                                assert(before[h].current_match == Some(o));
                                            }
                                        }
                                        assert(!unmatched@.contains(o)) by {
                                            if unmatched@.contains(o) {
                                                let a = choose|a: int| 0 <= a < unmatched@.len() && unmatched@[a] == o;
                                                assert(is_partner(partners_of(before), unmatched@[a] as int));
                                            }
                                        }
                                        assert(prefs_ok(men@, women@, men_matcher, women_matcher, before, before_prefs[o as int]@, o as int));
                                        assert(prefs@[o as int] == before_prefs[o as int]);
                                        lemma_state_no_worse(men@, women@, men_matcher, women_matcher, before, states@, prefs@[o as int]@, o as int);
                                    }
                                }
                                match old_match {
                                    Some(o) => {
                                        cur = o;
                                    },
                                    None => {
                                        engaged = true;
                                        break;
                                    },
                                }
                            } else {
                                proof {
                                    lemma_pop_prefs(men@, women@, men_matcher, women_matcher, states@, old_list, cur as int);
                                    assert(no_worse(men@, women@, women_matcher, states@, states@));
                                    lemma_after_change(men@, women@, men_matcher, women_matcher, states@, states@, before_prefs, prefs@, unmatched@, cur as int, w as int);
                                }
                            }
                        },
                    }
                }
                if !engaged {
                    let ghost before_unmatched = unmatched@;
                    unmatched.push(cur);
                    proof {
                        assert forall|a: int| 0 <= a < unmatched@.len() implies prefs@[unmatched@[a] as int]@.len() == 0
                            && prefs_ok(men@, women@, men_matcher, women_matcher, states@, prefs@[unmatched@[a] as int]@, unmatched@[a] as int) by {
                            if a < before_unmatched.len() {
                                assert(unmatched@[a] == before_unmatched[a]);
                            }
                        }
                        assert forall|t: int| 0 <= t <= i implies is_partner(partners_of(states@), t) || unmatched@.contains(t as usize) by {
                            if t == cur as int {
                                assert(unmatched@[before_unmatched.len() as int] == cur);
                            } else if before_unmatched.contains(t as usize) {
                                let a = choose|a: int| 0 <= a < before_unmatched.len() && before_unmatched[a] == t as usize;
                                assert(unmatched@[a] == t as usize);
                            }
                        }
                    }
                }
            },
            None => {},
        }
        i = i + 1;
    }
    let mut partners: Vec<Option<usize>> = Vec::new();
    let mut perfect: Vec<bool> = Vec::new();
    let mut h: usize = 0;
    while h < states.len()
        invariant
            h <= states@.len(),
            partners@ == partners_of(states@).subrange(0, h as int),
            perfect@ == perfect_of(states@).subrange(0, h as int),
        decreases states@.len() - h,
    {
        partners.push(states[h].current_match);
        perfect.push(states[h].current_is_perfect);
        proof {
            assert(partners_of(states@).subrange(0, h + 1) == partners_of(states@).subrange(0, h as int).push(states@[h as int].current_match));
            assert(perfect_of(states@).subrange(0, h + 1) == perfect_of(states@).subrange(0, h as int).push(states@[h as int].current_is_perfect));
        }
        h = h + 1;
    }
    proof {
        assert(partners@ == partners_of(states@));
        assert(perfect@ == perfect_of(states@));
        assert forall|k: int, j: int|
            0 <= k < men@.len() && 0 <= j < women@.len() && #[trigger] men_matcher.perfect(&men@[k], &women@[j])
            implies perfect@[j] || exists|h: int| 0 <= h < perfect@.len() && partners@[h] == Some(k as usize) && perfect@[h] by {
            if !perfect@[j] {
                let h = choose|h: int| 0 <= h < states@.len() && states@[h].current_match == Some(k as usize) && states@[h].current_is_perfect;
                assert(partners@[h] == Some(k as usize) && perfect@[h]);
            }
        }
        assert forall|k: int, j: int, h: int|
            0 <= k < men@.len() && 0 <= j < women@.len() && 0 <= h < women@.len() && partners@[h] == Some(k as usize) && !perfect@[h]
                && men_matcher.admissible(&men@[k], &women@[j]) && man_prefers(men_matcher, &men@[k], women@, j, h)
            implies holds_against(women_matcher, men@, women@, partners@[j], perfect@[j], k, j) by {
            assert(states@[h].current_match == Some(k as usize));
            let pk = prefs@[k]@;
            if pk.contains(j as usize) {
                let a = choose|a: int| 0 <= a < pk.len() && pk[a] == j as usize;
                assert(man_prefers(men_matcher, &men@[k], women@, h, pk[a] as int));
            }
        }
        assert forall|a: int, j: int|
            0 <= a < unmatched@.len() && 0 <= j < women@.len() && men_matcher.admissible(&men@[unmatched@[a] as int], &women@[j])
            implies holds_against(women_matcher, men@, women@, partners@[j], perfect@[j], unmatched@[a] as int, j) by {
            assert(!prefs@[unmatched@[a] as int]@.contains(j as usize));
        }
    }
    MatchOutcome { partners, perfect, unmatched }
}


fn into_slots<T>(v: Vec<T>) -> (r: Vec<Option<T>>)
    ensures
        r@.len() == v@.len(),
        forall|i: int| 0 <= i < v@.len() ==> r@[i] == Some(v@[i]),
{
    let ghost orig = v@;
    let mut v = v;
    let mut rev: Vec<T> = Vec::new();
    while v.len() > 0
        invariant
            v@.len() + rev@.len() == orig.len(),
            v@ == orig.subrange(0, v@.len() as int),
            forall|i: int| 0 <= i < rev@.len() ==> rev@[i] == orig[orig.len() - 1 - i],
        decreases v@.len(),
    {
        match v.pop() {
            Some(x) => rev.push(x),
            None => {},
        }
    }
    let mut r: Vec<Option<T>> = Vec::new();
    while rev.len() > 0
        invariant
            r@.len() + rev@.len() == orig.len(),
            forall|i: int| 0 <= i < rev@.len() ==> rev@[i] == orig[orig.len() - 1 - i],
            forall|i: int| 0 <= i < r@.len() ==> r@[i] == Some(orig[i]),
        decreases rev@.len(),
    {
        match rev.pop() {
            Some(x) => r.push(Some(x)),
            None => {},
        }
    }
    r
}

fn take_slot<T>(slots: &mut Vec<Option<T>>, i: usize) -> (r: Option<T>)
    requires
        i < old(slots)@.len(),
    ensures
        r == old(slots)@[i as int],
        final(slots)@ == old(slots)@.update(i as int, None),
{
    let mut x: Option<T> = None;
    std::mem::swap(&mut slots[i], &mut x);
    x
}

/// The pairs of a matching outcome, as values: each target with the proposer it
/// holds, in the order of the targets.
pub open spec fn pairs_of<M, W>(men: Seq<M>, women: Seq<W>, partners: Seq<Option<usize>>) -> Seq<(W, Option<M>)> {
    Seq::new(women.len(), |j: int| (women[j], if partners[j] is Some { Some(men[partners[j]->0 as int]) } else { None }))
}

/// Computes a stable matching between two lists (see `stable_matching`) and hands
/// back the values: each target with the proposer it holds, in the order of the
/// targets, and the proposers left alone.
pub fn stable_marriage<M, W, P: Matcher<Item = M, Target = W>, Q: Matcher<Item = W, Target = M>>(
    men: Vec<M>,
    women: Vec<W>,
    men_matcher: &P,
    women_matcher: &Q,
) -> (r: (Vec<(W, Option<M>)>, Vec<M>))
    ensures
        exists|partners: Seq<Option<usize>>, perfect: Seq<bool>, unmatched: Seq<usize>|
            {
                &&& valid_outcome(men@, women@, men_matcher, women_matcher, partners, perfect, unmatched)
                &&& is_stable(men@, women@, men_matcher, women_matcher, partners, perfect, unmatched)
                &&& perfect_pairs_bound(men@, women@, men_matcher, partners, perfect)
                &&& r.0@ == pairs_of(men@, women@, partners)
                &&& r.1@ == unmatched.map_values(|k: usize| men@[k as int])
            },
        diagonal(men@, women@, men_matcher) ==> r.1@.len() == 0 && forall|t: int|
            0 <= t < women@.len() ==> r.0@[t] == (women@[t], Some(men@[t])),
{
    let o = stable_matching(&men, &women, men_matcher, women_matcher);
    let ghost men_v = men@;
    let ghost women_v = women@;
    let wlen = women.len();
    let mut mslots = into_slots(men);
    let wslots = into_slots(women);
    let mut pairs: Vec<(W, Option<M>)> = Vec::new();
    let mut wrev: Vec<Option<W>> = Vec::new();
    let mut wslots = wslots;
    while wslots.len() > 0
        invariant
            wslots@.len() + wrev@.len() == women_v.len(),
            forall|i: int| 0 <= i < wslots@.len() ==> wslots@[i] == Some(women_v[i]),
            forall|i: int| 0 <= i < wrev@.len() ==> wrev@[i] == Some(women_v[women_v.len() - 1 - i]),
        decreases wslots@.len(),
    {
        match wslots.pop() {
            Some(x) => wrev.push(x),
            None => {},
        }
    }
    let mut j: usize = 0;
    while wrev.len() > 0
        invariant
            valid_outcome(men_v, women_v, men_matcher, women_matcher, o.partners@, o.perfect@, o.unmatched@),
            j + wrev@.len() == women_v.len(),
            women_v.len() == wlen,
            pairs@.len() == j,
            mslots@.len() == men_v.len(),
            forall|i: int| 0 <= i < wrev@.len() ==> wrev@[i] == Some(women_v[women_v.len() - 1 - i]),
            forall|i: int| 0 <= i < j ==> pairs@[i] == pairs_of(men_v, women_v, o.partners@)[i],
            forall|k: int| 0 <= k < men_v.len() ==> mslots@[k] == Some(men_v[k])
                || exists|t: int| 0 <= t < j && o.partners@[t] == Some(k as usize),
            forall|k: int| 0 <= k < men_v.len() && mslots@[k] is Some ==> mslots@[k] == Some(men_v[k]),
        decreases wrev@.len(),
    {
        match wrev.pop() {
            Some(Some(wv)) => {
                let m = match o.partners[j] {
                    Some(k) => take_slot(&mut mslots, k),
                    None => None,
                };
                proof {
                    if o.partners@[j as int] is Some {
                        let k = o.partners@[j as int]->0 as int;
                        assert forall|t: int| 0 <= t < j implies o.partners@[t] != Some(k as usize) by {}
                    }
                }
                pairs.push((wv, m));
                proof {
                    assert(pairs@[j as int] == pairs_of(men_v, women_v, o.partners@)[j as int]);
                }
                j = j + 1;
            },
            _ => {},
        }
    }
    let mut rest: Vec<M> = Vec::new();
    let mut a: usize = 0;
    while a < o.unmatched.len()
        invariant
            valid_outcome(men_v, women_v, men_matcher, women_matcher, o.partners@, o.perfect@, o.unmatched@),
            a <= o.unmatched@.len(),
            mslots@.len() == men_v.len(),
            rest@ == o.unmatched@.subrange(0, a as int).map_values(|k: usize| men_v[k as int]),
            forall|k: int| 0 <= k < men_v.len() && !is_partner(o.partners@, k) && !o.unmatched@.subrange(0, a as int).contains(k as usize)
                ==> mslots@[k] == Some(men_v[k]),
        decreases o.unmatched@.len() - a,
    {
        let k = o.unmatched[a];
        proof {
            assert(!o.unmatched@.subrange(0, a as int).contains(k));
        }
        let ghost before = mslots@;
        match take_slot(&mut mslots, k) {
            Some(m) => rest.push(m),
            None => {},
        }
        proof {
            assert(o.unmatched@.subrange(0, a + 1) == o.unmatched@.subrange(0, a as int).push(k));
            assert(rest@ == o.unmatched@.subrange(0, a + 1).map_values(|k: usize| men_v[k as int]));
            assert forall|k2: int| 0 <= k2 < men_v.len() && !is_partner(o.partners@, k2) && !o.unmatched@.subrange(0, a + 1).contains(k2 as usize)
                implies mslots@[k2] == Some(men_v[k2]) by {
                assert(o.unmatched@.subrange(0, a + 1)[a as int] == k);
                if k2 == k as int {
                    assert(false);
                }
                if o.unmatched@.subrange(0, a as int).contains(k2 as usize) {
                    let t = choose|t: int| 0 <= t < a && o.unmatched@.subrange(0, a as int)[t] == k2 as usize;
                    assert(o.unmatched@.subrange(0, a + 1)[t] == k2 as usize);
                }
                assert(before[k2] == Some(men_v[k2]));
            }
        }
        a = a + 1;
    }
    proof {
        assert(pairs@ == pairs_of(men_v, women_v, o.partners@));
        assert(o.unmatched@.subrange(0, a as int) == o.unmatched@);
    }
    (pairs, rest)
}

} // verus!
