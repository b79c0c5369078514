use vstd::prelude::*;

use crate::exports::StatementId;
use crate::graph::{contains_name, lemma_name_set_push, name_set, Statement, StatementGraph};

verus! {

broadcast use vstd::string::group_string_axioms;

/// What is known to be used, from outside, of a statement's exports.
#[derive(Debug, Clone, PartialEq, Eq)]
pub enum UsedIdent {
    /// A name the statement defines.
    Defined(String),
    /// The module's default export.
    Default,
    /// One name funnelled through an `export *`.
    InExportAll(String),
    /// The whole namespace (`import * as`).
    ExportAll,
}

/// The request re-exports names rather than asking for local bindings.
pub open spec fn seed_skip(uses: Seq<UsedIdent>) -> bool {
    exists|j: int| 0 <= j < uses.len() && ((#[trigger] uses[j]) is InExportAll || uses[j] is ExportAll)
}

pub open spec fn seed_default(uses: Seq<UsedIdent>) -> bool {
    exists|j: int| 0 <= j < uses.len() && (#[trigger] uses[j]) is Default
}

/// The defined names that the request asks for.
pub open spec fn seed_defined(uses: Seq<UsedIdent>) -> Set<Seq<char>> {
    Set::new(|x: Seq<char>| exists|j: int| 0 <= j < uses.len() && (#[trigger] uses[j]) is Defined
        && uses[j]->Defined_0@ == x)
}

/// The re-exported names of the request; `*` stands for the whole namespace.
pub open spec fn seed_tags(uses: Seq<UsedIdent>) -> Set<Seq<char>> {
    Set::new(|x: Seq<char>| exists|j: int| 0 <= j < uses.len() && (((#[trigger] uses[j]) is InExportAll
        && uses[j]->InExportAll_0@ == x) || (uses[j] is ExportAll && x == "*"@)))
}

/// The names that a request adds to its statement's entry in the result.
pub open spec fn seed_names(uses: Seq<UsedIdent>) -> Set<Seq<char>> {
    if seed_skip(uses) {
        seed_tags(uses)
    } else {
        seed_defined(uses)
    }
}

/// The names that the first `e` requests add to statement `t`.
pub open spec fn seed_extra(seeds: Seq<(StatementId, Vec<UsedIdent>)>, e: int, t: int) -> Set<Seq<char>> {
    Set::new(|x: Seq<char>| exists|i: int| 0 <= i < e && (#[trigger] seeds[i]).0 == t && seed_names(seeds[i].1@).contains(x))
}

pub open spec fn count_false(s: Seq<bool>) -> nat
    decreases s.len(),
{
    if s.len() == 0 {
        0
    } else {
        count_false(s.drop_last()) + if s.last() { 0nat } else { 1nat }
    }
}

pub open spec fn sum_false(m: Seq<Vec<bool>>) -> nat
    decreases m.len(),
{
    if m.len() == 0 {
        0
    } else {
        sum_false(m.drop_last()) + count_false(m.last()@)
    }
}

proof fn lemma_count_false_update(s: Seq<bool>, i: int)
    requires
        0 <= i < s.len(),
        !s[i],
    ensures
        count_false(s.update(i, true)) + 1 == count_false(s),
    decreases s.len(),
{
    let s2 = s.update(i, true);
    if i == s.len() - 1 {
        assert(s2.drop_last() =~= s.drop_last());
    } else {
        assert(s2.drop_last() =~= s.drop_last().update(i, true));
        lemma_count_false_update(s.drop_last(), i);
    }
}

proof fn lemma_sum_false_update(m: Seq<Vec<bool>>, t: int, r: Vec<bool>)
    requires
        0 <= t < m.len(),
        count_false(r@) + 1 == count_false(m[t]@),
    ensures
        sum_false(m.update(t, r)) + 1 == sum_false(m),
    decreases m.len(),
{
    let m2 = m.update(t, r);
    if t == m.len() - 1 {
        assert(m2.drop_last() =~= m.drop_last());
    } else {
        assert(m2.drop_last() =~= m.drop_last().update(t, r));
        lemma_sum_false_update(m.drop_last(), t, r);
    }
}

/// Every statement is as present, and every live set as large, in the second
/// assignment as in the first.
pub open spec fn below(p1: Seq<bool>, l1: Seq<Set<Seq<char>>>, p2: Seq<bool>, l2: Seq<Set<Seq<char>>>) -> bool {
    &&& forall|t: int| 0 <= t < p1.len() && #[trigger] p1[t] ==> p2[t]
    &&& forall|t: int| 0 <= t < p1.len() ==> (#[trigger] l1[t]).subset_of(l2[t])
}

/// The result of the propagator describes the assignment `pres`, `live`: one
/// entry per present statement, in ascending order, holding its live names
/// and the names that the requests add to it.
pub open spec fn describes(
    r: Seq<(StatementId, Vec<String>)>,
    pres: Seq<bool>,
    live: Seq<Set<Seq<char>>>,
    seeds: Seq<(StatementId, Vec<UsedIdent>)>,
) -> bool {
    &&& forall|i: int| 0 <= i < r.len() ==> (#[trigger] r[i]).0 < pres.len() && pres[r[i].0 as int]
        && name_set(r[i].1@) == live[r[i].0 as int].union(seed_extra(seeds, seeds.len() as int, r[i].0 as int))
    &&& forall|i: int, j: int| 0 <= i < j < r.len() ==> (#[trigger] r[i]).0 < (#[trigger] r[j]).0
    &&& forall|t: int| 0 <= t < pres.len() && #[trigger] pres[t] ==> exists|i: int| 0 <= i < r.len() && (#[trigger] r[i]).0 == t
}

impl StatementGraph {
    /// What a request needs from the statements it depends on.
    pub open spec fn seed_need(&self, s: int, uses: Seq<UsedIdent>) -> Set<Seq<char>> {
        self.node(s).deps_of(seed_defined(uses)).union(
            if seed_default(uses) {
                self.node(s).used()
            } else {
                Set::empty()
            },
        )
    }

    /// Statement `t`, needing the names `need`, depends on `u` through one of them.
    pub open spec fn propagates(&self, t: int, need: Set<Seq<char>>, u: int) -> bool {
        exists|x: Seq<char>| need.contains(x) && #[trigger] self.label(t, u).contains(x)
    }

    /// Each statement that `t` depends on through `need` is present and has
    /// the names of `need` that it defines live.
    pub open spec fn feeds(&self, t: int, need: Set<Seq<char>>, pres: Seq<bool>, live: Seq<Set<Seq<char>>>) -> bool {
        forall|u: int| 0 <= u < self.len() && #[trigger] self.propagates(t, need, u) ==> pres[u] && need.intersect(
            self.node(u).defined(),
        ).subset_of(live[u])
    }

    pub open spec fn seed_holds(&self, seed: (StatementId, Vec<UsedIdent>), pres: Seq<bool>, live: Seq<Set<Seq<char>>>) -> bool {
        let s = seed.0 as int;
        let uses = seed.1@;
        pres[s] && (!seed_skip(uses) ==> seed_defined(uses).intersect(self.node(s).defined()).subset_of(live[s])
            && self.feeds(s, self.seed_need(s, uses), pres, live))
    }

    /// `pres`, `live` (which statements are kept, and which of their defined
    /// names are live) satisfy every request and every dependency.
    pub open spec fn closed(
        &self,
        seeds: Seq<(StatementId, Vec<UsedIdent>)>,
        pres: Seq<bool>,
        live: Seq<Set<Seq<char>>>,
    ) -> bool {
        &&& pres.len() == self.len()
        &&& live.len() == self.len()
        &&& forall|e: int| 0 <= e < seeds.len() ==> self.seed_holds(#[trigger] seeds[e], pres, live)
        &&& forall|t: int| 0 <= t < self.len() ==> self.feeds(t, #[trigger] self.node(t).deps_of(live[t]), pres, live)
    }

    /// The least assignment that satisfies the requests and dependencies.
    pub open spec fn least_closed(
        &self,
        seeds: Seq<(StatementId, Vec<UsedIdent>)>,
        pres: Seq<bool>,
        live: Seq<Set<Seq<char>>>,
    ) -> bool {
        &&& self.closed(seeds, pres, live)
        &&& forall|p: Seq<bool>, l: Seq<Set<Seq<char>>>| #[trigger] self.closed(seeds, p, l) ==> below(pres, live, p, l)
    }

    pub open spec fn live_of(&self, masks: Seq<Vec<bool>>, t: int) -> Set<Seq<char>> {
        Set::new(|x: Seq<char>| exists|k: int| 0 <= k < masks[t]@.len() && #[trigger] masks[t]@[k]
            && self.node(t).defined_idents@[k]@ == x)
    }

    pub open spec fn lives(&self, masks: Seq<Vec<bool>>) -> Seq<Set<Seq<char>>> {
        Seq::new(self.len(), |t: int| self.live_of(masks, t))
    }

    pub open spec fn shaped(&self, pres: Seq<bool>, masks: Seq<Vec<bool>>) -> bool {
        &&& pres.len() == self.len()
        &&& masks.len() == self.len()
        &&& forall|t: int| 0 <= t < self.len() ==> (#[trigger] masks[t])@.len() == self.node(t).defined_idents@.len()
    }

    pub open spec fn le_all(&self, seeds: Seq<(StatementId, Vec<UsedIdent>)>, pres: Seq<bool>, masks: Seq<Vec<bool>>) -> bool {
        forall|p: Seq<bool>, l: Seq<Set<Seq<char>>>| #[trigger] self.closed(seeds, p, l) ==> below(pres, self.lives(masks), p, l)
    }
}

pub open spec fn grows(p1: Seq<bool>, m1: Seq<Vec<bool>>, p2: Seq<bool>, m2: Seq<Vec<bool>>) -> bool {
    &&& p1.len() == p2.len()
    &&& m1.len() == m2.len()
    &&& forall|t: int| 0 <= t < p1.len() && #[trigger] p1[t] ==> p2[t]
    &&& forall|t: int| 0 <= t < m1.len() ==> (#[trigger] m2[t])@.len() == m1[t]@.len()
    &&& forall|t: int, k: int| 0 <= t < m1.len() && 0 <= k < m1[t]@.len() && #[trigger] m1[t]@[k] ==> m2[t]@[k]
}

pub open spec fn same_state(p1: Seq<bool>, m1: Seq<Vec<bool>>, p2: Seq<bool>, m2: Seq<Vec<bool>>) -> bool {
    &&& p1 == p2
    &&& m1.len() == m2.len()
    &&& forall|t: int| 0 <= t < m1.len() ==> (#[trigger] m1[t])@ == m2[t]@
}

pub open spec fn measure(p: Seq<bool>, m: Seq<Vec<bool>>) -> nat {
    count_false(p) + sum_false(m)
}

impl StatementGraph {
    proof fn lemma_grows_below(&self, p1: Seq<bool>, m1: Seq<Vec<bool>>, p2: Seq<bool>, m2: Seq<Vec<bool>>)
        requires
            self.shaped(p1, m1),
            grows(p1, m1, p2, m2),
        ensures
            below(p1, self.lives(m1), p2, self.lives(m2)),
    {
        assert forall|t: int| 0 <= t < p1.len() implies (#[trigger] self.lives(m1)[t]).subset_of(self.lives(m2)[t]) by {
            assert forall|x: Seq<char>| self.live_of(m1, t).contains(x) implies self.live_of(m2, t).contains(x) by {
                let k = choose|k: int| 0 <= k < m1[t]@.len() && #[trigger] m1[t]@[k] && self.node(t).defined_idents@[k]@ == x;
                assert(m2[t]@[k]);
            }
        }
    }

    proof fn lemma_feeds_mono(&self, t: int, need: Set<Seq<char>>, p1: Seq<bool>, l1: Seq<Set<Seq<char>>>, p2: Seq<bool>, l2: Seq<Set<Seq<char>>>)
        requires
            p1.len() == self.len(),
            below(p1, l1, p2, l2),
            self.feeds(t, need, p1, l1),
        ensures
            self.feeds(t, need, p2, l2),
    {
        assert forall|u: int| 0 <= u < self.len() && #[trigger] self.propagates(t, need, u) implies p2[u] && need.intersect(
            self.node(u).defined()).subset_of(l2[u]) by {
            assert(p1[u]);
        }
    }

    proof fn lemma_seed_holds_mono(&self, seed: (StatementId, Vec<UsedIdent>), p1: Seq<bool>, l1: Seq<Set<Seq<char>>>, p2: Seq<bool>, l2: Seq<Set<Seq<char>>>)
        requires
            p1.len() == self.len(),
            seed.0 < self.len(),
            below(p1, l1, p2, l2),
            self.seed_holds(seed, p1, l1),
        ensures
            self.seed_holds(seed, p2, l2),
    {
        let s = seed.0 as int;
        assert(p1[s]);
        if !seed_skip(seed.1@) {
            self.lemma_feeds_mono(s, self.seed_need(s, seed.1@), p1, l1, p2, l2);
        }
    }

    /// Marks `u` present and each name of `need` that it defines live.
    fn grant(
        &self,
        pres: &mut Vec<bool>,
        masks: &mut Vec<Vec<bool>>,
        u: usize,
        need: &Vec<String>,
        changed: &mut bool,
        Ghost(seeds): Ghost<Seq<(StatementId, Vec<UsedIdent>)>>,
    )
        requires
            self.wf(),
            self.shaped(old(pres)@, old(masks)@),
            u < self.len(),
            self.le_all(seeds, old(pres)@, old(masks)@),
            forall|p: Seq<bool>, l: Seq<Set<Seq<char>>>| #[trigger] self.closed(seeds, p, l) ==> p[u as int]
                && name_set(need@).intersect(self.node(u as int).defined()).subset_of(l[u as int]),
        ensures
            self.shaped(final(pres)@, final(masks)@),
            self.le_all(seeds, final(pres)@, final(masks)@),
            grows(old(pres)@, old(masks)@, final(pres)@, final(masks)@),
            final(pres)@[u as int],
            name_set(need@).intersect(self.node(u as int).defined()).subset_of(self.live_of(final(masks)@, u as int)),
            measure(final(pres)@, final(masks)@) <= measure(old(pres)@, old(masks)@),
            same_state(old(pres)@, old(masks)@, final(pres)@, final(masks)@) || measure(final(pres)@, final(masks)@)
                < measure(old(pres)@, old(masks)@),
            *final(changed) == (*old(changed) || measure(final(pres)@, final(masks)@) < measure(old(pres)@, old(masks)@)),
    {
        let ghost p0 = pres@;
        let ghost m0 = masks@;
        if !pres[u] {
            pres.set(u, true);
            *changed = true;
            proof {
                lemma_count_false_update(p0, u as int);
                assert(pres@ == p0.update(u as int, true));
                assert(!same_state(p0, m0, pres@, masks@));
                assert forall|p: Seq<bool>, l: Seq<Set<Seq<char>>>| #[trigger] self.closed(seeds, p, l) implies below(pres@, self.lives(masks@), p, l) by {
                    assert(below(p0, self.lives(m0), p, l));
                    assert(p[u as int]);
                    assert(self.lives(masks@) == self.lives(m0));
                }
            }
        }
        let defined = &self.stmt(&u).defined_idents;
        let mut k: usize = 0;
        while k < defined.len()
            invariant
                self.wf(),
                u < self.len(),
                defined == self.node(u as int).defined_idents,
                0 <= k <= defined@.len(),
                self.shaped(pres@, masks@),
                self.le_all(seeds, pres@, masks@),
                forall|p: Seq<bool>, l: Seq<Set<Seq<char>>>| #[trigger] self.closed(seeds, p, l) ==> p[u as int]
                    && name_set(need@).intersect(self.node(u as int).defined()).subset_of(l[u as int]),
                grows(p0, m0, pres@, masks@),
                pres@[u as int],
                forall|k2: int| 0 <= k2 < k && name_set(need@).contains(defined@[k2]@) ==> #[trigger] masks@[u as int]@[k2],
                measure(pres@, masks@) <= measure(p0, m0),
                same_state(p0, m0, pres@, masks@) || measure(pres@, masks@) < measure(p0, m0),
                *changed == (*old(changed) || measure(pres@, masks@) < measure(p0, m0)),
            decreases defined@.len() - k,
        {
            if !masks[u][k] && contains_name(need, &defined[k]) {
                let ghost m1 = masks@;
                let mut row: Vec<bool> = Vec::new();
                std::mem::swap(&mut masks[u], &mut row);
                row.set(k, true);
                let ghost new_row = row;
                masks.set(u, row);
                *changed = true;
                proof {
                    assert(masks@ == m1.update(u as int, new_row));
                    lemma_count_false_update(m1[u as int]@, k as int);
                    lemma_sum_false_update(m1, u as int, new_row);
                    assert(!same_state(p0, m0, pres@, masks@)) by {
                        assert(masks@[u as int]@[k as int] != m0[u as int]@[k as int]);
                    }
                    let x = defined@[k as int]@;
                    assert(self.node(u as int).defined().contains(x));
                    assert forall|p: Seq<bool>, l: Seq<Set<Seq<char>>>| #[trigger] self.closed(seeds, p, l) implies below(pres@, self.lives(masks@), p, l) by {
                        assert(below(pres@, self.lives(m1), p, l));
                        assert forall|t: int| 0 <= t < pres@.len() implies self.lives(masks@)[t].subset_of(l[t]) by {
                            assert(self.lives(m1)[t].subset_of(l[t]));
                            if t == u {
                                assert(name_set(need@).intersect(self.node(u as int).defined()).contains(x));
                                assert forall|y: Seq<char>| self.live_of(masks@, t).contains(y) implies l[t].contains(y) by {
                                    let k2 = choose|k2: int| 0 <= k2 < masks@[t]@.len() && #[trigger] masks@[t]@[k2] && self.node(t).defined_idents@[k2]@ == y;
                                    if k2 != k {
                                        assert(m1[t]@[k2]);
                                        assert(self.live_of(m1, t).contains(y));
                                    }
                                }
                            } else {
                                assert(masks@[t] == m1[t]);
                                assert(self.live_of(masks@, t) =~= self.live_of(m1, t));
                            }
                        }
                    }
                }
            }
            k = k + 1;
        }
        proof {
            assert forall|x: Seq<char>| name_set(need@).intersect(self.node(u as int).defined()).contains(x) implies self.live_of(masks@, u as int).contains(x) by {
                let k2 = choose|k2: int| 0 <= k2 < defined@.len() && #[trigger] defined@[k2]@ == x;
                assert(masks@[u as int]@[k2]);
            }
        }
    }
}

/// Appends copies of the names of `src` to `dst`.
fn append_names(dst: &mut Vec<String>, src: &Vec<String>)
    ensures
        name_set(final(dst)@) == name_set(old(dst)@).union(name_set(src@)),
{
    let ghost d0 = dst@;
    let mut i: usize = 0;
    while i < src.len()
        invariant
            0 <= i <= src@.len(),
            name_set(dst@) == name_set(d0).union(name_set(src@.take(i as int))),
        decreases src@.len() - i,
    {
        let ghost before = dst@;
        let x = src[i].clone();
        dst.push(x);
        proof {
            lemma_name_set_push(before, x);
            assert(src@.take(i + 1) =~= src@.take(i as int).push(src@[i as int]));
            lemma_name_set_push(src@.take(i as int), src@[i as int]);
            assert(name_set(dst@) =~= name_set(d0).union(name_set(src@.take(i + 1))));
        }
        i = i + 1;
    }
    proof {
        assert(src@.take(i as int) =~= src@);
    }
}

/// Whether the two lists share a name.
fn intersects(a: &Vec<String>, b: &Vec<String>) -> (r: bool)
    ensures
        r == exists|x: Seq<char>| name_set(a@).contains(x) && name_set(b@).contains(x),
{
    let mut i: usize = 0;
    while i < a.len()
        invariant
            0 <= i <= a@.len(),
            forall|k: int| 0 <= k < i ==> !name_set(b@).contains(#[trigger] a@[k]@),
        decreases a@.len() - i,
    {
        if contains_name(b, &a[i]) {
            return true;
        }
        i = i + 1;
    }
    proof {
        assert forall|x: Seq<char>| !(name_set(a@).contains(x) && name_set(b@).contains(x)) by {
            if name_set(a@).contains(x) {
                let k = choose|k: int| 0 <= k < a@.len() && #[trigger] a@[k]@ == x;
            }
        }
    }
    false
}

proof fn lemma_seed_push(u0: Seq<UsedIdent>, x: UsedIdent)
    ensures
        seed_skip(u0.push(x)) == (seed_skip(u0) || x is InExportAll || x is ExportAll),
        seed_default(u0.push(x)) == (seed_default(u0) || x is Default),
        seed_defined(u0.push(x)) == (if x is Defined {
            seed_defined(u0).insert(x->Defined_0@)
        } else {
            seed_defined(u0)
        }),
        seed_tags(u0.push(x)) == (if x is InExportAll {
            seed_tags(u0).insert(x->InExportAll_0@)
        } else if x is ExportAll {
            seed_tags(u0).insert("*"@)
        } else {
            seed_tags(u0)
        }),
{
    let u1 = u0.push(x);
    let n = u0.len() as int;
    assert(u1[n] == x);
    assert(forall|j: int| 0 <= j < n ==> u1[j] == u0[j]);
    if seed_skip(u1) {
        let j = choose|j: int| 0 <= j < u1.len() && ((#[trigger] u1[j]) is InExportAll || u1[j] is ExportAll);
        if j < n {
            assert(u0[j] == u1[j]);
        }
    }
    if seed_default(u1) {
        let j = choose|j: int| 0 <= j < u1.len() && (#[trigger] u1[j]) is Default;
        if j < n {
            assert(u0[j] == u1[j]);
        }
    }
    let d1 = if x is Defined { seed_defined(u0).insert(x->Defined_0@) } else { seed_defined(u0) };
    assert forall|y: Seq<char>| seed_defined(u1).contains(y) <==> d1.contains(y) by {
        if seed_defined(u1).contains(y) {
            let j = choose|j: int| 0 <= j < u1.len() && (#[trigger] u1[j]) is Defined && u1[j]->Defined_0@ == y;
            if j < n {
                assert(u0[j] == u1[j]);
            }
        }
        if seed_defined(u0).contains(y) {
            let j = choose|j: int| 0 <= j < u0.len() && (#[trigger] u0[j]) is Defined && u0[j]->Defined_0@ == y;
            assert(u1[j] == u0[j]);
        }
    }
    assert(seed_defined(u1) =~= d1);
    let t1 = if x is InExportAll {
        seed_tags(u0).insert(x->InExportAll_0@)
    } else if x is ExportAll {
        seed_tags(u0).insert("*"@)
    } else {
        seed_tags(u0)
    };
    assert forall|y: Seq<char>| seed_tags(u1).contains(y) <==> t1.contains(y) by {
        if seed_tags(u1).contains(y) {
            let j = choose|j: int| 0 <= j < u1.len() && (((#[trigger] u1[j]) is InExportAll
                && u1[j]->InExportAll_0@ == y) || (u1[j] is ExportAll && y == "*"@));
            if j < n {
                assert(u0[j] == u1[j]);
            }
        }
        if seed_tags(u0).contains(y) {
            let j = choose|j: int| 0 <= j < u0.len() && (((#[trigger] u0[j]) is InExportAll
                && u0[j]->InExportAll_0@ == y) || (u0[j] is ExportAll && y == "*"@));
            assert(u1[j] == u0[j]);
        }
    }
    assert(seed_tags(u1) =~= t1);
}

/// Splits a request into its parts.
fn seed_info(uses: &Vec<UsedIdent>) -> (r: (bool, bool, Vec<String>, Vec<String>))
    ensures
        r.0 == seed_skip(uses@),
        r.1 == seed_default(uses@),
        name_set(r.2@) == seed_defined(uses@),
        name_set(r.3@) == seed_tags(uses@),
{
    let mut skip = false;
    let mut default = false;
    let mut defined: Vec<String> = Vec::new();
    let mut tags: Vec<String> = Vec::new();
    let mut i: usize = 0;
    while i < uses.len()
        invariant
            0 <= i <= uses@.len(),
            skip == seed_skip(uses@.take(i as int)),
            default == seed_default(uses@.take(i as int)),
            name_set(defined@) == seed_defined(uses@.take(i as int)),
            name_set(tags@) == seed_tags(uses@.take(i as int)),
        decreases uses@.len() - i,
    {
        let ghost u0 = uses@.take(i as int);
        let ghost u1 = uses@.take(i + 1);
        let ghost d0 = defined@;
        let ghost t0 = tags@;
        proof {
            assert(u1 =~= u0.push(uses@[i as int]));
            lemma_seed_push(u0, uses@[i as int]);
        }
        match &uses[i] {
            UsedIdent::Defined(x) => {
                let c = x.clone();
                defined.push(c);
                proof {
                    lemma_name_set_push(d0, c);
                }
            },
            UsedIdent::Default => {
                default = true;
                proof {
                }
            },
            UsedIdent::InExportAll(x) => {
                skip = true;
                let c = x.clone();
                tags.push(c);
                proof {
                    lemma_name_set_push(t0, c);
                }
            },
            UsedIdent::ExportAll => {
                skip = true;
                let c = "*".to_string();
                tags.push(c);
                proof {
                    lemma_name_set_push(t0, c);
                }
            },
        }
        i = i + 1;
    }
    proof {
        assert(uses@.take(i as int) =~= uses@);
    }
    (skip, default, defined, tags)
}

impl StatementGraph {
    /// The names that the defined names `names` of statement `t` depend on.
    fn deps_list(&self, t: usize, names: &Vec<String>) -> (r: Vec<String>)
        requires
            self.wf(),
            t < self.len(),
        ensures
            name_set(r@) == self.node(t as int).deps_of(name_set(names@)),
    {
        let map = &self.stmt(&t).defined_idents_map;
        let ghost st = self.node(t as int);
        let mut r: Vec<String> = Vec::new();
        let mut i: usize = 0;
        while i < map.len()
            invariant
                map == st.defined_idents_map,
                0 <= i <= map@.len(),
                forall|y: Seq<char>| name_set(r@).contains(y) <==> exists|i2: int, j: int|
                    0 <= i2 < i && name_set(names@).contains(#[trigger] map@[i2].0@) && 0 <= j < map@[i2].1@.len()
                        && #[trigger] map@[i2].1@[j]@ == y,
            decreases map@.len() - i,
        {
            if contains_name(names, &map[i].0) {
                let ghost r0 = r@;
                append_names(&mut r, &map[i].1);
                proof {
                    assert forall|y: Seq<char>| name_set(r@).contains(y) <==> exists|i2: int, j: int|
                        0 <= i2 < i + 1 && name_set(names@).contains(#[trigger] map@[i2].0@) && 0 <= j < map@[i2].1@.len()
                            && #[trigger] map@[i2].1@[j]@ == y by {
                        if name_set(map@[i as int].1@).contains(y) {
                            let j = choose|j: int| 0 <= j < map@[i as int].1@.len() && #[trigger] map@[i as int].1@[j]@ == y;
                        }
                    }
                }
            }
            i = i + 1;
        }
        proof {
            assert(name_set(r@) =~= st.deps_of(name_set(names@)));
        }
        r
    }

    /// The live defined names of statement `t`, whose mask is `row`.
    fn live_names(&self, t: usize, row: &Vec<bool>) -> (r: Vec<String>)
        requires
            self.wf(),
            t < self.len(),
            row@.len() == self.node(t as int).defined_idents@.len(),
        ensures
            forall|m: Seq<Vec<bool>>| 0 <= t < m.len() && m[t as int] == *row ==> name_set(r@) == #[trigger] self.live_of(m, t as int),
    {
        let defined = &self.stmt(&t).defined_idents;
        let mut r: Vec<String> = Vec::new();
        let mut k: usize = 0;
        while k < defined.len()
            invariant
                defined == self.node(t as int).defined_idents,
                row@.len() == defined@.len(),
                0 <= k <= defined@.len(),
                forall|y: Seq<char>| name_set(r@).contains(y) <==> exists|k2: int| 0 <= k2 < k && #[trigger] row@[k2] && defined@[k2]@ == y,
            decreases defined@.len() - k,
        {
            if row[k] {
                let ghost r0 = r@;
                let c = defined[k].clone();
                r.push(c);
                proof {
                    lemma_name_set_push(r0, c);
                }
            }
            k = k + 1;
        }
        proof {
            assert forall|m: Seq<Vec<bool>>| 0 <= t < m.len() && m[t as int] == *row implies name_set(r@) == #[trigger] self.live_of(m, t as int) by {
                assert(name_set(r@) =~= self.live_of(m, t as int));
            }
        }
        r
    }
}

impl StatementGraph {
    /// Hands `need`, what statement `t` needs, to each statement it depends on
    /// through one of those names.
    fn push_along_edges(
        &self,
        t: usize,
        need: &Vec<String>,
        pres: &mut Vec<bool>,
        masks: &mut Vec<Vec<bool>>,
        changed: &mut bool,
        Ghost(seeds): Ghost<Seq<(StatementId, Vec<UsedIdent>)>>,
    )
        requires
            self.wf(),
            self.shaped(old(pres)@, old(masks)@),
            t < self.len(),
            self.le_all(seeds, old(pres)@, old(masks)@),
            forall|p: Seq<bool>, l: Seq<Set<Seq<char>>>| #[trigger] self.closed(seeds, p, l) ==> self.feeds(
                t as int,
                name_set(need@),
                p,
                l,
            ),
        ensures
            self.shaped(final(pres)@, final(masks)@),
            self.le_all(seeds, final(pres)@, final(masks)@),
            grows(old(pres)@, old(masks)@, final(pres)@, final(masks)@),
            self.feeds(t as int, name_set(need@), final(pres)@, self.lives(final(masks)@)),
            measure(final(pres)@, final(masks)@) <= measure(old(pres)@, old(masks)@),
            same_state(old(pres)@, old(masks)@, final(pres)@, final(masks)@) || measure(final(pres)@, final(masks)@)
                < measure(old(pres)@, old(masks)@),
            *final(changed) == (*old(changed) || measure(final(pres)@, final(masks)@) < measure(old(pres)@, old(masks)@)),
    {
        let ghost p0 = pres@;
        let ghost m0 = masks@;
        let ghost nd = name_set(need@);
        let deps = self.dependencies(&t);
        let mut j: usize = 0;
        while j < deps.len()
            invariant
                self.wf(),
                t < self.len(),
                nd == name_set(need@),
                0 <= j <= deps@.len(),
                forall|j2: int| 0 <= j2 < deps@.len() ==> (#[trigger] deps@[j2]).0 < self.len(),
                forall|b: int, x: Seq<char>| #[trigger] self.label(t as int, b).contains(x) <==> exists|j2: int|
                    0 <= j2 < deps@.len() && (#[trigger] deps@[j2]).0 == b && name_set(deps@[j2].1.idents@).contains(x),
                forall|p: Seq<bool>, l: Seq<Set<Seq<char>>>| #[trigger] self.closed(seeds, p, l) ==> self.feeds(t as int, nd, p, l),
                self.shaped(pres@, masks@),
                self.le_all(seeds, pres@, masks@),
                grows(p0, m0, pres@, masks@),
                forall|j2: int| 0 <= j2 < j && (exists|x: Seq<char>| nd.contains(x) && name_set(deps@[j2].1.idents@).contains(x))
                    ==> pres@[(#[trigger] deps@[j2]).0 as int] && nd.intersect(self.node(deps@[j2].0 as int).defined()).subset_of(
                    self.live_of(masks@, deps@[j2].0 as int)),
                measure(pres@, masks@) <= measure(p0, m0),
                same_state(p0, m0, pres@, masks@) || measure(pres@, masks@) < measure(p0, m0),
                *changed == (*old(changed) || measure(pres@, masks@) < measure(p0, m0)),
            decreases deps@.len() - j,
        {
            let u = deps[j].0;
            if intersects(&deps[j].1.idents, need) {
                let ghost p1 = pres@;
                let ghost m1 = masks@;
                proof {
                    let x = choose|x: Seq<char>| name_set(deps@[j as int].1.idents@).contains(x) && nd.contains(x);
                    assert(self.label(t as int, u as int).contains(x));
                    assert forall|p: Seq<bool>, l: Seq<Set<Seq<char>>>| #[trigger] self.closed(seeds, p, l) implies p[u as int]
                        && nd.intersect(self.node(u as int).defined()).subset_of(l[u as int]) by {
                        assert(self.feeds(t as int, nd, p, l));
                        assert(self.propagates(t as int, nd, u as int));
                    }
                }
                self.grant(pres, masks, u, need, changed, Ghost(seeds));
                proof {
                    self.lemma_grows_below(p1, m1, pres@, masks@);
                    assert forall|j2: int| 0 <= j2 < j + 1 && (exists|x: Seq<char>| nd.contains(x) && name_set(deps@[j2].1.idents@).contains(x))
                        implies pres@[(#[trigger] deps@[j2]).0 as int] && nd.intersect(self.node(deps@[j2].0 as int).defined()).subset_of(
                        self.live_of(masks@, deps@[j2].0 as int)) by {
                        let v = deps@[j2].0 as int;
                        assert(self.lives(m1)[v].subset_of(self.lives(masks@)[v]));
                        assert(p1[v] ==> pres@[v]);
                    }
                }
            }
            j = j + 1;
        }
        proof {
            assert forall|u: int| 0 <= u < self.len() && #[trigger] self.propagates(t as int, nd, u) implies pres@[u] && nd.intersect(
                self.node(u).defined()).subset_of(self.lives(masks@)[u]) by {
                let x = choose|x: Seq<char>| nd.contains(x) && #[trigger] self.label(t as int, u).contains(x);
                let j2 = choose|j2: int| 0 <= j2 < deps@.len() && (#[trigger] deps@[j2]).0 == u && name_set(deps@[j2].1.idents@).contains(x);
            }
        }
    }
}

impl StatementGraph {
    pub proof fn lemma_feeds_need_mono(&self, t: int, small: Set<Seq<char>>, big: Set<Seq<char>>, p: Seq<bool>, l: Seq<Set<Seq<char>>>)
        requires
            small.subset_of(big),
            self.feeds(t, big, p, l),
        ensures
            self.feeds(t, small, p, l),
    {
        assert forall|u: int| 0 <= u < self.len() && #[trigger] self.propagates(t, small, u) implies p[u] && small.intersect(
            self.node(u).defined()).subset_of(l[u]) by {
            let x = choose|x: Seq<char>| small.contains(x) && #[trigger] self.label(t, u).contains(x);
            assert(self.propagates(t, big, u));
        }
    }

    pub proof fn lemma_deps_of_mono(&self, t: int, small: Set<Seq<char>>, big: Set<Seq<char>>)
        requires
            small.subset_of(big),
        ensures
            self.node(t).deps_of(small).subset_of(self.node(t).deps_of(big)),
    {
        let st = self.node(t);
        assert forall|y: Seq<char>| st.deps_of(small).contains(y) implies st.deps_of(big).contains(y) by {
            let (i, j) = choose|i: int, j: int| 0 <= i < st.defined_idents_map@.len() && small.contains(
                #[trigger] st.defined_idents_map@[i].0@) && 0 <= j < st.defined_idents_map@[i].1@.len()
                && #[trigger] st.defined_idents_map@[i].1@[j]@ == y;
            assert(big.contains(st.defined_idents_map@[i].0@));
        }
    }

    proof fn lemma_same_lives(&self, p1: Seq<bool>, m1: Seq<Vec<bool>>, p2: Seq<bool>, m2: Seq<Vec<bool>>)
        requires
            same_state(p1, m1, p2, m2),
            m1.len() == self.len(),
        ensures
            self.lives(m1) == self.lives(m2),
    {
        assert forall|t: int| 0 <= t < self.len() implies self.live_of(m1, t) == self.live_of(m2, t) by {
            assert(m1[t]@ == m2[t]@);
            assert(self.live_of(m1, t) =~= self.live_of(m2, t));
        }
        assert(self.lives(m1) =~= self.lives(m2));
    }

    /// From the exports of each statement known to be used (`used_exports`),
    /// finds the statements that stay live and, for each, its live names.
    ///
    /// The result has one entry per kept statement, by ascending id. The kept
    /// statements and their live defined names are the least assignment in
    /// which every request is met and every kept statement gets what it
    /// depends on; each entry also holds the names its requests add.
    pub fn analyze_used_statements_and_idents(&self, used_exports: &Vec<(StatementId, Vec<UsedIdent>)>) -> (r: Vec<(StatementId, Vec<String>)>)
        requires
            self.wf(),
            forall|e: int| 0 <= e < used_exports@.len() ==> (#[trigger] used_exports@[e]).0 < self.len(),
        ensures
            exists|pres: Seq<bool>, live: Seq<Set<Seq<char>>>| #[trigger] self.least_closed(used_exports@, pres, live)
                && describes(r@, pres, live, used_exports@),
    {
        let ghost seeds = used_exports@;
        let n = self.num_stmts();
        let mut pres: Vec<bool> = Vec::new();
        let mut masks: Vec<Vec<bool>> = Vec::new();
        let mut extras: Vec<Vec<String>> = Vec::new();
        let mut t: usize = 0;
        while t < n
            invariant
                self.wf(),
                n == self.len(),
                0 <= t <= n,
                pres@.len() == t,
                masks@.len() == t,
                extras@.len() == t,
                forall|t2: int| 0 <= t2 < t ==> !(#[trigger] pres@[t2]),
                forall|t2: int| 0 <= t2 < t ==> (#[trigger] masks@[t2])@.len() == self.node(t2).defined_idents@.len(),
                forall|t2: int, k: int| 0 <= t2 < t && 0 <= k < masks@[t2]@.len() ==> !(#[trigger] masks@[t2]@[k]),
                forall|t2: int| 0 <= t2 < t ==> (#[trigger] extras@[t2])@.len() == 0,
            decreases n - t,
        {
            pres.push(false);
            let dl = self.stmt(&t).defined_idents.len();
            let mut row: Vec<bool> = Vec::new();
            let mut k: usize = 0;
            while k < dl
                invariant
                    0 <= k <= dl,
                    row@.len() == k,
                    forall|k2: int| 0 <= k2 < k ==> !(#[trigger] row@[k2]),
                decreases dl - k,
            {
                row.push(false);
                k = k + 1;
            }
            masks.push(row);
            extras.push(Vec::new());
            t = t + 1;
        }
        proof {
            assert forall|p: Seq<bool>, l: Seq<Set<Seq<char>>>| #[trigger] self.closed(seeds, p, l) implies below(pres@, self.lives(masks@), p, l) by {
                assert forall|t2: int| 0 <= t2 < pres@.len() implies (#[trigger] self.lives(masks@)[t2]).subset_of(l[t2]) by {
                    assert(self.live_of(masks@, t2) =~= Set::empty());
                }
            }
            assert(forall|t2: int| 0 <= t2 < n ==> name_set(#[trigger] extras@[t2]@) =~= seed_extra(seeds, 0, t2));
        }
        let mut changed = false;
        let mut e: usize = 0;
        while e < used_exports.len()
            invariant
                self.wf(),
                n == self.len(),
                seeds == used_exports@,
                forall|e2: int| 0 <= e2 < seeds.len() ==> (#[trigger] seeds[e2]).0 < self.len(),
                0 <= e <= seeds.len(),
                self.shaped(pres@, masks@),
                self.le_all(seeds, pres@, masks@),
                extras@.len() == n,
                forall|e2: int| 0 <= e2 < e ==> self.seed_holds(#[trigger] seeds[e2], pres@, self.lives(masks@)),
                forall|t2: int| 0 <= t2 < n ==> name_set(#[trigger] extras@[t2]@) == seed_extra(seeds, e as int, t2),
            decreases seeds.len() - e,
        {
            let s = used_exports[e].0;
            let ghost uses = seeds[e as int].1@;
            let ghost pe = pres@;
            let ghost me = masks@;
            let (skip, default, defined, tags) = seed_info(&used_exports[e].1);
            let empty: Vec<String> = Vec::new();
            proof {
                assert forall|p: Seq<bool>, l: Seq<Set<Seq<char>>>| #[trigger] self.closed(seeds, p, l) implies p[s as int]
                    && name_set(empty@).intersect(self.node(s as int).defined()).subset_of(l[s as int]) by {
                    assert(self.seed_holds(seeds[e as int], p, l));
                    assert(name_set(empty@).intersect(self.node(s as int).defined()) =~= Set::empty());
                }
            }
            self.grant(&mut pres, &mut masks, s, &empty, &mut changed, Ghost(seeds));
            let mut add: Vec<String> = Vec::new();
            if skip {
                append_names(&mut add, &tags);
            } else {
                append_names(&mut add, &defined);
                let ghost p1 = pres@;
                let ghost m1 = masks@;
                proof {
                    assert forall|p: Seq<bool>, l: Seq<Set<Seq<char>>>| #[trigger] self.closed(seeds, p, l) implies p[s as int]
                        && name_set(defined@).intersect(self.node(s as int).defined()).subset_of(l[s as int]) by {
                        assert(self.seed_holds(seeds[e as int], p, l));
                    }
                }
                self.grant(&mut pres, &mut masks, s, &defined, &mut changed, Ghost(seeds));
                let ghost p2 = pres@;
                let ghost m2 = masks@;
                let mut need = self.deps_list(s, &defined);
                if default {
                    append_names(&mut need, &self.stmt(&s).used_idents);
                }
                proof {
                    assert(name_set(need@) =~= self.seed_need(s as int, uses));
                    assert forall|p: Seq<bool>, l: Seq<Set<Seq<char>>>| #[trigger] self.closed(seeds, p, l) implies self.feeds(
                        s as int, name_set(need@), p, l) by {
                        assert(self.seed_holds(seeds[e as int], p, l));
                    }
                }
                self.push_along_edges(s, &need, &mut pres, &mut masks, &mut changed, Ghost(seeds));
                proof {
                    self.lemma_grows_below(p2, m2, pres@, masks@);
                    assert(self.lives(m2)[s as int].subset_of(self.lives(masks@)[s as int]));
                }
            }
            proof {
                assert(grows(pe, me, pres@, masks@));
                self.lemma_grows_below(pe, me, pres@, masks@);
                assert forall|e2: int| 0 <= e2 < e + 1 implies self.seed_holds(#[trigger] seeds[e2], pres@, self.lives(masks@)) by {
                    if e2 < e {
                        self.lemma_seed_holds_mono(seeds[e2], pe, self.lives(me), pres@, self.lives(masks@));
                    }
                }
            }
            let mut row: Vec<String> = Vec::new();
            std::mem::swap(&mut extras[s], &mut row);
            let ghost old_extras = extras@;
            let ghost row0 = row@;
            append_names(&mut row, &add);
            extras.set(s, row);
            proof {
                assert(name_set(add@) == seed_names(uses));
                assert forall|t2: int| 0 <= t2 < n implies name_set(#[trigger] extras@[t2]@) == seed_extra(seeds, e + 1, t2) by {
                    assert forall|x: Seq<char>| seed_extra(seeds, e + 1, t2).contains(x) <==> seed_extra(seeds, e as int, t2).contains(x)
                        || (t2 == s && seed_names(uses).contains(x)) by {
                        if seed_extra(seeds, e + 1, t2).contains(x) {
                            let i = choose|i: int| 0 <= i < e + 1 && (#[trigger] seeds[i]).0 == t2 && seed_names(seeds[i].1@).contains(x);
                        }
                        if t2 == s && seed_names(uses).contains(x) {
                            assert(seeds[e as int].0 == t2);
                        }
                    }
                    assert(seed_extra(seeds, e + 1, t2) =~= if t2 == s {
                        seed_extra(seeds, e as int, t2).union(seed_names(uses))
                    } else {
                        seed_extra(seeds, e as int, t2)
                    });
                }
            }
            e = e + 1;
        }
        loop
            invariant
                self.wf(),
                n == self.len(),
                seeds == used_exports@,
                forall|e2: int| 0 <= e2 < seeds.len() ==> (#[trigger] seeds[e2]).0 < self.len(),
                self.shaped(pres@, masks@),
                self.le_all(seeds, pres@, masks@),
                extras@.len() == n,
                forall|e2: int| 0 <= e2 < seeds.len() ==> self.seed_holds(#[trigger] seeds[e2], pres@, self.lives(masks@)),
                forall|t2: int| 0 <= t2 < n ==> name_set(#[trigger] extras@[t2]@) == seed_extra(seeds, seeds.len() as int, t2),
            ensures
                self.shaped(pres@, masks@),
                self.le_all(seeds, pres@, masks@),
                extras@.len() == n,
                forall|e2: int| 0 <= e2 < seeds.len() ==> self.seed_holds(#[trigger] seeds[e2], pres@, self.lives(masks@)),
                forall|t2: int| 0 <= t2 < n ==> name_set(#[trigger] extras@[t2]@) == seed_extra(seeds, seeds.len() as int, t2),
                forall|t2: int| 0 <= t2 < n ==> self.feeds(t2, #[trigger] self.node(t2).deps_of(self.lives(masks@)[t2]), pres@, self.lives(masks@)),
            decreases measure(pres@, masks@),
        {
            let ghost ps = pres@;
            let ghost ms = masks@;
            let mut round_changed = false;
            let mut t: usize = 0;
            while t < n
                invariant
                    self.wf(),
                    n == self.len(),
                    0 <= t <= n,
                    forall|e2: int| 0 <= e2 < seeds.len() ==> (#[trigger] seeds[e2]).0 < self.len(),
                    self.shaped(ps, ms),
                    self.shaped(pres@, masks@),
                    self.le_all(seeds, pres@, masks@),
                    grows(ps, ms, pres@, masks@),
                    forall|e2: int| 0 <= e2 < seeds.len() ==> self.seed_holds(#[trigger] seeds[e2], pres@, self.lives(masks@)),
                    measure(pres@, masks@) <= measure(ps, ms),
                    same_state(ps, ms, pres@, masks@) || measure(pres@, masks@) < measure(ps, ms),
                    round_changed == (measure(pres@, masks@) < measure(ps, ms)),
                    !round_changed ==> forall|t2: int| 0 <= t2 < t ==> self.feeds(t2, #[trigger] self.node(t2).deps_of(self.lives(masks@)[t2]), pres@, self.lives(masks@)),
                decreases n - t,
            {
                let ghost p1 = pres@;
                let ghost m1 = masks@;
                let live = self.live_names(t, &masks[t]);
                let need = self.deps_list(t, &live);
                proof {
                    assert(name_set(live@) == self.live_of(m1, t as int));
                    assert(self.lives(m1)[t as int] == self.live_of(m1, t as int));
                    assert forall|p: Seq<bool>, l: Seq<Set<Seq<char>>>| #[trigger] self.closed(seeds, p, l) implies self.feeds(
                        t as int, name_set(need@), p, l) by {
                        assert(below(p1, self.lives(m1), p, l));
                        assert(self.lives(m1)[t as int].subset_of(l[t as int]));
                        self.lemma_deps_of_mono(t as int, name_set(live@), l[t as int]);
                        assert(self.feeds(t as int, self.node(t as int).deps_of(l[t as int]), p, l));
                        self.lemma_feeds_need_mono(t as int, name_set(need@), self.node(t as int).deps_of(l[t as int]), p, l);
                    }
                }
                self.push_along_edges(t, &need, &mut pres, &mut masks, &mut round_changed, Ghost(seeds));
                proof {
                    self.lemma_grows_below(p1, m1, pres@, masks@);
                    assert forall|e2: int| 0 <= e2 < seeds.len() implies self.seed_holds(#[trigger] seeds[e2], pres@, self.lives(masks@)) by {
                        self.lemma_seed_holds_mono(seeds[e2], p1, self.lives(m1), pres@, self.lives(masks@));
                    }
                    if !round_changed {
                        assert(same_state(ps, ms, p1, m1));
                        assert(same_state(p1, m1, pres@, masks@));
                        self.lemma_same_lives(p1, m1, pres@, masks@);
                        assert(pres@ == p1);
                    }
                }
                t = t + 1;
            }
            if !round_changed {
                break;
            }
        }
        let ghost live = self.lives(masks@);
        proof {
            assert(self.closed(seeds, pres@, live));
        }
        let mut r: Vec<(StatementId, Vec<String>)> = Vec::new();
        let mut t: usize = 0;
        while t < n
            invariant
                self.wf(),
                n == self.len(),
                0 <= t <= n,
                self.shaped(pres@, masks@),
                live == self.lives(masks@),
                extras@.len() == n,
                forall|t2: int| 0 <= t2 < n ==> name_set(#[trigger] extras@[t2]@) == seed_extra(seeds, seeds.len() as int, t2),
                forall|i: int| 0 <= i < r@.len() ==> (#[trigger] r@[i]).0 < t && pres@[r@[i].0 as int]
                    && name_set(r@[i].1@) == live[r@[i].0 as int].union(seed_extra(seeds, seeds.len() as int, r@[i].0 as int)),
                forall|i: int, j: int| 0 <= i < j < r@.len() ==> (#[trigger] r@[i]).0 < (#[trigger] r@[j]).0,
                forall|t2: int| 0 <= t2 < t && #[trigger] pres@[t2] ==> exists|i: int| 0 <= i < r@.len() && (#[trigger] r@[i]).0 == t2,
            decreases n - t,
        {
            if pres[t] {
                let mut names = self.live_names(t, &masks[t]);
                append_names(&mut names, &extras[t]);
                let ghost r0 = r@;
                r.push((t, names));
                proof {
                    assert(live[t as int] == self.live_of(masks@, t as int));
                    assert forall|t2: int| 0 <= t2 < t + 1 && #[trigger] pres@[t2] implies exists|i: int| 0 <= i < r@.len() && (#[trigger] r@[i]).0 == t2 by {
                        if t2 < t {
                            let i = choose|i: int| 0 <= i < r0.len() && (#[trigger] r0[i]).0 == t2;
                            assert(r@[i] == r0[i]);
                        } else {
                            assert(r@[r0.len() as int].0 == t2);
                        }
                    }
                }
            }
            t = t + 1;
        }
        proof {
            assert(self.least_closed(seeds, pres@, live));
            assert(describes(r@, pres@, live, seeds));
        }
        r
    }
}

impl StatementGraph {
    /// Whether the side-effect policy keeps statement `t` of a module whose
    /// manifest declares `declared`: every statement when nothing is declared,
    /// the statements with side effects when `true` is, none when `false` is.
    pub open spec fn kept_for_side_effects(&self, t: int, declared: Option<bool>) -> bool {
        match declared {
            None => true,
            Some(b) => b && self.node(t).has_side_effects,
        }
    }

    /// Adds an empty request, which keeps a statement without asking for any
    /// of its names, for every statement that the side-effect policy keeps.
    pub fn add_side_effect_requests(&self, used_exports: &mut Vec<(StatementId, Vec<UsedIdent>)>, declared: Option<bool>)
        requires
            self.wf(),
        ensures
            final(used_exports)@.len() >= old(used_exports)@.len(),
            final(used_exports)@.take(old(used_exports)@.len() as int) == old(used_exports)@,
            forall|e: int| old(used_exports)@.len() <= e < final(used_exports)@.len() ==> {
                let req = #[trigger] final(used_exports)@[e];
                &&& req.0 < self.len()
                &&& self.kept_for_side_effects(req.0 as int, declared)
                &&& req.1@.len() == 0
            },
            forall|t: int| 0 <= t < self.len() && #[trigger] self.kept_for_side_effects(t, declared) ==> exists|e: int|
                old(used_exports)@.len() <= e < final(used_exports)@.len() && (#[trigger] final(used_exports)@[e]).0 == t,
    {
        let ghost u0 = used_exports@;
        let keep_all = match declared {
            None => true,
            Some(_) => false,
        };
        let keep_effects = match declared {
            Some(true) => true,
            _ => false,
        };
        proof {
            assert(used_exports@.take(u0.len() as int) =~= u0);
        }
        let n = self.num_stmts();
        let mut t: usize = 0;
        while t < n
            invariant
                self.wf(),
                n == self.len(),
                0 <= t <= n,
                used_exports@.len() >= u0.len(),
                used_exports@.take(u0.len() as int) == u0,
                forall|e: int| u0.len() <= e < used_exports@.len() ==> {
                    let req = #[trigger] used_exports@[e];
                    &&& req.0 < t
                    &&& self.kept_for_side_effects(req.0 as int, declared)
                    &&& req.1@.len() == 0
                },
                keep_all == (declared is None),
                keep_effects == (declared == Some(true)),
                forall|t2: int| 0 <= t2 < t && #[trigger] self.kept_for_side_effects(t2, declared) ==> exists|e: int|
                    u0.len() <= e < used_exports@.len() && (#[trigger] used_exports@[e]).0 == t2,
            decreases n - t,
        {
            if keep_all || (keep_effects && self.stmt(&t).has_side_effects) {
                let ghost before = used_exports@;
                used_exports.push((t, Vec::new()));
                proof {
                    assert(used_exports@.take(u0.len() as int) =~= before.take(u0.len() as int));
                    assert forall|t2: int| 0 <= t2 < t + 1 && #[trigger] self.kept_for_side_effects(t2, declared) implies exists|e: int|
                        u0.len() <= e < used_exports@.len() && (#[trigger] used_exports@[e]).0 == t2 by {
                        if t2 < t {
                            let e = choose|e: int| u0.len() <= e < before.len() && (#[trigger] before[e]).0 == t2;
                            assert(used_exports@[e] == before[e]);
                        } else {
                            assert(used_exports@[before.len() as int].0 == t2);
                        }
                    }
                }
            }
            t = t + 1;
        }
    }
}

/// Some entry of `r` is for statement `t`.
pub open spec fn has_id(r: Seq<(StatementId, Vec<String>)>, t: StatementId) -> bool {
    exists|i: int| 0 <= i < r.len() && (#[trigger] r[i]).0 == t
}

/// A statement whose body was deleted: it defines and uses nothing.
pub open spec fn is_blank(st: Statement) -> bool {
    st.defined_idents@.len() == 0 && st.used_idents@.len() == 0 && st.defined_idents_map@.len() == 0
}

fn has_entry(r: &Vec<(StatementId, Vec<String>)>, t: StatementId) -> (b: bool)
    ensures
        b == has_id(r@, t),
{
    let mut i: usize = 0;
    while i < r.len()
        invariant
            0 <= i <= r@.len(),
            forall|k: int| 0 <= k < i ==> (#[trigger] r@[k]).0 != t,
        decreases r@.len() - i,
    {
        if r[i].0 == t {
            return true;
        }
        i = i + 1;
    }
    false
}

/// Deletes the statements that have no entry in `live`, the result of a
/// shake: each keeps its id and loses its body.
pub fn remove_dead_statements(stmts: Vec<Statement>, live: &Vec<(StatementId, Vec<String>)>) -> (r: Vec<Statement>)
    requires
        forall|i: int| 0 <= i < stmts@.len() ==> (#[trigger] stmts@[i]).id == i,
    ensures
        r@.len() == stmts@.len(),
        forall|t: int| 0 <= t < r@.len() ==> if has_id(live@, t as usize) {
            r@[t] == stmts@[t]
        } else {
            (#[trigger] r@[t]).id == t && is_blank(r@[t]) && r@[t].wf()
        },
{
    let mut stmts = stmts;
    let ghost s0 = stmts@;
    let n = stmts.len();
    let mut r: Vec<Statement> = Vec::new();
    let mut t: usize = 0;
    while t < n
        invariant
            n == s0.len(),
            stmts@.len() == n,
            0 <= t <= n,
            r@.len() == t,
            forall|k: int| t <= k < n ==> stmts@[k] == s0[k],
            forall|k: int| 0 <= k < n ==> (#[trigger] s0[k]).id == k,
            forall|k: int| 0 <= k < t ==> if has_id(live@, k as usize) {
                r@[k] == s0[k]
            } else {
                (#[trigger] r@[k]).id == k && is_blank(r@[k]) && r@[k].wf()
            },
        decreases n - t,
    {
        let mut st = Statement::new(t, None, None, Vec::new(), Vec::new(), Vec::new(), false, false);
        std::mem::swap(&mut stmts[t], &mut st);
        if has_entry(live, t) {
            r.push(st);
        } else {
            r.push(Statement::new(t, None, None, Vec::new(), Vec::new(), Vec::new(), false, false));
        }
        t = t + 1;
    }
    r
}

/// Keeps only the statements that have an entry in `live`, the result of a
/// shake, renumbered in order. Returns them with, for each, its old id.
pub fn keep_live_statements(stmts: Vec<Statement>, live: &Vec<(StatementId, Vec<String>)>) -> (r: (Vec<Statement>, Vec<StatementId>))
    ensures
        r.0@.len() == r.1@.len(),
        forall|k: int| 0 <= k < r.1@.len() ==> (#[trigger] r.1@[k]) < stmts@.len() && has_id(live@, r.1@[k]),
        forall|j: int, k: int| 0 <= j < k < r.1@.len() ==> #[trigger] r.1@[j] < #[trigger] r.1@[k],
        forall|t: int| 0 <= t < stmts@.len() && #[trigger] has_id(live@, t as usize) ==> exists|k: int| 0 <= k < r.1@.len() && r.1@[k] == t,
        forall|k: int| 0 <= k < r.0@.len() ==> {
            let st = #[trigger] r.0@[k];
            let old_st = stmts@[r.1@[k] as int];
            &&& st.id == k
            &&& st.defined_idents == old_st.defined_idents
            &&& st.used_idents == old_st.used_idents
            &&& st.defined_idents_map == old_st.defined_idents_map
            &&& st.import_info == old_st.import_info
            &&& st.export_info == old_st.export_info
            &&& st.is_self_executed == old_st.is_self_executed
            &&& st.has_side_effects == old_st.has_side_effects
        },
{
    let mut stmts = stmts;
    let ghost s0 = stmts@;
    let n = stmts.len();
    let mut kept: Vec<Statement> = Vec::new();
    let mut ids: Vec<StatementId> = Vec::new();
    let mut t: usize = 0;
    while t < n
        invariant
            n == s0.len(),
            stmts@.len() == n,
            0 <= t <= n,
            kept@.len() == ids@.len(),
            forall|k: int| t <= k < n ==> stmts@[k] == s0[k],
            forall|k: int| 0 <= k < ids@.len() ==> (#[trigger] ids@[k]) < t && has_id(live@, ids@[k]),
            forall|j: int, k: int| 0 <= j < k < ids@.len() ==> #[trigger] ids@[j] < #[trigger] ids@[k],
            forall|t2: int| 0 <= t2 < t && #[trigger] has_id(live@, t2 as usize) ==> exists|k: int| 0 <= k < ids@.len() && ids@[k] == t2,
            forall|k: int| 0 <= k < kept@.len() ==> {
                let st = #[trigger] kept@[k];
                let old_st = s0[ids@[k] as int];
                &&& st.id == k
                &&& st.defined_idents == old_st.defined_idents
                &&& st.used_idents == old_st.used_idents
                &&& st.defined_idents_map == old_st.defined_idents_map
                &&& st.import_info == old_st.import_info
                &&& st.export_info == old_st.export_info
                &&& st.is_self_executed == old_st.is_self_executed
                &&& st.has_side_effects == old_st.has_side_effects
            },
        decreases n - t,
    {
        let ghost ids0 = ids@;
        if has_entry(live, t) {
            let mut st = Statement::new(t, None, None, Vec::new(), Vec::new(), Vec::new(), false, false);
            std::mem::swap(&mut stmts[t], &mut st);
            st.id = kept.len();
            kept.push(st);
            ids.push(t);
        }
        proof {
            assert forall|t2: int| 0 <= t2 < t + 1 && #[trigger] has_id(live@, t2 as usize) implies exists|k: int| 0 <= k < ids@.len() && ids@[k] == t2 by {
                if t2 < t {
                    let k = choose|k: int| 0 <= k < ids0.len() && ids0[k] == t2;
                    assert(ids@[k] == ids0[k]);
                } else {
                    assert(ids@[ids0.len() as int] == t2);
                }
            }
        }
        t = t + 1;
    }
    (kept, ids)
}

} // verus!
