use vstd::prelude::*;

use crate::exports::{
    ambiguous_count, export_verdict, first_export_match, last_ambiguous, resolve_export,
    ExportInfoMatch, ExportSpecifierInfo, StatementId,
};
use crate::graph::{name_set, Statement, StatementGraph};
use crate::propagate::{below, describes, has_id, is_blank, seed_extra, UsedIdent};
use crate::side_effects::{effective_glob, glob_rule, has_slash, trim_dot_slash};

verus! {

/// Every name that the live bindings of a kept statement need is live in
/// each statement that provides it through an edge, and that statement is
/// kept.
pub proof fn lemma_live_names_have_live_producers(
    g: &StatementGraph,
    seeds: Seq<(StatementId, Vec<UsedIdent>)>,
    pres: Seq<bool>,
    live: Seq<Set<Seq<char>>>,
    t: int,
    u: int,
    x: Seq<char>,
)
    requires
        g.wf(),
        g.least_closed(seeds, pres, live),
        0 <= t < g.len(),
        0 <= u < g.len(),
        g.node(t).deps_of(live[t]).contains(x),
        g.label(t, u).contains(x),
    ensures
        pres[u],
        live[u].contains(x),
{
    g.lemma_label_within(t, u);
    let need = g.node(t).deps_of(live[t]);
    assert(g.feeds(t, need, pres, live));
    assert(g.propagates(t, need, u));
    assert(need.intersect(g.node(u).defined()).contains(x));
}

/// Every statement that a request names is kept; with the requests that the
/// side-effect policy adds, so is every statement with side effects in a
/// module whose manifest does not declare it free of them.
pub proof fn lemma_side_effects_kept(
    g: &StatementGraph,
    seeds: Seq<(StatementId, Vec<UsedIdent>)>,
    pres: Seq<bool>,
    live: Seq<Set<Seq<char>>>,
    t: int,
)
    requires
        g.least_closed(seeds, pres, live),
        0 <= t < g.len(),
        g.node(t).has_side_effects,
        exists|e: int| 0 <= e < seeds.len() && (#[trigger] seeds[e]).0 == t,
    ensures
        pres[t],
{
    let e = choose|e: int| 0 <= e < seeds.len() && (#[trigger] seeds[e]).0 == t;
    assert(g.seed_holds(seeds[e], pres, live));
}

/// Every statement with an entry in `r1` has one in `r2`.
pub open spec fn ids_covered(r1: Seq<(StatementId, Vec<String>)>, r2: Seq<(StatementId, Vec<String>)>) -> bool {
    forall|i: int| 0 <= i < r1.len() ==> #[trigger] has_id(r2, r1[i].0)
}

/// The order in which the requests are listed does not change the result:
/// two lists holding the same requests give the same kept statements, each
/// with the same names.
pub proof fn lemma_request_order_irrelevant(
    g: &StatementGraph,
    s1: Seq<(StatementId, Vec<UsedIdent>)>,
    s2: Seq<(StatementId, Vec<UsedIdent>)>,
    r1: Seq<(StatementId, Vec<String>)>,
    r2: Seq<(StatementId, Vec<String>)>,
    p1: Seq<bool>,
    l1: Seq<Set<Seq<char>>>,
    p2: Seq<bool>,
    l2: Seq<Set<Seq<char>>>,
)
    requires
        forall|e: int| #![trigger s1[e]] 0 <= e < s1.len() ==> exists|e2: int| 0 <= e2 < s2.len() && s2[e2] == s1[e],
        forall|e: int| #![trigger s2[e]] 0 <= e < s2.len() ==> exists|e2: int| 0 <= e2 < s1.len() && s1[e2] == s2[e],
        g.least_closed(s1, p1, l1),
        describes(r1, p1, l1, s1),
        g.least_closed(s2, p2, l2),
        describes(r2, p2, l2, s2),
    ensures
        ids_covered(r1, r2),
        ids_covered(r2, r1),
        forall|i: int, j: int| 0 <= i < r1.len() && 0 <= j < r2.len() && (#[trigger] r1[i]).0 == (#[trigger] r2[j]).0
            ==> name_set(r1[i].1@) == name_set(r2[j].1@),
{
    assert forall|e: int| 0 <= e < s1.len() implies g.seed_holds(#[trigger] s1[e], p2, l2) by {
        let e2 = choose|e2: int| 0 <= e2 < s2.len() && s2[e2] == s1[e];
        assert(g.seed_holds(s2[e2], p2, l2));
    }
    assert forall|e: int| 0 <= e < s2.len() implies g.seed_holds(#[trigger] s2[e], p1, l1) by {
        let e2 = choose|e2: int| 0 <= e2 < s1.len() && s1[e2] == s2[e];
        assert(g.seed_holds(s1[e2], p1, l1));
    }
    assert(g.closed(s1, p2, l2));
    assert(g.closed(s2, p1, l1));
    assert(below(p1, l1, p2, l2));
    assert(below(p2, l2, p1, l1));
    assert(p1 =~= p2);
    assert forall|t: int| 0 <= t < l1.len() implies l1[t] == l2[t] by {
        assert(l1[t] =~= l2[t]);
    }
    assert(l1 =~= l2);
    assert forall|t: int| 0 <= t < p1.len() implies seed_extra(s1, s1.len() as int, t) == seed_extra(s2, s2.len() as int, t) by {
        assert forall|x: Seq<char>| seed_extra(s1, s1.len() as int, t).contains(x) implies seed_extra(s2, s2.len() as int, t).contains(x) by {
            let i = choose|i: int| 0 <= i < s1.len() && (#[trigger] s1[i]).0 == t && crate::propagate::seed_names(s1[i].1@).contains(x);
            let e2 = choose|e2: int| 0 <= e2 < s2.len() && s2[e2] == s1[i];
        }
        assert forall|x: Seq<char>| seed_extra(s2, s2.len() as int, t).contains(x) implies seed_extra(s1, s1.len() as int, t).contains(x) by {
            let i = choose|i: int| 0 <= i < s2.len() && (#[trigger] s2[i]).0 == t && crate::propagate::seed_names(s2[i].1@).contains(x);
            let e2 = choose|e2: int| 0 <= e2 < s1.len() && s1[e2] == s2[i];
        }
        assert(seed_extra(s1, s1.len() as int, t) =~= seed_extra(s2, s2.len() as int, t));
    }
    assert forall|i: int| 0 <= i < r1.len() implies #[trigger] has_id(r2, r1[i].0) by {
        assert(p2[r1[i].0 as int]);
    }
    assert forall|j: int| 0 <= j < r2.len() implies #[trigger] has_id(r1, r2[j].0) by {
        assert(p1[r2[j].0 as int]);
    }
}

/// A name that no specifier exports, with exactly one `Ambiguous` specifier,
/// resolves to that specifier.
pub proof fn lemma_single_ambiguous_matches(s: Seq<ExportSpecifierInfo>, n: Seq<char>)
    requires
        first_export_match(s, n) is None,
        ambiguous_count(s) == 1,
    ensures
        export_verdict(s, n) == ExportInfoMatch::Matched,
        resolve_export(s, n) matches Some(i) && 0 <= i < s.len() && s[i] is Ambiguous,
{
    crate::exports::lemma_last_ambiguous(s);
}

proof fn lemma_trim_idempotent(s: Seq<char>)
    ensures
        trim_dot_slash(trim_dot_slash(s)) == trim_dot_slash(s),
    decreases s.len(),
{
    if s.len() >= 2 && s[0] == '.' && s[1] == '/' {
        lemma_trim_idempotent(s.skip(2));
    }
}

/// Leading `./` on the pattern or the path does not change whether the
/// pattern matches.
pub proof fn lemma_glob_ignores_dot_slash(pattern: Seq<char>, path: Seq<char>)
    ensures
        glob_rule(pattern, path) == glob_rule(trim_dot_slash(pattern), trim_dot_slash(path)),
{
    lemma_trim_idempotent(path);
    lemma_trim_idempotent(pattern);
}

proof fn lemma_trim_without_slash(s: Seq<char>)
    requires
        !has_slash(s),
    ensures
        trim_dot_slash(s) == s,
{
    if s.len() >= 2 && s[0] == '.' && s[1] == '/' {
        assert(has_slash(s));
    }
}

/// A pattern without `/` matches exactly where the same pattern under `**/`
/// does.
pub proof fn lemma_glob_any_depth(pattern: Seq<char>, path: Seq<char>)
    requires
        !has_slash(pattern),
    ensures
        glob_rule(pattern, path) == glob_rule("**/"@ + pattern, path),
{
    reveal_strlit("**/");
    lemma_trim_without_slash(pattern);
    let q = "**/"@ + pattern;
    assert(q[0] == '*');
    assert(trim_dot_slash(q) == q);
    assert(q[2] == '/');
    assert(has_slash(q));
    assert(effective_glob(pattern) == effective_glob(q));
}


/// The graph's edges carry exactly the names that one statement uses and the
/// other defines, as `StatementGraph::new` builds them.
pub open spec fn exact_labels(g: &StatementGraph) -> bool {
    forall|a: int, b: int| 0 <= a < g.len() && 0 <= b < g.len() ==> #[trigger] g.label(a, b) == g.node(a).used().intersect(g.node(b).defined())
}

/// In the least assignment, a statement that is not kept has no live names.
proof fn lemma_absent_is_empty(
    g: &StatementGraph,
    seeds: Seq<(StatementId, Vec<UsedIdent>)>,
    pres: Seq<bool>,
    live: Seq<Set<Seq<char>>>,
)
    requires
        g.least_closed(seeds, pres, live),
        forall|e: int| 0 <= e < seeds.len() ==> (#[trigger] seeds[e]).0 < g.len(),
    ensures
        forall|t: int| 0 <= t < g.len() && !pres[t] ==> #[trigger] live[t] == Set::<Seq<char>>::empty(),
{
    let l0 = Seq::new(live.len(), |t: int| if pres[t] { live[t] } else { Set::<Seq<char>>::empty() });
    assert forall|e: int| 0 <= e < seeds.len() implies g.seed_holds(#[trigger] seeds[e], pres, l0) by {
        assert(g.seed_holds(seeds[e], pres, live));
        let s = seeds[e].0 as int;
        assert(pres[s]);
        assert(l0[s] == live[s]);
        if !crate::propagate::seed_skip(seeds[e].1@) {
            let need = g.seed_need(s, seeds[e].1@);
            assert forall|u: int| 0 <= u < g.len() && #[trigger] g.propagates(s, need, u) implies pres[u] && need.intersect(
                g.node(u).defined()).subset_of(l0[u]) by {
                assert(g.feeds(s, need, pres, live));
                assert(l0[u] == live[u]);
            }
        }
    }
    assert forall|t: int| 0 <= t < g.len() implies g.feeds(t, #[trigger] g.node(t).deps_of(l0[t]), pres, l0) by {
        let need = g.node(t).deps_of(l0[t]);
        if pres[t] {
            assert(g.feeds(t, g.node(t).deps_of(live[t]), pres, live));
            assert forall|u: int| 0 <= u < g.len() && #[trigger] g.propagates(t, need, u) implies pres[u] && need.intersect(
                g.node(u).defined()).subset_of(l0[u]) by {
            }
        } else {
            assert(need =~= Set::<Seq<char>>::empty());
        }
    }
    assert(g.closed(seeds, pres, l0));
    assert(below(pres, live, pres, l0));
    assert forall|t: int| 0 <= t < g.len() && !pres[t] implies #[trigger] live[t] == Set::<Seq<char>>::empty() by {
        assert(live[t].subset_of(l0[t]));
        assert(live[t] =~= Set::<Seq<char>>::empty());
    }
}

/// Shaking is idempotent: deleting the statements that a shake finds dead
/// (each id keeps an empty body, as `remove_dead_statements` leaves it) and
/// shaking again with the same requests keeps the same statements with the
/// same live names.
pub proof fn lemma_shake_idempotent(
    g: &StatementGraph,
    g2: &StatementGraph,
    seeds: Seq<(StatementId, Vec<UsedIdent>)>,
    pres: Seq<bool>,
    live: Seq<Set<Seq<char>>>,
    pres2: Seq<bool>,
    live2: Seq<Set<Seq<char>>>,
)
    requires
        exact_labels(g),
        exact_labels(g2),
        g2.len() == g.len(),
        forall|e: int| 0 <= e < seeds.len() ==> (#[trigger] seeds[e]).0 < g.len(),
        g.least_closed(seeds, pres, live),
        forall|t: int| 0 <= t < g.len() ==> if pres[t] {
            g2.node(t) == g.node(t)
        } else {
            is_blank(#[trigger] g2.node(t))
        },
        g2.least_closed(seeds, pres2, live2),
    ensures
        pres2 == pres,
        live2 == live,
{
    lemma_absent_is_empty(g, seeds, pres, live);
    // Dead statements of g touch nothing in g2.
    assert forall|t: int| 0 <= t < g.len() && !pres[t] implies (#[trigger] g2.node(t)).defined() == Set::<Seq<char>>::empty()
        && g2.node(t).used() == Set::<Seq<char>>::empty() by {
        assert(is_blank(g2.node(t)));
        assert(g2.node(t).defined() =~= Set::<Seq<char>>::empty());
        assert(g2.node(t).used() =~= Set::<Seq<char>>::empty());
    }
    // (pres, live) is closed in g2.
    assert forall|e: int| 0 <= e < seeds.len() implies g2.seed_holds(#[trigger] seeds[e], pres, live) by {
        assert(g.seed_holds(seeds[e], pres, live));
        let s = seeds[e].0 as int;
        assert(g2.node(s) == g.node(s));
        if !crate::propagate::seed_skip(seeds[e].1@) {
            let need = g.seed_need(s, seeds[e].1@);
            assert(g2.seed_need(s, seeds[e].1@) == need);
            assert forall|u: int| 0 <= u < g2.len() && #[trigger] g2.propagates(s, need, u) implies pres[u] && need.intersect(
                g2.node(u).defined()).subset_of(live[u]) by {
                let x = choose|x: Seq<char>| need.contains(x) && #[trigger] g2.label(s, u).contains(x);
                assert(g2.label(s, u) == g2.node(s).used().intersect(g2.node(u).defined()));
                if !pres[u] {
                    assert(g2.node(u).defined().contains(x));
                }
                assert(g2.node(u) == g.node(u));
                assert(g.label(s, u) == g.node(s).used().intersect(g.node(u).defined()));
                assert(g.propagates(s, need, u));
                assert(g.feeds(s, need, pres, live));
            }
        }
    }
    assert forall|t: int| 0 <= t < g2.len() implies g2.feeds(t, #[trigger] g2.node(t).deps_of(live[t]), pres, live) by {
        let need = g2.node(t).deps_of(live[t]);
        if pres[t] {
            assert(g2.node(t) == g.node(t));
            assert(g.feeds(t, g.node(t).deps_of(live[t]), pres, live));
            assert forall|u: int| 0 <= u < g2.len() && #[trigger] g2.propagates(t, need, u) implies pres[u] && need.intersect(
                g2.node(u).defined()).subset_of(live[u]) by {
                let x = choose|x: Seq<char>| need.contains(x) && #[trigger] g2.label(t, u).contains(x);
                assert(g2.label(t, u) == g2.node(t).used().intersect(g2.node(u).defined()));
                if !pres[u] {
                    assert(g2.node(u).defined().contains(x));
                }
                assert(g2.node(u) == g.node(u));
                assert(g.label(t, u) == g.node(t).used().intersect(g.node(u).defined()));
                assert(g.propagates(t, need, u));
            }
        } else {
            assert(need =~= Set::<Seq<char>>::empty()) by {
                assert(is_blank(g2.node(t)));
            }
        }
    }
    assert(g2.closed(seeds, pres, live));
    assert(below(pres2, live2, pres, live));
    // (pres2, live2) is closed in g.
    assert forall|e: int| 0 <= e < seeds.len() implies g.seed_holds(#[trigger] seeds[e], pres2, live2) by {
        assert(g2.seed_holds(seeds[e], pres2, live2));
        assert(g.seed_holds(seeds[e], pres, live));
        let s = seeds[e].0 as int;
        assert(g2.node(s) == g.node(s));
        if !crate::propagate::seed_skip(seeds[e].1@) {
            let need = g.seed_need(s, seeds[e].1@);
            assert(g2.seed_need(s, seeds[e].1@) == need);
            assert forall|u: int| 0 <= u < g.len() && #[trigger] g.propagates(s, need, u) implies pres2[u] && need.intersect(
                g.node(u).defined()).subset_of(live2[u]) by {
                let x = choose|x: Seq<char>| need.contains(x) && #[trigger] g.label(s, u).contains(x);
                assert(g.feeds(s, need, pres, live));
                assert(pres[u]);
                assert(g2.node(u) == g.node(u));
                assert(g.label(s, u) == g.node(s).used().intersect(g.node(u).defined()));
                assert(g2.label(s, u) == g2.node(s).used().intersect(g2.node(u).defined()));
                assert(g2.propagates(s, need, u));
                assert(g2.feeds(s, need, pres2, live2));
            }
        }
    }
    assert forall|t: int| 0 <= t < g.len() implies g.feeds(t, #[trigger] g.node(t).deps_of(live2[t]), pres2, live2) by {
        let need = g.node(t).deps_of(live2[t]);
        assert(live2[t].subset_of(live[t]));
        if pres[t] {
            assert(g2.node(t) == g.node(t));
            assert(g2.feeds(t, g2.node(t).deps_of(live2[t]), pres2, live2));
            assert(g.feeds(t, g.node(t).deps_of(live[t]), pres, live));
            assert forall|u: int| 0 <= u < g.len() && #[trigger] g.propagates(t, need, u) implies pres2[u] && need.intersect(
                g.node(u).defined()).subset_of(live2[u]) by {
                let x = choose|x: Seq<char>| need.contains(x) && #[trigger] g.label(t, u).contains(x);
                g.lemma_deps_of_mono(t, live2[t], live[t]);
                assert(g.propagates(t, g.node(t).deps_of(live[t]), u));
                assert(pres[u]);
                assert(g2.node(u) == g.node(u));
                assert(g.label(t, u) == g.node(t).used().intersect(g.node(u).defined()));
                assert(g2.label(t, u) == g2.node(t).used().intersect(g2.node(u).defined()));
                assert(g2.propagates(t, need, u));
            }
        } else {
            assert(live2[t] =~= Set::<Seq<char>>::empty());
            assert(need =~= Set::<Seq<char>>::empty());
        }
    }
    assert(g.closed(seeds, pres2, live2));
    assert(below(pres, live, pres2, live2));
    assert(pres2 =~= pres);
    assert forall|t: int| 0 <= t < live.len() implies live2[t] == live[t] by {
        assert(live2[t] =~= live[t]);
    }
    assert(live2 =~= live);
}

/// Two graphs with the same statements and the same edge labels, however
/// their nodes and edges were inserted, satisfy the same assignments.
proof fn lemma_same_graph_closed(
    g1: &StatementGraph,
    g2: &StatementGraph,
    seeds: Seq<(StatementId, Vec<UsedIdent>)>,
    p: Seq<bool>,
    l: Seq<Set<Seq<char>>>,
)
    requires
        g1.len() == g2.len(),
        forall|i: int| 0 <= i < g1.len() ==> #[trigger] g1.node(i) == g2.node(i),
        forall|a: int, b: int| #[trigger] g1.label(a, b) == g2.label(a, b),
        forall|e: int| 0 <= e < seeds.len() ==> (#[trigger] seeds[e]).0 < g1.len(),
        g1.closed(seeds, p, l),
    ensures
        g2.closed(seeds, p, l),
{
    assert forall|t: int, need: Set<Seq<char>>| 0 <= t < g1.len() && #[trigger] g1.feeds(t, need, p, l) implies g2.feeds(t, need, p, l) by {
        assert forall|u: int| 0 <= u < g2.len() && #[trigger] g2.propagates(t, need, u) implies p[u] && need.intersect(
            g2.node(u).defined()).subset_of(l[u]) by {
            let x = choose|x: Seq<char>| need.contains(x) && #[trigger] g2.label(t, u).contains(x);
            assert(g1.label(t, u) == g2.label(t, u));
            assert(g1.propagates(t, need, u));
            assert(g1.node(u) == g2.node(u));
        }
    }
    assert forall|e: int| 0 <= e < seeds.len() implies g2.seed_holds(#[trigger] seeds[e], p, l) by {
        let s = seeds[e].0 as int;
        assert(g1.seed_holds(seeds[e], p, l));
        assert(g1.node(s) == g2.node(s));
        if !crate::propagate::seed_skip(seeds[e].1@) {
            assert(g1.seed_need(s, seeds[e].1@) == g2.seed_need(s, seeds[e].1@));
            assert(g1.feeds(s, g1.seed_need(s, seeds[e].1@), p, l));
        }
    }
    assert forall|t: int| 0 <= t < g2.len() implies g2.feeds(t, #[trigger] g2.node(t).deps_of(l[t]), p, l) by {
        assert(g1.node(t) == g2.node(t));
        assert(g1.feeds(t, g1.node(t).deps_of(l[t]), p, l));
    }
}

/// The order in which a graph's statements and edges were inserted does not
/// change the result: two graphs with the same statements and the same edge
/// labels keep the same statements with the same live names.
pub proof fn lemma_build_order_irrelevant(
    g1: &StatementGraph,
    g2: &StatementGraph,
    seeds: Seq<(StatementId, Vec<UsedIdent>)>,
    r1: Seq<(StatementId, Vec<String>)>,
    r2: Seq<(StatementId, Vec<String>)>,
    p1: Seq<bool>,
    l1: Seq<Set<Seq<char>>>,
    p2: Seq<bool>,
    l2: Seq<Set<Seq<char>>>,
)
    requires
        g1.len() == g2.len(),
        forall|i: int| 0 <= i < g1.len() ==> #[trigger] g1.node(i) == g2.node(i),
        forall|a: int, b: int| #[trigger] g1.label(a, b) == g2.label(a, b),
        forall|e: int| 0 <= e < seeds.len() ==> (#[trigger] seeds[e]).0 < g1.len(),
        g1.least_closed(seeds, p1, l1),
        describes(r1, p1, l1, seeds),
        g2.least_closed(seeds, p2, l2),
        describes(r2, p2, l2, seeds),
    ensures
        p1 == p2,
        l1 == l2,
        r1.len() == r2.len(),
        forall|i: int| 0 <= i < r1.len() ==> (#[trigger] r1[i]).0 == r2[i].0 && name_set(r1[i].1@) == name_set(r2[i].1@),
{
    lemma_same_graph_closed(g1, g2, seeds, p1, l1);
    assert forall|i: int| 0 <= i < g2.len() implies #[trigger] g2.node(i) == g1.node(i) by {
        assert(g1.node(i) == g2.node(i));
    }
    assert forall|a: int, b: int| #[trigger] g2.label(a, b) == g1.label(a, b) by {
        assert(g1.label(a, b) == g2.label(a, b));
    }
    lemma_same_graph_closed(g2, g1, seeds, p2, l2);
    assert(below(p1, l1, p2, l2));
    assert(below(p2, l2, p1, l1));
    assert(p1 =~= p2);
    assert forall|t: int| 0 <= t < l1.len() implies l1[t] == l2[t] by {
        assert(l1[t] =~= l2[t]);
    }
    assert(l1 =~= l2);
    lemma_sorted_entries_equal(r1, r2, p1, l1, seeds);
}

/// Two results that describe the same assignment list the same statements in
/// the same order with the same names.
proof fn lemma_sorted_entries_equal(
    r1: Seq<(StatementId, Vec<String>)>,
    r2: Seq<(StatementId, Vec<String>)>,
    p: Seq<bool>,
    l: Seq<Set<Seq<char>>>,
    seeds: Seq<(StatementId, Vec<UsedIdent>)>,
)
    requires
        describes(r1, p, l, seeds),
        describes(r2, p, l, seeds),
    ensures
        r1.len() == r2.len(),
        forall|i: int| 0 <= i < r1.len() ==> (#[trigger] r1[i]).0 == r2[i].0 && name_set(r1[i].1@) == name_set(r2[i].1@),
    decreases r1.len() + r2.len(),
{
    if r1.len() > 0 && r2.len() > 0 {
        let a = r1[0].0;
        let b = r2[0].0;
        assert(p[a as int]);
        assert(p[b as int]);
        let j = choose|j: int| 0 <= j < r2.len() && (#[trigger] r2[j]).0 == a;
        let i = choose|i: int| 0 <= i < r1.len() && (#[trigger] r1[i]).0 == b;
        if j > 0 {
            assert(r2[0].0 < r2[j].0);
        }
        if i > 0 {
            assert(r1[0].0 < r1[i].0);
        }
        assert(a == b);
        let q = p.update(a as int, false);
        let t1 = r1.drop_first();
        let t2 = r2.drop_first();
        assert forall|k: int| 0 <= k < t1.len() implies (#[trigger] t1[k]).0 < q.len() && q[t1[k].0 as int]
            && name_set(t1[k].1@) == l[t1[k].0 as int].union(seed_extra(seeds, seeds.len() as int, t1[k].0 as int)) by {
            assert(t1[k] == r1[k + 1]);
            assert(r1[0].0 < r1[k + 1].0);
        }
        assert forall|k: int| 0 <= k < t2.len() implies (#[trigger] t2[k]).0 < q.len() && q[t2[k].0 as int]
            && name_set(t2[k].1@) == l[t2[k].0 as int].union(seed_extra(seeds, seeds.len() as int, t2[k].0 as int)) by {
            assert(t2[k] == r2[k + 1]);
            assert(r2[0].0 < r2[k + 1].0);
        }
        assert forall|x: int, y: int| 0 <= x < y < t1.len() implies (#[trigger] t1[x]).0 < (#[trigger] t1[y]).0 by {
            assert(t1[x] == r1[x + 1] && t1[y] == r1[y + 1]);
        }
        assert forall|x: int, y: int| 0 <= x < y < t2.len() implies (#[trigger] t2[x]).0 < (#[trigger] t2[y]).0 by {
            assert(t2[x] == r2[x + 1] && t2[y] == r2[y + 1]);
        }
        assert forall|t: int| 0 <= t < q.len() && #[trigger] q[t] implies exists|k: int| 0 <= k < t1.len() && (#[trigger] t1[k]).0 == t by {
            let k = choose|k: int| 0 <= k < r1.len() && (#[trigger] r1[k]).0 == t;
            assert(k != 0);
            assert(t1[k - 1] == r1[k]);
        }
        assert forall|t: int| 0 <= t < q.len() && #[trigger] q[t] implies exists|k: int| 0 <= k < t2.len() && (#[trigger] t2[k]).0 == t by {
            let k = choose|k: int| 0 <= k < r2.len() && (#[trigger] r2[k]).0 == t;
            assert(k != 0);
            assert(t2[k - 1] == r2[k]);
        }
        assert(describes(t1, q, l, seeds));
        assert(describes(t2, q, l, seeds));
        lemma_sorted_entries_equal(t1, t2, q, l, seeds);
        assert forall|i: int| 0 <= i < r1.len() implies (#[trigger] r1[i]).0 == r2[i].0 && name_set(r1[i].1@) == name_set(r2[i].1@) by {
            if i > 0 {
                assert(r1[i] == t1[i - 1] && r2[i] == t2[i - 1]);
            }
        }
    } else if r1.len() > 0 {
        assert(p[r1[0].0 as int]);
    } else if r2.len() > 0 {
        assert(p[r2[0].0 as int]);
    }
}

/// Two statements with the same names, uses and dependencies.
pub open spec fn same_body(a: Statement, b: Statement) -> bool {
    a.defined_idents == b.defined_idents && a.used_idents == b.used_idents && a.defined_idents_map == b.defined_idents_map
}

/// The position of `t` in `sigma`.
pub open spec fn position(sigma: Seq<StatementId>, t: int) -> int {
    choose|k: int| 0 <= k < sigma.len() && sigma[k] == t
}

/// Shaking is idempotent under renumbering: keep only the statements that a
/// shake finds live, renumbered in order (`sigma[k]` is the old id of new
/// statement `k`), and shake again with the requests renumbered the same way;
/// every statement is kept again, with the same live names.
pub proof fn lemma_shake_idempotent_renumbered(
    g: &StatementGraph,
    g3: &StatementGraph,
    sigma: Seq<StatementId>,
    seeds: Seq<(StatementId, Vec<UsedIdent>)>,
    seeds3: Seq<(StatementId, Vec<UsedIdent>)>,
    pres: Seq<bool>,
    live: Seq<Set<Seq<char>>>,
    pres3: Seq<bool>,
    live3: Seq<Set<Seq<char>>>,
)
    requires
        exact_labels(g),
        exact_labels(g3),
        forall|e: int| 0 <= e < seeds.len() ==> (#[trigger] seeds[e]).0 < g.len(),
        g.least_closed(seeds, pres, live),
        sigma.len() == g3.len(),
        forall|k: int| 0 <= k < sigma.len() ==> (#[trigger] sigma[k]) < g.len() && pres[sigma[k] as int],
        forall|j: int, k: int| 0 <= j < sigma.len() && 0 <= k < sigma.len() && j != k ==> #[trigger] sigma[j] != #[trigger] sigma[k],
        forall|t: int| 0 <= t < g.len() && #[trigger] pres[t] ==> exists|k: int| 0 <= k < sigma.len() && sigma[k] == t,
        forall|k: int| 0 <= k < g3.len() ==> same_body(#[trigger] g3.node(k), g.node(sigma[k] as int)),
        seeds3.len() == seeds.len(),
        forall|e: int| 0 <= e < seeds.len() ==> (#[trigger] seeds3[e]).0 < g3.len() && sigma[seeds3[e].0 as int] == seeds[e].0
            && seeds3[e].1 == seeds[e].1,
        g3.least_closed(seeds3, pres3, live3),
    ensures
        forall|k: int| 0 <= k < g3.len() ==> #[trigger] pres3[k] && live3[k] == live[sigma[k] as int],
{
    let m = g3.len();
    lemma_absent_is_empty(g, seeds, pres, live);
    assert forall|k: int, u: int| 0 <= k < m && 0 <= u < m implies #[trigger] g3.label(k, u) == g.label(sigma[k] as int, sigma[u] as int) by {
        assert(same_body(g3.node(k), g.node(sigma[k] as int)));
        assert(same_body(g3.node(u), g.node(sigma[u] as int)));
        assert(g3.node(k).used() == g.node(sigma[k] as int).used());
        assert(g3.node(u).defined() == g.node(sigma[u] as int).defined());
    }
    assert forall|k: int| 0 <= k < m implies #[trigger] g3.node(k).defined() == g.node(sigma[k] as int).defined()
        && g3.node(k).used() == g.node(sigma[k] as int).used()
        && forall|n: Set<Seq<char>>| #[trigger] g3.node(k).deps_of(n) == g.node(sigma[k] as int).deps_of(n) by {
        assert(same_body(g3.node(k), g.node(sigma[k] as int)));
    }
    // The kept part of (pres, live) is closed in g3.
    let pk = Seq::new(m, |k: int| true);
    let lk = Seq::new(m, |k: int| live[sigma[k] as int]);
    assert forall|t3: int, need: Set<Seq<char>>| 0 <= t3 < m && #[trigger] g.feeds(sigma[t3] as int, need, pres, live)
        implies g3.feeds(t3, need, pk, lk) by {
        assert forall|u3: int| 0 <= u3 < m && #[trigger] g3.propagates(t3, need, u3) implies pk[u3] && need.intersect(
            g3.node(u3).defined()).subset_of(lk[u3]) by {
            let x = choose|x: Seq<char>| need.contains(x) && #[trigger] g3.label(t3, u3).contains(x);
            assert(g3.label(t3, u3) == g.label(sigma[t3] as int, sigma[u3] as int));
            assert(g.propagates(sigma[t3] as int, need, sigma[u3] as int));
        }
    }
    assert forall|e: int| 0 <= e < seeds3.len() implies g3.seed_holds(#[trigger] seeds3[e], pk, lk) by {
        let s3 = seeds3[e].0 as int;
        assert(g.seed_holds(seeds[e], pres, live));
        if !crate::propagate::seed_skip(seeds3[e].1@) {
            assert(g3.seed_need(s3, seeds3[e].1@) == g.seed_need(sigma[s3] as int, seeds[e].1@));
            assert(g.feeds(sigma[s3] as int, g.seed_need(sigma[s3] as int, seeds[e].1@), pres, live));
        }
    }
    assert forall|t3: int| 0 <= t3 < m implies g3.feeds(t3, #[trigger] g3.node(t3).deps_of(lk[t3]), pk, lk) by {
        assert(g.feeds(sigma[t3] as int, g.node(sigma[t3] as int).deps_of(live[sigma[t3] as int]), pres, live));
    }
    assert(g3.closed(seeds3, pk, lk));
    assert(below(pres3, live3, pk, lk));
    // The lift of (pres3, live3) is closed in g.
    let n = g.len();
    let pl = Seq::new(n, |t: int| pres[t] && pres3[position(sigma, t)]);
    let ll = Seq::new(n, |t: int| if pres[t] { live3[position(sigma, t)] } else { Set::<Seq<char>>::empty() });
    assert forall|k: int| 0 <= k < m implies #[trigger] position(sigma, sigma[k] as int) == k by {
        let j = position(sigma, sigma[k] as int);
        assert(sigma[j] == sigma[k]);
    }
    assert forall|t: int| 0 <= t < n && pres[t] implies 0 <= #[trigger] position(sigma, t) < m && sigma[position(sigma, t)] == t by {
        let k = choose|k: int| 0 <= k < sigma.len() && sigma[k] == t;
    }
    assert forall|t: int, need: Set<Seq<char>>| 0 <= t < n && pres[t] && #[trigger] g.feeds(t, need, pres, live)
        && g3.feeds(position(sigma, t), need, pres3, live3) implies g.feeds(t, need, pl, ll) by {
        let t3 = position(sigma, t);
        assert forall|u: int| 0 <= u < n && #[trigger] g.propagates(t, need, u) implies pl[u] && need.intersect(
            g.node(u).defined()).subset_of(ll[u]) by {
            let x = choose|x: Seq<char>| need.contains(x) && #[trigger] g.label(t, u).contains(x);
            assert(pres[u]);
            let u3 = position(sigma, u);
            assert(g3.label(t3, u3) == g.label(t, u));
            assert(g3.propagates(t3, need, u3));
        }
    }
    assert forall|e: int| 0 <= e < seeds.len() implies g.seed_holds(#[trigger] seeds[e], pl, ll) by {
        let s = seeds[e].0 as int;
        let s3 = seeds3[e].0 as int;
        assert(g.seed_holds(seeds[e], pres, live));
        assert(g3.seed_holds(seeds3[e], pres3, live3));
        assert(position(sigma, s) == s3);
        if !crate::propagate::seed_skip(seeds[e].1@) {
            assert(g3.seed_need(s3, seeds3[e].1@) == g.seed_need(s, seeds[e].1@));
            assert(g.feeds(s, g.seed_need(s, seeds[e].1@), pres, live));
        }
    }
    assert forall|t: int| 0 <= t < n implies g.feeds(t, #[trigger] g.node(t).deps_of(ll[t]), pl, ll) by {
        let need = g.node(t).deps_of(ll[t]);
        if pres[t] {
            let t3 = position(sigma, t);
            assert(live3[t3].subset_of(lk[t3]));
            assert(g3.feeds(t3, g3.node(t3).deps_of(live3[t3]), pres3, live3));
            g.lemma_deps_of_mono(t, ll[t], live[t]);
            assert(g.feeds(t, g.node(t).deps_of(live[t]), pres, live));
            g.lemma_feeds_need_mono(t, need, g.node(t).deps_of(live[t]), pres, live);
        } else {
            assert(need =~= Set::<Seq<char>>::empty());
            assert forall|u: int| 0 <= u < n && #[trigger] g.propagates(t, need, u) implies pl[u] && need.intersect(
                g.node(u).defined()).subset_of(ll[u]) by {}
        }
    }
    assert(g.closed(seeds, pl, ll));
    assert(below(pres, live, pl, ll));
    assert forall|k: int| 0 <= k < m implies #[trigger] pres3[k] && live3[k] == live[sigma[k] as int] by {
        let t = sigma[k] as int;
        assert(pl[t]);
        assert(live[t].subset_of(ll[t]));
        assert(live3[k].subset_of(lk[k]));
        assert(live3[k] =~= live[t]);
    }
}

} // verus!
