use vstd::prelude::*;

use crate::digraph::{
    graph_add_edge, graph_add_node, graph_edge_weight, graph_edges, graph_find_edge, graph_neighbors,
    graph_new, graph_nodes, has_edge, IdGraph,
};
use crate::exports::{ExportInfo, ImportInfo, StatementId};

verus! {

broadcast use vstd::string::group_string_axioms;

/// The set of names held by a list of strings.
pub open spec fn name_set(v: Seq<String>) -> Set<Seq<char>> {
    Set::new(|x: Seq<char>| exists|i: int| 0 <= i < v.len() && #[trigger] v[i]@ == x)
}

/// Descriptor of one top-level statement of a module.
#[derive(Debug)]
pub struct Statement {
    pub id: StatementId,
    pub import_info: Option<ImportInfo>,
    pub export_info: Option<ExportInfo>,
    /// Names the statement declares.
    pub defined_idents: Vec<String>,
    /// Names the statement refers to.
    pub used_idents: Vec<String>,
    /// For a defined name, the used names that it depends on.
    pub defined_idents_map: Vec<(String, Vec<String>)>,
    pub is_self_executed: bool,
    pub has_side_effects: bool,
}

impl Statement {
    pub open spec fn defined(&self) -> Set<Seq<char>> {
        name_set(self.defined_idents@)
    }

    pub open spec fn used(&self) -> Set<Seq<char>> {
        name_set(self.used_idents@)
    }

    /// `n` is a key of `defined_idents_map`.
    pub open spec fn has_deps_entry(&self, n: Seq<char>) -> bool {
        exists|i: int| 0 <= i < self.defined_idents_map@.len() && #[trigger] self.defined_idents_map@[i].0@ == n
    }

    /// The names that the defined names in `names` depend on.
    pub open spec fn deps_of(&self, names: Set<Seq<char>>) -> Set<Seq<char>> {
        Set::new(|y: Seq<char>| exists|i: int, j: int|
            0 <= i < self.defined_idents_map@.len() && names.contains(
                #[trigger] self.defined_idents_map@[i].0@,
            ) && 0 <= j < self.defined_idents_map@[i].1@.len()
                && #[trigger] self.defined_idents_map@[i].1@[j]@ == y)
    }

    /// The descriptor invariants: every key of `defined_idents_map` is a
    /// defined name and every name in its values is a used name.
    pub open spec fn wf(&self) -> bool {
        descriptor_invariants(self.defined_idents@, self.used_idents@, self.defined_idents_map@)
    }

    /// Builds a descriptor from the facts a parser extracted from one item.
    pub fn new(
        id: StatementId,
        import_info: Option<ImportInfo>,
        export_info: Option<ExportInfo>,
        defined_idents: Vec<String>,
        used_idents: Vec<String>,
        defined_idents_map: Vec<(String, Vec<String>)>,
        is_self_executed: bool,
        has_side_effects: bool,
    ) -> (r: Self)
        requires
            descriptor_invariants(defined_idents@, used_idents@, defined_idents_map@),
        ensures
            r.wf(),
            r.id == id,
            r.import_info == import_info,
            r.export_info == export_info,
            r.defined_idents == defined_idents,
            r.used_idents == used_idents,
            r.defined_idents_map == defined_idents_map,
            r.is_self_executed == is_self_executed,
            r.has_side_effects == has_side_effects,
    {
        Statement {
            id,
            import_info,
            export_info,
            defined_idents,
            used_idents,
            defined_idents_map,
            is_self_executed,
            has_side_effects,
        }
    }
}

/// Every key of `map` is a name of `defined`, and every name in its values
/// a name of `used`.
pub open spec fn descriptor_invariants(defined: Seq<String>, used: Seq<String>, map: Seq<(String, Vec<String>)>) -> bool {
    &&& forall|i: int| 0 <= i < map.len() ==> name_set(defined).contains(#[trigger] map[i].0@)
    &&& forall|i: int, j: int| 0 <= i < map.len() && 0 <= j < map[i].1@.len() ==> name_set(used).contains(
        #[trigger] map[i].1@[j]@,
    )
}

/// The names an edge carries.
pub struct StatementGraphEdge {
    pub idents: Vec<String>,
}

/// Directed graph of a module's statements: an edge `a -> b` carries the
/// names that `a` uses and `b` defines. Node `i` of the underlying graph is
/// statement `i`; an edge's weight indexes its names in `labels`.
pub struct StatementGraph {
    g: IdGraph,
    nodes: Vec<Statement>,
    labels: Vec<StatementGraphEdge>,
}

pub(crate) fn contains_name(v: &Vec<String>, s: &String) -> (r: bool)
    ensures
        r == name_set(v@).contains(s@),
{
    let mut i: usize = 0;
    while i < v.len()
        invariant
            0 <= i <= v@.len(),
            forall|k: int| 0 <= k < i ==> v@[k]@ != s@,
        decreases v@.len() - i,
    {
        if v[i] == *s {
            return true;
        }
        i = i + 1;
    }
    false
}

fn copy_names(v: &Vec<String>) -> (r: Vec<String>)
    ensures
        r@ == v@,
{
    let mut r: Vec<String> = Vec::new();
    let mut i: usize = 0;
    while i < v.len()
        invariant
            0 <= i <= v@.len(),
            r@ == v@.take(i as int),
        decreases v@.len() - i,
    {
        let c = v[i].clone();
        r.push(c);
        proof {
            assert(r@ =~= v@.take(i + 1));
        }
        i = i + 1;
    }
    proof {
        assert(v@.take(i as int) =~= v@);
    }
    r
}

/// `(a1, b1)` comes before `(a2, b2)` in lexicographic order.
pub open spec fn pair_lt(a1: int, b1: int, a2: int, b2: int) -> bool {
    a1 < a2 || (a1 == a2 && b1 < b2)
}

/// The names that the edges `a -> b` of `edges` carry, read from `labels`.
pub open spec fn label_of(edges: Seq<(usize, usize, usize)>, labels: Seq<StatementGraphEdge>, a: int, b: int) -> Set<Seq<char>> {
    Set::new(|x: Seq<char>| exists|e: int| 0 <= e < edges.len() && (#[trigger] edges[e]).0 == a && edges[e].1 == b
        && name_set(labels[edges[e].2 as int].idents@).contains(x))
}

impl StatementGraph {
    pub closed spec fn len(&self) -> nat {
        self.nodes@.len()
    }

    pub closed spec fn node(&self, i: int) -> Statement {
        self.nodes@[i]
    }

    /// The names carried from `a` to `b`; empty when there is no edge.
    pub closed spec fn label(&self, a: int, b: int) -> Set<Seq<char>> {
        label_of(graph_edges(self.g), self.labels@, a, b)
    }

    /// There is an edge `a -> b`.
    pub closed spec fn has_dep(&self, a: int, b: int) -> bool {
        exists|e: int| 0 <= e < graph_edges(self.g).len() && (#[trigger] graph_edges(self.g)[e]).0 == a
            && graph_edges(self.g)[e].1 == b
    }

    pub closed spec fn wf(&self) -> bool {
        let edges = graph_edges(self.g);
        &&& graph_nodes(self.g).len() == self.nodes@.len()
        &&& forall|i: int| 0 <= i < self.nodes@.len() ==> (#[trigger] self.nodes@[i]).id == i && self.nodes@[i].wf()
            && graph_nodes(self.g)[i] == i
        &&& forall|e: int| 0 <= e < edges.len() ==> (#[trigger] edges[e]).0 < self.nodes@.len()
            && edges[e].1 < self.nodes@.len() && edges[e].2 < self.labels@.len()
        &&& forall|e1: int, e2: int| 0 <= e1 < edges.len() && 0 <= e2 < edges.len() && e1 != e2
            ==> (#[trigger] edges[e1]).2 != (#[trigger] edges[e2]).2 && (edges[e1].0 != edges[e2].0 || edges[e1].1 != edges[e2].1)
        &&& forall|a: int, b: int| 0 <= a < self.nodes@.len() && 0 <= b < self.nodes@.len() ==> #[trigger] self.label(a, b).subset_of(
            self.nodes@[a].used().intersect(self.nodes@[b].defined()),
        )
    }

    /// An edge carries only names that its source uses and its target defines.
    pub proof fn lemma_label_within(&self, a: int, b: int)
        requires
            self.wf(),
            0 <= a < self.len(),
            0 <= b < self.len(),
        ensures
            self.label(a, b).subset_of(self.node(a).used().intersect(self.node(b).defined())),
    {
    }

    proof fn lemma_label_of_edge(&self, e: int)
        requires
            self.wf(),
            0 <= e < graph_edges(self.g).len(),
        ensures
            self.label(graph_edges(self.g)[e].0 as int, graph_edges(self.g)[e].1 as int)
                == name_set(self.labels@[graph_edges(self.g)[e].2 as int].idents@),
    {
        let edges = graph_edges(self.g);
        let a = edges[e].0 as int;
        let b = edges[e].1 as int;
        assert forall|x: Seq<char>| self.label(a, b).contains(x) implies name_set(self.labels@[edges[e].2 as int].idents@).contains(x) by {
            let e2 = choose|e2: int| 0 <= e2 < edges.len() && (#[trigger] edges[e2]).0 == a && edges[e2].1 == b
                && name_set(self.labels@[edges[e2].2 as int].idents@).contains(x);
            if e2 != e {
                assert(edges[e2].0 != edges[e].0 || edges[e2].1 != edges[e].1);
            }
        }
        assert(self.label(a, b) =~= name_set(self.labels@[edges[e].2 as int].idents@));
    }

    /// Builds the graph of `stmts`, the module's body in order, with an edge
    /// `a -> b` wherever `a` uses a name that `b` defines.
    pub fn new(stmts: Vec<Statement>) -> (g: Self)
        requires
            forall|i: int| 0 <= i < stmts@.len() ==> (#[trigger] stmts@[i]).id == i && stmts@[i].wf(),
        ensures
            g.wf(),
            g.len() == stmts@.len(),
            forall|i: int| 0 <= i < stmts@.len() ==> g.node(i) == stmts@[i],
            forall|a: int, b: int|
                0 <= a < g.len() && 0 <= b < g.len() ==> #[trigger] g.label(a, b) == g.node(a).used().intersect(
                    g.node(b).defined(),
                ),
            forall|a: int, b: int| 0 <= a < g.len() && 0 <= b < g.len() ==> (#[trigger] g.has_dep(a, b) <==> exists|x: Seq<char>|
                g.label(a, b).contains(x)),
    {
        let n = stmts.len();
        let mut graph = graph_new();
        let mut i: usize = 0;
        while i < n
            invariant
                0 <= i <= n,
                graph_nodes(graph).len() == i,
                forall|k: int| 0 <= k < i ==> graph_nodes(graph)[k] == k,
                graph_edges(graph).len() == 0,
            decreases n - i,
        {
            graph_add_node(&mut graph, i);
            i = i + 1;
        }
        let mut labels: Vec<StatementGraphEdge> = Vec::new();
        let mut a: usize = 0;
        while a < n
            invariant
                n == stmts@.len(),
                0 <= a <= n,
                graph_nodes(graph).len() == n,
                forall|k: int| 0 <= k < n ==> graph_nodes(graph)[k] == k,
                built(graph_edges(graph), labels@, stmts@, a as int, 0),
            decreases n - a,
        {
            let mut b: usize = 0;
            while b < n
                invariant
                    n == stmts@.len(),
                    0 <= a < n,
                    0 <= b <= n,
                    graph_nodes(graph).len() == n,
                    forall|k: int| 0 <= k < n ==> graph_nodes(graph)[k] == k,
                    built(graph_edges(graph), labels@, stmts@, a as int, b as int),
                decreases n - b,
            {
                let mut idents: Vec<String> = Vec::new();
                let defined = &stmts[b].defined_idents;
                let mut k: usize = 0;
                while k < defined.len()
                    invariant
                        n == stmts@.len(),
                        0 <= a < n,
                        0 <= b < n,
                        0 <= k <= defined@.len(),
                        defined == stmts@[b as int].defined_idents,
                        name_set(idents@) == stmts@[a as int].used().intersect(name_set(defined@.take(k as int))),
                    decreases defined@.len() - k,
                {
                    proof {
                        assert(defined@.take(k + 1) =~= defined@.take(k as int).push(defined@[k as int]));
                        lemma_name_set_push(defined@.take(k as int), defined@[k as int]);
                    }
                    if contains_name(&stmts[a].used_idents, &defined[k]) {
                        let ghost old_idents = idents@;
                        let name = defined[k].clone();
                        idents.push(name);
                        proof {
                            lemma_name_set_push(old_idents, name);
                        }
                    }
                    k = k + 1;
                    assert(name_set(idents@) =~= stmts@[a as int].used().intersect(name_set(defined@.take(k as int))));
                }
                proof {
                    assert(defined@.take(k as int) =~= defined@);
                }
                let ghost names = name_set(idents@);
                let ghost e0 = graph_edges(graph);
                let ghost l0 = labels@;
                if idents.len() > 0 {
                    let ghost pushed = idents@;
                    labels.push(StatementGraphEdge { idents });
                    assert(labels@[labels@.len() - 1].idents@ == pushed);
                    graph_add_edge(&mut graph, a, b, labels.len() - 1);
                    proof {
                        let e1 = graph_edges(graph);
                        assert(e1 == e0.push((a, b, l0.len() as usize)));
                        assert forall|e: int| 0 <= e < e1.len() implies (#[trigger] e1[e]).2 == e && pair_lt(e1[e].0 as int, e1[e].1 as int, a as int, b + 1)
                            && e1[e].0 < n && e1[e].1 < n && labels@[e].idents@.len() > 0 && name_set(labels@[e].idents@) == stmts@[e1[e].0 as int].used().intersect(stmts@[e1[e].1 as int].defined()) by {
                            if e < e0.len() {
                                assert(e1[e] == e0[e]);
                                assert(labels@[e] == l0[e]);
                            }
                        }
                        assert forall|e: int, f: int| 0 <= e < f < e1.len() implies pair_lt((#[trigger] e1[e]).0 as int, e1[e].1 as int, (#[trigger] e1[f]).0 as int, e1[f].1 as int) by {
                            if f < e0.len() {
                                assert(e1[e] == e0[e] && e1[f] == e0[f]);
                            } else {
                                assert(e1[e] == e0[e]);
                            }
                        }
                        assert forall|a2: int, b2: int, y: Seq<char>| #![trigger stmts@[a2].used().contains(y), stmts@[b2].defined().contains(y)] pair_lt(a2, b2, a as int, b + 1) && 0 <= a2 && 0 <= b2 < n && stmts@[a2].used().contains(y)
                            && stmts@[b2].defined().contains(y) implies exists|e: int| 0 <= e < e1.len() && (#[trigger] e1[e]).0 == a2 && e1[e].1 == b2 by {
                            if pair_lt(a2, b2, a as int, b as int) {
                                let e = choose|e: int| 0 <= e < e0.len() && (#[trigger] e0[e]).0 == a2 && e0[e].1 == b2;
                                assert(e1[e] == e0[e]);
                            } else {
                                assert(e1[e0.len() as int].0 == a2);
                            }
                        }
                    }
                } else {
                    proof {
                        assert forall|a2: int, b2: int, y: Seq<char>| #![trigger stmts@[a2].used().contains(y), stmts@[b2].defined().contains(y)] pair_lt(a2, b2, a as int, b + 1) && 0 <= a2 && 0 <= b2 < n && stmts@[a2].used().contains(y)
                            && stmts@[b2].defined().contains(y) implies exists|e: int| 0 <= e < e0.len() && (#[trigger] e0[e]).0 == a2 && e0[e].1 == b2 by {
                            if a2 == a && b2 == b {
                                assert(names.contains(y));
                                let i2 = choose|i2: int| 0 <= i2 < idents@.len() && #[trigger] idents@[i2]@ == y;
                            }
                        }
                        assert forall|e: int| 0 <= e < e0.len() implies pair_lt((#[trigger] e0[e]).0 as int, e0[e].1 as int, a as int, b + 1) by {}
                    }
                }
                b = b + 1;
            }
            proof {
                let e1 = graph_edges(graph);
                assert forall|e: int| 0 <= e < e1.len() implies pair_lt((#[trigger] e1[e]).0 as int, e1[e].1 as int, a + 1, 0) by {
                    assert(pair_lt(e1[e].0 as int, e1[e].1 as int, a as int, n as int));
                    assert(e1[e].1 < n);
                }
                assert forall|a2: int, b2: int, y: Seq<char>| #![trigger stmts@[a2].used().contains(y), stmts@[b2].defined().contains(y)] pair_lt(a2, b2, a + 1, 0) && 0 <= a2 && 0 <= b2 < n && stmts@[a2].used().contains(y)
                    && stmts@[b2].defined().contains(y) implies exists|e: int| 0 <= e < e1.len() && (#[trigger] e1[e]).0 == a2 && e1[e].1 == b2 by {
                    assert(pair_lt(a2, b2, a as int, n as int));
                }
            }
            a = a + 1;
        }
        let g = StatementGraph { g: graph, nodes: stmts, labels };
        proof {
            let edges = graph_edges(g.g);
            assert forall|e1: int, e2: int| 0 <= e1 < edges.len() && 0 <= e2 < edges.len() && e1 != e2
                implies (#[trigger] edges[e1]).2 != (#[trigger] edges[e2]).2 && (edges[e1].0 != edges[e2].0 || edges[e1].1 != edges[e2].1) by {
                if e1 < e2 {
                    assert(pair_lt(edges[e1].0 as int, edges[e1].1 as int, edges[e2].0 as int, edges[e2].1 as int));
                } else {
                    assert(pair_lt(edges[e2].0 as int, edges[e2].1 as int, edges[e1].0 as int, edges[e1].1 as int));
                }
            }
            assert forall|e: int| 0 <= e < edges.len() implies (#[trigger] edges[e]).0 < n && edges[e].1 < n && edges[e].2 < g.labels@.len() by {
                assert(pair_lt(edges[e].0 as int, edges[e].1 as int, n as int, 0));
            }
            assert forall|a2: int, b2: int|
                0 <= a2 < g.len() && 0 <= b2 < g.len() implies #[trigger] g.label(a2, b2) == g.node(a2).used().intersect(
                    g.node(b2).defined()) by {
                let inter = g.node(a2).used().intersect(g.node(b2).defined());
                assert forall|y: Seq<char>| g.label(a2, b2).contains(y) <==> inter.contains(y) by {
                    if inter.contains(y) {
                        assert(pair_lt(a2, b2, n as int, 0));
                        let e = choose|e: int| 0 <= e < edges.len() && (#[trigger] edges[e]).0 == a2 && edges[e].1 == b2;
                        assert(edges[e].2 == e);
                    }
                    if g.label(a2, b2).contains(y) {
                        let e = choose|e: int| 0 <= e < edges.len() && (#[trigger] edges[e]).0 == a2 && edges[e].1 == b2
                            && name_set(g.labels@[edges[e].2 as int].idents@).contains(y);
                        assert(edges[e].2 == e);
                    }
                }
                assert(g.label(a2, b2) =~= inter);
            }
            assert(g.wf());
            assert forall|a2: int, b2: int| 0 <= a2 < g.len() && 0 <= b2 < g.len() implies (#[trigger] g.has_dep(a2, b2) <==> exists|x: Seq<char>|
                g.label(a2, b2).contains(x)) by {
                if g.has_dep(a2, b2) {
                    let e = choose|e: int| 0 <= e < edges.len() && (#[trigger] edges[e]).0 == a2 && edges[e].1 == b2;
                    assert(edges[e].2 == e);
                    let x = g.labels@[e].idents@[0]@;
                    assert(name_set(g.labels@[e].idents@).contains(x));
                    assert(g.label(a2, b2).contains(x));
                }
                if exists|x: Seq<char>| g.label(a2, b2).contains(x) {
                    let x = choose|x: Seq<char>| g.label(a2, b2).contains(x);
                    let e = choose|e: int| 0 <= e < edges.len() && (#[trigger] edges[e]).0 == a2 && edges[e].1 == b2
                        && name_set(g.labels@[edges[e].2 as int].idents@).contains(x);
                }
            }
        }
        g
    }
}

impl StatementGraph {
    /// A graph without statements.
    pub fn empty() -> (g: Self)
        ensures
            g.wf(),
            g.len() == 0,
    {
        StatementGraph { g: graph_new(), nodes: Vec::new(), labels: Vec::new() }
    }

    /// Number of statements.
    pub fn num_stmts(&self) -> (r: usize)
        ensures
            r == self.len(),
    {
        self.nodes.len()
    }

    /// The statement with id `id`.
    pub fn stmt(&self, id: &StatementId) -> (r: &Statement)
        requires
            self.wf(),
            *id < self.len(),
        ensures
            *r == self.node(*id as int),
    {
        &self.nodes[*id]
    }

    /// All statements, in body order.
    pub fn stmts(&self) -> (r: &Vec<Statement>)
        ensures
            r@.len() == self.len(),
            forall|i: int| 0 <= i < r@.len() ==> r@[i] == self.node(i),
    {
        &self.nodes
    }

    /// The out-edges of `id`: the statements it depends on, each with the
    /// names it needs from them.
    pub fn dependencies(&self, id: &StatementId) -> (r: Vec<(StatementId, StatementGraphEdge)>)
        requires
            self.wf(),
            *id < self.len(),
        ensures
            forall|j: int| 0 <= j < r@.len() ==> (#[trigger] r@[j]).0 < self.len() && self.has_dep(*id as int, r@[j].0 as int)
                && name_set(r@[j].1.idents@) == self.label(*id as int, r@[j].0 as int),
            forall|j: int, k: int| 0 <= j < r@.len() && 0 <= k < r@.len() && j != k ==> (#[trigger] r@[j]).0 != (#[trigger] r@[k]).0,
            forall|b: int| #[trigger] self.has_dep(*id as int, b) ==> exists|j: int| 0 <= j < r@.len() && (#[trigger] r@[j]).0 == b,
            forall|b: int, x: Seq<char>| #[trigger] self.label(*id as int, b).contains(x) <==> exists|j: int|
                0 <= j < r@.len() && (#[trigger] r@[j]).0 == b && name_set(r@[j].1.idents@).contains(x),
    {
        let ghost edges = graph_edges(self.g);
        let targets = graph_neighbors(&self.g, *id);
        let mut r: Vec<(StatementId, StatementGraphEdge)> = Vec::new();
        let mut k: usize = 0;
        while k < targets.len()
            invariant
                self.wf(),
                *id < self.len(),
                edges == graph_edges(self.g),
                forall|k2: int| 0 <= k2 < targets@.len() ==> has_edge(self.g, *id, #[trigger] targets@[k2]),
                0 <= k <= targets@.len(),
                r@.len() == k,
                forall|j: int| 0 <= j < k ==> (#[trigger] r@[j]).0 == targets@[j] && (r@[j].0 as int) < self.len()
                    && name_set(r@[j].1.idents@) == self.label(*id as int, targets@[j] as int),
            decreases targets@.len() - k,
        {
            let b = targets[k];
            proof {
                assert(has_edge(self.g, *id, b));
            }
            let e = graph_find_edge(&self.g, *id, b).unwrap();
            let w = graph_edge_weight(&self.g, e).unwrap();
            let names = copy_names(&self.labels[w].idents);
            proof {
                self.lemma_label_of_edge(e as int);
            }
            r.push((b, StatementGraphEdge { idents: names }));
            k = k + 1;
        }
        proof {
            assert forall|j: int| 0 <= j < r@.len() implies (#[trigger] r@[j]).0 < self.len() && self.has_dep(*id as int, r@[j].0 as int)
                && name_set(r@[j].1.idents@) == self.label(*id as int, r@[j].0 as int) by {
                assert(has_edge(self.g, *id, targets@[j]));
            }
            assert forall|j: int, k: int| 0 <= j < r@.len() && 0 <= k < r@.len() && j != k implies (#[trigger] r@[j]).0 != (#[trigger] r@[k]).0 by {
                if targets@[j] == targets@[k] {
                    let (e1, e2) = choose|e1: int, e2: int| 0 <= e1 < edges.len() && 0 <= e2 < edges.len() && e1 != e2
                        && (#[trigger] edges[e1]).0 == *id && edges[e1].1 == targets@[j]
                        && (#[trigger] edges[e2]).0 == *id && edges[e2].1 == targets@[j];
                }
            }
            assert forall|b: int| #[trigger] self.has_dep(*id as int, b) implies exists|j: int| 0 <= j < r@.len() && (#[trigger] r@[j]).0 == b by {
                let e = choose|e: int| 0 <= e < edges.len() && (#[trigger] edges[e]).0 == *id && edges[e].1 == b;
                let j = choose|j: int| 0 <= j < targets@.len() && targets@[j] == edges[e].1;
                assert(r@[j].0 == b);
            }
            assert forall|b: int, x: Seq<char>| #[trigger] self.label(*id as int, b).contains(x) implies exists|j: int|
                0 <= j < r@.len() && (#[trigger] r@[j]).0 == b && name_set(r@[j].1.idents@).contains(x) by {
                let e = choose|e: int| 0 <= e < edges.len() && (#[trigger] edges[e]).0 == *id && edges[e].1 == b
                    && name_set(self.labels@[edges[e].2 as int].idents@).contains(x);
                let j = choose|j: int| 0 <= j < targets@.len() && targets@[j] == edges[e].1;
                assert(r@[j].0 == b);
            }
        }
        r
    }

    /// Adds the names `idents` to the edge `from -> to`, creating the edge if
    /// there is none.
    pub fn add_edge(&mut self, from: StatementId, to: StatementId, idents: Vec<String>)
        requires
            old(self).wf(),
            from < old(self).len(),
            to < old(self).len(),
            name_set(idents@).subset_of(old(self).node(from as int).used().intersect(old(self).node(to as int).defined())),
        ensures
            final(self).wf(),
            final(self).len() == old(self).len(),
            forall|i: int| 0 <= i < old(self).len() ==> final(self).node(i) == old(self).node(i),
            final(self).label(from as int, to as int) == old(self).label(from as int, to as int).union(name_set(idents@)),
            forall|a: int, b: int| (a != from || b != to) ==> #[trigger] final(self).label(a, b) == old(self).label(a, b),
            final(self).has_dep(from as int, to as int),
            forall|a: int, b: int| (a != from || b != to) ==> #[trigger] final(self).has_dep(a, b) == old(self).has_dep(a, b),
    {
        let ghost edges = graph_edges(self.g);
        let ghost l0 = self.labels@;
        let ghost added = name_set(idents@);
        let ghost old_self = *self;
        match graph_find_edge(&self.g, from, to) {
            Some(e) => {
                let w = graph_edge_weight(&self.g, e).unwrap();
                let mut label = StatementGraphEdge { idents: Vec::new() };
                std::mem::swap(&mut self.labels[w], &mut label);
                let ghost before = name_set(label.idents@);
                let ghost old_idents = label.idents@;
                let mut extra = idents;
                label.idents.append(&mut extra);
                let ghost grown = name_set(label.idents@);
                proof {
                    assert forall|x: Seq<char>| grown.contains(x) <==> before.contains(x) || added.contains(x) by {
                        let v = label.idents@;
                        if grown.contains(x) {
                            let i = choose|i: int| 0 <= i < v.len() && #[trigger] v[i]@ == x;
                            if i < old_idents.len() {
                                assert(old_idents[i]@ == x);
                            } else {
                                assert(idents@[i - old_idents.len()]@ == x);
                            }
                        }
                        if before.contains(x) {
                            let i = choose|i: int| 0 <= i < old_idents.len() && #[trigger] old_idents[i]@ == x;
                            assert(v[i]@ == x);
                        }
                        if added.contains(x) {
                            let i = choose|i: int| 0 <= i < idents@.len() && #[trigger] idents@[i]@ == x;
                            assert(v[i + old_idents.len()]@ == x);
                        }
                    }
                }
                self.labels.set(w, label);
                proof {
                    assert(graph_edges(self.g) == edges);
                    assert(self.labels@ == l0.update(w as int, self.labels@[w as int]));
                    assert forall|a: int, b: int| true implies #[trigger] self.label(a, b) == if a == from && b == to {
                        label_of(edges, l0, a, b).union(added)
                    } else {
                        label_of(edges, l0, a, b)
                    } by {
                        assert forall|x: Seq<char>| self.label(a, b).contains(x) <==> (if a == from && b == to {
                            label_of(edges, l0, a, b).union(added)
                        } else {
                            label_of(edges, l0, a, b)
                        }).contains(x) by {
                            if self.label(a, b).contains(x) {
                                let e2 = choose|e2: int| 0 <= e2 < edges.len() && (#[trigger] edges[e2]).0 == a && edges[e2].1 == b
                                    && name_set(self.labels@[edges[e2].2 as int].idents@).contains(x);
                                if e2 != e {
                                    assert(edges[e2].2 != edges[e as int].2);
                                    assert(edges[e2].0 != edges[e as int].0 || edges[e2].1 != edges[e as int].1);
                                }
                            }
                            if label_of(edges, l0, a, b).contains(x) {
                                let e2 = choose|e2: int| 0 <= e2 < edges.len() && (#[trigger] edges[e2]).0 == a && edges[e2].1 == b
                                    && name_set(l0[edges[e2].2 as int].idents@).contains(x);
                                if e2 != e {
                                    assert(edges[e2].2 != edges[e as int].2);
                                }
                            }
                            if a == from && b == to && added.contains(x) {
                                assert(edges[e as int].0 == a && edges[e as int].1 == b);
                            }
                        }
                        assert(self.label(a, b) =~= if a == from && b == to {
                            label_of(edges, l0, a, b).union(added)
                        } else {
                            label_of(edges, l0, a, b)
                        });
                    }
                }
            },
            None => {
                self.labels.push(StatementGraphEdge { idents });
                let w = self.labels.len() - 1;
                graph_add_edge(&mut self.g, from, to, w);
                proof {
                    let e1 = graph_edges(self.g);
                    assert(e1 == edges.push((from, to, w)));
                    assert forall|e2: int| 0 <= e2 < edges.len() implies #[trigger] self.labels@[edges[e2].2 as int] == l0[edges[e2].2 as int] by {}
                    assert forall|e2: int| 0 <= e2 < e1.len() implies (#[trigger] e1[e2]).0 < self.nodes@.len()
                        && e1[e2].1 < self.nodes@.len() && e1[e2].2 < self.labels@.len() by {
                        if e2 < edges.len() {
                            assert(e1[e2] == edges[e2]);
                        }
                    }
                    assert forall|e2: int, e3: int| 0 <= e2 < e1.len() && 0 <= e3 < e1.len() && e2 != e3
                        implies (#[trigger] e1[e2]).2 != (#[trigger] e1[e3]).2 && (e1[e2].0 != e1[e3].0 || e1[e2].1 != e1[e3].1) by {
                        if e2 < edges.len() {
                            assert(e1[e2] == edges[e2]);
                        }
                        if e3 < edges.len() {
                            assert(e1[e3] == edges[e3]);
                        }
                    }
                    assert forall|a: int, b: int| true implies #[trigger] self.label(a, b) == if a == from && b == to {
                        label_of(edges, l0, a, b).union(added)
                    } else {
                        label_of(edges, l0, a, b)
                    } by {
                        assert forall|x: Seq<char>| self.label(a, b).contains(x) <==> (if a == from && b == to {
                            label_of(edges, l0, a, b).union(added)
                        } else {
                            label_of(edges, l0, a, b)
                        }).contains(x) by {
                            if self.label(a, b).contains(x) {
                                let e2 = choose|e2: int| 0 <= e2 < e1.len() && (#[trigger] e1[e2]).0 == a && e1[e2].1 == b
                                    && name_set(self.labels@[e1[e2].2 as int].idents@).contains(x);
                                if e2 < edges.len() {
                                    assert(e1[e2] == edges[e2]);
                                }
                            }
                            if label_of(edges, l0, a, b).contains(x) {
                                let e2 = choose|e2: int| 0 <= e2 < edges.len() && (#[trigger] edges[e2]).0 == a && edges[e2].1 == b
                                    && name_set(l0[edges[e2].2 as int].idents@).contains(x);
                                assert(e1[e2] == edges[e2]);
                            }
                            if a == from && b == to && added.contains(x) {
                                assert(e1[edges.len() as int].0 == a);
                            }
                        }
                        assert(self.label(a, b) =~= if a == from && b == to {
                            label_of(edges, l0, a, b).union(added)
                        } else {
                            label_of(edges, l0, a, b)
                        });
                    }
                }
            },
        }
        proof {
            let e1 = graph_edges(self.g);
            assert(e1 == edges || e1 == edges.push((from, to, (self.labels@.len() - 1) as usize)));
            if e1 != edges {
                assert(e1[edges.len() as int].0 == from && e1[edges.len() as int].1 == to);
            } else {
                assert(has_edge(self.g, from, to));
            }
            assert forall|a: int, b: int| (a != from || b != to) implies #[trigger] self.has_dep(a, b) == old_self.has_dep(a, b) by {
                if self.has_dep(a, b) {
                    let e = choose|e: int| 0 <= e < e1.len() && (#[trigger] e1[e]).0 == a && e1[e].1 == b;
                    if e < edges.len() {
                        assert(edges[e] == e1[e]);
                    }
                }
                if old_self.has_dep(a, b) {
                    let e = choose|e: int| 0 <= e < edges.len() && (#[trigger] edges[e]).0 == a && edges[e].1 == b;
                    assert(e1[e] == edges[e]);
                }
            }
            assert forall|a: int, b: int| 0 <= a < self.nodes@.len() && 0 <= b < self.nodes@.len() implies #[trigger] self.label(a, b).subset_of(
                self.nodes@[a].used().intersect(self.nodes@[b].defined())) by {
                assert(old_self.label(a, b).subset_of(old_self.nodes@[a].used().intersect(old_self.nodes@[b].defined())));
                assert(self.nodes@ == old_self.nodes@);
                assert(self.label(a, b) == label_of(edges, l0, a, b).union(added) || self.label(a, b) == label_of(edges, l0, a, b));
            }
        }
    }

    /// Every edge as `(from, to, names)`.
    pub fn edges(&self) -> (r: Vec<(StatementId, StatementId, Vec<String>)>)
        requires
            self.wf(),
        ensures
            forall|k: int| 0 <= k < r@.len() ==> (#[trigger] r@[k]).0 < self.len() && r@[k].1 < self.len()
                && name_set(r@[k].2@).subset_of(self.label(r@[k].0 as int, r@[k].1 as int)),
            forall|a: int, b: int, x: Seq<char>| 0 <= a < self.len() && #[trigger] self.label(a, b).contains(x) ==> exists|k: int|
                0 <= k < r@.len() && (#[trigger] r@[k]).0 == a && r@[k].1 == b && name_set(r@[k].2@).contains(x),
    {
        let mut r: Vec<(StatementId, StatementId, Vec<String>)> = Vec::new();
        let n = self.nodes.len();
        let mut a: usize = 0;
        while a < n
            invariant
                self.wf(),
                n == self.len(),
                0 <= a <= n,
                forall|k: int| 0 <= k < r@.len() ==> (#[trigger] r@[k]).0 < a && r@[k].1 < self.len()
                    && name_set(r@[k].2@).subset_of(self.label(r@[k].0 as int, r@[k].1 as int)),
                forall|a2: int, b: int, x: Seq<char>| 0 <= a2 < a && #[trigger] self.label(a2, b).contains(x) ==> exists|k: int|
                    0 <= k < r@.len() && (#[trigger] r@[k]).0 == a2 && r@[k].1 == b && name_set(r@[k].2@).contains(x),
            decreases n - a,
        {
            let deps = self.dependencies(&a);
            let ghost r0 = r@;
            let mut j: usize = 0;
            while j < deps.len()
                invariant
                    self.wf(),
                    n == self.len(),
                    0 <= a < n,
                    0 <= j <= deps@.len(),
                    r@.len() == r0.len() + j,
                    forall|k: int| 0 <= k < r0.len() ==> r@[k] == r0[k],
                    forall|j2: int| 0 <= j2 < deps@.len() ==> (#[trigger] deps@[j2]).0 < self.len(),
                    forall|b: int, x: Seq<char>| #[trigger] self.label(a as int, b).contains(x) <==> exists|j2: int|
                        0 <= j2 < deps@.len() && (#[trigger] deps@[j2]).0 == b && name_set(deps@[j2].1.idents@).contains(x),
                    forall|j2: int| 0 <= j2 < j ==> (#[trigger] r@[r0.len() + j2]).0 == a && r@[r0.len() + j2].1 == deps@[j2].0
                        && r@[r0.len() + j2].2@ == deps@[j2].1.idents@,
                decreases deps@.len() - j,
            {
                let names = copy_names(&deps[j].1.idents);
                r.push((a, deps[j].0, names));
                j = j + 1;
            }
            proof {
                assert forall|k: int| 0 <= k < r@.len() implies (#[trigger] r@[k]).0 < a + 1 && r@[k].1 < self.len()
                    && name_set(r@[k].2@).subset_of(self.label(r@[k].0 as int, r@[k].1 as int)) by {
                    if k < r0.len() {
                        assert(r@[k] == r0[k]);
                    } else {
                        let j2 = k - r0.len();
                        assert(r@[r0.len() + j2].0 == a);
                        assert forall|x: Seq<char>| name_set(r@[k].2@).contains(x) implies self.label(a as int, r@[k].1 as int).contains(x) by {
                            assert(name_set(deps@[j2].1.idents@).contains(x));
                        }
                    }
                }
                assert forall|a2: int, b: int, x: Seq<char>| 0 <= a2 < a + 1 && #[trigger] self.label(a2, b).contains(x) implies exists|k: int|
                    0 <= k < r@.len() && (#[trigger] r@[k]).0 == a2 && r@[k].1 == b && name_set(r@[k].2@).contains(x) by {
                    if a2 < a {
                        let k = choose|k: int| 0 <= k < r0.len() && (#[trigger] r0[k]).0 == a2 && r0[k].1 == b && name_set(r0[k].2@).contains(x);
                        assert(r@[k] == r0[k]);
                    } else {
                        let j2 = choose|j2: int| 0 <= j2 < deps@.len() && (#[trigger] deps@[j2]).0 == b && name_set(deps@[j2].1.idents@).contains(x);
                        assert(r@[r0.len() + j2].0 == a);
                    }
                }
            }
            a = a + 1;
        }
        r
    }
}

/// The edges built so far hold exactly the pairs before `(a, b)` whose uses and
/// definitions meet, in order, each with its own label.
pub open spec fn built(edges: Seq<(usize, usize, usize)>, labels: Seq<StatementGraphEdge>, stmts: Seq<Statement>, a: int, b: int) -> bool {
    &&& labels.len() == edges.len()
    &&& forall|e: int| 0 <= e < edges.len() ==> (#[trigger] edges[e]).2 == e && pair_lt(edges[e].0 as int, edges[e].1 as int, a, b)
        && edges[e].0 < stmts.len() && edges[e].1 < stmts.len() && labels[e].idents@.len() > 0 && name_set(labels[e].idents@) == stmts[edges[e].0 as int].used().intersect(stmts[edges[e].1 as int].defined())
    &&& forall|e: int, f: int| 0 <= e < f < edges.len() ==> pair_lt((#[trigger] edges[e]).0 as int, edges[e].1 as int, (#[trigger] edges[f]).0 as int, edges[f].1 as int)
    &&& forall|a2: int, b2: int, y: Seq<char>| #![trigger stmts[a2].used().contains(y), stmts[b2].defined().contains(y)] pair_lt(a2, b2, a, b) && 0 <= a2 && 0 <= b2 < stmts.len() && stmts[a2].used().contains(y)
        && stmts[b2].defined().contains(y) ==> exists|e: int| 0 <= e < edges.len() && (#[trigger] edges[e]).0 == a2 && edges[e].1 == b2
}

pub proof fn lemma_name_set_push(v: Seq<String>, x: String)
    ensures
        name_set(v.push(x)) == name_set(v).insert(x@),
{
    let w = v.push(x);
    assert forall|y: Seq<char>| name_set(w).contains(y) <==> name_set(v).insert(x@).contains(y) by {
        if name_set(w).contains(y) {
            let i = choose|i: int| 0 <= i < w.len() && #[trigger] w[i]@ == y;
            if i < v.len() {
                assert(v[i]@ == y);
            }
        }
        if name_set(v).contains(y) {
            let i = choose|i: int| 0 <= i < v.len() && #[trigger] v[i]@ == y;
            assert(w[i]@ == y);
        }
        if y == x@ {
            assert(w[v.len() as int]@ == y);
        }
    }
    assert(name_set(w) =~= name_set(v).insert(x@));
}

} // verus!
