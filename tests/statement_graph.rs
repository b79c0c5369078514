use mako::{
    is_ident_equal, keep_live_statements, remove_dead_statements, strip_context, ModuleInfo, PackageJson, Resolution, ResolverResource,
    SideEffectsFlag, Statement, StatementGraph, UsedIdent,
};

fn strings(v: &[&str]) -> Vec<String> {
    v.iter().map(|s| s.to_string()).collect()
}

fn stmt(id: usize, defined: &[&str], used: &[&str], map: &[(&str, &[&str])], side_effects: bool) -> Statement {
    Statement::new(
        id,
        None,
        None,
        strings(defined),
        strings(used),
        map.iter().map(|(k, v)| (k.to_string(), strings(v))).collect(),
        side_effects,
        side_effects,
    )
}

fn sorted(mut v: Vec<String>) -> Vec<String> {
    v.sort();
    v.dedup();
    v
}

fn shape(r: Vec<(usize, Vec<String>)>) -> Vec<(usize, Vec<String>)> {
    r.into_iter().map(|(id, names)| (id, sorted(names))).collect()
}

#[test]
fn strip_removes_scope_suffix() {
    assert_eq!(strip_context("foo#12"), "foo");
    assert_eq!(strip_context("foo"), "foo");
    assert_eq!(strip_context("#1"), "");
    assert!(is_ident_equal("a#1", "a#2"));
    assert!(!is_ident_equal("a#1", "b#1"));
}

#[test]
fn graph_edges_carry_shared_names() {
    let g = StatementGraph::new(vec![
        stmt(0, &["k"], &[], &[("k", &[])], false),
        stmt(1, &["f"], &["k", "console"], &[("f", &["k"])], false),
    ]);
    assert_eq!(g.num_stmts(), 2);
    let deps = g.dependencies(&1);
    assert_eq!(deps.len(), 1);
    assert_eq!(deps[0].0, 0);
    assert_eq!(deps[0].1.idents, vec!["k".to_string()]);
    assert!(g.dependencies(&0).is_empty());
    assert_eq!(g.stmt(&1).defined_idents, vec!["f".to_string()]);
    assert_eq!(g.stmts().len(), 2);
}

#[test]
fn add_edge_merges_labels() {
    // 1 uses a and b, which 0 defines; 0 uses c, which 1 defines.
    let mut g = StatementGraph::new(vec![
        stmt(0, &["a", "b"], &["c"], &[], false),
        stmt(1, &["c"], &["a", "b"], &[], false),
    ]);
    g.add_edge(1, 0, strings(&["b"]));
    let deps = g.dependencies(&1);
    assert_eq!(deps.len(), 1);
    assert_eq!(sorted(deps[0].1.idents.clone()), strings(&["a", "b"]));
    g.add_edge(0, 1, strings(&["c"]));
    assert_eq!(g.dependencies(&0).len(), 1);
    assert!(StatementGraph::empty().stmts().is_empty());
    let mut edges: Vec<(usize, usize, Vec<String>)> =
        g.edges().into_iter().map(|(a, b, names)| (a, b, sorted(names))).collect();
    edges.sort();
    assert_eq!(edges, vec![(0, 1, strings(&["c"])), (1, 0, strings(&["a", "b"]))]);
}

// export function used(){}  export function dead(){}; the entry imports {used}.
#[test]
fn dead_named_export_is_dropped() {
    let g = StatementGraph::new(vec![
        stmt(0, &["used"], &[], &[("used", &[])], false),
        stmt(1, &["dead"], &[], &[("dead", &[])], false),
    ]);
    let r = g.analyze_used_statements_and_idents(&vec![(0, vec![UsedIdent::Defined("used".to_string())])]);
    assert_eq!(shape(r), vec![(0, strings(&["used"]))]);
}

// const k = 1; export function f(){ return k }; the entry uses f.
#[test]
fn transitive_dependency_is_kept() {
    let g = StatementGraph::new(vec![
        stmt(0, &["k"], &[], &[("k", &[])], false),
        stmt(1, &["f"], &["k"], &[("f", &["k"])], false),
    ]);
    let r = g.analyze_used_statements_and_idents(&vec![(1, vec![UsedIdent::Defined("f".to_string())])]);
    assert_eq!(shape(r), vec![(0, strings(&["k"])), (1, strings(&["f"]))]);
}

fn effect_module() -> StatementGraph {
    // console.log('hi'); export const x = 1;
    StatementGraph::new(vec![
        stmt(0, &[], &["console"], &[], true),
        stmt(1, &["x"], &[], &[("x", &[])], false),
    ])
}

#[test]
fn module_without_package_keeps_everything() {
    let g = effect_module();
    let m = ModuleInfo { relative_path: "./a.js".to_string(), resolved_resource: None };
    let mut reqs = Vec::new();
    g.add_side_effect_requests(&mut reqs, m.described_side_effect());
    let r = g.analyze_used_statements_and_idents(&reqs);
    let ids: Vec<usize> = r.iter().map(|e| e.0).collect();
    assert_eq!(ids, vec![0, 1]);
}

#[test]
fn side_effects_false_prunes_bare_import() {
    let g = effect_module();
    let m = ModuleInfo {
        relative_path: "./a.js".to_string(),
        resolved_resource: Some(ResolverResource::Resolved(Resolution {
            path: "/p/node_modules/a/a.js".to_string(),
            package_json: Some(PackageJson { side_effects: Some(SideEffectsFlag::Bool(false)) }),
        })),
    };
    let mut reqs = Vec::new();
    g.add_side_effect_requests(&mut reqs, m.described_side_effect());
    assert!(reqs.is_empty());
    assert!(g.analyze_used_statements_and_idents(&reqs).is_empty());
}

#[test]
fn side_effects_true_keeps_effectful_statements() {
    let g = effect_module();
    let mut reqs = Vec::new();
    g.add_side_effect_requests(&mut reqs, Some(true));
    let r = g.analyze_used_statements_and_idents(&reqs);
    assert_eq!(shape(r), vec![(0, vec![])]);
}

#[test]
fn export_all_requests_are_tagged_not_followed() {
    let g = StatementGraph::new(vec![
        stmt(0, &[], &[], &[], false),
        stmt(1, &[], &[], &[], false),
    ]);
    let r = g.analyze_used_statements_and_idents(&vec![
        (1, vec![UsedIdent::InExportAll("Q".to_string())]),
        (0, vec![UsedIdent::ExportAll]),
    ]);
    assert_eq!(shape(r), vec![(0, strings(&["*"])), (1, strings(&["Q"]))]);
}

#[test]
fn default_export_pulls_all_uses() {
    // const a = 1; const b = 2; export default a + b;
    let g = StatementGraph::new(vec![
        stmt(0, &["a"], &[], &[("a", &[])], false),
        stmt(1, &["b"], &[], &[("b", &[])], false),
        stmt(2, &[], &["a", "b"], &[], false),
    ]);
    let r = g.analyze_used_statements_and_idents(&vec![(2, vec![UsedIdent::Default])]);
    assert_eq!(shape(r), vec![(0, strings(&["a"])), (1, strings(&["b"])), (2, vec![])]);
}

#[test]
fn only_requested_bindings_are_followed() {
    // const k = 1, j = 2; const {a, b} = f(k, j) with a needing k and b needing j.
    let g = StatementGraph::new(vec![
        stmt(0, &["k"], &[], &[("k", &[])], false),
        stmt(1, &["j"], &[], &[("j", &[])], false),
        stmt(2, &["a", "b"], &["k", "j"], &[("a", &["k"]), ("b", &["j"])], false),
    ]);
    let r = g.analyze_used_statements_and_idents(&vec![(2, vec![UsedIdent::Defined("a".to_string())])]);
    assert_eq!(shape(r), vec![(0, strings(&["k"])), (2, strings(&["a"]))]);
}

#[test]
fn request_order_does_not_matter() {
    let g = StatementGraph::new(vec![
        stmt(0, &["k"], &[], &[("k", &[])], false),
        stmt(1, &["f"], &["k"], &[("f", &["k"])], false),
        stmt(2, &["h"], &["k", "f"], &[("h", &["k", "f"])], false),
    ]);
    let a = vec![
        (1, vec![UsedIdent::Defined("f".to_string())]),
        (2, vec![UsedIdent::Defined("h".to_string())]),
    ];
    let b = vec![
        (2, vec![UsedIdent::Defined("h".to_string())]),
        (1, vec![UsedIdent::Defined("f".to_string())]),
    ];
    let ra = shape(g.analyze_used_statements_and_idents(&a));
    let rb = shape(g.analyze_used_statements_and_idents(&b));
    assert_eq!(ra, rb);
    assert_eq!(ra, vec![(0, strings(&["k"])), (1, strings(&["f"])), (2, strings(&["h"]))]);
}

#[test]
fn live_names_have_live_producers() {
    // A cycle: f uses g, g uses f; only h is kept apart from them.
    let g = StatementGraph::new(vec![
        stmt(0, &["f"], &["g"], &[("f", &["g"])], false),
        stmt(1, &["g"], &["f"], &[("g", &["f"])], false),
        stmt(2, &["h"], &[], &[("h", &[])], false),
    ]);
    let r = g.analyze_used_statements_and_idents(&vec![(0, vec![UsedIdent::Defined("f".to_string())])]);
    assert_eq!(shape(r), vec![(0, strings(&["f"])), (1, strings(&["g"]))]);
}

fn body() -> Vec<Statement> {
    vec![
        stmt(0, &["k"], &[], &[("k", &[])], false),
        stmt(1, &["f"], &["k"], &[("f", &["k"])], false),
        stmt(2, &["dead"], &["k"], &[("dead", &["k"])], false),
        stmt(3, &["h"], &["dead"], &[("h", &["dead"])], false),
    ]
}

#[test]
fn shaking_twice_changes_nothing() {
    let reqs = vec![(1, vec![UsedIdent::Defined("f".to_string())])];
    let first = StatementGraph::new(body()).analyze_used_statements_and_idents(&reqs);
    let reduced = remove_dead_statements(body(), &first);
    assert_eq!(reduced.len(), 4);
    assert!(reduced[2].defined_idents.is_empty() && reduced[2].used_idents.is_empty());
    assert!(reduced[3].defined_idents.is_empty());
    assert_eq!(reduced[1].defined_idents, vec!["f".to_string()]);
    let second = StatementGraph::new(reduced).analyze_used_statements_and_idents(&reqs);
    assert_eq!(shape(first.clone()), shape(second));
    assert_eq!(shape(first), vec![(0, strings(&["k"])), (1, strings(&["f"]))]);
}

#[test]
fn shaking_the_renumbered_module_changes_nothing() {
    let module = || {
        vec![
            stmt(0, &["d"], &[], &[("d", &[])], false),
            stmt(1, &["k"], &[], &[("k", &[])], false),
            stmt(2, &["f"], &["k"], &[("f", &["k"])], false),
        ]
    };
    let first = StatementGraph::new(module())
        .analyze_used_statements_and_idents(&vec![(2, vec![UsedIdent::Defined("f".to_string())])]);
    let (kept, old_ids) = keep_live_statements(module(), &first);
    assert_eq!(old_ids, vec![1, 2]);
    assert_eq!(kept[0].id, 0);
    assert_eq!(kept[1].defined_idents, vec!["f".to_string()]);
    let second = StatementGraph::new(kept)
        .analyze_used_statements_and_idents(&vec![(1, vec![UsedIdent::Defined("f".to_string())])]);
    let mapped: Vec<(usize, Vec<String>)> =
        shape(second).into_iter().map(|(k, names)| (old_ids[k], names)).collect();
    assert_eq!(mapped, shape(first));
}
