use mako::{
    ExportInfo, ExportInfoMatch, ExportSource, ExportSpecifierInfo, ImportInfo, ImportSpecifierInfo,
};

fn names(v: &[&str]) -> Vec<String> {
    v.iter().map(|s| s.to_string()).collect()
}

fn export_info(specifiers: Vec<ExportSpecifierInfo>) -> ExportInfo {
    ExportInfo { source: None, specifiers, stmt_id: 0 }
}

fn is_ambiguous_with(sp: Option<&ExportSpecifierInfo>, name: &str) -> bool {
    matches!(sp, Some(ExportSpecifierInfo::Ambiguous(v)) if v.iter().any(|n| n == name))
}

#[test]
fn export_star_resolves_to_the_source_that_has_the_name() {
    // export * from 'b' (exports P); export * from 'c' (exports Q)
    let info = export_info(vec![
        ExportSpecifierInfo::Ambiguous(names(&["P"])),
        ExportSpecifierInfo::Ambiguous(names(&["Q"])),
    ]);
    let q = "Q".to_string();
    assert!(is_ambiguous_with(info.find_export_specifier(&q), "Q"));
    assert_eq!(info.matches_ident(&q), ExportInfoMatch::Matched);
    let z = "Z".to_string();
    assert!(info.find_export_specifier(&z).is_none());
    assert_eq!(info.matches_ident(&z), ExportInfoMatch::Ambiguous);
}

#[test]
fn single_ambiguous_candidate_is_promoted() {
    let info = export_info(vec![
        ExportSpecifierInfo::Named { local: "a".to_string(), exported: None },
        ExportSpecifierInfo::Ambiguous(names(&["X"])),
    ]);
    let y = "Y".to_string();
    assert!(is_ambiguous_with(info.find_export_specifier(&y), "X"));
    assert_eq!(info.matches_ident(&y), ExportInfoMatch::Matched);
}

#[test]
fn named_default_namespace_and_all_match() {
    let info = export_info(vec![
        ExportSpecifierInfo::Default(None),
        ExportSpecifierInfo::Named { local: "a#1".to_string(), exported: Some("b#2".to_string()) },
        ExportSpecifierInfo::Namespace("ns#3".to_string()),
        ExportSpecifierInfo::All(names(&["x", "y"])),
    ]);
    let d = "default".to_string();
    assert!(matches!(info.find_export_specifier(&d), Some(ExportSpecifierInfo::Default(None))));
    let b = "b".to_string();
    assert!(matches!(info.find_export_specifier(&b), Some(ExportSpecifierInfo::Named { .. })));
    let a = "a".to_string();
    assert!(info.find_export_specifier(&a).is_none());
    assert_eq!(info.matches_ident(&a), ExportInfoMatch::Unmatched);
    let ns = "ns".to_string();
    assert!(matches!(info.find_export_specifier(&ns), Some(ExportSpecifierInfo::Namespace(_))));
    let y = "y#9".to_string();
    assert!(matches!(info.find_export_specifier(&y), Some(ExportSpecifierInfo::All(_))));
    assert_eq!(info.matches_ident(&y), ExportInfoMatch::Matched);
}

#[test]
fn to_idents_gives_exported_names() {
    assert_eq!(ExportSpecifierInfo::All(names(&["x"])).to_idents(), Vec::<String>::new());
    assert_eq!(
        ExportSpecifierInfo::Named { local: "a#1".to_string(), exported: Some("b#2".to_string()) }.to_idents(),
        names(&["b"])
    );
    assert_eq!(ExportSpecifierInfo::Named { local: "a#1".to_string(), exported: None }.to_idents(), names(&["a"]));
    assert_eq!(ExportSpecifierInfo::Default(Some("f".to_string())).to_idents(), names(&["default"]));
    assert_eq!(ExportSpecifierInfo::Namespace("ns#4".to_string()).to_idents(), names(&["ns"]));
    assert_eq!(ExportSpecifierInfo::Ambiguous(names(&["x"])).to_idents(), Vec::<String>::new());
}

#[test]
fn export_source_follows_first_specifier() {
    let remote = export_info(vec![ExportSpecifierInfo::All(names(&["x"]))]);
    assert_eq!(ExportSource::from(&remote), ExportSource::Remote);
    let amb = export_info(vec![ExportSpecifierInfo::Ambiguous(vec![])]);
    assert_eq!(ExportSource::from(&amb), ExportSource::Remote);
    let local = export_info(vec![
        ExportSpecifierInfo::Default(None),
        ExportSpecifierInfo::All(vec![]),
    ]);
    assert_eq!(ExportSource::from(&local), ExportSource::Local);
    assert_eq!(ExportSource::from(&export_info(vec![])), ExportSource::Local);
}

#[test]
fn import_specifier_lookup() {
    let info = ImportInfo {
        source: "x".to_string(),
        specifiers: vec![
            ImportSpecifierInfo::Named { local: "a#1".to_string(), imported: Some("b".to_string()) },
            ImportSpecifierInfo::Namespace("ns#2".to_string()),
            ImportSpecifierInfo::Default("d#3".to_string()),
        ],
        stmt_id: 0,
    };
    assert_eq!(
        info.find_define_specifier(&"a#7".to_string()),
        Some(&ImportSpecifierInfo::Named { local: "a#1".to_string(), imported: Some("b".to_string()) })
    );
    assert_eq!(info.find_define_specifier(&"ns".to_string()), Some(&ImportSpecifierInfo::Namespace("ns#2".to_string())));
    assert_eq!(info.find_define_specifier(&"d#3".to_string()), Some(&ImportSpecifierInfo::Default("d#3".to_string())));
    assert_eq!(info.find_define_specifier(&"d#9".to_string()), Some(&ImportSpecifierInfo::Default("d#3".to_string())));
    assert_eq!(info.find_define_specifier(&"e".to_string()), None);
    assert_eq!(info.find_define_specifier(&"b".to_string()), None);
}
