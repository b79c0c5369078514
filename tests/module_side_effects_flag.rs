use mako::{
    match_glob_pattern, ModuleInfo, PackageJson, Resolution, ResolverResource, SideEffectsEntry,
    SideEffectsFlag,
};

fn module_in_package(relative_path: &str, side_effects: Option<SideEffectsFlag>) -> ModuleInfo {
    ModuleInfo {
        relative_path: relative_path.to_string(),
        resolved_resource: Some(ResolverResource::Resolved(Resolution {
            path: format!("/project/node_modules/pkg/{}", relative_path),
            package_json: Some(PackageJson { side_effects }),
        })),
    }
}

#[test]
fn test_path_side_effects_no_dot_start_pattern() {
    assert!(match_glob_pattern("esm/index.js", "./esm/index.js",));
}

#[test]
fn test_exact_path_side_effects_flag() {
    assert!(match_glob_pattern("./src/index.js", "./src/index.js",));
}

#[test]
fn test_exact_path_side_effects_flag_negative() {
    assert!(!match_glob_pattern("./src/index.js", "./dist/index.js",));
}

#[test]
fn test_wild_effects_flag() {
    assert!(match_glob_pattern(
        "./src/lib/**/*.s.js",
        "./src/lib/apple/pie/index.s.js",
    ));
}

#[test]
fn test_double_wild_starts_effects_flag() {
    assert!(match_glob_pattern(
        "**/index.js",
        "./deep/lib/file/index.js",
    ));
}

#[test]
fn test_side_effects_flag() {
    // foo: "sideEffects": false; bar: no "sideEffects" key; zzz: no package
    // descriptor; four: "sideEffects": ["*.s.ts"].
    let foo = module_in_package("./index.ts", Some(SideEffectsFlag::Bool(false)));
    let bar = module_in_package("./index.ts", None);
    let zzz = ModuleInfo {
        relative_path: "./index.ts".to_string(),
        resolved_resource: Some(ResolverResource::Resolved(Resolution {
            path: "/project/node_modules/zzz/index.ts".to_string(),
            package_json: None,
        })),
    };
    let four_flag = || SideEffectsFlag::Array(vec![SideEffectsEntry::Glob("*.s.ts".to_string())]);
    let four = module_in_package("./index.ts", Some(four_flag()));
    let four_s = module_in_package("./index.s.ts", Some(four_flag()));
    assert!(!foo.get_side_effects_flag());
    assert!(bar.get_side_effects_flag());
    assert!(zzz.get_side_effects_flag());
    assert!(!four.get_side_effects_flag());
    assert!(four_s.get_side_effects_flag());
}

#[test]
fn glob_match_scenarios() {
    assert!(match_glob_pattern("**/*.s.js", "./src/lib/apple/pie/index.s.js"));
    assert!(!match_glob_pattern("./src/index.js", "./dist/index.js"));
}

#[test]
fn pattern_without_slash_matches_at_any_depth() {
    assert!(match_glob_pattern("index.js", "./a/b/index.js"));
    assert!(match_glob_pattern("*.css", "style.css"));
    assert!(!match_glob_pattern("*.css", "./a/index.js"));
}

#[test]
fn star_stays_within_a_directory_and_braces_expand() {
    assert!(match_glob_pattern("./src/*.js", "./src/a.js"));
    assert!(!match_glob_pattern("./src/*.js", "./src/lib/a.js"));
    assert!(match_glob_pattern("./src/{a,b}.js", "./src/a.js"));
    assert!(!match_glob_pattern("./src/{a,b}.js", "./src/c.js"));
}

#[test]
fn described_side_effect_without_entry_is_none() {
    let m = module_in_package("./index.ts", None);
    assert_eq!(m.described_side_effect(), None);
    let ext = ModuleInfo {
        relative_path: "react".to_string(),
        resolved_resource: Some(ResolverResource::External {
            source: "react".to_string(),
            external: "React".to_string(),
        }),
    };
    assert_eq!(ext.described_side_effect(), None);
    assert!(ext.get_side_effects_flag());
    let none = ModuleInfo { relative_path: "./a.js".to_string(), resolved_resource: None };
    assert!(none.get_side_effects_flag());
}

#[test]
fn other_json_value_counts_as_side_effect() {
    let m = module_in_package("./index.ts", Some(SideEffectsFlag::Other));
    assert_eq!(m.described_side_effect(), Some(true));
    let arr = module_in_package("./index.ts", Some(SideEffectsFlag::Array(vec![])));
    assert_eq!(arr.described_side_effect(), Some(false));
    let glob = module_in_package("./src/a.js", Some(SideEffectsFlag::Glob("./src/*.js".to_string())));
    assert_eq!(glob.described_side_effect(), Some(true));
}

#[test]
fn leading_dot_slash_on_pattern_is_ignored() {
    assert_eq!(
        match_glob_pattern("./index.js", "./a/index.js"),
        match_glob_pattern("index.js", "./a/index.js")
    );
    assert!(match_glob_pattern("./index.js", "./a/index.js"));
    assert_eq!(
        match_glob_pattern("*.s.js", "./a/b/c.s.js"),
        match_glob_pattern("**/*.s.js", "./a/b/c.s.js")
    );
}
