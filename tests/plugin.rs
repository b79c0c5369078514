use mako::{
    content_from_result, get_node_builtins, hook_admits, hook_content, less_args, less_failure,
    less_runner, partition_style_paths, rebuild_paths, resolve_id_resource, style_source, Content,
    ContentError, LessPlugin, LessRunner, ResolveIdResult, ResolverResource, TransformResult,
};

fn tr(content: &str, ty: &str) -> TransformResult {
    TransformResult { content: content.to_string(), content_type: ty.to_string() }
}

fn strings(v: &[&str]) -> Vec<String> {
    v.iter().map(|s| s.to_string()).collect()
}

#[test]
fn content_types_are_classified() {
    for ty in ["js", "ts"] {
        match content_from_result(tr("a", ty)) {
            Ok(Content::Js(js)) => {
                assert_eq!(js.content, "a");
                assert!(!js.is_jsx);
            },
            _ => panic!("expected script"),
        }
    }
    for ty in ["jsx", "tsx"] {
        match content_from_result(tr("b", ty)) {
            Ok(Content::Js(js)) => assert!(js.is_jsx),
            _ => panic!("expected jsx"),
        }
    }
    assert!(matches!(content_from_result(tr("c", "css")), Ok(Content::Css(c)) if c == "c"));
    let err = content_from_result(tr("d", "png")).err().unwrap();
    assert_eq!(err, ContentError::UnsupportedContentType("png".to_string()));
    assert_eq!(err.message(), "Unsupported content type: png");
}

#[test]
fn hook_results() {
    assert!(matches!(hook_content(None), Ok(None)));
    assert!(matches!(hook_content(Some(tr("x", "css"))), Ok(Some(Content::Css(_)))));
    assert!(hook_content(Some(tr("x", "md"))).is_err());
    assert!(hook_admits(None));
    assert!(hook_admits(Some(true)));
    assert!(!hook_admits(Some(false)));
}

#[test]
fn resolve_id_results() {
    assert!(resolve_id_resource("lodash", None).is_none());
    let ext = resolve_id_resource("react", Some(ResolveIdResult { id: "x".to_string(), external: Some(true) }));
    assert!(matches!(ext, Some(ResolverResource::External { source, external }) if source == "react" && external == "react"));
    let res = resolve_id_resource("a", Some(ResolveIdResult { id: "/abs/a.js".to_string(), external: Some(false) }));
    assert!(matches!(res, Some(ResolverResource::Resolved(r)) if r.path == "/abs/a.js" && r.package_json.is_none()));
}

#[test]
fn style_paths_are_split_in_order() {
    assert!(style_source("/a/b.less"));
    assert!(style_source("x.sass"));
    assert!(!style_source("/a/.less"));
    assert!(!style_source("/a.less/b.js"));
    assert!(!style_source("b.scss"));
    let (styles, others) = partition_style_paths(strings(&["/a.less", "/b.js", "/c.sass", "/d.ts"]));
    assert_eq!(styles, strings(&["/a.less", "/c.sass"]));
    assert_eq!(others, strings(&["/b.js", "/d.ts"]));
    assert_eq!(
        rebuild_paths(None, styles.clone(), others.clone()),
        strings(&["/a.less", "/c.sass", "/b.js", "/d.ts"])
    );
    assert_eq!(
        rebuild_paths(Some(strings(&["/x.less"])), styles, others),
        strings(&["/x.less", "/b.js", "/d.ts"])
    );
}

#[test]
fn node_builtins_list() {
    let b = get_node_builtins();
    assert_eq!(b.len(), 54);
    assert_eq!(b[0], "assert");
    assert_eq!(b[53], "zlib");
    assert!(b.contains(&"fs/promises".to_string()));
}

#[test]
fn less_plugin_arguments() {
    let p = LessPlugin {};
    assert_eq!(p.name(), "less");
    assert!(p.handles("less"));
    assert!(!p.handles("css"));
    assert_eq!(less_runner("", true), LessRunner::Npx);
    assert_eq!(less_runner("/bin/lessc", true), LessRunner::InstalledNode);
    assert_eq!(less_runner("/bin/lessc", false), LessRunner::Node);
    let alias = vec![("@".to_string(), "/src".to_string()), ("~".to_string(), "/n".to_string())];
    let theme = vec![("primary".to_string(), "#f00\n".to_string())];
    assert_eq!(
        less_args("", true, &alias, &theme, "/a.less"),
        strings(&["lessc", "--js", "--math=always", "--resolve=@=/src&~=/n", "--modify-var=primary=#f00", "/a.less"])
    );
    assert_eq!(
        less_args("/bin/lessc", false, &vec![], &vec![], "/b.less"),
        strings(&["/bin/lessc", "--math=always", "--resolve=", "/b.less"])
    );
}

#[test]
fn less_failures() {
    assert_eq!(less_failure(true, ""), None);
    assert_eq!(
        less_failure(true, "  --math=always is deprecated and will be removed in the future.\n"),
        None
    );
    assert_eq!(less_failure(true, " bad thing \n"), Some("bad thing".to_string()));
    assert_eq!(
        less_failure(false, "npm ERR! could not determine executable to run"),
        Some("lessc is not found, please install less dependency".to_string())
    );
    assert_eq!(less_failure(false, "syntax error"), Some("syntax error".to_string()));
}
