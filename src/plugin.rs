use vstd::prelude::*;
use vstd::string::*;

use crate::side_effects::{Resolution, ResolverResource};

verus! {

broadcast use vstd::string::group_string_axioms;

/// What a host plugin hook hands back for a file.
#[derive(Debug, Clone)]
pub struct TransformResult {
    pub content: String,
    pub content_type: String,
}

/// Script source, and whether it holds JSX.
#[derive(Debug, Clone)]
pub struct JsContent {
    pub content: String,
    pub is_jsx: bool,
}

/// A loaded module's source.
#[derive(Debug, Clone)]
pub enum Content {
    Js(JsContent),
    Css(String),
}

/// Errors of the plugin bridge.
#[derive(Debug, Clone, PartialEq, Eq)]
pub enum ContentError {
    /// The hook named a content type that the bundler does not load.
    UnsupportedContentType(String),
}

/// What a host plugin's `resolveId` hook hands back.
#[derive(Debug, Clone)]
pub struct ResolveIdResult {
    pub id: String,
    pub external: Option<bool>,
}

/// The content that a hook result stands for, by its content type.
pub open spec fn content_spec(result: TransformResult) -> Result<Content, ContentError> {
    let ct = result.content_type@;
    if ct == "js"@ || ct == "ts"@ {
        Ok(Content::Js(JsContent { content: result.content, is_jsx: false }))
    } else if ct == "jsx"@ || ct == "tsx"@ {
        Ok(Content::Js(JsContent { content: result.content, is_jsx: true }))
    } else if ct == "css"@ {
        Ok(Content::Css(result.content))
    } else {
        Err(ContentError::UnsupportedContentType(result.content_type))
    }
}

/// Turns a hook result into module content: `js`/`ts` as script, `jsx`/`tsx`
/// as JSX script, `css` as style; any other type is an error.
pub fn content_from_result(result: TransformResult) -> (r: Result<Content, ContentError>)
    ensures
        r == content_spec(result),
{
    let ct = &result.content_type;
    if *ct == "js".to_string() || *ct == "ts".to_string() {
        Ok(Content::Js(JsContent { content: result.content, is_jsx: false }))
    } else if *ct == "jsx".to_string() || *ct == "tsx".to_string() {
        Ok(Content::Js(JsContent { content: result.content, is_jsx: true }))
    } else if *ct == "css".to_string() {
        Ok(Content::Css(result.content))
    } else {
        Err(ContentError::UnsupportedContentType(result.content_type))
    }
}

impl ContentError {
    /// The message reported for this error.
    pub fn message(&self) -> (r: String)
        ensures
            match self {
                ContentError::UnsupportedContentType(ct) => r@ == "Unsupported content type: "@ + ct@,
            },
    {
        match self {
            ContentError::UnsupportedContentType(ct) => "Unsupported content type: ".to_string().concat(ct.as_str()),
        }
    }
}

/// The content for what a `load` or `transform` hook returned: nothing when it
/// returned nothing, else its result read by content type.
pub fn hook_content(result: Option<TransformResult>) -> (r: Result<Option<Content>, ContentError>)
    ensures
        match result {
            None => r == Ok::<Option<Content>, ContentError>(None),
            Some(x) => match content_spec(x) {
                Ok(c) => r == Ok::<Option<Content>, ContentError>(Some(c)),
                Err(e) => r == Err::<Option<Content>, ContentError>(e),
            },
        },
{
    match result {
        None => Ok(None),
        Some(x) => match content_from_result(x) {
            Ok(c) => Ok(Some(c)),
            Err(e) => Err(e),
        },
    }
}

/// Whether a filter hook admits the file: only an explicit `false`
/// rejects it.
pub fn hook_admits(filter: Option<bool>) -> (r: bool)
    ensures
        r == (filter != Some(false)),
{
    match filter {
        Some(false) => false,
        _ => true,
    }
}

/// The resource for what a `resolveId` hook returned for `source`: an external
/// module under its own name when the hook says so, else the resolved path.
pub fn resolve_id_resource(source: &str, result: Option<ResolveIdResult>) -> (r: Option<ResolverResource>)
    ensures
        match result {
            None => r is None,
            Some(x) => match x.external {
                Some(true) => r matches Some(ResolverResource::External { source: s, external: e })
                    && s@ == source@ && e@ == source@,
                _ => r matches Some(ResolverResource::Resolved(res)) && res.path == x.id && res.package_json is None,
            },
        },
{
    match result {
        None => None,
        Some(x) => match x.external {
            Some(true) => Some(ResolverResource::External { source: source.to_string(), external: source.to_string() }),
            _ => Some(ResolverResource::Resolved(Resolution { path: x.id, package_json: None })),
        },
    }
}

/// The last component of a `/`-separated path.
pub open spec fn file_name(p: Seq<char>) -> Seq<char>
    decreases p.len(),
{
    if p.len() == 0 {
        p
    } else if p.last() == '/' {
        Seq::empty()
    } else {
        file_name(p.drop_last()).push(p.last())
    }
}

/// The file name has an extension `less` or `sass`: it ends in `.less` or
/// `.sass` with something before the dot.
pub open spec fn is_style_source(p: Seq<char>) -> bool {
    let n = file_name(p);
    n.len() > 5 && (n.skip(n.len() - 5) == ".less"@ || n.skip(n.len() - 5) == ".sass"@)
}

proof fn lemma_file_name_suffix(p: Seq<char>)
    ensures
        file_name(p).len() <= p.len(),
        file_name(p) == p.skip(p.len() - file_name(p).len()),
        forall|i: int| 0 <= i < file_name(p).len() ==> file_name(p)[i] != '/',
        file_name(p).len() < p.len() ==> p[p.len() - file_name(p).len() - 1] == '/',
    decreases p.len(),
{
    if p.len() > 0 && p.last() != '/' {
        lemma_file_name_suffix(p.drop_last());
        let f = file_name(p.drop_last());
        assert(file_name(p) == f.push(p.last()));
        assert(p.skip(p.len() - file_name(p).len()) =~= p.drop_last().skip(p.drop_last().len() - f.len()).push(p.last()));
    } else if p.len() > 0 {
        assert(p.skip(p.len() as int) =~= Seq::<char>::empty());
    } else {
        assert(p.skip(0) =~= p);
    }
}

/// Whether `p` is a `.less` or `.sass` file.
pub fn style_source(p: &str) -> (r: bool)
    ensures
        r == is_style_source(p@),
{
    let n = p.unicode_len();
    let mut start: usize = n;
    while start > 0
        invariant
            n == p@.len(),
            0 <= start <= n,
            forall|i: int| start <= i < n ==> p@[i] != '/',
        ensures
            0 <= start <= n,
            forall|i: int| start <= i < n ==> p@[i] != '/',
            start == 0 || p@[start - 1] == '/',
        decreases start,
    {
        if p.get_char(start - 1) == '/' {
            break;
        }
        start = start - 1;
    }
    proof {
        lemma_file_name_suffix(p@);
        assert(start == 0 || p@[start - 1] == '/');
        let f = file_name(p@);
        let k = p@.len() - f.len();
        if k < start {
            assert(f[start - 1 - k] == p@[start - 1]);
        }
        if start < k {
            assert(p@[k - 1] == '/');
        }
        assert(k == start);
    }
    let name = p.substring_char(start, n);
    if n - start <= 5 {
        return false;
    }
    let ext = name.substring_char(n - start - 5, n - start);
    proof {
        assert(name@ == file_name(p@)) by {
            assert(p@.subrange(start as int, n as int) =~= p@.skip(start as int));
        }
        assert(ext@ == name@.skip(name@.len() - 5)) by {
            assert(name@.subrange(n - start - 5, n - start) =~= name@.skip(name@.len() - 5));
        }
    }
    let ext_s = ext.to_string();
    ext_s == ".less".to_string() || ext_s == ".sass".to_string()
}

/// Splits changed paths into `.less`/`.sass` files and the rest, each in the
/// order given.
pub fn partition_style_paths(paths: Vec<String>) -> (r: (Vec<String>, Vec<String>))
    ensures
        r.0@ == paths@.filter(|p: String| is_style_source(p@)),
        r.1@ == paths@.filter(|p: String| !is_style_source(p@)),
{
    let mut styles: Vec<String> = Vec::new();
    let mut others: Vec<String> = Vec::new();
    let mut i: usize = 0;
    while i < paths.len()
        invariant
            0 <= i <= paths@.len(),
            styles@ == paths@.take(i as int).filter(|p: String| is_style_source(p@)),
            others@ == paths@.take(i as int).filter(|p: String| !is_style_source(p@)),
        decreases paths@.len() - i,
    {
        proof {
            assert(paths@.take(i + 1).drop_last() =~= paths@.take(i as int));
            reveal(Seq::filter);
        }
        let p = paths[i].clone();
        if style_source(p.as_str()) {
            styles.push(p);
        } else {
            others.push(p);
        }
        i = i + 1;
    }
    proof {
        assert(paths@.take(i as int) =~= paths@);
    }
    (styles, others)
}

/// The paths to rebuild: what the `beforeRebuild` hook made of the style
/// files (the style files themselves when it gave nothing), then the others.
pub fn rebuild_paths(hook_paths: Option<Vec<String>>, styles: Vec<String>, others: Vec<String>) -> (r: Vec<String>)
    ensures
        r@ == match hook_paths {
            Some(h) => h@,
            None => styles@,
        } + others@,
{
    let mut first = match hook_paths {
        Some(h) => h,
        None => styles,
    };
    let mut rest = others;
    first.append(&mut rest);
    first
}

} // verus!
