use vstd::prelude::*;
use vstd::string::*;

verus! {

broadcast use vstd::string::group_string_axioms;

/// One element of a `sideEffects` array. Nested arrays are flattened into
/// the enclosing one, which leaves the disjunction unchanged.
#[derive(Debug, Clone)]
pub enum SideEffectsEntry {
    Bool(bool),
    Glob(String),
    /// A value of another JSON type.
    Other,
}

/// The value of a package's `sideEffects` entry.
#[derive(Debug, Clone)]
pub enum SideEffectsFlag {
    /// Applies to every file of the package.
    Bool(bool),
    /// A shell-style glob over package-relative paths.
    Glob(String),
    /// Any element matches.
    Array(Vec<SideEffectsEntry>),
    /// A value of another JSON type.
    Other,
}

/// Whether `glob_match::glob_match` matches `path` against the glob `p`.
pub uninterp spec fn glob_match_result(p: Seq<char>, path: Seq<char>) -> bool;

/// Relies on `glob_match::glob_match`, a function of its two arguments.
#[verifier::external_body]
fn glob_match_call(pattern: &str, path: &str) -> (r: bool)
    ensures
        r == glob_match_result(pattern@, path@),
{
    glob_match::glob_match(pattern, path)
}

/// `s` without any leading `./` prefixes.
pub open spec fn trim_dot_slash(s: Seq<char>) -> Seq<char>
    decreases s.len(),
{
    if s.len() >= 2 && s[0] == '.' && s[1] == '/' {
        trim_dot_slash(s.skip(2))
    } else {
        s
    }
}

pub open spec fn has_slash(s: Seq<char>) -> bool {
    exists|i: int| 0 <= i < s.len() && s[i] == '/'
}

/// The glob that a manifest pattern stands for: leading `./` removed, and
/// `**/` put in front of a pattern without `/`.
pub open spec fn effective_glob(pattern: Seq<char>) -> Seq<char> {
    let p = trim_dot_slash(pattern);
    if has_slash(p) {
        p
    } else {
        "**/"@ + p
    }
}

/// The manifest glob rule: the effective glob matched against the path
/// without leading `./`.
pub open spec fn glob_rule(pattern: Seq<char>, path: Seq<char>) -> bool {
    glob_match_result(effective_glob(pattern), trim_dot_slash(path))
}

/// Whether a `sideEffects` value marks the file at `path` as having side effects.
pub open spec fn flag_matches(flag: SideEffectsFlag, path: Seq<char>) -> bool {
    match flag {
        SideEffectsFlag::Bool(b) => b,
        SideEffectsFlag::Glob(p) => glob_rule(p@, path),
        SideEffectsFlag::Array(v) => any_entry_matches(v@, path),
        SideEffectsFlag::Other => true,
    }
}

/// Some entry of `v` matches `path`.
pub open spec fn any_entry_matches(v: Seq<SideEffectsEntry>, path: Seq<char>) -> bool {
    exists|i: int| 0 <= i < v.len() && entry_matches(#[trigger] v[i], path)
}

pub open spec fn entry_matches(entry: SideEffectsEntry, path: Seq<char>) -> bool {
    match entry {
        SideEffectsEntry::Bool(b) => b,
        SideEffectsEntry::Glob(p) => glob_rule(p@, path),
        SideEffectsEntry::Other => true,
    }
}

fn trim_leading_dot_slash(s: &str) -> (r: String)
    ensures
        r@ == trim_dot_slash(s@),
{
    let n = s.unicode_len();
    let mut i: usize = 0;
    assert(s@.skip(0) =~= s@);
    loop
        invariant
            n == s@.len(),
            0 <= i <= n,
            trim_dot_slash(s@) == trim_dot_slash(s@.skip(i as int)),
        ensures
            0 <= i <= n,
            trim_dot_slash(s@) == trim_dot_slash(s@.skip(i as int)),
            n - i < 2 || s@[i as int] != '.' || s@[i + 1] != '/',
        decreases n - i,
    {
        if n - i < 2 {
            break;
        }
        if s.get_char(i) != '.' || s.get_char(i + 1) != '/' {
            break;
        }
        proof {
            assert(s@.skip(i as int).skip(2) =~= s@.skip(i + 2));
        }
        i = i + 2;
    }
    proof {
        assert(trim_dot_slash(s@.skip(i as int)) == s@.skip(i as int));
        assert(s@.skip(i as int) =~= s@.subrange(i as int, n as int));
    }
    s.substring_char(i, n).to_string()
}

fn contains_slash(s: &str) -> (r: bool)
    ensures
        r == has_slash(s@),
{
    let n = s.unicode_len();
    let mut i: usize = 0;
    while i < n
        invariant
            n == s@.len(),
            0 <= i <= n,
            forall|k: int| 0 <= k < i ==> s@[k] != '/',
        decreases n - i,
    {
        if s.get_char(i) == '/' {
            return true;
        }
        i = i + 1;
    }
    false
}

/// Matches a package-relative `path` against a `sideEffects` glob.
pub fn match_glob_pattern(pattern: &str, path: &str) -> (r: bool)
    ensures
        r == glob_rule(pattern@, path@),
{
    let trimmed = trim_leading_dot_slash(path);
    let p = trim_leading_dot_slash(pattern);
    let glob = if contains_slash(p.as_str()) {
        p
    } else {
        "**/".to_string().concat(p.as_str())
    };
    glob_match_call(glob.as_str(), trimmed.as_str())
}

fn match_entry(entry: &SideEffectsEntry, path: &str) -> (r: bool)
    ensures
        r == entry_matches(*entry, path@),
{
    match entry {
        SideEffectsEntry::Bool(b) => *b,
        SideEffectsEntry::Glob(p) => match_glob_pattern(p.as_str(), path),
        SideEffectsEntry::Other => true,
    }
}

/// Whether `flag` marks the file at `path` as having side effects.
pub fn match_flag(flag: &SideEffectsFlag, path: &str) -> (r: bool)
    ensures
        r == flag_matches(*flag, path@),
{
    match flag {
        SideEffectsFlag::Bool(b) => *b,
        SideEffectsFlag::Glob(p) => match_glob_pattern(p.as_str(), path),
        SideEffectsFlag::Array(flags) => {
            let mut i: usize = 0;
            while i < flags.len()
                invariant
                    0 <= i <= flags@.len(),
                    *flag == SideEffectsFlag::Array(*flags),
                    forall|k: int| 0 <= k < i ==> !entry_matches(#[trigger] flags@[k], path@),
                decreases flags@.len() - i,
            {
                if match_entry(&flags[i], path) {
                    assert(entry_matches(flags@[i as int], path@));
                    return true;
                }
                i = i + 1;
            }
            false
        },
        SideEffectsFlag::Other => true,
    }
}

/// What the oracle reads of a package descriptor.
#[derive(Debug, Clone)]
pub struct PackageJson {
    /// The `sideEffects` key, when the descriptor has one.
    pub side_effects: Option<SideEffectsFlag>,
}

/// A module resolved to a file.
#[derive(Debug, Clone)]
pub struct Resolution {
    pub path: String,
    /// The descriptor of the package that holds the file, if any.
    pub package_json: Option<PackageJson>,
}

/// Where an import led.
#[derive(Debug, Clone)]
pub enum ResolverResource {
    Resolved(Resolution),
    /// A module left to the runtime, never shaken.
    External { source: String, external: String },
}

/// The part of a module's descriptor that the side-effect oracle reads.
#[derive(Debug, Clone)]
pub struct ModuleInfo {
    /// The module's path relative to its package root.
    pub relative_path: String,
    pub resolved_resource: Option<ResolverResource>,
}

/// What the package manifest declares of `m`, if it declares anything.
pub open spec fn declared_side_effect(m: ModuleInfo) -> Option<bool> {
    match m.resolved_resource {
        Some(ResolverResource::Resolved(res)) => match res.package_json {
            Some(pkg) => match pkg.side_effects {
                Some(flag) => Some(flag_matches(flag, m.relative_path@)),
                None => None,
            },
            None => None,
        },
        _ => None,
    }
}

impl ModuleInfo {
    /// The side-effect flag that the package manifest declares for this
    /// module, or `None` when there is no manifest entry to consult.
    pub fn described_side_effect(&self) -> (r: Option<bool>)
        ensures
            r == declared_side_effect(*self),
    {
        match &self.resolved_resource {
            Some(ResolverResource::Resolved(res)) => match &res.package_json {
                Some(pkg) => match &pkg.side_effects {
                    Some(flag) => Some(match_flag(flag, self.relative_path.as_str())),
                    None => None,
                },
                None => None,
            },
            _ => None,
        }
    }

    /// Whether the module must be assumed to have side effects: what the
    /// manifest declares, and `true` where it declares nothing.
    pub fn get_side_effects_flag(&self) -> (r: bool)
        ensures
            r == match declared_side_effect(*self) {
                Some(b) => b,
                None => true,
            },
    {
        match self.described_side_effect() {
            Some(b) => b,
            None => true,
        }
    }
}

} // verus!
