use vstd::prelude::*;

verus! {

broadcast use vstd::string::group_string_axioms;

/// Compiles `.less` files by running the `lessc` command line.
#[derive(Debug, Clone, Copy, PartialEq, Eq, Structural)]
pub struct LessPlugin {}

/// The program that runs `lessc`.
#[derive(Debug, Clone, Copy, PartialEq, Eq, Structural)]
pub enum LessRunner {
    /// `npx lessc`, when no `lessc` path is configured.
    Npx,
    /// The `node` that the package manager installed under the project root.
    InstalledNode,
    /// The `node` on the search path.
    Node,
}

/// The note that `lessc` prints on every run with `--math=always`.
pub const MATH_DEPRECATION_NOTE: &'static str = "--math=always is deprecated and will be removed in the future.";

/// What `lessc` prints when `npx` finds no `lessc` to run.
pub const MISSING_LESSC_OUTPUT: &'static str = "could not determine executable to run";

/// The reason reported when `lessc` cannot be found.
pub const MISSING_LESSC_REASON: &'static str = "lessc is not found, please install less dependency";

/// The result of `str::replace` on `s`.
pub uninterp spec fn replaced(s: Seq<char>, from: Seq<char>, to: Seq<char>) -> Seq<char>;

/// The result of `str::trim` on `s`.
pub uninterp spec fn trimmed(s: Seq<char>) -> Seq<char>;

/// `p` occurs in `s`.
pub open spec fn occurs_in(p: Seq<char>, s: Seq<char>) -> bool {
    exists|i: int| 0 <= i && i + p.len() <= s.len() && #[trigger] s.subrange(i, i + p.len()) == p
}

/// Relies on `str::replace`: every occurrence of `from` replaced by `to`.
#[verifier::external_body]
fn replace_all(s: &str, from: &str, to: &str) -> (r: String)
    ensures
        r@ == replaced(s@, from@, to@),
{
    s.replace(from, to)
}

/// Relies on `str::trim`: leading and trailing whitespace removed.
#[verifier::external_body]
fn trim_whitespace(s: &str) -> (r: String)
    ensures
        r@ == trimmed(s@),
{
    s.trim().to_string()
}

/// Whether `p` occurs in `s`.
fn contains_str(s: &str, p: &str) -> (r: bool)
    ensures
        r == occurs_in(p@, s@),
{
    let n = s.unicode_len();
    let m = p.unicode_len();
    if m > n {
        proof {
            assert forall|i: int| 0 <= i && i + p@.len() <= s@.len() implies #[trigger] s@.subrange(i, i + p@.len()) != p@ by {}
        }
        return false;
    }
    if m == 0 {
        assert(s@.subrange(0int, 0int + p@.len()) =~= p@);
        return true;
    }
    let target = p.to_string();
    let mut i: usize = 0;
    while i <= n - m
        invariant
            n == s@.len(),
            m == p@.len(),
            1 <= m <= n,
            target@ == p@,
            0 <= i <= n - m + 1,
            forall|j: int| 0 <= j < i ==> #[trigger] s@.subrange(j, j + m) != p@,
        decreases n - m + 1 - i,
    {
        let piece = s.substring_char(i, i + m).to_string();
        if piece == target {
            return true;
        }
        i = i + 1;
    }
    proof {
        assert forall|j: int| 0 <= j && j + p@.len() <= s@.len() implies #[trigger] s@.subrange(j, j + p@.len()) != p@ by {
            assert(j < i);
        }
    }
    false
}

impl LessPlugin {
    /// The plugin's name.
    pub fn name(&self) -> (r: &'static str)
        ensures
            r@ == "less"@,
    {
        "less"
    }

    /// Whether the plugin loads files with extension `ext`.
    pub fn handles(&self, ext: &str) -> (r: bool)
        ensures
            r == (ext@ == "less"@),
    {
        ext.to_string() == "less".to_string()
    }
}

/// Which program runs `lessc`: `npx` without a configured path, else the
/// installed `node` when there is one, else `node`.
pub fn less_runner(lessc_path: &str, installed_node_exists: bool) -> (r: LessRunner)
    ensures
        r == if lessc_path@.len() == 0 {
            LessRunner::Npx
        } else if installed_node_exists {
            LessRunner::InstalledNode
        } else {
            LessRunner::Node
        },
{
    if lessc_path.unicode_len() == 0 {
        LessRunner::Npx
    } else if installed_node_exists {
        LessRunner::InstalledNode
    } else {
        LessRunner::Node
    }
}

/// `k=v` pairs joined by `&`.
pub open spec fn joined_pairs(pairs: Seq<(String, String)>) -> Seq<char>
    decreases pairs.len(),
{
    if pairs.len() == 0 {
        Seq::empty()
    } else if pairs.len() == 1 {
        pairs[0].0@ + "="@ + pairs[0].1@
    } else {
        joined_pairs(pairs.drop_last()) + "&"@ + pairs.last().0@ + "="@ + pairs.last().1@
    }
}

/// The `--modify-var` arguments for the theme variables.
pub open spec fn theme_args(theme: Seq<(String, String)>) -> Seq<Seq<char>>
    decreases theme.len(),
{
    if theme.len() == 0 {
        Seq::empty()
    } else {
        theme_args(theme.drop_last()).push(
            "--modify-var="@ + theme.last().0@ + "="@ + replaced(theme.last().1@, "\n"@, ""@),
        )
    }
}

/// The arguments of a `lessc` run on `path`.
pub open spec fn less_args_spec(
    lessc_path: Seq<char>,
    javascript_enabled: bool,
    alias: Seq<(String, String)>,
    theme: Seq<(String, String)>,
    path: Seq<char>,
) -> Seq<Seq<char>> {
    seq![if lessc_path.len() == 0 { "lessc"@ } else { lessc_path }] + (if javascript_enabled {
        seq!["--js"@]
    } else {
        Seq::empty()
    }) + seq!["--math=always"@, "--resolve="@ + joined_pairs(alias)] + theme_args(theme) + seq![path]
}

/// Builds the `lessc` arguments: the program (or `lessc` under `npx`), `--js`
/// when JavaScript is enabled, `--math=always`, the resolve aliases, one
/// `--modify-var` per theme variable (newlines removed from the value) and
/// the file.
pub fn less_args(
    lessc_path: &str,
    javascript_enabled: bool,
    alias: &Vec<(String, String)>,
    theme: &Vec<(String, String)>,
    path: &str,
) -> (r: Vec<String>)
    ensures
        r@.map_values(|s: String| s@) == less_args_spec(lessc_path@, javascript_enabled, alias@, theme@, path@),
{
    let mut args: Vec<String> = Vec::new();
    if lessc_path.unicode_len() == 0 {
        args.push("lessc".to_string());
    } else {
        args.push(lessc_path.to_string());
    }
    if javascript_enabled {
        args.push("--js".to_string());
    }
    args.push("--math=always".to_string());
    let mut resolve = String::new();
    let mut i: usize = 0;
    while i < alias.len()
        invariant
            0 <= i <= alias@.len(),
            resolve@ == joined_pairs(alias@.take(i as int)),
        decreases alias@.len() - i,
    {
        proof {
            assert(alias@.take(i + 1).drop_last() =~= alias@.take(i as int));
        }
        if i > 0 {
            resolve = resolve.concat("&");
        }
        resolve = resolve.concat(alias[i].0.as_str()).concat("=").concat(alias[i].1.as_str());
        proof {
            if i == 0 {
                assert(resolve@ =~= alias@[0].0@ + "="@ + alias@[0].1@);
            } else {
                assert(resolve@ =~= joined_pairs(alias@.take(i as int)) + "&"@ + alias@[i as int].0@ + "="@ + alias@[i as int].1@);
            }
        }
        i = i + 1;
    }
    proof {
        assert(alias@.take(i as int) =~= alias@);
    }
    args.push("--resolve=".to_string().concat(resolve.as_str()));
    let ghost head = args@.map_values(|s: String| s@);
    let mut j: usize = 0;
    while j < theme.len()
        invariant
            0 <= j <= theme@.len(),
            args@.map_values(|s: String| s@) == head + theme_args(theme@.take(j as int)),
        decreases theme@.len() - j,
    {
        proof {
            assert(theme@.take(j + 1).drop_last() =~= theme@.take(j as int));
        }
        let value = replace_all(theme[j].1.as_str(), "\n", "");
        let arg = "--modify-var=".to_string().concat(theme[j].0.as_str()).concat("=").concat(value.as_str());
        let ghost before = args@;
        args.push(arg);
        proof {
            assert(args@.map_values(|s: String| s@) =~= before.map_values(|s: String| s@).push(arg@));
            assert(arg@ =~= "--modify-var="@ + theme@[j as int].0@ + "="@ + replaced(theme@[j as int].1@, "\n"@, ""@));
            assert(head + theme_args(theme@.take(j + 1)) =~= (head + theme_args(theme@.take(j as int))).push(arg@));
        }
        j = j + 1;
    }
    proof {
        assert(theme@.take(j as int) =~= theme@);
    }
    let ghost before = args@;
    args.push(path.to_string());
    proof {
        assert(args@.map_values(|s: String| s@) =~= before.map_values(|s: String| s@).push(path@));
        assert(args@.map_values(|s: String| s@) =~= less_args_spec(lessc_path@, javascript_enabled, alias@, theme@, path@));
    }
    args
}

/// Why a `lessc` run failed, or `None` when it succeeded. A failed run
/// reports its error output (or that `lessc` is missing); a successful one
/// fails when its error output, without the `--math` deprecation note and
/// trimmed, is not empty.
pub fn less_failure(success: bool, stderr: &str) -> (r: Option<String>)
    ensures
        !success ==> (r matches Some(reason) && reason@ == if occurs_in(MISSING_LESSC_OUTPUT@, stderr@) {
            MISSING_LESSC_REASON@
        } else {
            stderr@
        }),
        success ==> {
            let rest = trimmed(replaced(stderr@, MATH_DEPRECATION_NOTE@, ""@));
            if rest.len() == 0 {
                r is None
            } else {
                r matches Some(reason) && reason@ == rest
            }
        },
{
    if !success {
        if contains_str(stderr, MISSING_LESSC_OUTPUT) {
            return Some(MISSING_LESSC_REASON.to_string());
        }
        return Some(stderr.to_string());
    }
    let without_note = replace_all(stderr, MATH_DEPRECATION_NOTE, "");
    let rest = trim_whitespace(without_note.as_str());
    if rest.as_str().unicode_len() == 0 {
        None
    } else {
        Some(rest)
    }
}

} // verus!
