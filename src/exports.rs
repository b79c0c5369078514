use vstd::prelude::*;

use crate::ident::{ident_eq, is_ident_equal, strip, strip_context};

verus! {

broadcast use vstd::string::group_string_axioms;

/// Index of a statement in its module's body.
pub type StatementId = usize;

/// One entry of an import clause.
#[derive(Debug, Clone, PartialEq, Eq)]
pub enum ImportSpecifierInfo {
    /// `import * as ns from 'x'`
    Namespace(String),
    /// `import { imported as local } from 'x'`
    Named { local: String, imported: Option<String> },
    /// `import local from 'x'`
    Default(String),
}

/// The import facet of a statement.
#[derive(Debug, Clone)]
pub struct ImportInfo {
    pub source: String,
    pub specifiers: Vec<ImportSpecifierInfo>,
    pub stmt_id: StatementId,
}

/// Does import specifier `sp` introduce the local binding `n`?
pub open spec fn import_defines(sp: ImportSpecifierInfo, n: Seq<char>) -> bool {
    match sp {
        ImportSpecifierInfo::Namespace(ns) => ident_eq(n, ns@),
        ImportSpecifierInfo::Named { local, imported: _ } => ident_eq(n, local@),
        ImportSpecifierInfo::Default(local) => ident_eq(n, local@),
    }
}

/// Index of the first specifier of `s` that defines `n`.
pub open spec fn first_import_match(s: Seq<ImportSpecifierInfo>, n: Seq<char>) -> Option<int>
    decreases s.len(),
{
    if s.len() == 0 {
        None
    } else {
        match first_import_match(s.drop_last(), n) {
            Some(i) => Some(i),
            None => if import_defines(s.last(), n) {
                Some(s.len() - 1)
            } else {
                None
            },
        }
    }
}

impl ImportInfo {
    /// The specifier of this import that binds `ident` locally, if any.
    pub fn find_define_specifier(&self, ident: &String) -> (r: Option<&ImportSpecifierInfo>)
        ensures
            match first_import_match(self.specifiers@, ident@) {
                Some(i) => r is Some && *r->0 == self.specifiers@[i],
                None => r is None,
            },
    {
        let mut i: usize = 0;
        while i < self.specifiers.len()
            invariant
                0 <= i <= self.specifiers@.len(),
                first_import_match(self.specifiers@.take(i as int), ident@) is None,
            decreases self.specifiers@.len() - i,
        {
            proof {
                assert(self.specifiers@.take(i + 1).drop_last() =~= self.specifiers@.take(i as int));
            }
            let specifier = &self.specifiers[i];
            let found = match specifier {
                ImportSpecifierInfo::Namespace(ns) => is_ident_equal(ident.as_str(), ns.as_str()),
                ImportSpecifierInfo::Named { local, imported: _ } => is_ident_equal(
                    ident.as_str(),
                    local.as_str(),
                ),
                ImportSpecifierInfo::Default(local_name) => is_ident_equal(ident.as_str(), local_name.as_str()),
            };
            if found {
                proof {
                    lemma_prefix_import_match(self.specifiers@, ident@, i as int);
                }
                return Some(specifier);
            }
            i = i + 1;
        }
        proof {
            assert(self.specifiers@.take(i as int) =~= self.specifiers@);
        }
        None
    }
}

proof fn lemma_prefix_import_match(s: Seq<ImportSpecifierInfo>, n: Seq<char>, i: int)
    requires
        0 <= i < s.len(),
        first_import_match(s.take(i), n) is None,
        import_defines(s[i], n),
    ensures
        first_import_match(s, n) == Some(i),
    decreases s.len(),
{
    assert(s.take(i + 1).drop_last() =~= s.take(i));
    if i + 1 == s.len() {
        assert(s.take(i + 1) =~= s);
    } else {
        assert(s.drop_last().take(i) =~= s.take(i));
        lemma_prefix_import_match(s.drop_last(), n, i);
        assert(s.drop_last()[i] == s[i]);
    }
}

/// One entry of an export clause.
#[derive(Debug, Clone)]
pub enum ExportSpecifierInfo {
    /// `export * from 'x'`, with the names that `x` was found to export.
    All(Vec<String>),
    /// `export { local as exported }`
    Named { local: String, exported: Option<String> },
    /// `export default ...`
    Default(Option<String>),
    /// `export * as ns from 'x'`
    Namespace(String),
    /// An `export *` whose origin cannot be told apart from others.
    Ambiguous(Vec<String>),
}

/// Whether finding a module's exports needs resolution through re-exports.
#[derive(Debug, Clone, Copy, PartialEq, Eq, Structural)]
pub enum ExportSource {
    Local,
    Remote,
}

/// The export facet of a statement.
#[derive(Debug, Clone)]
pub struct ExportInfo {
    pub source: Option<String>,
    pub specifiers: Vec<ExportSpecifierInfo>,
    pub stmt_id: StatementId,
}

/// Verdict of the export resolver for a queried name.
#[derive(Debug, Clone, Copy, PartialEq, Eq, Structural)]
pub enum ExportInfoMatch {
    Matched,
    Ambiguous,
    Unmatched,
}

/// Some name of `names` equals `n` after stripping.
pub open spec fn names_contain(names: Seq<String>, n: Seq<char>) -> bool {
    exists|j: int| 0 <= j < names.len() && ident_eq(n, #[trigger] names[j]@)
}

/// The name under which a `Named` specifier is exported.
pub open spec fn exported_name(local: String, exported: Option<String>) -> Seq<char> {
    match exported {
        Some(e) => e@,
        None => local@,
    }
}

/// Does export specifier `sp` itself export the name `n`?
pub open spec fn export_matches(sp: ExportSpecifierInfo, n: Seq<char>) -> bool {
    match sp {
        ExportSpecifierInfo::Default(_) => n == "default"@,
        ExportSpecifierInfo::Named { local, exported } => ident_eq(n, exported_name(local, exported)),
        ExportSpecifierInfo::Namespace(ns) => ident_eq(n, ns@),
        ExportSpecifierInfo::All(names) => names_contain(names@, n),
        ExportSpecifierInfo::Ambiguous(names) => names_contain(names@, n),
    }
}

/// Index of the first specifier of `s` that exports `n`.
pub open spec fn first_export_match(s: Seq<ExportSpecifierInfo>, n: Seq<char>) -> Option<int>
    decreases s.len(),
{
    if s.len() == 0 {
        None
    } else {
        match first_export_match(s.drop_last(), n) {
            Some(i) => Some(i),
            None => if export_matches(s.last(), n) {
                Some(s.len() - 1)
            } else {
                None
            },
        }
    }
}

/// Number of `Ambiguous` specifiers in `s`.
pub open spec fn ambiguous_count(s: Seq<ExportSpecifierInfo>) -> nat
    decreases s.len(),
{
    if s.len() == 0 {
        0
    } else {
        ambiguous_count(s.drop_last()) + if s.last() is Ambiguous {
            1nat
        } else {
            0nat
        }
    }
}

/// Index of the last `Ambiguous` specifier in `s`, or -1.
pub open spec fn last_ambiguous(s: Seq<ExportSpecifierInfo>) -> int
    decreases s.len(),
{
    if s.len() == 0 {
        -1
    } else if s.last() is Ambiguous {
        s.len() - 1
    } else {
        last_ambiguous(s.drop_last())
    }
}

/// The specifier that provides `n`: the first that exports it, else the
/// only `Ambiguous` one when there is exactly one.
pub open spec fn resolve_export(s: Seq<ExportSpecifierInfo>, n: Seq<char>) -> Option<int> {
    match first_export_match(s, n) {
        Some(i) => Some(i),
        None => if ambiguous_count(s) == 1 {
            Some(last_ambiguous(s))
        } else {
            None
        },
    }
}

/// The resolver's verdict for `n`.
pub open spec fn export_verdict(s: Seq<ExportSpecifierInfo>, n: Seq<char>) -> ExportInfoMatch {
    if resolve_export(s, n) is Some {
        ExportInfoMatch::Matched
    } else if ambiguous_count(s) >= 2 {
        ExportInfoMatch::Ambiguous
    } else {
        ExportInfoMatch::Unmatched
    }
}

proof fn lemma_prefix_export_match(s: Seq<ExportSpecifierInfo>, n: Seq<char>, i: int)
    requires
        0 <= i < s.len(),
        first_export_match(s.take(i), n) is None,
        export_matches(s[i], n),
    ensures
        first_export_match(s, n) == Some(i),
    decreases s.len(),
{
    assert(s.take(i + 1).drop_last() =~= s.take(i));
    if i + 1 == s.len() {
        assert(s.take(i + 1) =~= s);
    } else {
        assert(s.drop_last().take(i) =~= s.take(i));
        lemma_prefix_export_match(s.drop_last(), n, i);
    }
}

pub(crate) proof fn lemma_last_ambiguous(s: Seq<ExportSpecifierInfo>)
    ensures
        ambiguous_count(s) == 0 <==> last_ambiguous(s) == -1,
        ambiguous_count(s) > 0 ==> 0 <= last_ambiguous(s) < s.len() && s[last_ambiguous(s)] is Ambiguous,
    decreases s.len(),
{
    if s.len() > 0 {
        lemma_last_ambiguous(s.drop_last());
    }
}

fn any_ident_equal(ident: &String, names: &Vec<String>) -> (r: bool)
    ensures
        r == names_contain(names@, ident@),
{
    let mut j: usize = 0;
    while j < names.len()
        invariant
            0 <= j <= names@.len(),
            forall|k: int| 0 <= k < j ==> !ident_eq(ident@, #[trigger] names@[k]@),
        decreases names@.len() - j,
    {
        if is_ident_equal(ident.as_str(), names[j].as_str()) {
            return true;
        }
        j = j + 1;
    }
    false
}

/// Does specifier `sp` export `ident`?
fn specifier_exports(sp: &ExportSpecifierInfo, ident: &String) -> (r: bool)
    ensures
        r == export_matches(*sp, ident@),
{
    match sp {
        ExportSpecifierInfo::Default(_) => {
            let d = "default".to_string();
            *ident == d
        },
        ExportSpecifierInfo::Named { local, exported } => {
            let exported_ident = match exported {
                Some(e) => e,
                None => local,
            };
            is_ident_equal(ident.as_str(), exported_ident.as_str())
        },
        ExportSpecifierInfo::Namespace(ns) => is_ident_equal(ident.as_str(), ns.as_str()),
        ExportSpecifierInfo::All(names) => any_ident_equal(ident, names),
        ExportSpecifierInfo::Ambiguous(names) => any_ident_equal(ident, names),
    }
}

impl ExportInfo {
    /// Scans the specifiers for `ident`. Returns the index of the first one that
    /// exports it, else the number of `Ambiguous` specifiers and the index of the
    /// last of them.
    fn scan_specifiers(&self, ident: &String) -> (r: Result<usize, (usize, usize)>)
        ensures
            match r {
                Ok(i) => i < self.specifiers@.len() && first_export_match(self.specifiers@, ident@)
                    == Some(i as int),
                Err((c, last)) => {
                    &&& first_export_match(self.specifiers@, ident@) is None
                    &&& c == ambiguous_count(self.specifiers@)
                    &&& (c > 0 ==> last == last_ambiguous(self.specifiers@))
                },
            },
    {
        let ghost s = self.specifiers@;
        let mut count: usize = 0;
        let mut last: usize = 0;
        let mut i: usize = 0;
        while i < self.specifiers.len()
            invariant
                s == self.specifiers@,
                0 <= i <= s.len(),
                first_export_match(s.take(i as int), ident@) is None,
                count == ambiguous_count(s.take(i as int)),
                count <= i,
                count > 0 ==> last == last_ambiguous(s.take(i as int)),
            decreases s.len() - i,
        {
            proof {
                assert(s.take(i + 1).drop_last() =~= s.take(i as int));
            }
            let specifier = &self.specifiers[i];
            if specifier_exports(specifier, ident) {
                proof {
                    lemma_prefix_export_match(s, ident@, i as int);
                }
                return Ok(i);
            }
            if let ExportSpecifierInfo::Ambiguous(_) = specifier {
                count = count + 1;
                last = i;
            }
            i = i + 1;
        }
        proof {
            assert(s.take(i as int) =~= s);
        }
        Err((count, last))
    }

    /// The specifier that provides `ident`: the first that exports it, else
    /// the only `Ambiguous` specifier when there is exactly one.
    pub fn find_export_specifier(&self, ident: &String) -> (r: Option<&ExportSpecifierInfo>)
        ensures
            match resolve_export(self.specifiers@, ident@) {
                Some(i) => r is Some && *r->0 == self.specifiers@[i],
                None => r is None,
            },
    {
        proof {
            lemma_last_ambiguous(self.specifiers@);
        }
        match self.scan_specifiers(ident) {
            Ok(i) => Some(&self.specifiers[i]),
            Err((count, last)) => {
                if count == 1 {
                    Some(&self.specifiers[last])
                } else {
                    None
                }
            },
        }
    }

    /// Whether this export facet provides `ident`: `Matched` when a specifier
    /// exports it or a single `Ambiguous` one may, `Ambiguous` when several
    /// `Ambiguous` specifiers may, else `Unmatched`.
    pub fn matches_ident(&self, ident: &String) -> (r: ExportInfoMatch)
        ensures
            r == export_verdict(self.specifiers@, ident@),
    {
        match self.scan_specifiers(ident) {
            Ok(_) => ExportInfoMatch::Matched,
            Err((count, _)) => {
                if count == 1 {
                    ExportInfoMatch::Matched
                } else if count >= 2 {
                    ExportInfoMatch::Ambiguous
                } else {
                    ExportInfoMatch::Unmatched
                }
            },
        }
    }
}

/// The names under which a specifier exports something of its own module.
pub open spec fn export_idents(sp: ExportSpecifierInfo) -> Seq<Seq<char>> {
    match sp {
        ExportSpecifierInfo::All(_) => seq![],
        ExportSpecifierInfo::Named { local, exported } => seq![strip(exported_name(local, exported))],
        ExportSpecifierInfo::Default(_) => seq!["default"@],
        ExportSpecifierInfo::Namespace(ns) => seq![strip(ns@)],
        ExportSpecifierInfo::Ambiguous(_) => seq![],
    }
}

impl ExportSpecifierInfo {
    /// The stripped names this specifier exports; re-exports through
    /// `export *` contribute none.
    pub fn to_idents(&self) -> (r: Vec<String>)
        ensures
            r@.map_values(|x: String| x@) == export_idents(*self),
    {
        let r = match self {
            ExportSpecifierInfo::All(_) => Vec::new(),
            ExportSpecifierInfo::Named { local, exported } => {
                match exported {
                    Some(exp) => vec![strip_context(exp.as_str())],
                    None => vec![strip_context(local.as_str())],
                }
            },
            ExportSpecifierInfo::Default(_) => vec!["default".to_string()],
            ExportSpecifierInfo::Namespace(ns) => vec![strip_context(ns.as_str())],
            ExportSpecifierInfo::Ambiguous(_) => Vec::new(),
        };
        assert(r@.map_values(|x: String| x@) =~= export_idents(*self));
        r
    }
}

/// `Remote` when the first specifier is an `export *` (resolved or not).
pub open spec fn export_source_of(info: ExportInfo) -> ExportSource {
    if info.specifiers@.len() > 0 && (info.specifiers@[0] is All || info.specifiers@[0] is Ambiguous) {
        ExportSource::Remote
    } else {
        ExportSource::Local
    }
}

impl<'a> From<&'a ExportInfo> for ExportSource {
    fn from(export_info: &'a ExportInfo) -> (r: ExportSource)
        ensures
            r == export_source_of(*export_info),
    {
        if export_info.specifiers.len() > 0 {
            match &export_info.specifiers[0] {
                ExportSpecifierInfo::All(_) | ExportSpecifierInfo::Ambiguous(_) => {
                    return ExportSource::Remote;
                },
                _ => {},
            }
        }
        ExportSource::Local
    }
}

impl<'a> vstd::std_specs::convert::FromSpecImpl<&'a ExportInfo> for ExportSource {
    open spec fn obeys_from_spec() -> bool {
        true
    }

    open spec fn from_spec(v: &'a ExportInfo) -> ExportSource {
        export_source_of(*v)
    }
}

} // verus!
