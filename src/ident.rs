use vstd::prelude::*;
use vstd::string::*;

verus! {

broadcast use vstd::string::group_string_axioms;

/// Position of the first `#` in `s` at or after `i`, or `s.len()` if none.
pub open spec fn hash_pos(s: Seq<char>, i: int) -> int
    decreases s.len() - i,
{
    if i < 0 || i >= s.len() {
        s.len() as int
    } else if s[i] == '#' {
        i
    } else {
        hash_pos(s, i + 1)
    }
}

/// An identifier without its binding-scope suffix: everything before the
/// first `#`.
pub open spec fn strip(s: Seq<char>) -> Seq<char> {
    s.take(hash_pos(s, 0))
}

/// Two identifiers name the same binding when their stripped forms agree.
pub open spec fn ident_eq(a: Seq<char>, b: Seq<char>) -> bool {
    strip(a) == strip(b)
}

/// Removes the binding-scope suffix (`#n`) that the parser appends to an
/// identifier.
pub fn strip_context(ident: &str) -> (r: String)
    ensures
        r@ == strip(ident@),
{
    let n = ident.unicode_len();
    let mut i: usize = 0;
    while i < n
        invariant
            n == ident@.len(),
            0 <= i <= n,
            hash_pos(ident@, 0) == hash_pos(ident@, i as int),
        ensures
            0 <= i <= n,
            hash_pos(ident@, 0) == hash_pos(ident@, i as int),
            i == n || ident@[i as int] == '#',
        decreases n - i,
    {
        if ident.get_char(i) == '#' {
            break;
        }
        i = i + 1;
    }
    assert(hash_pos(ident@, i as int) == i);
    ident.substring_char(0, i).to_string()
}

/// Compares two identifiers after stripping their binding-scope suffixes.
pub fn is_ident_equal(a: &str, b: &str) -> (r: bool)
    ensures
        r == ident_eq(a@, b@),
{
    let sa = strip_context(a);
    let sb = strip_context(b);
    sa == sb
}

} // verus!
