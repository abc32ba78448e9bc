//! Type names with a fixed meaning in the hierarchy.
use vstd::prelude::*;

verus! {

/// The generic binary type, a supertype of every non-inode type.
pub open spec fn octet_stream() -> Seq<char> {
    "application/octet-stream"@
}

/// The generic text type, a supertype of every `text/` type.
pub open spec fn text_plain() -> Seq<char> {
    "text/plain"@
}

/// The type of an empty regular file.
pub open spec fn zero_size() -> Seq<char> {
    "application/x-zerosize"@
}

/// `s` begins with `p`.
pub open spec fn has_prefix(s: Seq<char>, p: Seq<char>) -> bool {
    p.len() <= s.len() && s.take(p.len() as int) == p
}

/// Types for file-system entries other than regular files.
pub open spec fn is_inode(t: Seq<char>) -> bool {
    has_prefix(t, "inode/"@)
}

/// Textual types.
pub open spec fn is_text(t: Seq<char>) -> bool {
    has_prefix(t, "text/"@)
}

/// Whether `s` begins with `p`.
pub fn starts_with(s: &str, p: &str) -> (r: bool)
    ensures
        r == has_prefix(s@, p@),
{
    let n = p.unicode_len();
    if s.unicode_len() < n {
        return false;
    }
    let mut i: usize = 0;
    while i < n
        invariant
            n == p@.len(),
            n <= s@.len(),
            i <= n,
            forall|k: int| 0 <= k < i ==> s@[k] == p@[k],
        decreases n - i,
    {
        if s.get_char(i) != p.get_char(i) {
            assert(s@.take(n as int)[i as int] != p@[i as int]);
            return false;
        }
        i += 1;
    }
    assert(s@.take(n as int) =~= p@);
    true
}

/// Whether `t` names an inode type.
pub fn is_inode_name(t: &str) -> (r: bool)
    ensures
        r == is_inode(t@),
{
    starts_with(t, "inode/")
}

/// Whether `t` names a textual type.
pub fn is_text_name(t: &str) -> (r: bool)
    ensures
        r == is_text(t@),
{
    starts_with(t, "text/")
}

} // verus!
