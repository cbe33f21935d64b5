//! Which names the tree accepts, in the virtual namespace and on disk.

use crate::text::{lemma_ascii_contains, lemma_utf8_ascii, lemma_utf8_prefix, same, utf8};
use vstd::prelude::*;
use vstd::string::*;
use vstd::utf8::*;

verus! {

/// A name for an organisation, a repository or a step of a branch name.
pub open spec fn is_valid_component(name: Seq<char>) -> bool {
    &&& name.len() > 0
    &&& utf8(name).len() <= 255
    &&& name[0] != '.'
    &&& !name.contains('/')
    &&& !name.contains('\\')
    &&& !name.contains('\0')
    &&& !name.contains(':')
}

/// A name for an entry of a real directory.
pub open spec fn is_valid_disk_name(name: Seq<char>) -> bool {
    &&& name.len() > 0
    &&& name != seq!['.']
    &&& name != seq!['.', '.']
    &&& !name.contains('/')
    &&& !name.contains('\0')
}

/// Whether none of the bytes of `s` is `c`.
fn lacks(s: &str, c: u8) -> (r: bool)
    requires
        c < 0x80,
    ensures
        r == !s@.contains(c as char),
{
    let bytes = s.as_bytes();
    proof {
        lemma_ascii_contains(s@, c as char);
    }
    let mut i: usize = 0;
    while i < bytes.len()
        invariant
            i <= bytes.len(),
            bytes@ == utf8(s@),
            s@.contains(c as char) <==> bytes@.contains((c as char) as u8),
            forall|j: int| 0 <= j < i ==> bytes@[j] != c,
        decreases bytes.len() - i,
    {
        if bytes[i] == c {
            assert(bytes@[i as int] == (c as char) as u8);
            return false;
        }
        i = i + 1;
    }
    true
}

/// Returns true if `name` is acceptable as an org/repo/ref path component.
///
/// Clients can send arbitrary names; anything that could escape the virtual
/// namespace (path separators, `.` and `..`) or that is clearly a metadata
/// probe (`.DS_Store`, `._*`) is rejected, so that it never reaches the
/// network.
pub fn valid_component(name: &str) -> (r: bool)
    ensures
        r == is_valid_component(name@),
{
    let bytes = name.as_bytes();
    if bytes.len() == 0 || bytes.len() > 255 {
        proof {
            if name@.len() > 0 {
                encode_utf8_first_scalar(name@);
            }
        }
        return false;
    }
    proof {
        reveal_strlit(".");
        assert("."@ =~= seq!['.']);
        lemma_utf8_ascii('.');
        lemma_utf8_prefix("."@, name@);
        assert(name@.len() > 0 && name@[0] == '.' ==> "."@ =~= name@.subrange(0, 1));
        assert(bytes@[0] == 46 ==> utf8("."@) =~= bytes@.subrange(0, 1));
        assert("."@.is_prefix_of(name@) ==> name@.subrange(0, 1)[0] == '.');
        assert(utf8("."@).is_prefix_of(bytes@) ==> bytes@.subrange(0, 1)[0] == 46);
    }
    bytes[0] != 46 && lacks(name, 47) && lacks(name, 92) && lacks(name, 0) && lacks(name, 58)
}

/// Names allowed inside worktrees: anything a normal file can be called
/// (leading dots included), but nothing that could escape the directory.
pub fn valid_disk_name(name: &str) -> (r: bool)
    ensures
        r == is_valid_disk_name(name@),
{
    proof {
        reveal_strlit(".");
        reveal_strlit("..");
        assert("."@ =~= seq!['.']);
        assert(".."@ =~= seq!['.', '.']);
    }
    !name.is_empty() && !same(name, ".") && !same(name, "..") && lacks(name, 47) && lacks(name, 0)
}

/// Every name of the virtual namespace could also name a real entry: nothing
/// that passes the stricter test can leave its directory.
pub proof fn law_components_are_disk_names(name: Seq<char>)
    requires
        is_valid_component(name),
    ensures
        is_valid_disk_name(name),
{
}

} // verus!
