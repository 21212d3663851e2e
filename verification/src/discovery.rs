use vstd::prelude::*;
use vstd::string::StringSliceAdditionalSpecFns;

verus! {

/// The byte that separates the components of a path. In UTF-8 it occurs
/// nowhere but as the character `/`.
pub const SEPARATOR: u8 = 0x2f;

/// The last component of a path: what follows its last separator, or the
/// whole path where it has none. A path that ends in a separator has an
/// empty last component.
pub open spec fn last_component(path: Seq<u8>) -> Seq<u8>
    decreases path.len(),
{
    if path.len() == 0 || path.last() == SEPARATOR {
        Seq::empty()
    } else {
        last_component(path.drop_last()).push(path.last())
    }
}

/// A run of bytes without a separator that reaches to the end of the path,
/// and that begins the path or follows a separator, is the last component.
proof fn lemma_last_component_is_suffix(path: Seq<u8>, start: int)
    requires
        0 <= start <= path.len(),
        forall|i: int| start <= i < path.len() ==> path[i] != SEPARATOR,
        start == 0 || path[start - 1] == SEPARATOR,
    ensures
        last_component(path) == path.subrange(start, path.len() as int),
    decreases path.len(),
{
    if start == path.len() {
        assert(path.subrange(start, path.len() as int) =~= Seq::<u8>::empty());
    } else {
        let shorter = path.drop_last();
        lemma_last_component_is_suffix(shorter, start);
        assert(shorter.subrange(start, shorter.len() as int).push(path.last()) =~= path.subrange(
            start,
            path.len() as int,
        ));
    }
}

/// Where the last component of `path` begins.
fn last_component_start(path: &[u8]) -> (start: usize)
    ensures
        start <= path@.len(),
        path@.subrange(start as int, path@.len() as int) == last_component(path@),
{
    let len = path.len();
    let mut start = len;
    while start > 0 && path[start - 1] != SEPARATOR
        invariant
            len == path@.len(),
            start <= len,
            forall|i: int| start <= i < len ==> path@[i] != SEPARATOR,
        decreases start,
    {
        start = start - 1;
    }
    proof {
        lemma_last_component_is_suffix(path@, start as int);
    }
    start
}

/// Whether the directory at `path` is named after `user`: whether the last
/// component of the path is the user's name, byte for byte.
pub fn path_names_user(path: &str, user: &str) -> (named: bool)
    ensures
        named == (last_component(path.spec_bytes()) == user.spec_bytes()),
{
    let path_bytes = path.as_bytes();
    let user_bytes = user.as_bytes();
    let start = last_component_start(path_bytes);
    let end = path_bytes.len();
    let len = user_bytes.len();
    if end - start != len {
        return false;
    }
    let ghost name = path_bytes@.subrange(start as int, end as int);
    let mut i: usize = 0;
    while i < len
        invariant
            i <= len,
            len == user_bytes@.len(),
            end == path_bytes@.len(),
            start + len == end,
            name == path_bytes@.subrange(start as int, end as int),
            name == last_component(path.spec_bytes()),
            user_bytes@ == user.spec_bytes(),
            forall|j: int| 0 <= j < i ==> name[j] == user_bytes@[j],
        decreases len - i,
    {
        if path_bytes[start + i] != user_bytes[i] {
            assert(name[i as int] != user_bytes@[i as int]);
            return false;
        }
        i = i + 1;
    }
    assert(name =~= user_bytes@);
    true
}

} // verus!
