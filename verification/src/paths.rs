//! Paths as byte strings, and the few operations the engine needs on them.
//!
//! A path is kept as the bytes of its textual form, with `/` separating
//! components. Relative destination paths never begin with a separator.

use vstd::prelude::*;

verus! {

/// The path separator byte, `/`.
pub open spec fn sep() -> u8 {
    47
}

/// What stripping a directory prefix from a path yields: the whole path
/// must begin with the prefix, followed by nothing or by a separator and
/// the relative remainder.
pub open spec fn spec_strip_prefix(path: Seq<u8>, prefix: Seq<u8>) -> Option<Seq<u8>> {
    if path == prefix {
        Some(Seq::<u8>::empty())
    } else if path.len() > prefix.len() && path.take(prefix.len() as int) == prefix && path[prefix.len() as int]
        == sep() {
        Some(path.skip(prefix.len() as int + 1))
    } else {
        None
    }
}

/// What joining a directory and a relative path yields.
pub open spec fn spec_join(dir: Seq<u8>, rel: Seq<u8>) -> Seq<u8> {
    dir.push(sep()) + rel
}

/// Compares two byte strings for equality.
pub fn bytes_eq(a: &[u8], b: &[u8]) -> (r: bool)
    ensures
        r == (a@ == b@),
{
    if a.len() != b.len() {
        return false;
    }
    let mut i: usize = 0;
    while i < a.len()
        invariant
            0 <= i <= a@.len(),
            a@.len() == b@.len(),
            forall|j: int| 0 <= j < i ==> a@[j] == b@[j],
        decreases a@.len() - i,
    {
        if a[i] != b[i] {
            return false;
        }
        i = i + 1;
    }
    proof {
        assert(a@ =~= b@);
    }
    true
}

/// Whether some entry of the list is this byte string.
pub fn list_contains(list: &Vec<Vec<u8>>, x: &[u8]) -> (r: bool)
    ensures
        r == exists|i: int| 0 <= i < list@.len() && #[trigger] list@[i]@ == x@,
{
    let mut i: usize = 0;
    while i < list.len()
        invariant
            0 <= i <= list@.len(),
            forall|j: int| 0 <= j < i ==> #[trigger] list@[j]@ != x@,
        decreases list@.len() - i,
    {
        if bytes_eq(list[i].as_slice(), x) {
            return true;
        }
        i = i + 1;
    }
    false
}

/// Strips a directory prefix, yielding the relative remainder.
pub fn strip_prefix(path: &[u8], prefix: &[u8]) -> (r: Option<Vec<u8>>)
    ensures
        match r {
            Some(rel) => spec_strip_prefix(path@, prefix@) == Some(rel@),
            None => spec_strip_prefix(path@, prefix@) is None,
        },
{
    if path.len() < prefix.len() {
        return None;
    }
    let mut i: usize = 0;
    while i < prefix.len()
        invariant
            0 <= i <= prefix@.len() <= path@.len(),
            forall|j: int| 0 <= j < i ==> path@[j] == prefix@[j],
        decreases prefix@.len() - i,
    {
        if path[i] != prefix[i] {
            proof {
                assert(path@.take(prefix@.len() as int)[i as int] != prefix@[i as int]);
                assert(path@ != prefix@) by {
                    if path@ == prefix@ {
                        assert(path@[i as int] == prefix@[i as int]);
                    }
                }
            }
            return None;
        }
        i = i + 1;
    }
    if path.len() == prefix.len() {
        proof {
            assert(path@ =~= prefix@);
        }
        return Some(Vec::new());
    }
    proof {
        assert(path@.take(prefix@.len() as int) =~= prefix@);
    }
    if path[prefix.len()] != 47 {
        return None;
    }
    let mut rel: Vec<u8> = Vec::new();
    let mut k: usize = prefix.len() + 1;
    while k < path.len()
        invariant
            prefix@.len() as int + 1 <= k <= path@.len(),
            rel@ == path@.subrange(prefix@.len() as int + 1, k as int),
        decreases path@.len() - k,
    {
        rel.push(path[k]);
        assert(rel@ =~= path@.subrange(prefix@.len() as int + 1, k + 1));
        k = k + 1;
    }
    assert(rel@ =~= path@.skip(prefix@.len() as int + 1));
    Some(rel)
}

/// Joins a directory and a relative path with a separator.
pub fn join(dir: &[u8], rel: &[u8]) -> (r: Vec<u8>)
    ensures
        r@ == spec_join(dir@, rel@),
{
    let mut out: Vec<u8> = Vec::new();
    let mut i: usize = 0;
    while i < dir.len()
        invariant
            0 <= i <= dir@.len(),
            out@ == dir@.take(i as int),
        decreases dir@.len() - i,
    {
        out.push(dir[i]);
        assert(out@ =~= dir@.take(i + 1));
        i = i + 1;
    }
    assert(out@ =~= dir@);
    out.push(47);
    let mut j: usize = 0;
    while j < rel.len()
        invariant
            0 <= j <= rel@.len(),
            out@ == dir@.push(sep()) + rel@.take(j as int),
        decreases rel@.len() - j,
    {
        out.push(rel[j]);
        assert(out@ =~= dir@.push(sep()) + rel@.take(j + 1));
        j = j + 1;
    }
    assert(out@ =~= spec_join(dir@, rel@));
    out
}

} // verus!
