//! Directory paths as lists of directory ids, and searching short lists.

use vstd::prelude::*;

verus! {

/// Whether `path` begins with `prefix`.
pub open spec fn is_prefix(prefix: Seq<usize>, path: Seq<usize>) -> bool {
    &&& prefix.len() <= path.len()
    &&& forall|i: int| 0 <= i < prefix.len() ==> path[i] == #[trigger] prefix[i]
}

/// Whether `x` stands at position `k` of `s` and nowhere before it.
pub open spec fn is_first_at<T>(s: Seq<T>, x: T, k: int) -> bool {
    &&& 0 <= k < s.len()
    &&& s[k] == x
    &&& forall|j: int| 0 <= j < k ==> #[trigger] s[j] != x
}

/// The first position of `x` in `s`, if it occurs there.
pub open spec fn position<T>(s: Seq<T>, x: T) -> Option<int> {
    if exists|k: int| is_first_at(s, x, k) {
        Some(choose|k: int| is_first_at(s, x, k))
    } else {
        None
    }
}

/// The first position of a value is the only position that is a first one.
pub proof fn lemma_position_is<T>(s: Seq<T>, x: T, k: int)
    requires
        is_first_at(s, x, k),
    ensures
        position(s, x) == Some(k),
{
    let other = choose|k: int| is_first_at(s, x, k);
    assert(is_first_at(s, x, other));
    if other < k {
        assert(s[other] != x);
    } else if k < other {
        assert(s[k] != x);
    }
}

/// A value that does not occur has no position.
pub proof fn lemma_position_of_absent<T>(s: Seq<T>, x: T)
    requires
        !s.contains(x),
    ensures
        position(s, x) is None,
{
    if exists|k: int| is_first_at(s, x, k) {
        let k = choose|k: int| is_first_at(s, x, k);
        assert(s[k] == x);
    }
}

/// What has a position stands there, and what stands somewhere has a position.
pub proof fn lemma_position_of_present<T>(s: Seq<T>, x: T)
    ensures
        position(s, x) matches Some(k) ==> is_first_at(s, x, k),
        s.contains(x) ==> position(s, x) is Some,
{
    if s.contains(x) && position(s, x) is None {
        let i = choose|i: int| 0 <= i < s.len() && s[i] == x;
        lemma_has_first(s, x, i);
    }
}

/// What stands somewhere in a list stands somewhere first.
proof fn lemma_has_first<T>(s: Seq<T>, x: T, i: int)
    requires
        0 <= i < s.len(),
        s[i] == x,
    ensures
        exists|k: int| is_first_at(s, x, k),
    decreases i,
{
    if exists|j: int| 0 <= j < i && s[j] == x {
        let j = choose|j: int| 0 <= j < i && s[j] == x;
        lemma_has_first(s, x, j);
    } else {
        assert(is_first_at(s, x, i));
    }
}

/// Whether `path` begins with `prefix`.
pub fn path_begins_with(path: &Vec<usize>, prefix: &Vec<usize>) -> (r: bool)
    ensures
        r == is_prefix(prefix@, path@),
{
    assert(prefix@.take(prefix@.len() as int) == prefix@);
    path_begins_with_2(path, prefix, prefix.len())
}

/// Whether `path` begins with the first `len` segments of `prefix`.
pub fn path_begins_with_2(path: &Vec<usize>, prefix: &Vec<usize>, len: usize) -> (r: bool)
    requires
        len <= prefix@.len(),
    ensures
        r == is_prefix(prefix@.take(len as int), path@),
{
    if path.len() < len {
        return false;
    }
    let mut i: usize = 0;
    while i < len
        invariant
            i <= len <= prefix@.len(),
            len <= path@.len(),
            forall|j: int| 0 <= j < i ==> path@[j] == #[trigger] prefix@.take(len as int)[j],
        decreases len - i,
    {
        if path[i] != prefix[i] {
            assert(prefix@.take(len as int)[i as int] != path@[i as int]);
            return false;
        }
        i = i + 1;
    }
    true
}

/// Whether the two paths are the same.
pub fn same_path(a: &Vec<usize>, b: &Vec<usize>) -> (r: bool)
    ensures
        r == (a@ == b@),
{
    if a.len() != b.len() {
        return false;
    }
    let r = path_begins_with(a, b);
    proof {
        if r {
            assert(a@ =~= b@);
        }
    }
    r
}

/// The first position of `x` in `s`.
pub fn find_position(s: &Vec<usize>, x: usize) -> (r: Option<usize>)
    ensures
        match r {
            Some(k) => position(s@, x) == Some(k as int),
            None => position(s@, x) is None,
        },
{
    let mut k: usize = 0;
    while k < s.len()
        invariant
            k <= s@.len(),
            forall|j: int| 0 <= j < k ==> #[trigger] s@[j] != x,
        decreases s@.len() - k,
    {
        if s[k] == x {
            proof {
                lemma_position_is(s@, x, k as int);
            }
            return Some(k);
        }
        k = k + 1;
    }
    proof {
        lemma_position_of_absent(s@, x);
    }
    None
}

/// A copy of the segments of `path` from position `from` up to position `to`.
pub fn copy_range(path: &Vec<usize>, from: usize, to: usize) -> (r: Vec<usize>)
    requires
        from <= to <= path@.len(),
    ensures
        r@ == path@.subrange(from as int, to as int),
{
    let mut r: Vec<usize> = Vec::new();
    let mut i: usize = from;
    while i < to
        invariant
            from <= i <= to <= path@.len(),
            r@ == path@.subrange(from as int, i as int),
        decreases to - i,
    {
        r.push(path[i]);
        assert(path@.subrange(from as int, i + 1) == path@.subrange(from as int, i as int).push(
            path@[i as int],
        ));
        i = i + 1;
    }
    r
}

} // verus!
