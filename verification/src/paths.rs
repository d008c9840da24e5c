//! Paths as sequences of component names, with the prefix ordering that
//! directory containment induces, and the executable helpers that compare,
//! copy and re-root paths.

use vstd::prelude::*;

verus! {

/// The mathematical value of a path: the sequence of its component names.
pub type PathModel = Seq<Seq<char>>;

/// `pre` is an ancestor of `p`, or `p` itself.
pub open spec fn is_prefix_of(pre: PathModel, p: PathModel) -> bool {
    pre.len() <= p.len() && p.take(pre.len() as int) == pre
}

/// The path of the entry at `p` after the subtree at `src` has been moved
/// to `dst`; meaningful when `src` is a prefix of `p`.
pub open spec fn rerooted_path(p: PathModel, src: PathModel, dst: PathModel) -> PathModel {
    dst + p.skip(src.len() as int)
}

pub proof fn lemma_prefix_of_concat(a: PathModel, b: PathModel)
    ensures
        is_prefix_of(a, a + b),
{
    assert((a + b).take(a.len() as int) =~= a);
}

pub proof fn lemma_concat_skip(a: PathModel, b: PathModel)
    ensures
        (a + b).skip(a.len() as int) =~= b,
{
}

/// A path is its own prefix followed by the remainder.
pub proof fn lemma_prefix_restore(pre: PathModel, p: PathModel)
    requires
        is_prefix_of(pre, p),
    ensures
        pre + p.skip(pre.len() as int) =~= p,
{
}

pub proof fn lemma_prefix_trans(a: PathModel, b: PathModel, c: PathModel)
    requires
        is_prefix_of(a, b),
        is_prefix_of(b, c),
    ensures
        is_prefix_of(a, c),
{
    assert(c.take(a.len() as int) =~= b.take(a.len() as int));
}

/// A prefix of a path without its last component is a prefix of the path.
pub proof fn lemma_prefix_through_drop_last(a: PathModel, p: PathModel)
    requires
        p.len() >= 1,
        is_prefix_of(a, p.drop_last()),
    ensures
        is_prefix_of(a, p),
{
    assert(p.take(a.len() as int) =~= p.drop_last().take(a.len() as int));
}

/// Of two prefixes of one path, the shorter is a prefix of the longer.
pub proof fn lemma_prefix_comparable(a: PathModel, b: PathModel, p: PathModel)
    requires
        is_prefix_of(a, p),
        is_prefix_of(b, p),
        a.len() <= b.len(),
    ensures
        is_prefix_of(a, b),
{
    assert(b.take(a.len() as int) =~= a);
}

/// Concatenation on the left is injective.
pub proof fn lemma_concat_cancel(a: PathModel, b: PathModel, c: PathModel)
    requires
        a + b == a + c,
    ensures
        b == c,
{
    lemma_concat_skip(a, b);
    lemma_concat_skip(a, c);
    assert(b =~= c);
}

/// Whether two component vectors denote the same path.
pub fn path_eq(a: &Vec<String>, b: &Vec<String>) -> (r: bool)
    ensures
        r == (a.deep_view() == b.deep_view()),
{
    if a.len() != b.len() {
        assert(a.deep_view().len() != b.deep_view().len());
        return false;
    }
    let mut i: usize = 0;
    while i < a.len()
        invariant
            i <= a.len(),
            a.len() == b.len(),
            forall|j: int| 0 <= j < i ==> a.deep_view()[j] == b.deep_view()[j],
        decreases a.len() - i,
    {
        if !(a[i] == b[i]) {
            assert(a.deep_view()[i as int] != b.deep_view()[i as int]);
            return false;
        }
        i += 1;
    }
    assert(a.deep_view() =~= b.deep_view());
    true
}

/// Whether `pre` is an ancestor of `p` or `p` itself.
pub fn path_starts_with(p: &Vec<String>, pre: &Vec<String>) -> (r: bool)
    ensures
        r == is_prefix_of(pre.deep_view(), p.deep_view()),
{
    if pre.len() > p.len() {
        return false;
    }
    let mut i: usize = 0;
    while i < pre.len()
        invariant
            i <= pre.len(),
            pre.len() <= p.len(),
            forall|j: int| 0 <= j < i ==> p.deep_view()[j] == pre.deep_view()[j],
        decreases pre.len() - i,
    {
        if !(p[i] == pre[i]) {
            assert(p.deep_view().take(pre.deep_view().len() as int)[i as int]
                != pre.deep_view()[i as int]);
            return false;
        }
        i += 1;
    }
    assert(p.deep_view().take(pre.deep_view().len() as int) =~= pre.deep_view());
    true
}

/// A copy of a path's component vector.
pub fn clone_path(p: &Vec<String>) -> (r: Vec<String>)
    ensures
        r@ == p@,
        r.deep_view() == p.deep_view(),
{
    let mut r: Vec<String> = Vec::new();
    let mut i: usize = 0;
    while i < p.len()
        invariant
            i <= p.len(),
            r@.len() == i,
            forall|j: int| 0 <= j < i ==> r@[j] == p@[j],
        decreases p.len() - i,
    {
        r.push(p[i].clone());
        i += 1;
    }
    assert(r@ =~= p@);
    assert(r.deep_view() =~= p.deep_view());
    r
}

/// The first `k` components of `p`.
pub fn path_take(p: &Vec<String>, k: usize) -> (r: Vec<String>)
    requires
        k <= p.len(),
    ensures
        r@ == p@.take(k as int),
        r.deep_view() == p.deep_view().take(k as int),
{
    let mut r: Vec<String> = Vec::new();
    let mut i: usize = 0;
    while i < k
        invariant
            i <= k,
            k <= p.len(),
            r@.len() == i,
            forall|j: int| 0 <= j < i ==> r@[j] == p@[j],
        decreases k - i,
    {
        r.push(p[i].clone());
        i += 1;
    }
    assert(r@ =~= p@.take(k as int));
    assert(r.deep_view() =~= p.deep_view().take(k as int));
    r
}

/// The path of `p` once the subtree at a source of `srclen` components,
/// of which `p` is part, has been moved under `dst`.
pub fn reroot_path(p: &Vec<String>, srclen: usize, dst: &Vec<String>) -> (r: Vec<String>)
    requires
        srclen <= p.len(),
    ensures
        r.deep_view() == dst.deep_view() + p.deep_view().skip(srclen as int),
{
    let mut r: Vec<String> = clone_path(dst);
    let mut i: usize = srclen;
    while i < p.len()
        invariant
            srclen <= i <= p.len(),
            r@.len() == dst@.len() + i - srclen,
            forall|j: int| 0 <= j < dst@.len() ==> r@[j] == dst@[j],
            forall|j: int| dst@.len() <= j < r@.len() ==> r@[j] == p@[j - dst@.len() + srclen],
        decreases p.len() - i,
    {
        r.push(p[i].clone());
        i += 1;
    }
    assert(r.deep_view() =~= dst.deep_view() + p.deep_view().skip(srclen as int));
    r
}

} // verus!
