//! The laws of the relocation operation, proved once and for all over
//! the map semantics that `model::relocated` gives it.

use vstd::prelude::*;
use crate::paths::{
    PathModel, is_prefix_of, rerooted_path, lemma_prefix_of_concat, lemma_concat_skip,
    lemma_prefix_restore, lemma_prefix_trans, lemma_prefix_comparable,
};
use crate::model::{
    EntryModel, KindModel, fs_wf, relocatable, relocated, subtree_shifted, shifted_dom,
    renamed_tree, dirs_completed_upto, tree_removed, lemma_nothing_under_absent,
    lemma_file_has_no_descendants,
};

verus! {

/// Relocating a file: the destination holds the file's entry — content
/// and stamp unchanged — and the source path no longer exists.
pub proof fn lemma_relocate_file(
    m: Map<PathModel, EntryModel>,
    f: PathModel,
    d: PathModel,
    now: u64,
)
    requires
        fs_wf(m),
        relocatable(m, f, d),
        m[f].kind is File,
    ensures
        relocated(m, f, d, now).dom().contains(d),
        relocated(m, f, d, now)[d] == m[f],
        !relocated(m, f, d, now).dom().contains(f),
        forall|p: PathModel|
            m.dom().contains(p) && !is_prefix_of(f, p) ==> #[trigger] relocated(
                m,
                f,
                d,
                now,
            ).dom().contains(p) && relocated(m, f, d, now)[p] == m[p],
{
    let r = relocated(m, f, d, now);
    assert forall|p: PathModel|
        m.dom().contains(p) && !is_prefix_of(f, p) implies #[trigger] r.dom().contains(p) && r[p]
        == m[p] by {
        lemma_nothing_under_absent(m, d, p);
    }
    let mid = subtree_shifted(m, f, d, now, true);
    assert(d.take(d.len() as int) =~= d);
    assert(f + d.skip(d.len() as int) =~= f);
    assert(mid.dom().contains(d));
    assert(f.take(f.len() as int) =~= f);
    lemma_nothing_under_absent(m, d, f);
    if 1 <= f.len() <= d.len() - 1 && f == d.take(f.len() as int) {
        assert(d.take(f.len() as int).len() == f.len());
        assert(is_prefix_of(f, d));
    }
    assert(!mid.dom().contains(f));
}

/// Relocating a directory tree: every entry under the source reappears
/// at its relative path under the destination — files with their entry
/// unchanged — and nothing remains at or under the source.
pub proof fn lemma_relocate_tree(
    m: Map<PathModel, EntryModel>,
    t: PathModel,
    d: PathModel,
    now: u64,
)
    requires
        fs_wf(m),
        relocatable(m, t, d),
    ensures
        forall|p: PathModel|
            m.dom().contains(p) && is_prefix_of(t, p) ==> #[trigger] relocated(
                m,
                t,
                d,
                now,
            ).dom().contains(rerooted_path(p, t, d)),
        forall|p: PathModel|
            m.dom().contains(p) && is_prefix_of(t, p) && m[p].kind is File ==> #[trigger] relocated(
                m,
                t,
                d,
                now,
            )[rerooted_path(p, t, d)] == m[p],
        forall|p: PathModel|
            is_prefix_of(t, p) ==> !(#[trigger] relocated(m, t, d, now).dom().contains(p)),
        forall|p: PathModel|
            m.dom().contains(p) && !is_prefix_of(t, p) ==> #[trigger] relocated(
                m,
                t,
                d,
                now,
            ).dom().contains(p) && relocated(m, t, d, now)[p] == m[p],
{
    let r = relocated(m, t, d, now);
    assert forall|p: PathModel|
        m.dom().contains(p) && !is_prefix_of(t, p) implies #[trigger] r.dom().contains(p) && r[p]
        == m[p] by {
        lemma_nothing_under_absent(m, d, p);
    }
    assert forall|p: PathModel|
        m.dom().contains(p) && is_prefix_of(t, p) implies #[trigger] r.dom().contains(
        rerooted_path(p, t, d),
    ) by {
        let q = rerooted_path(p, t, d);
        lemma_prefix_of_concat(d, p.skip(t.len() as int));
        lemma_concat_skip(d, p.skip(t.len() as int));
        lemma_prefix_restore(t, p);
        assert(t + q.skip(d.len() as int) == p);
        assert(shifted_dom(m, t, d, q));
    }
    assert forall|p: PathModel|
        m.dom().contains(p) && is_prefix_of(t, p) && m[p].kind is File implies #[trigger] r[
        rerooted_path(p, t, d)] == m[p] by {
        let q = rerooted_path(p, t, d);
        lemma_prefix_of_concat(d, p.skip(t.len() as int));
        lemma_concat_skip(d, p.skip(t.len() as int));
        lemma_prefix_restore(t, p);
        assert(t + q.skip(d.len() as int) == p);
        assert(shifted_dom(m, t, d, q));
        assert(r.dom().contains(q));
    }
    assert forall|p: PathModel| is_prefix_of(t, p) implies !(#[trigger] r.dom().contains(p)) by {
        if r.dom().contains(p) {
            if m.dom().contains(p) && !is_prefix_of(t, p) {
            } else if is_prefix_of(d, p) && m.dom().contains(t + p.skip(d.len() as int)) {
                if d.len() <= t.len() {
                    lemma_prefix_comparable(d, t, p);
                    lemma_nothing_under_absent(m, d, t);
                } else {
                    lemma_prefix_comparable(t, d, p);
                }
            } else {
                assert(1 <= p.len() <= d.len() - 1 && p == d.take(p.len() as int));
                assert(d.take(p.len() as int).len() == p.len());
                assert(is_prefix_of(p, d));
                lemma_prefix_trans(t, p, d);
            }
        }
    }
}

/// Carrying a single file's relocation out in steps — create the
/// destination's missing ancestors, then rename the file — produces
/// exactly the relocation's map.
pub proof fn lemma_relocate_file_by_steps(
    m: Map<PathModel, EntryModel>,
    f: PathModel,
    d: PathModel,
    now: u64,
)
    requires
        fs_wf(m),
        relocatable(m, f, d),
        m[f].kind is File,
    ensures
        renamed_tree(dirs_completed_upto(m, d, now, d.len() as int - 1), f, d) == relocated(
            m,
            f,
            d,
            now,
        ),
{
    let k = d.len() as int - 1;
    let m1 = dirs_completed_upto(m, d, now, k);
    let lhs = renamed_tree(m1, f, d);
    let mid = subtree_shifted(m, f, d, now, true);
    let rhs = relocated(m, f, d, now);
    lemma_file_has_no_descendants(m, f);
    lemma_nothing_under_absent(m, d, f);
    assert(f.take(f.len() as int) =~= f);
    assert(d.take(d.len() as int) =~= d);
    assert(f + d.skip(d.len() as int) =~= f);
    assert forall|q: PathModel|
        1 <= q.len() <= k && q == d.take(q.len() as int) implies !is_prefix_of(f, q) && q != d
        && !is_prefix_of(d, q) by {
        assert(d.take(q.len() as int).len() == q.len());
        assert(is_prefix_of(q, d));
        if is_prefix_of(f, q) {
            lemma_prefix_trans(f, q, d);
        }
    }
    assert forall|q: PathModel|
        is_prefix_of(d, q) && #[trigger] m.dom().contains(f + q.skip(d.len() as int)) implies q
        == d by {
        lemma_prefix_of_concat(f, q.skip(d.len() as int));
        assert(f + q.skip(d.len() as int) == f);
        assert(q.skip(d.len() as int).len() == 0);
        lemma_prefix_restore(d, q);
        assert(q =~= d);
    }
    assert forall|q: PathModel|
        is_prefix_of(d, q) && #[trigger] m1.dom().contains(f + q.skip(d.len() as int)) implies q
        == d by {
        let x = f + q.skip(d.len() as int);
        lemma_prefix_of_concat(f, q.skip(d.len() as int));
        if 1 <= x.len() <= k && x == d.take(x.len() as int) {
            assert(!is_prefix_of(f, x));
        }
        assert(m.dom().contains(x));
    }
    assert forall|q: PathModel| #[trigger] lhs.dom().contains(q) implies rhs.dom().contains(q)
        && lhs[q] == rhs[q] by {
        if q == d {
            assert(m1.dom().contains(f));
            assert(shifted_dom(m, f, d, d));
            assert(mid[d] == m[f]);
            assert(lhs[d] == m1[f]);
            assert(m1[f] == m[f]);
        } else {
            assert(m1.dom().contains(q) && !is_prefix_of(f, q));
            if m.dom().contains(q) {
                assert(shifted_dom(m, f, d, q));
                assert(!(is_prefix_of(d, q) && m.dom().contains(f + q.skip(d.len() as int))));
                assert(!(is_prefix_of(d, q) && m1.dom().contains(f + q.skip(d.len() as int))));
                assert(mid[q] == m[q]);
                assert(lhs[q] == m1[q]);
                assert(m1[q] == m[q]);
            } else {
                assert(1 <= q.len() <= k && q == d.take(q.len() as int));
                assert(!is_prefix_of(d, q));
                assert(!mid.dom().contains(q));
                assert(rhs.dom().contains(q));
                assert(rhs[q] == EntryModel { stamp: now, kind: KindModel::Directory });
                assert(lhs[q] == m1[q]);
                assert(m1[q] == EntryModel { stamp: now, kind: KindModel::Directory });
            }
        }
    }
    assert forall|q: PathModel| #[trigger] rhs.dom().contains(q) implies lhs.dom().contains(
        q,
    ) by {
        if mid.dom().contains(q) {
            if m.dom().contains(q) && !is_prefix_of(f, q) {
                assert(shifted_dom(m1, f, d, q));
            } else {
                assert(q == d);
                assert(m1.dom().contains(f));
                assert(shifted_dom(m1, f, d, d));
            }
        } else {
            assert(1 <= q.len() <= k && q == d.take(q.len() as int));
            assert(m1.dom().contains(q) && !is_prefix_of(f, q));
            assert(shifted_dom(m1, f, d, q));
        }
    }
    assert(lhs =~= rhs);
}

/// Carrying an empty directory's relocation out in steps — create the
/// destination directory with its missing ancestors, then remove the
/// source — produces exactly the relocation's map.
pub proof fn lemma_relocate_empty_dir_by_steps(
    m: Map<PathModel, EntryModel>,
    t: PathModel,
    d: PathModel,
    now: u64,
)
    requires
        fs_wf(m),
        relocatable(m, t, d),
        m[t].kind is Directory,
        forall|p: PathModel| m.dom().contains(p) && #[trigger] is_prefix_of(t, p) ==> p == t,
    ensures
        tree_removed(dirs_completed_upto(m, d, now, d.len() as int), t) == relocated(
            m,
            t,
            d,
            now,
        ),
{
    let m1 = dirs_completed_upto(m, d, now, d.len() as int);
    let lhs = tree_removed(m1, t);
    let mid = subtree_shifted(m, t, d, now, true);
    let rhs = relocated(m, t, d, now);
    lemma_nothing_under_absent(m, d, t);
    assert(t.take(t.len() as int) =~= t);
    assert(d.take(d.len() as int) =~= d);
    assert(t + d.skip(d.len() as int) =~= t);
    assert forall|q: PathModel|
        1 <= q.len() <= d.len() && q == d.take(q.len() as int) implies !is_prefix_of(t, q) by {
        assert(d.take(q.len() as int).len() == q.len());
        assert(is_prefix_of(q, d));
        if is_prefix_of(t, q) {
            lemma_prefix_trans(t, q, d);
        }
    }
    assert forall|q: PathModel|
        is_prefix_of(d, q) && #[trigger] m.dom().contains(t + q.skip(d.len() as int)) implies q
        == d by {
        lemma_prefix_of_concat(t, q.skip(d.len() as int));
        assert(t + q.skip(d.len() as int) == t);
        assert(q.skip(d.len() as int).len() == 0);
        lemma_prefix_restore(d, q);
        assert(q =~= d);
    }
    assert forall|q: PathModel| #[trigger] lhs.dom().contains(q) implies rhs.dom().contains(q)
        && lhs[q] == rhs[q] by {
        if m.dom().contains(q) {
            assert(shifted_dom(m, t, d, q));
            assert(!(is_prefix_of(d, q) && m.dom().contains(t + q.skip(d.len() as int))));
            assert(mid[q] == m[q]);
        } else {
            assert(1 <= q.len() <= d.len() && q == d.take(q.len() as int));
            if q.len() == d.len() {
                assert(q =~= d);
                assert(shifted_dom(m, t, d, d));
                assert(mid[d] == EntryModel { stamp: now, kind: KindModel::Directory });
            } else {
                assert(!is_prefix_of(d, q));
                assert(!mid.dom().contains(q));
                assert(rhs.dom().contains(q));
            }
        }
    }
    assert forall|q: PathModel| #[trigger] rhs.dom().contains(q) implies lhs.dom().contains(
        q,
    ) by {
        if mid.dom().contains(q) {
            if m.dom().contains(q) && !is_prefix_of(t, q) {
                assert(m1.dom().contains(q));
            } else {
                assert(q == d);
                assert(m1.dom().contains(d));
                assert(!is_prefix_of(t, d));
            }
        } else {
            assert(1 <= q.len() <= d.len() - 1 && q == d.take(q.len() as int));
            assert(m1.dom().contains(q));
        }
    }
    assert(lhs =~= rhs);
}

/// Relocating an empty directory: the destination directory is created,
/// though there was no file to move, and the source directory is
/// removed.
pub proof fn lemma_relocate_empty_dir(
    m: Map<PathModel, EntryModel>,
    t: PathModel,
    d: PathModel,
    now: u64,
)
    requires
        fs_wf(m),
        relocatable(m, t, d),
        m[t].kind is Directory,
        forall|p: PathModel| m.dom().contains(p) && #[trigger] is_prefix_of(t, p) ==> p == t,
    ensures
        relocated(m, t, d, now).dom().contains(d),
        relocated(m, t, d, now)[d].kind is Directory,
        !relocated(m, t, d, now).dom().contains(t),
{
    let mid = subtree_shifted(m, t, d, now, true);
    assert(d.take(d.len() as int) =~= d);
    assert(t + d.skip(d.len() as int) =~= t);
    assert(mid.dom().contains(d));
    assert(t.take(t.len() as int) =~= t);
    lemma_nothing_under_absent(m, d, t);
    if 1 <= t.len() <= d.len() - 1 && t == d.take(t.len() as int) {
        assert(d.take(t.len() as int).len() == t.len());
        assert(is_prefix_of(t, d));
    }
    assert(!mid.dom().contains(t));
}

} // verus!
