//! The filesystem model: a flat list of entries, viewed as a finite map
//! from paths to entries, with the query and update operations that the
//! backend's commands perform on it.

use vstd::prelude::*;
use crate::paths::{
    PathModel, is_prefix_of, rerooted_path, path_eq, path_take, clone_path, path_starts_with,
    reroot_path, lemma_prefix_of_concat, lemma_concat_skip, lemma_prefix_restore,
    lemma_prefix_through_drop_last,
    lemma_concat_cancel,
};

verus! {

/// What a filesystem entry is: a directory, or a file with its bytes.
pub enum EntryKind {
    Directory,
    File(Vec<u8>),
}

/// The mathematical value of an entry's kind.
pub ghost enum KindModel {
    Directory,
    File(Seq<u8>),
}

impl View for EntryKind {
    type V = KindModel;

    open spec fn view(&self) -> KindModel {
        match self {
            EntryKind::Directory => KindModel::Directory,
            EntryKind::File(c) => KindModel::File(c@),
        }
    }
}

impl EntryKind {
    /// A copy of this kind with the same mathematical value.
    pub fn duplicate(&self) -> (r: EntryKind)
        ensures
            r@ == self@,
    {
        match self {
            EntryKind::Directory => EntryKind::Directory,
            EntryKind::File(c) => {
                let mut v: Vec<u8> = Vec::new();
                let mut i: usize = 0;
                while i < c.len()
                    invariant
                        i <= c.len(),
                        v@.len() == i,
                        forall|j: int| 0 <= j < i ==> v@[j] == c@[j],
                    decreases c.len() - i,
                {
                    v.push(c[i]);
                    i += 1;
                }
                assert(v@ =~= c@);
                EntryKind::File(v)
            },
        }
    }
}

/// One entry of the modelled filesystem: its path, its last-modified
/// time in seconds since the epoch, and its kind.
pub struct FsEntry {
    pub path: Vec<String>,
    pub stamp: u64,
    pub kind: EntryKind,
}

/// The mathematical value of an entry: its stamp and its kind.
pub ghost struct EntryModel {
    pub stamp: u64,
    pub kind: KindModel,
}

impl View for FsEntry {
    type V = EntryModel;

    open spec fn view(&self) -> EntryModel {
        EntryModel { stamp: self.stamp, kind: self.kind@ }
    }
}

/// The bytes of a file entry; the empty sequence on a directory.
pub open spec fn file_content(e: EntryModel) -> Seq<u8> {
    match e.kind {
        KindModel::File(c) => c,
        KindModel::Directory => Seq::empty(),
    }
}

/// The outcome of an operation that the model refuses.
#[derive(PartialEq, Eq, Structural, Debug, Clone, Copy)]
pub enum FsError {
    /// The path, or an ancestor it needs, does not exist.
    NotFound,
    /// An entry already sits at the path.
    AlreadyExists,
    /// An ancestor that ought to be a directory is a file.
    NotADirectory,
    /// The path names a directory where a file was expected.
    IsADirectory,
    /// The path is empty, or the destination lies inside the source.
    InvalidPath,
}

/// The finite map that a sequence of entries denotes; in a well-formed
/// filesystem no path repeats, so each path selects one entry.
pub open spec fn entries_map(s: Seq<FsEntry>) -> Map<PathModel, EntryModel>
    decreases s.len(),
{
    if s.len() == 0 {
        Map::empty()
    } else {
        entries_map(s.drop_last()).insert(s.last().path.deep_view(), s.last()@)
    }
}

/// No two entries share a path.
pub open spec fn paths_unique(s: Seq<FsEntry>) -> bool {
    forall|i: int, j: int|
        0 <= i < j < s.len() ==> s[i].path.deep_view() != s[j].path.deep_view()
}

/// Well-formedness of a filesystem map: every path has at least one
/// component, and every entry below the top level lies in a directory
/// that the map also holds.
pub open spec fn fs_wf(m: Map<PathModel, EntryModel>) -> bool {
    &&& forall|p: PathModel| #[trigger] m.dom().contains(p) ==> p.len() >= 1
    &&& forall|p: PathModel|
        #[trigger] m.dom().contains(p) && p.len() >= 2 ==> m.dom().contains(p.drop_last())
            && m[p.drop_last()].kind is Directory
}

/// A path is in the map of an entry sequence exactly when some entry
/// carries it.
pub proof fn lemma_entries_map_membership(s: Seq<FsEntry>, p: PathModel)
    ensures
        entries_map(s).dom().contains(p) <==> exists|i: int|
            0 <= i < s.len() && s[i].path.deep_view() == p,
    decreases s.len(),
{
    if s.len() > 0 {
        let t = s.drop_last();
        lemma_entries_map_membership(t, p);
        if p == s.last().path.deep_view() {
            assert(s[s.len() - 1].path.deep_view() == p);
        } else {
            if entries_map(s).dom().contains(p) {
                let i = choose|i: int| 0 <= i < t.len() && t[i].path.deep_view() == p;
                assert(s[i].path.deep_view() == p);
            }
            if exists|i: int| 0 <= i < s.len() && s[i].path.deep_view() == p {
                let i = choose|i: int| 0 <= i < s.len() && s[i].path.deep_view() == p;
                assert(i < s.len() - 1);
                assert(t[i].path.deep_view() == p);
            }
        }
    }
}

/// In a sequence without repeated paths, the map sends each entry's path
/// to that entry's value.
pub proof fn lemma_entries_map_index(s: Seq<FsEntry>, i: int)
    requires
        paths_unique(s),
        0 <= i < s.len(),
    ensures
        entries_map(s).dom().contains(s[i].path.deep_view()),
        entries_map(s)[s[i].path.deep_view()] == s[i]@,
    decreases s.len(),
{
    let t = s.drop_last();
    if i == s.len() - 1 {
    } else {
        assert(paths_unique(t)) by {
            assert(forall|a: int, b: int|
                0 <= a < b < t.len() ==> t[a].path.deep_view() != t[b].path.deep_view());
        }
        lemma_entries_map_index(t, i);
        assert(s[i].path.deep_view() != s.last().path.deep_view());
    }
}

/// Appending an entry inserts its path into the map.
pub proof fn lemma_entries_map_push(s: Seq<FsEntry>, e: FsEntry)
    ensures
        entries_map(s.push(e)) == entries_map(s).insert(e.path.deep_view(), e@),
{
    assert(s.push(e).drop_last() =~= s);
    assert(s.push(e).last() == e);
}

/// In a well-formed map, every nonempty prefix of a present path is
/// present, and every proper one is a directory.
pub proof fn lemma_ancestors_present(m: Map<PathModel, EntryModel>, p: PathModel, k: int)
    requires
        fs_wf(m),
        m.dom().contains(p),
        1 <= k <= p.len(),
    ensures
        m.dom().contains(p.take(k)),
        k < p.len() ==> m[p.take(k)].kind is Directory,
    decreases p.len() - k,
{
    if k == p.len() {
        assert(p.take(k) =~= p);
    } else {
        lemma_ancestors_present(m, p, k + 1);
        let q = p.take(k + 1);
        assert(q.drop_last() =~= p.take(k));
    }
}

/// Nothing in a well-formed map lies at or under an absent path.
pub proof fn lemma_nothing_under_absent(m: Map<PathModel, EntryModel>, a: PathModel, p: PathModel)
    requires
        fs_wf(m),
        !m.dom().contains(a),
        m.dom().contains(p),
        a.len() >= 1,
    ensures
        !is_prefix_of(a, p),
{
    if is_prefix_of(a, p) {
        lemma_ancestors_present(m, p, a.len() as int);
        assert(p.take(a.len() as int) == a);
    }
}

/// Membership in the map once the subtree at `src` has moved to `dst`:
/// an entry not under `src` stays, and an entry under `src` reappears
/// under `dst` at the same relative path.
pub open spec fn shifted_dom(
    m: Map<PathModel, EntryModel>,
    src: PathModel,
    dst: PathModel,
    p: PathModel,
) -> bool {
    (m.dom().contains(p) && !is_prefix_of(src, p)) || (is_prefix_of(dst, p) && m.dom().contains(
        src + p.skip(dst.len() as int),
    ))
}

/// The entry at `p` after the move: a moved file keeps its entry; a
/// moved directory is created anew at the destination with stamp `now`
/// when `refresh` holds, as relocation does, and keeps its entry when it
/// does not, as a plain rename does.
pub open spec fn shifted_value(
    m: Map<PathModel, EntryModel>,
    src: PathModel,
    dst: PathModel,
    now: u64,
    refresh: bool,
    p: PathModel,
) -> EntryModel {
    if is_prefix_of(dst, p) && m.dom().contains(src + p.skip(dst.len() as int)) {
        let e = m[src + p.skip(dst.len() as int)];
        if refresh && e.kind is Directory {
            EntryModel { stamp: now, kind: KindModel::Directory }
        } else {
            e
        }
    } else {
        m[p]
    }
}

/// The map once the subtree at `src` has moved to `dst`.
pub open spec fn subtree_shifted(
    m: Map<PathModel, EntryModel>,
    src: PathModel,
    dst: PathModel,
    now: u64,
    refresh: bool,
) -> Map<PathModel, EntryModel> {
    Map::new(
        |p: PathModel| shifted_dom(m, src, dst, p),
        |p: PathModel| shifted_value(m, src, dst, now, refresh, p),
    )
}

/// The map after a plain rename of `src` to `dst`: the subtree moves and
/// every entry, directories included, keeps its stamp.
pub open spec fn renamed_tree(
    m: Map<PathModel, EntryModel>,
    src: PathModel,
    dst: PathModel,
) -> Map<PathModel, EntryModel> {
    subtree_shifted(m, src, dst, 0, false)
}

/// The map with the first `k` prefixes of `dst` present: those already
/// in `m` keep their entry, the missing ones become directories stamped
/// `now`.
pub open spec fn dirs_completed_upto(
    m: Map<PathModel, EntryModel>,
    dst: PathModel,
    now: u64,
    k: int,
) -> Map<PathModel, EntryModel> {
    Map::new(
        |p: PathModel| m.dom().contains(p) || (1 <= p.len() <= k && p == dst.take(p.len() as int)),
        |p: PathModel|
            if m.dom().contains(p) {
                m[p]
            } else {
                EntryModel { stamp: now, kind: KindModel::Directory }
            },
    )
}

/// The map after the relocation of `src` to `dst`: the subtree moves
/// with its directories created anew, and the missing ancestors of the
/// destination are created as directories stamped `now`.
pub open spec fn relocated(
    m: Map<PathModel, EntryModel>,
    src: PathModel,
    dst: PathModel,
    now: u64,
) -> Map<PathModel, EntryModel> {
    dirs_completed_upto(
        subtree_shifted(m, src, dst, now, true),
        dst,
        now,
        dst.len() as int - 1,
    )
}

/// When the relocation of `src` to `dst` may proceed: the source exists,
/// nothing sits at the destination, the destination is nonempty and not
/// inside the source, and whichever of its ancestors already exist are
/// directories.
pub open spec fn relocatable(
    m: Map<PathModel, EntryModel>,
    src: PathModel,
    dst: PathModel,
) -> bool {
    &&& m.dom().contains(src)
    &&& !m.dom().contains(dst)
    &&& dst.len() >= 1
    &&& !is_prefix_of(src, dst)
    &&& forall|k: int|
        1 <= k < dst.len() && m.dom().contains(#[trigger] dst.take(k)) ==> m[dst.take(
            k,
        )].kind is Directory
}

/// When a plain rename of `src` to `dst` may proceed: as for relocation,
/// except that the destination's parent must already exist, since a
/// rename creates no directory.
pub open spec fn renamable(
    m: Map<PathModel, EntryModel>,
    src: PathModel,
    dst: PathModel,
) -> bool {
    &&& m.dom().contains(src)
    &&& !m.dom().contains(dst)
    &&& dst.len() >= 1
    &&& !is_prefix_of(src, dst)
    &&& dst.len() >= 2 ==> m.dom().contains(dst.drop_last()) && m[dst.drop_last()].kind
        is Directory
}

/// How one entry of the list is rewritten by the shifting pass.
pub open spec fn shifted_entry_ok(
    e0: FsEntry,
    e1: FsEntry,
    src: PathModel,
    dst: PathModel,
    now: u64,
    refresh: bool,
) -> bool {
    let p0 = e0.path.deep_view();
    &&& e1.path.deep_view() == if is_prefix_of(src, p0) {
        rerooted_path(p0, src, dst)
    } else {
        p0
    }
    &&& e1@ == if refresh && is_prefix_of(src, p0) && e0@.kind is Directory {
        EntryModel { stamp: now, kind: KindModel::Directory }
    } else {
        e0@
    }
}

/// Rewriting each entry of a list as `shifted_entry_ok` says produces
/// exactly the shifted map, and keeps paths distinct.
proof fn lemma_shift_pass(
    s0: Seq<FsEntry>,
    s1: Seq<FsEntry>,
    src: PathModel,
    dst: PathModel,
    now: u64,
    refresh: bool,
)
    requires
        paths_unique(s0),
        s1.len() == s0.len(),
        forall|j: int| 0 <= j < s0.len() ==> shifted_entry_ok(s0[j], s1[j], src, dst, now, refresh),
        fs_wf(entries_map(s0)),
        !entries_map(s0).dom().contains(dst),
        !is_prefix_of(src, dst),
        src.len() >= 1,
        dst.len() >= 1,
    ensures
        paths_unique(s1),
        entries_map(s1) == subtree_shifted(entries_map(s0), src, dst, now, refresh),
{
    let m0 = entries_map(s0);
    let m1 = entries_map(s1);
    let tgt = subtree_shifted(m0, src, dst, now, refresh);
    assert forall|j: int| 0 <= j < s0.len() implies !is_prefix_of(
        dst,
        #[trigger] s0[j].path.deep_view(),
    ) by {
        lemma_entries_map_membership(s0, s0[j].path.deep_view());
        lemma_nothing_under_absent(m0, dst, s0[j].path.deep_view());
    }
    assert forall|i: int, j: int| 0 <= i < j < s1.len() implies s1[i].path.deep_view()
        != s1[j].path.deep_view() by {
        let a = s0[i].path.deep_view();
        let b = s0[j].path.deep_view();
        if is_prefix_of(src, a) && is_prefix_of(src, b) {
            if s1[i].path.deep_view() == s1[j].path.deep_view() {
                lemma_concat_cancel(dst, a.skip(src.len() as int), b.skip(src.len() as int));
                lemma_prefix_restore(src, a);
                lemma_prefix_restore(src, b);
                assert(a =~= b);
            }
        } else if is_prefix_of(src, a) {
            lemma_prefix_of_concat(dst, a.skip(src.len() as int));
        } else if is_prefix_of(src, b) {
            lemma_prefix_of_concat(dst, b.skip(src.len() as int));
        }
    }
    assert forall|p: PathModel| #[trigger] m1.dom().contains(p) implies tgt.dom().contains(p)
        && m1[p] == tgt[p] by {
        lemma_entries_map_membership(s1, p);
        let i = choose|i: int| 0 <= i < s1.len() && s1[i].path.deep_view() == p;
        lemma_entries_map_index(s1, i);
        lemma_entries_map_index(s0, i);
        let p0 = s0[i].path.deep_view();
        if is_prefix_of(src, p0) {
            lemma_prefix_of_concat(dst, p0.skip(src.len() as int));
            lemma_concat_skip(dst, p0.skip(src.len() as int));
            lemma_prefix_restore(src, p0);
            assert(src + p.skip(dst.len() as int) == p0);
            assert(shifted_dom(m0, src, dst, p));
        } else {
            assert(m0.dom().contains(p) && !is_prefix_of(src, p));
            assert(!is_prefix_of(dst, p));
        }
    }
    assert forall|p: PathModel| #[trigger] tgt.dom().contains(p) implies m1.dom().contains(p) by {
        if m0.dom().contains(p) && !is_prefix_of(src, p) {
            lemma_entries_map_membership(s0, p);
            let i = choose|i: int| 0 <= i < s0.len() && s0[i].path.deep_view() == p;
            assert(s1[i].path.deep_view() == p);
            lemma_entries_map_membership(s1, p);
        } else {
            let pre = src + p.skip(dst.len() as int);
            lemma_entries_map_membership(s0, pre);
            let i = choose|i: int| 0 <= i < s0.len() && s0[i].path.deep_view() == pre;
            lemma_prefix_of_concat(src, p.skip(dst.len() as int));
            lemma_concat_skip(src, p.skip(dst.len() as int));
            lemma_prefix_restore(dst, p);
            assert(s1[i].path.deep_view() == dst + p.skip(dst.len() as int));
            assert(s1[i].path.deep_view() == p);
            lemma_entries_map_membership(s1, p);
        }
    }
    assert(m1 =~= tgt);
}

/// A file has no descendants in a well-formed map.
pub proof fn lemma_file_has_no_descendants(m: Map<PathModel, EntryModel>, f: PathModel)
    requires
        fs_wf(m),
        m.dom().contains(f),
        m[f].kind is File,
    ensures
        forall|p: PathModel| m.dom().contains(p) && #[trigger] is_prefix_of(f, p) ==> p == f,
{
    assert forall|p: PathModel|
        m.dom().contains(p) && #[trigger] is_prefix_of(f, p) implies p == f by {
        if p.len() == f.len() {
            assert(p.take(f.len() as int) =~= p);
        } else {
            lemma_ancestors_present(m, p, f.len() as int);
        }
    }
}

/// Completing prefixes of a path's first `k` components does not depend
/// on the components after them.
pub proof fn lemma_dirs_completed_take(
    m: Map<PathModel, EntryModel>,
    d: PathModel,
    now: u64,
    k: int,
)
    requires
        0 <= k <= d.len(),
    ensures
        dirs_completed_upto(m, d.take(k), now, k) == dirs_completed_upto(m, d, now, k),
{
    assert forall|p: PathModel| 1 <= p.len() <= k implies (p == d.take(k).take(p.len() as int))
        == (p == d.take(p.len() as int)) by {
        assert(d.take(k).take(p.len() as int) =~= d.take(p.len() as int));
    }
    assert(dirs_completed_upto(m, d.take(k), now, k) =~= dirs_completed_upto(m, d, now, k));
}

/// The map once the entry at `p` and everything under it are removed.
pub open spec fn tree_removed(m: Map<PathModel, EntryModel>, p: PathModel) -> Map<
    PathModel,
    EntryModel,
> {
    Map::new(|q: PathModel| m.dom().contains(q) && !is_prefix_of(p, q), |q: PathModel| m[q])
}

/// Removing a subtree keeps the filesystem well formed.
pub proof fn lemma_tree_removed_wf(m: Map<PathModel, EntryModel>, p: PathModel)
    requires
        fs_wf(m),
    ensures
        fs_wf(tree_removed(m, p)),
{
    let r = tree_removed(m, p);
    assert forall|q: PathModel| #[trigger] r.dom().contains(q) && q.len() >= 2 implies r.dom()
        .contains(q.drop_last()) && r[q.drop_last()].kind is Directory by {
        if is_prefix_of(p, q.drop_last()) {
            lemma_prefix_through_drop_last(p, q);
        }
    }
}

/// A plain rename keeps the filesystem well formed.
pub proof fn lemma_renamed_wf(m: Map<PathModel, EntryModel>, src: PathModel, dst: PathModel)
    requires
        fs_wf(m),
        renamable(m, src, dst),
    ensures
        fs_wf(renamed_tree(m, src, dst)),
{
    let r = renamed_tree(m, src, dst);
    assert forall|p: PathModel| #[trigger] r.dom().contains(p) && p.len() >= 2 implies r.dom()
        .contains(p.drop_last()) && r[p.drop_last()].kind is Directory by {
        let q = p.drop_last();
        if m.dom().contains(p) && !is_prefix_of(src, p) {
            if is_prefix_of(src, q) {
                lemma_prefix_through_drop_last(src, p);
            }
            lemma_nothing_under_absent(m, dst, q);
            assert(shifted_dom(m, src, dst, q));
        } else {
            let suffix = p.skip(dst.len() as int);
            let pre = src + suffix;
            lemma_prefix_restore(dst, p);
            if p.len() == dst.len() {
                assert(p =~= dst);
                assert(q == dst.drop_last());
                if is_prefix_of(src, q) {
                    lemma_prefix_through_drop_last(src, dst);
                }
                assert(m.dom().contains(q) && m[q].kind is Directory);
                assert(shifted_dom(m, src, dst, q));
                assert(!is_prefix_of(dst, q));
            } else {
                assert(suffix.len() >= 1);
                assert(pre.drop_last() =~= src + suffix.drop_last());
                assert(q =~= dst + suffix.drop_last());
                lemma_prefix_of_concat(dst, suffix.drop_last());
                lemma_concat_skip(dst, suffix.drop_last());
                assert(src + q.skip(dst.len() as int) == pre.drop_last());
                assert(pre.len() >= 2);
                assert(m.dom().contains(pre.drop_last()) && m[pre.drop_last()].kind
                    is Directory);
                assert(shifted_dom(m, src, dst, q));
            }
        }
    }
}

/// Relocation keeps the filesystem well formed.
pub proof fn lemma_relocated_wf(
    m: Map<PathModel, EntryModel>,
    src: PathModel,
    dst: PathModel,
    now: u64,
)
    requires
        fs_wf(m),
        relocatable(m, src, dst),
    ensures
        fs_wf(relocated(m, src, dst, now)),
{
    let mid = subtree_shifted(m, src, dst, now, true);
    let r = relocated(m, src, dst, now);
    assert forall|p: PathModel| #[trigger] r.dom().contains(p) implies p.len() >= 1 by {
        if mid.dom().contains(p) && !(m.dom().contains(p) && !is_prefix_of(src, p)) {
            assert(is_prefix_of(dst, p));
        }
    }
    assert forall|p: PathModel| #[trigger] r.dom().contains(p) && p.len() >= 2 implies r.dom()
        .contains(p.drop_last()) && r[p.drop_last()].kind is Directory by {
        let q = p.drop_last();
        if mid.dom().contains(p) {
            if m.dom().contains(p) && !is_prefix_of(src, p) {
                if is_prefix_of(src, q) {
                    lemma_prefix_through_drop_last(src, p);
                }
                lemma_nothing_under_absent(m, dst, q);
                assert(shifted_dom(m, src, dst, q));
                assert(mid[q] == m[q]);
            } else {
                let suffix = p.skip(dst.len() as int);
                let pre = src + suffix;
                lemma_prefix_restore(dst, p);
                if p.len() == dst.len() {
                    assert(p =~= dst);
                    assert(q == dst.drop_last());
                    assert(q =~= dst.take(dst.len() as int - 1));
                    assert(1 <= q.len() <= dst.len() - 1);
                    assert(r.dom().contains(q));
                    if mid.dom().contains(q) {
                        assert(!is_prefix_of(dst, q));
                        assert(m.dom().contains(q));
                        assert(m[q].kind is Directory);
                        assert(r[q] == m[q]);
                    }
                } else {
                    assert(suffix.len() >= 1);
                    assert(pre.drop_last() =~= src + suffix.drop_last());
                    assert(q =~= dst + suffix.drop_last());
                    lemma_prefix_of_concat(dst, suffix.drop_last());
                    lemma_concat_skip(dst, suffix.drop_last());
                    assert(src + q.skip(dst.len() as int) == pre.drop_last());
                    assert(pre.len() >= 2);
                    assert(m.dom().contains(pre.drop_last()) && m[pre.drop_last()].kind
                        is Directory);
                    assert(shifted_dom(m, src, dst, q));
                    assert(mid[q].kind is Directory);
                }
            }
        } else {
            assert(1 <= p.len() <= dst.len() - 1 && p == dst.take(p.len() as int));
            assert(q =~= dst.take(p.len() as int - 1));
            assert(r.dom().contains(q));
            if mid.dom().contains(q) {
                assert(!is_prefix_of(dst, q));
                assert(m.dom().contains(q));
                assert(m[q].kind is Directory);
                assert(r[q] == m[q]);
            }
        }
    }
}

/// The modelled filesystem.
pub struct FileSystem {
    entries: Vec<FsEntry>,
}

impl View for FileSystem {
    type V = Map<PathModel, EntryModel>;

    closed spec fn view(&self) -> Map<PathModel, EntryModel> {
        entries_map(self.entries@)
    }
}

/// When creating a file at `p` in `m` succeeds: the path is nonempty and
/// free, and its parent, if it has one, is a directory of `m`.
pub open spec fn file_creatable(m: Map<PathModel, EntryModel>, p: PathModel) -> bool {
    &&& p.len() >= 1
    &&& !m.dom().contains(p)
    &&& p.len() >= 2 ==> m.dom().contains(p.drop_last()) && m[p.drop_last()].kind is Directory
}

impl FileSystem {
    /// The filesystem is well formed: no path repeats, and the map it
    /// denotes satisfies `fs_wf`.
    pub closed spec fn wf(&self) -> bool {
        paths_unique(self.entries@) && fs_wf(self@)
    }

    /// The map of a well-formed filesystem satisfies `fs_wf`.
    pub proof fn lemma_wf_map(&self)
        requires
            self.wf(),
        ensures
            fs_wf(self@),
    {
    }

    /// The empty filesystem.
    pub fn new() -> (fs: FileSystem)
        ensures
            fs@ == Map::<PathModel, EntryModel>::empty(),
            fs.wf(),
    {
        let fs = FileSystem { entries: Vec::new() };
        proof {
            assert(fs.entries@.len() == 0);
        }
        fs
    }

    /// The index of the entry at `path`, if one exists.
    fn find(&self, path: &Vec<String>) -> (r: Option<usize>)
        ensures
            match r {
                Some(i) => i < self.entries@.len()
                    && self.entries@[i as int].path.deep_view() == path.deep_view(),
                None => forall|i: int|
                    0 <= i < self.entries@.len()
                        ==> self.entries@[i].path.deep_view() != path.deep_view(),
            },
    {
        let mut i: usize = 0;
        while i < self.entries.len()
            invariant
                i <= self.entries@.len(),
                forall|j: int|
                    0 <= j < i ==> self.entries@[j].path.deep_view() != path.deep_view(),
            decreases self.entries@.len() - i,
        {
            if path_eq(&self.entries[i].path, path) {
                return Some(i);
            }
            i += 1;
        }
        None
    }

    /// Whether any entry sits at `path`.
    pub fn contains_path(&self, path: &Vec<String>) -> (r: bool)
        ensures
            r == self@.dom().contains(path.deep_view()),
    {
        proof {
            lemma_entries_map_membership(self.entries@, path.deep_view());
        }
        match self.find(path) {
            Some(_) => true,
            None => false,
        }
    }

    /// Whether `path` exists and is a directory; a missing path and a
    /// file path both answer `false`.
    pub fn is_dir(&self, path: &Vec<String>) -> (r: bool)
        requires
            self.wf(),
        ensures
            r == (self@.dom().contains(path.deep_view())
                && self@[path.deep_view()].kind is Directory),
    {
        proof {
            lemma_entries_map_membership(self.entries@, path.deep_view());
        }
        match self.find(path) {
            Some(i) => {
                proof {
                    lemma_entries_map_index(self.entries@, i as int);
                }
                match &self.entries[i].kind {
                    EntryKind::Directory => true,
                    EntryKind::File(_) => false,
                }
            },
            None => false,
        }
    }

    /// The last-modified time of the entry at `path`; a missing path is
    /// reported as not found, never as a time.
    pub fn edit_time(&self, path: &Vec<String>) -> (r: Result<u64, FsError>)
        requires
            self.wf(),
        ensures
            self@.dom().contains(path.deep_view())
                ==> r == Ok::<u64, FsError>(self@[path.deep_view()].stamp),
            !self@.dom().contains(path.deep_view())
                ==> r == Err::<u64, FsError>(FsError::NotFound),
    {
        proof {
            lemma_entries_map_membership(self.entries@, path.deep_view());
        }
        match self.find(path) {
            Some(i) => {
                proof {
                    lemma_entries_map_index(self.entries@, i as int);
                }
                Ok(self.entries[i].stamp)
            },
            None => Err(FsError::NotFound),
        }
    }

    /// The bytes of the file at `path`.
    pub fn read_file(&self, path: &Vec<String>) -> (r: Result<&Vec<u8>, FsError>)
        requires
            self.wf(),
        ensures
            !self@.dom().contains(path.deep_view()) ==> r == Err::<&Vec<u8>, FsError>(
                FsError::NotFound,
            ),
            self@.dom().contains(path.deep_view())
                && self@[path.deep_view()].kind is Directory ==> r == Err::<&Vec<u8>, FsError>(
                FsError::IsADirectory,
            ),
            self@.dom().contains(path.deep_view()) && self@[path.deep_view()].kind is File
                ==> (r matches Ok(c) && c@ == file_content(self@[path.deep_view()])),
    {
        proof {
            lemma_entries_map_membership(self.entries@, path.deep_view());
        }
        match self.find(path) {
            Some(i) => {
                proof {
                    lemma_entries_map_index(self.entries@, i as int);
                }
                match &self.entries[i].kind {
                    EntryKind::Directory => Err(FsError::IsADirectory),
                    EntryKind::File(c) => Ok(c),
                }
            },
            None => Err(FsError::NotFound),
        }
    }

    /// Creates a file at `path` with the given bytes, stamped `now`.
    /// The parent directory must already exist; no directory is created.
    pub fn create_file(&mut self, path: &Vec<String>, content: Vec<u8>, now: u64) -> (r: Result<
        (),
        FsError,
    >)
        requires
            old(self).wf(),
        ensures
            final(self).wf(),
            r is Ok <==> file_creatable(old(self)@, path.deep_view()),
            r is Ok ==> final(self)@ == old(self)@.insert(
                path.deep_view(),
                EntryModel { stamp: now, kind: KindModel::File(content@) },
            ),
            r is Err ==> final(self)@ == old(self)@,
            path.deep_view().len() == 0 ==> r == Err::<(), FsError>(FsError::InvalidPath),
            path.deep_view().len() >= 1 && old(self)@.dom().contains(path.deep_view()) ==> r
                == Err::<(), FsError>(FsError::AlreadyExists),
            path.deep_view().len() >= 2 && !old(self)@.dom().contains(path.deep_view())
                && !old(self)@.dom().contains(path.deep_view().drop_last()) ==> r == Err::<
                (),
                FsError,
            >(FsError::NotFound),
            path.deep_view().len() >= 2 && !old(self)@.dom().contains(path.deep_view())
                && old(self)@.dom().contains(path.deep_view().drop_last())
                && !(old(self)@[path.deep_view().drop_last()].kind is Directory) ==> r == Err::<
                (),
                FsError,
            >(FsError::NotADirectory),
    {
        if path.len() == 0 {
            return Err(FsError::InvalidPath);
        }
        if self.contains_path(path) {
            return Err(FsError::AlreadyExists);
        }
        if path.len() >= 2 {
            let parent = path_take(path, path.len() - 1);
            proof {
                assert(parent.deep_view() =~= path.deep_view().drop_last());
            }
            if !self.contains_path(&parent) {
                return Err(FsError::NotFound);
            }
            if !self.is_dir(&parent) {
                return Err(FsError::NotADirectory);
            }
        }
        let ghost m0 = self@;
        let ghost pv = path.deep_view();
        let entry = FsEntry { path: clone_path(path), stamp: now, kind: EntryKind::File(content) };
        proof {
            lemma_entries_map_membership(self.entries@, pv);
            lemma_entries_map_push(self.entries@, entry);
        }
        self.entries.push(entry);
        proof {
            assert(self@ == m0.insert(pv, EntryModel { stamp: now, kind: KindModel::File(content@) }));
            assert(paths_unique(self.entries@)) by {
                let s = self.entries@;
                assert(forall|i: int| 0 <= i < s.len() - 1
                    ==> s[i].path.deep_view() != pv);
            }
            assert(fs_wf(self@)) by {
                assert forall|p: PathModel| #[trigger] self@.dom().contains(p) && p.len() >= 2
                    implies self@.dom().contains(p.drop_last())
                        && self@[p.drop_last()].kind is Directory
                by {
                    if p == pv {
                        assert(m0.dom().contains(p.drop_last()));
                        assert(p.drop_last() != pv);
                    } else {
                        assert(m0.dom().contains(p));
                        assert(p.drop_last() != pv);
                    }
                }
            }
        }
        Ok(())
    }

    /// Rewrites every entry's path as the move of `source` to `dest`
    /// prescribes; with `refresh`, moved directories take the stamp `now`.
    fn shift_entries(&mut self, source: &Vec<String>, dest: &Vec<String>, now: u64, refresh: bool)
        ensures
            final(self).entries@.len() == old(self).entries@.len(),
            forall|j: int|
                0 <= j < old(self).entries@.len() ==> shifted_entry_ok(
                    old(self).entries@[j],
                    final(self).entries@[j],
                    source.deep_view(),
                    dest.deep_view(),
                    now,
                    refresh,
                ),
    {
        let ghost s0 = self.entries@;
        let ghost sv = source.deep_view();
        let ghost dv = dest.deep_view();
        proof {
            assert(sv.len() == source@.len());
            assert(dv.len() == dest@.len());
        }
        let n = self.entries.len();
        let mut out: Vec<FsEntry> = Vec::new();
        let mut i: usize = 0;
        while i < n
            invariant
                i <= n,
                n == s0.len(),
                self.entries@ == s0,
                out@.len() == i,
                sv == source.deep_view(),
                dv == dest.deep_view(),
                sv.len() == source@.len(),
                dv.len() == dest@.len(),
                forall|j: int| 0 <= j < i ==> shifted_entry_ok(s0[j], out@[j], sv, dv, now, refresh),
            decreases n - i,
        {
            let e = &self.entries[i];
            proof {
                assert(e.path.deep_view().len() == e.path@.len());
            }
            let moved = path_starts_with(&e.path, source);
            let new_path = if moved {
                reroot_path(&e.path, source.len(), dest)
            } else {
                clone_path(&e.path)
            };
            let (new_stamp, new_kind) = if refresh && moved {
                match &e.kind {
                    EntryKind::Directory => (now, EntryKind::Directory),
                    EntryKind::File(_) => (e.stamp, e.kind.duplicate()),
                }
            } else {
                (e.stamp, e.kind.duplicate())
            };
            out.push(FsEntry { path: new_path, stamp: new_stamp, kind: new_kind });
            i += 1;
        }
        self.entries = out;
    }

    /// Renames the entry at `source`, moving the whole subtree under it,
    /// to `dest`; every entry keeps its stamp, and no directory is
    /// created. Exactly the renames that `renamable` admits succeed.
    pub fn rename_entry(&mut self, source: &Vec<String>, dest: &Vec<String>) -> (r: Result<
        (),
        FsError,
    >)
        requires
            old(self).wf(),
        ensures
            final(self).wf(),
            r is Ok <==> renamable(old(self)@, source.deep_view(), dest.deep_view()),
            r is Ok ==> final(self)@ == renamed_tree(
                old(self)@,
                source.deep_view(),
                dest.deep_view(),
            ),
            r is Err ==> final(self)@ == old(self)@,
            !old(self)@.dom().contains(source.deep_view()) ==> r == Err::<(), FsError>(
                FsError::NotFound,
            ),
            old(self)@.dom().contains(source.deep_view()) && old(self)@.dom().contains(
                dest.deep_view(),
            ) ==> r == Err::<(), FsError>(FsError::AlreadyExists),
            old(self)@.dom().contains(source.deep_view()) && !old(self)@.dom().contains(
                dest.deep_view(),
            ) && (dest.deep_view().len() == 0 || is_prefix_of(
                source.deep_view(),
                dest.deep_view(),
            )) ==> r == Err::<(), FsError>(FsError::InvalidPath),
            old(self)@.dom().contains(source.deep_view()) && !old(self)@.dom().contains(
                dest.deep_view(),
            ) && dest.deep_view().len() >= 2 && !is_prefix_of(source.deep_view(), dest.deep_view())
                && !old(self)@.dom().contains(dest.deep_view().drop_last()) ==> r == Err::<
                (),
                FsError,
            >(FsError::NotFound),
            old(self)@.dom().contains(source.deep_view()) && !old(self)@.dom().contains(
                dest.deep_view(),
            ) && dest.deep_view().len() >= 2 && !is_prefix_of(source.deep_view(), dest.deep_view())
                && old(self)@.dom().contains(dest.deep_view().drop_last()) && !(old(self)@[
                dest.deep_view().drop_last()].kind is Directory) ==> r == Err::<(), FsError>(
                FsError::NotADirectory,
            ),
    {
        let ghost m0 = self@;
        let ghost sv = source.deep_view();
        let ghost dv = dest.deep_view();
        if !self.contains_path(source) {
            return Err(FsError::NotFound);
        }
        if self.contains_path(dest) {
            return Err(FsError::AlreadyExists);
        }
        if dest.len() == 0 {
            return Err(FsError::InvalidPath);
        }
        if path_starts_with(dest, source) {
            return Err(FsError::InvalidPath);
        }
        if dest.len() >= 2 {
            let parent = path_take(dest, dest.len() - 1);
            proof {
                assert(parent.deep_view() =~= dv.drop_last());
            }
            if !self.contains_path(&parent) {
                return Err(FsError::NotFound);
            }
            if !self.is_dir(&parent) {
                return Err(FsError::NotADirectory);
            }
        }
        let ghost s0 = self.entries@;
        self.shift_entries(source, dest, 0, false);
        proof {
            assert(m0.dom().contains(sv) ==> sv.len() >= 1);
            lemma_shift_pass(s0, self.entries@, sv, dv, 0, false);
            lemma_renamed_wf(m0, sv, dv);
        }
        Ok(())
    }

    /// Creates the directory at `path` and whichever of its ancestors
    /// are missing, each stamped `now`; directories already present are
    /// left as they are.
    pub fn create_dir_all(&mut self, path: &Vec<String>, now: u64) -> (r: Result<(), FsError>)
        requires
            old(self).wf(),
        ensures
            final(self).wf(),
            r is Ok <==> dirs_creatable(old(self)@, path.deep_view()),
            r is Ok ==> final(self)@ == dirs_completed_upto(
                old(self)@,
                path.deep_view(),
                now,
                path.deep_view().len() as int,
            ),
            r is Err ==> final(self)@ == old(self)@,
            path.deep_view().len() == 0 ==> r == Err::<(), FsError>(FsError::InvalidPath),
            path.deep_view().len() >= 1 && !dirs_creatable(old(self)@, path.deep_view()) ==> r
                == Err::<(), FsError>(FsError::NotADirectory),
    {
        let ghost m0 = self@;
        let ghost pv = path.deep_view();
        if path.len() == 0 {
            return Err(FsError::InvalidPath);
        }
        let mut k: usize = 0;
        while k < path.len()
            invariant
                self.wf(),
                self@ == m0,
                k <= pv.len(),
                pv == path.deep_view(),
                pv.len() == path@.len(),
                pv.len() >= 1,
                forall|j: int|
                    1 <= j <= k && m0.dom().contains(#[trigger] pv.take(j)) ==> m0[pv.take(
                        j,
                    )].kind is Directory,
            decreases path@.len() - k,
        {
            let prefix = path_take(path, k + 1);
            if self.contains_path(&prefix) && !self.is_dir(&prefix) {
                return Err(FsError::NotADirectory);
            }
            k += 1;
        }
        self.complete_dirs(path, path.len(), now);
        proof {
            lemma_dirs_completed_wf(m0, pv, now, pv.len() as int);
        }
        Ok(())
    }

    /// Adds the missing prefixes of `path` of up to `upto` components as
    /// directories stamped `now`.
    fn complete_dirs(&mut self, path: &Vec<String>, upto: usize, now: u64)
        requires
            paths_unique(old(self).entries@),
            upto <= path@.len(),
        ensures
            paths_unique(final(self).entries@),
            final(self)@ == dirs_completed_upto(
                old(self)@,
                path.deep_view(),
                now,
                upto as int,
            ),
    {
        let ghost m0 = self@;
        let ghost pv = path.deep_view();
        proof {
            assert(self@ =~= dirs_completed_upto(m0, pv, now, 0));
        }
        let mut k: usize = 0;
        while k < upto
            invariant
                k <= upto,
                upto <= path@.len(),
                pv == path.deep_view(),
                pv.len() == path@.len(),
                paths_unique(self.entries@),
                self@ == dirs_completed_upto(m0, pv, now, k as int),
            decreases upto - k,
        {
            let prefix = path_take(path, k + 1);
            let ghost q = pv.take(k as int + 1);
            if !self.contains_path(&prefix) {
                let entry = FsEntry { path: prefix, stamp: now, kind: EntryKind::Directory };
                proof {
                    lemma_entries_map_membership(self.entries@, q);
                    lemma_entries_map_push(self.entries@, entry);
                }
                self.entries.push(entry);
                proof {
                    assert(self@ =~= dirs_completed_upto(m0, pv, now, k as int + 1)) by {
                        assert(q.len() == k + 1);
                        assert(q =~= pv.take(q.len() as int));
                    }
                    assert(paths_unique(self.entries@)) by {
                        let s = self.entries@;
                        assert(forall|i: int|
                            0 <= i < s.len() - 1 ==> s[i].path.deep_view() != q);
                    }
                }
            } else {
                proof {
                    assert(dirs_completed_upto(m0, pv, now, k as int) =~= dirs_completed_upto(
                        m0,
                        pv,
                        now,
                        k as int + 1,
                    )) by {
                        assert forall|p: PathModel|
                            1 <= p.len() <= k + 1 && p == pv.take(
                                p.len() as int,
                            ) implies dirs_completed_upto(m0, pv, now, k as int).dom().contains(
                            p,
                        ) by {
                            if p.len() == k + 1 {
                                assert(p == q);
                            }
                        }
                    }
                }
            }
            k += 1;
        }
    }

    /// Removes the entry at `path` and everything under it.
    pub fn remove_tree(&mut self, path: &Vec<String>) -> (r: Result<(), FsError>)
        requires
            old(self).wf(),
        ensures
            final(self).wf(),
            r is Ok <==> old(self)@.dom().contains(path.deep_view()),
            r is Ok ==> final(self)@ == tree_removed(old(self)@, path.deep_view()),
            r is Err ==> final(self)@ == old(self)@ && r == Err::<(), FsError>(FsError::NotFound),
    {
        if !self.contains_path(path) {
            return Err(FsError::NotFound);
        }
        let ghost m0 = self@;
        let ghost pv = path.deep_view();
        let ghost s0 = self.entries@;
        let n = self.entries.len();
        let mut out: Vec<FsEntry> = Vec::new();
        proof {
            assert(s0.take(0) =~= Seq::<FsEntry>::empty());
            assert(entries_map(out@) =~= tree_removed(entries_map(s0.take(0)), pv));
        }
        let mut i: usize = 0;
        while i < n
            invariant
                i <= n,
                n == s0.len(),
                self.entries@ == s0,
                paths_unique(s0),
                pv == path.deep_view(),
                paths_unique(out@),
                forall|j: int|
                    0 <= j < out@.len() ==> entries_map(s0.take(i as int)).dom().contains(
                        #[trigger] out@[j].path.deep_view(),
                    ),
                entries_map(out@) == tree_removed(entries_map(s0.take(i as int)), pv),
            decreases n - i,
        {
            let e = &self.entries[i];
            proof {
                assert(s0.take(i as int + 1).drop_last() =~= s0.take(i as int));
                assert(s0.take(i as int + 1).last() == s0[i as int]);
            }
            if path_starts_with(&e.path, path) {
                proof {
                    assert(tree_removed(entries_map(s0.take(i as int + 1)), pv) =~= tree_removed(
                        entries_map(s0.take(i as int)),
                        pv,
                    ));
                }
            } else {
                let ne = FsEntry {
                    path: clone_path(&e.path),
                    stamp: e.stamp,
                    kind: e.kind.duplicate(),
                };
                proof {
                    lemma_entries_map_membership(s0.take(i as int), e.path.deep_view());
                    assert(forall|k: int|
                        0 <= k < i ==> s0.take(i as int)[k] == s0[k]);
                    assert(!entries_map(s0.take(i as int)).dom().contains(e.path.deep_view()));
                    lemma_entries_map_push(out@, ne);
                }
                out.push(ne);
                proof {
                    assert(entries_map(out@) =~= tree_removed(
                        entries_map(s0.take(i as int + 1)),
                        pv,
                    ));
                    assert(paths_unique(out@)) by {
                        let s = out@;
                        assert(forall|j: int|
                            0 <= j < s.len() - 1 ==> s[j].path.deep_view() != ne.path.deep_view());
                    }
                }
            }
            i += 1;
        }
        proof {
            assert(s0.take(n as int) =~= s0);
        }
        self.entries = out;
        proof {
            lemma_tree_removed_wf(m0, pv);
        }
        Ok(())
    }

    /// Relocates the entry at `source` to `dest`: a file moves with its
    /// content and stamp once the destination's missing ancestors have
    /// been created; a directory tree is recreated under `dest`, its
    /// files moved and its directories created anew, and nothing remains
    /// at or under `source`.
    pub fn relocate(&mut self, source: &Vec<String>, dest: &Vec<String>, now: u64)
        requires
            old(self).wf(),
            relocatable(old(self)@, source.deep_view(), dest.deep_view()),
        ensures
            final(self).wf(),
            final(self)@ == relocated(old(self)@, source.deep_view(), dest.deep_view(), now),
    {
        let ghost m0 = self@;
        let ghost sv = source.deep_view();
        let ghost dv = dest.deep_view();
        let ghost s0 = self.entries@;
        self.shift_entries(source, dest, now, true);
        proof {
            assert(m0.dom().contains(sv) ==> sv.len() >= 1);
            lemma_shift_pass(s0, self.entries@, sv, dv, now, true);
            assert(dv.len() == dest@.len());
        }
        self.complete_dirs(dest, dest.len() - 1, now);
        proof {
            lemma_relocated_wf(m0, sv, dv, now);
        }
    }

    /// Relocates `source` to `dest` when `relocatable` admits it, and
    /// otherwise reports why it refuses, leaving the filesystem as it
    /// was.
    pub fn try_relocate(&mut self, source: &Vec<String>, dest: &Vec<String>, now: u64) -> (r:
        Result<(), FsError>)
        requires
            old(self).wf(),
        ensures
            final(self).wf(),
            r is Ok <==> relocatable(old(self)@, source.deep_view(), dest.deep_view()),
            r is Ok ==> final(self)@ == relocated(
                old(self)@,
                source.deep_view(),
                dest.deep_view(),
                now,
            ),
            r is Err ==> final(self)@ == old(self)@,
            !old(self)@.dom().contains(source.deep_view()) ==> r == Err::<(), FsError>(
                FsError::NotFound,
            ),
            old(self)@.dom().contains(source.deep_view()) && old(self)@.dom().contains(
                dest.deep_view(),
            ) ==> r == Err::<(), FsError>(FsError::AlreadyExists),
            old(self)@.dom().contains(source.deep_view()) && !old(self)@.dom().contains(
                dest.deep_view(),
            ) && (dest.deep_view().len() == 0 || is_prefix_of(
                source.deep_view(),
                dest.deep_view(),
            )) ==> r == Err::<(), FsError>(FsError::InvalidPath),
            old(self)@.dom().contains(source.deep_view()) && !old(self)@.dom().contains(
                dest.deep_view(),
            ) && dest.deep_view().len() >= 1 && !is_prefix_of(source.deep_view(), dest.deep_view())
                && !relocatable(old(self)@, source.deep_view(), dest.deep_view()) ==> r == Err::<
                (),
                FsError,
            >(FsError::NotADirectory),
    {
        let ghost m0 = self@;
        let ghost sv = source.deep_view();
        let ghost dv = dest.deep_view();
        if !self.contains_path(source) {
            return Err(FsError::NotFound);
        }
        if self.contains_path(dest) {
            return Err(FsError::AlreadyExists);
        }
        if dest.len() == 0 {
            return Err(FsError::InvalidPath);
        }
        if path_starts_with(dest, source) {
            return Err(FsError::InvalidPath);
        }
        let mut k: usize = 1;
        while k < dest.len()
            invariant
                self.wf(),
                self@ == m0,
                1 <= k,
                dv == dest.deep_view(),
                sv == source.deep_view(),
                dv.len() == dest@.len(),
                dv.len() >= 1,
                m0.dom().contains(sv),
                !m0.dom().contains(dv),
                !is_prefix_of(sv, dv),
                forall|j: int|
                    1 <= j < k && m0.dom().contains(#[trigger] dv.take(j)) ==> m0[dv.take(
                        j,
                    )].kind is Directory,
            decreases dest@.len() - k,
        {
            let prefix = path_take(dest, k);
            if self.contains_path(&prefix) && !self.is_dir(&prefix) {
                return Err(FsError::NotADirectory);
            }
            k += 1;
        }
        self.relocate(source, dest, now);
        Ok(())
    }
}

/// When `create_dir_all` on `p` succeeds in `m`: the path is nonempty
/// and whatever already exists along it is a directory.
pub open spec fn dirs_creatable(m: Map<PathModel, EntryModel>, p: PathModel) -> bool {
    &&& p.len() >= 1
    &&& forall|k: int|
        1 <= k <= p.len() && m.dom().contains(#[trigger] p.take(k)) ==> m[p.take(
            k,
        )].kind is Directory
}

/// Completing the ancestors of a path keeps a well-formed filesystem
/// well formed, provided whatever already exists along the path is a
/// directory.
pub proof fn lemma_dirs_completed_wf(
    m: Map<PathModel, EntryModel>,
    path: PathModel,
    now: u64,
    bound: int,
)
    requires
        fs_wf(m),
        0 <= bound <= path.len(),
        forall|k: int|
            1 <= k <= bound && m.dom().contains(#[trigger] path.take(k)) ==> m[path.take(
                k,
            )].kind is Directory,
    ensures
        fs_wf(dirs_completed_upto(m, path, now, bound)),
{
    let r = dirs_completed_upto(m, path, now, bound);
    assert forall|p: PathModel| #[trigger] r.dom().contains(p) && p.len() >= 2 implies r.dom()
        .contains(p.drop_last()) && r[p.drop_last()].kind is Directory by {
        let q = p.drop_last();
        if m.dom().contains(p) {
            assert(m.dom().contains(q) && m[q].kind is Directory);
        } else {
            assert(1 <= p.len() <= bound && p == path.take(p.len() as int));
            assert(q =~= path.take(p.len() as int - 1));
            assert(r.dom().contains(q));
            if m.dom().contains(q) {
                assert(m[q].kind is Directory);
            }
        }
    }
}

} // verus!
