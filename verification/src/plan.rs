//! The sequence of filesystem actions that carries a relocation out on
//! a real filesystem. The caller walks the source tree, hands its
//! directories and files over as relative paths, and performs the
//! returned actions in order: every needed directory is created before
//! any file moves into it, and the source tree is removed last.

use vstd::prelude::*;
use crate::paths::{PathModel, is_prefix_of, clone_path, path_take, reroot_path};
use crate::model::{
    FileSystem, dirs_creatable, renamable, relocatable, relocated, dirs_completed_upto,
    lemma_dirs_completed_take,
};
use crate::laws::{lemma_relocate_file_by_steps, lemma_relocate_empty_dir_by_steps};

verus! {

/// One step of a relocation, for the caller that owns the real
/// filesystem to carry out.
pub enum FsAction {
    /// Create this directory and its missing ancestors.
    EnsureDir(Vec<String>),
    /// Move the file at the first path to the second.
    MoveFile(Vec<String>, Vec<String>),
    /// Remove the directory tree at this path.
    RemoveTree(Vec<String>),
}

/// The action creates the directory `p`.
pub open spec fn is_ensure_dir(a: FsAction, p: PathModel) -> bool {
    match a {
        FsAction::EnsureDir(q) => q.deep_view() == p,
        _ => false,
    }
}

/// The action moves the file at `from` to `to`.
pub open spec fn is_move_file(a: FsAction, from: PathModel, to: PathModel) -> bool {
    match a {
        FsAction::MoveFile(f, t) => f.deep_view() == from && t.deep_view() == to,
        _ => false,
    }
}

/// The action removes the tree at `p`.
pub open spec fn is_remove_tree(a: FsAction, p: PathModel) -> bool {
    match a {
        FsAction::RemoveTree(q) => q.deep_view() == p,
        _ => false,
    }
}

/// The actions that relocate `source` to `dest`. For a directory
/// source, `sub_dirs` and `sub_files` are the directories and files
/// found under it, as relative paths: the destination directory and the
/// image of every subdirectory are created first, then every file moves
/// to its place under the destination, and the source tree is removed
/// last. For a file source, the destination's parent is created and the
/// file moves.
pub fn relocation_plan(
    source: &Vec<String>,
    dest: &Vec<String>,
    source_is_dir: bool,
    sub_dirs: &Vec<Vec<String>>,
    sub_files: &Vec<Vec<String>>,
) -> (plan: Vec<FsAction>)
    ensures
        source_is_dir ==> plan@.len() == 2 + sub_dirs@.len() + sub_files@.len(),
        source_is_dir ==> is_ensure_dir(plan@[0], dest.deep_view()),
        source_is_dir ==> forall|i: int|
            0 <= i < sub_dirs@.len() ==> is_ensure_dir(
                #[trigger] plan@[1 + i],
                dest.deep_view() + sub_dirs@[i].deep_view(),
            ),
        source_is_dir ==> forall|j: int|
            0 <= j < sub_files@.len() ==> is_move_file(
                #[trigger] plan@[1 + sub_dirs@.len() + j],
                source.deep_view() + sub_files@[j].deep_view(),
                dest.deep_view() + sub_files@[j].deep_view(),
            ),
        source_is_dir ==> is_remove_tree(plan@[plan@.len() - 1], source.deep_view()),
        !source_is_dir && dest@.len() >= 2 ==> plan@.len() == 2 && is_ensure_dir(
            plan@[0],
            dest.deep_view().take(dest@.len() as int - 1),
        ) && is_move_file(plan@[1], source.deep_view(), dest.deep_view()),
        !source_is_dir && dest@.len() <= 1 ==> plan@.len() == 1 && is_move_file(
            plan@[0],
            source.deep_view(),
            dest.deep_view(),
        ),
{
    let mut plan: Vec<FsAction> = Vec::new();
    if source_is_dir {
        plan.push(FsAction::EnsureDir(clone_path(dest)));
        let mut i: usize = 0;
        while i < sub_dirs.len()
            invariant
                i <= sub_dirs@.len(),
                plan@.len() == 1 + i,
                is_ensure_dir(plan@[0], dest.deep_view()),
                forall|x: int|
                    0 <= x < i ==> is_ensure_dir(
                        #[trigger] plan@[1 + x],
                        dest.deep_view() + sub_dirs@[x].deep_view(),
                    ),
            decreases sub_dirs@.len() - i,
        {
            let q = reroot_path(&sub_dirs[i], 0, dest);
            proof {
                assert(sub_dirs@[i as int].deep_view().skip(0) =~= sub_dirs@[
                    i as int].deep_view());
            }
            plan.push(FsAction::EnsureDir(q));
            i += 1;
        }
        let ghost nd = sub_dirs@.len() as int;
        let mut j: usize = 0;
        while j < sub_files.len()
            invariant
                j <= sub_files@.len(),
                nd == sub_dirs@.len(),
                plan@.len() == 1 + nd + j,
                is_ensure_dir(plan@[0], dest.deep_view()),
                forall|x: int|
                    0 <= x < nd ==> is_ensure_dir(
                        #[trigger] plan@[1 + x],
                        dest.deep_view() + sub_dirs@[x].deep_view(),
                    ),
                forall|y: int|
                    0 <= y < j ==> is_move_file(
                        #[trigger] plan@[1 + nd + y],
                        source.deep_view() + sub_files@[y].deep_view(),
                        dest.deep_view() + sub_files@[y].deep_view(),
                    ),
            decreases sub_files@.len() - j,
        {
            let from = reroot_path(&sub_files[j], 0, source);
            let to = reroot_path(&sub_files[j], 0, dest);
            proof {
                assert(sub_files@[j as int].deep_view().skip(0) =~= sub_files@[
                    j as int].deep_view());
            }
            plan.push(FsAction::MoveFile(from, to));
            j += 1;
        }
        plan.push(FsAction::RemoveTree(clone_path(source)));
    } else {
        if dest.len() >= 2 {
            plan.push(FsAction::EnsureDir(path_take(dest, dest.len() - 1)));
        }
        plan.push(FsAction::MoveFile(clone_path(source), clone_path(dest)));
    }
    plan
}

/// Moves a single file by performing its plan on the model: the
/// destination's missing ancestors are created, then the file is
/// renamed. The outcome is, provably, the relocation's map.
pub fn move_file_by_plan(fs: &mut FileSystem, source: &Vec<String>, dest: &Vec<String>, now: u64)
    requires
        old(fs).wf(),
        relocatable(old(fs)@, source.deep_view(), dest.deep_view()),
        old(fs)@[source.deep_view()].kind is File,
    ensures
        final(fs).wf(),
        final(fs)@ == relocated(old(fs)@, source.deep_view(), dest.deep_view(), now),
{
    let ghost m0 = fs@;
    let ghost sv = source.deep_view();
    let ghost dv = dest.deep_view();
    let ghost k = dv.len() as int - 1;
    let ghost m1 = dirs_completed_upto(m0, dv, now, k);
    proof {
        fs.lemma_wf_map();
        assert(dv.len() == dest@.len());
    }
    if dest.len() >= 2 {
        let parent = path_take(dest, dest.len() - 1);
        proof {
            assert(parent.deep_view() == dv.take(k));
            assert(dirs_creatable(m0, parent.deep_view())) by {
                assert forall|j: int|
                    1 <= j <= dv.take(k).len() && m0.dom().contains(
                        #[trigger] dv.take(k).take(j),
                    ) implies m0[dv.take(k).take(j)].kind is Directory by {
                    assert(dv.take(k).take(j) =~= dv.take(j));
                }
            }
        }
        if let Err(_) = fs.create_dir_all(&parent, now) {
            proof {
                assert(false);
            }
        }
        proof {
            lemma_dirs_completed_take(m0, dv, now, k);
            assert(fs@ == m1);
        }
    } else {
        proof {
            assert(fs@ =~= m1);
        }
    }
    proof {
        assert(renamable(m1, sv, dv)) by {
            assert(m1.dom().contains(sv));
            assert(!m1.dom().contains(dv)) by {
                if 1 <= dv.len() <= k && dv == dv.take(dv.len() as int) {
                    assert(false);
                }
            }
            if dv.len() >= 2 {
                let q = dv.drop_last();
                assert(q =~= dv.take(k));
                assert(m1.dom().contains(q));
                if m0.dom().contains(q) {
                    assert(m0[q].kind is Directory);
                }
            }
        }
    }
    if let Err(_) = fs.rename_entry(source, dest) {
        proof {
            assert(false);
        }
    }
    proof {
        lemma_relocate_file_by_steps(m0, sv, dv, now);
    }
}

/// Relocates an empty directory by performing its plan on the model:
/// the destination directory is created with its missing ancestors,
/// then the source directory is removed. The outcome is, provably, the
/// relocation's map.
pub fn move_empty_dir_by_plan(
    fs: &mut FileSystem,
    source: &Vec<String>,
    dest: &Vec<String>,
    now: u64,
)
    requires
        old(fs).wf(),
        relocatable(old(fs)@, source.deep_view(), dest.deep_view()),
        old(fs)@[source.deep_view()].kind is Directory,
        forall|p: PathModel|
            old(fs)@.dom().contains(p) && #[trigger] is_prefix_of(source.deep_view(), p) ==> p
                == source.deep_view(),
    ensures
        final(fs).wf(),
        final(fs)@ == relocated(old(fs)@, source.deep_view(), dest.deep_view(), now),
{
    let ghost m0 = fs@;
    let ghost sv = source.deep_view();
    let ghost dv = dest.deep_view();
    proof {
        fs.lemma_wf_map();
        assert(dv.len() == dest@.len());
        assert(dirs_creatable(m0, dv)) by {
            assert forall|j: int|
                1 <= j <= dv.len() && m0.dom().contains(#[trigger] dv.take(j)) implies m0[dv.take(
                j,
            )].kind is Directory by {
                if j == dv.len() {
                    assert(dv.take(j) =~= dv);
                }
            }
        }
    }
    if let Err(_) = fs.create_dir_all(dest, now) {
        proof {
            assert(false);
        }
    }
    proof {
        assert(fs@.dom().contains(sv));
    }
    if let Err(_) = fs.remove_tree(source) {
        proof {
            assert(false);
        }
    }
    proof {
        lemma_relocate_empty_dir_by_steps(m0, sv, dv, now);
    }
}

} // verus!
