//! Per-entry action plans for remove, copy and move.
use vstd::prelude::*;
use crate::path::{is_within, join, join_of, rel_of, relative};

verus! {

/// What an enumerated entry is. `Other` (a symlink or anything else that is
/// neither a regular file nor a directory) is never acted on one by one.
#[derive(Clone, Copy, Debug, PartialEq, Eq, Structural)]
pub enum EntryKind {
    File,
    Dir,
    Other,
}

/// One entry of a tree walk: its full path and its kind.
#[derive(Clone, Debug, PartialEq, Eq)]
pub struct Entry {
    pub path: Vec<u8>,
    pub kind: EntryKind,
}

/// An entry as a mathematical value.
pub struct EntryModel {
    pub path: Seq<u8>,
    pub kind: EntryKind,
}

impl View for Entry {
    type V = EntryModel;

    open spec fn view(&self) -> EntryModel {
        EntryModel { path: self.path@, kind: self.kind }
    }
}

/// One filesystem call to make.
#[derive(Clone, Debug, PartialEq, Eq)]
pub enum Action {
    /// Remove the file at the path.
    DeleteFile(Vec<u8>),
    /// Create the directory and every missing ancestor.
    CreateDir(Vec<u8>),
    /// Copy the file at the first path to the second, creating its parents.
    CopyFile(Vec<u8>, Vec<u8>),
    /// Remove the path and everything beneath it.
    RemoveTree(Vec<u8>),
}

/// An action as a mathematical value.
pub enum Op {
    DeleteFile(Seq<u8>),
    CreateDir(Seq<u8>),
    CopyFile(Seq<u8>, Seq<u8>),
    RemoveTree(Seq<u8>),
}

impl View for Action {
    type V = Op;

    open spec fn view(&self) -> Op {
        match self {
            Action::DeleteFile(p) => Op::DeleteFile(p@),
            Action::CreateDir(p) => Op::CreateDir(p@),
            Action::CopyFile(s, d) => Op::CopyFile(s@, d@),
            Action::RemoveTree(p) => Op::RemoveTree(p@),
        }
    }
}

impl Action {
    /// The action takes something away (a file or a whole tree). A runner
    /// finishes every earlier action before it starts one of these, and
    /// finishes every file delete before it removes a tree.
    pub fn is_removal(&self) -> (r: bool)
        ensures
            r == (self@ is DeleteFile || self@ is RemoveTree),
    {
        match self {
            Action::DeleteFile(_) => true,
            Action::RemoveTree(_) => true,
            _ => false,
        }
    }
}

/// The views of a list of actions.
pub open spec fn ops_of(v: Seq<Action>) -> Seq<Op> {
    v.map_values(|a: Action| a@)
}

/// The views of a list of entries.
pub open spec fn entries_of(v: Seq<Entry>) -> Seq<EntryModel> {
    v.map_values(|e: Entry| e@)
}

/// One delete for each file entry, in walk order.
pub open spec fn file_deletes(es: Seq<EntryModel>) -> Seq<Op>
    decreases es.len(),
{
    if es.len() == 0 {
        Seq::empty()
    } else {
        let e = es.last();
        let rest = file_deletes(es.drop_last());
        if e.kind == EntryKind::File {
            rest.push(Op::DeleteFile(e.path))
        } else {
            rest
        }
    }
}

/// The plan that removes `root`, whose kind is `kind` (`None`: it does not
/// exist), given the walk `es` of the tree beneath it: nothing for a missing
/// root; one delete for a file; otherwise every file deleted, then the
/// emptied tree removed in one call.
pub open spec fn remove_plan(root: Seq<u8>, kind: Option<EntryKind>, es: Seq<EntryModel>) -> Seq<Op> {
    match kind {
        None => Seq::empty(),
        Some(EntryKind::File) => seq![Op::DeleteFile(root)],
        Some(_) => file_deletes(es).push(Op::RemoveTree(root)),
    }
}

/// The action that copies one walked entry from under `src` to the same
/// relative place under `dst`, if any.
pub open spec fn entry_copy(src: Seq<u8>, dst: Seq<u8>, e: EntryModel) -> Seq<Op> {
    if !is_within(e.path, src) {
        Seq::empty()
    } else if e.kind == EntryKind::Dir {
        seq![Op::CreateDir(join_of(dst, rel_of(e.path, src)))]
    } else if e.kind == EntryKind::File {
        seq![Op::CopyFile(e.path, join_of(dst, rel_of(e.path, src)))]
    } else {
        Seq::empty()
    }
}

/// The entry copies of a whole walk, in walk order.
pub open spec fn entry_copies(src: Seq<u8>, dst: Seq<u8>, es: Seq<EntryModel>) -> Seq<Op>
    decreases es.len(),
{
    if es.len() == 0 {
        Seq::empty()
    } else {
        entry_copies(src, dst, es.drop_last()) + entry_copy(src, dst, es.last())
    }
}

/// The plan that copies `src`, of kind `kind`, to `dst`: nothing for a
/// missing source; one file copy for a file; otherwise `dst` created, then
/// every directory and file of the walk mapped to its place under `dst`.
pub open spec fn copy_plan(src: Seq<u8>, dst: Seq<u8>, kind: Option<EntryKind>, es: Seq<EntryModel>) -> Seq<Op> {
    match kind {
        None => Seq::empty(),
        Some(EntryKind::File) => seq![Op::CopyFile(src, dst)],
        Some(_) => seq![Op::CreateDir(dst)] + entry_copies(src, dst, es),
    }
}

/// The plan that follows an attempted rename of `src` to `dst`: nothing when
/// the rename succeeded, else a full copy followed by a full remove.
pub open spec fn move_plan(
    src: Seq<u8>,
    dst: Seq<u8>,
    renamed: bool,
    kind: Option<EntryKind>,
    es: Seq<EntryModel>,
) -> Seq<Op> {
    if renamed {
        Seq::empty()
    } else {
        copy_plan(src, dst, kind, es) + remove_plan(src, kind, es)
    }
}

fn copy_path(p: &Vec<u8>) -> (r: Vec<u8>)
    ensures
        r@ == p@,
{
    let mut out: Vec<u8> = Vec::new();
    let mut i: usize = 0;
    while i < p.len()
        invariant
            i <= p@.len(),
            out@ =~= p@.subrange(0, i as int),
        decreases p@.len() - i,
    {
        out.push(p[i]);
        i = i + 1;
    }
    assert(out@ =~= p@);
    out
}

/// Plans the removal of `path`, of kind `kind` (`None` when it does not
/// exist), from the walk `items` of its tree.
pub fn remove(path: &Vec<u8>, kind: Option<EntryKind>, items: &Vec<Entry>) -> (r: Vec<Action>)
    ensures
        ops_of(r@) == remove_plan(path@, kind, entries_of(items@)),
{
    let mut out: Vec<Action> = Vec::new();
    match kind {
        None => {
            assert(ops_of(out@) =~= remove_plan(path@, kind, entries_of(items@)));
            return out;
        },
        Some(EntryKind::File) => {
            out.push(Action::DeleteFile(copy_path(path)));
            assert(ops_of(out@) =~= remove_plan(path@, kind, entries_of(items@)));
            return out;
        },
        Some(_) => {},
    }
    let mut i: usize = 0;
    while i < items.len()
        invariant
            i <= items@.len(),
            ops_of(out@) =~= file_deletes(entries_of(items@).subrange(0, i as int)),
        decreases items@.len() - i,
    {
        let ghost es = entries_of(items@).subrange(0, i as int + 1);
        assert(es.drop_last() =~= entries_of(items@).subrange(0, i as int));
        if items[i].kind == EntryKind::File {
            out.push(Action::DeleteFile(copy_path(&items[i].path)));
        }
        i = i + 1;
    }
    assert(entries_of(items@).subrange(0, items@.len() as int) =~= entries_of(items@));
    out.push(Action::RemoveTree(copy_path(path)));
    assert(ops_of(out@) =~= remove_plan(path@, kind, entries_of(items@)));
    out
}

/// Plans the copy of `src`, of kind `kind` (`None` when it does not exist),
/// to `dst`, from the walk `items` of its tree.
pub fn copy(src: &Vec<u8>, dst: &Vec<u8>, kind: Option<EntryKind>, items: &Vec<Entry>) -> (r: Vec<Action>)
    ensures
        ops_of(r@) == copy_plan(src@, dst@, kind, entries_of(items@)),
{
    let mut out: Vec<Action> = Vec::new();
    match kind {
        None => {
            assert(ops_of(out@) =~= copy_plan(src@, dst@, kind, entries_of(items@)));
            return out;
        },
        Some(EntryKind::File) => {
            out.push(Action::CopyFile(copy_path(src), copy_path(dst)));
            assert(ops_of(out@) =~= copy_plan(src@, dst@, kind, entries_of(items@)));
            return out;
        },
        Some(_) => {},
    }
    out.push(Action::CreateDir(copy_path(dst)));
    let mut i: usize = 0;
    while i < items.len()
        invariant
            i <= items@.len(),
            ops_of(out@) =~= seq![Op::CreateDir(dst@)] + entry_copies(
                src@,
                dst@,
                entries_of(items@).subrange(0, i as int),
            ),
        decreases items@.len() - i,
    {
        let ghost es = entries_of(items@).subrange(0, i as int + 1);
        assert(es.drop_last() =~= entries_of(items@).subrange(0, i as int));
        let e = &items[i];
        let ghost before = out@;
        assert(es.last() == e@);
        match relative(&e.path, src) {
            None => {},
            Some(rel) => {
                if e.kind == EntryKind::Dir {
                    out.push(Action::CreateDir(join(dst, &rel)));
                } else if e.kind == EntryKind::File {
                    out.push(Action::CopyFile(copy_path(&e.path), join(dst, &rel)));
                }
            },
        }
        assert(ops_of(out@) =~= ops_of(before) + entry_copy(src@, dst@, e@));
        i = i + 1;
    }
    assert(entries_of(items@).subrange(0, items@.len() as int) =~= entries_of(items@));
    out
}

/// Plans what follows an attempted rename of `src` to `dst`: nothing when it
/// succeeded (`renamed`), else a copy of `src` to `dst` and then the removal
/// of `src`, both from the walk `items` of `src`.
pub fn move_file(
    src: &Vec<u8>,
    dst: &Vec<u8>,
    renamed: bool,
    kind: Option<EntryKind>,
    items: &Vec<Entry>,
) -> (r: Vec<Action>)
    ensures
        ops_of(r@) == move_plan(src@, dst@, renamed, kind, entries_of(items@)),
{
    if renamed {
        let out: Vec<Action> = Vec::new();
        assert(ops_of(out@) =~= move_plan(src@, dst@, renamed, kind, entries_of(items@)));
        return out;
    }
    let mut out = copy(src, dst, kind, items);
    let mut rest = remove(src, kind, items);
    let ghost a = out@;
    let ghost b = rest@;
    out.append(&mut rest);
    assert(out@ =~= a + b);
    assert(ops_of(a + b) =~= ops_of(a) + ops_of(b));
    out
}

} // verus!
