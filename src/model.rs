//! A mathematical filesystem and what running a plan does to it.
use vstd::prelude::*;
use crate::path::{
    clean, is_within, join_of, lemma_join_rel, lemma_outside_ancestor, lemma_reroot_ancestor,
    lemma_reroot_clean, lemma_reroot_injective, lemma_reroot_keeps_relative,
    lemma_within_antisymmetric, rel_of,
};
use crate::plan::{
    copy_plan, entry_copies, entry_copy, file_deletes, move_plan, remove_plan, EntryKind,
    EntryModel, Op,
};

verus! {

/// What a path holds: a file with its bytes, or a directory.
pub enum Node {
    File(Seq<u8>),
    Dir,
}

/// Every path that exists, with what it holds.
pub type Tree = Map<Seq<u8>, Node>;

/// Every proper ancestor of an existing path exists and is a directory.
pub open spec fn wf(fs: Tree) -> bool {
    forall|q: Seq<u8>, a: Seq<u8>|
        #![trigger fs.dom().contains(q), is_within(q, a)]
        fs.dom().contains(q) && is_within(q, a) && a != q ==> fs.dom().contains(a) && fs[a] is Dir
}

/// The kind of the node at `p`, `None` when nothing is there.
pub open spec fn kind_at(fs: Tree, p: Seq<u8>) -> Option<EntryKind> {
    if !fs.dom().contains(p) {
        None
    } else if fs[p] is Dir {
        Some(EntryKind::Dir)
    } else {
        Some(EntryKind::File)
    }
}

/// `fs` with a directory added at every path that `keep` selects and that
/// does not exist yet.
pub open spec fn add_dirs(fs: Tree, keep: spec_fn(Seq<u8>) -> bool) -> Tree {
    Map::new(
        |q: Seq<u8>| fs.dom().contains(q) || keep(q),
        |q: Seq<u8>|
            if fs.dom().contains(q) {
                fs[q]
            } else {
                Node::Dir
            },
    )
}

/// What one successful action does.
pub open spec fn apply(fs: Tree, op: Op) -> Tree {
    match op {
        Op::DeleteFile(p) => {
            if fs.dom().contains(p) && fs[p] is File {
                fs.remove(p)
            } else {
                fs
            }
        },
        Op::CreateDir(p) => add_dirs(fs, |q: Seq<u8>| is_within(p, q)),
        Op::CopyFile(s, d) => {
            if fs.dom().contains(s) && fs[s] is File {
                add_dirs(fs, |q: Seq<u8>| is_within(d, q) && q != d).insert(d, fs[s])
            } else {
                fs
            }
        },
        Op::RemoveTree(r) => Map::new(
            |q: Seq<u8>| fs.dom().contains(q) && !is_within(q, r),
            |q: Seq<u8>| fs[q],
        ),
    }
}

/// What running the actions one after another does.
pub open spec fn run(fs: Tree, ops: Seq<Op>) -> Tree
    decreases ops.len(),
{
    if ops.len() == 0 {
        fs
    } else {
        apply(run(fs, ops.drop_last()), ops.last())
    }
}

/// What running the actions one after another does when the actions that
/// `fails` selects fail and leave the filesystem as it was.
pub open spec fn run_failing(fs: Tree, ops: Seq<Op>, fails: spec_fn(Op) -> bool) -> Tree
    decreases ops.len(),
{
    if ops.len() == 0 {
        fs
    } else {
        let s = run_failing(fs, ops.drop_last(), fails);
        if fails(ops.last()) {
            s
        } else {
            apply(s, ops.last())
        }
    }
}

proof fn lemma_run_failing_concat(fs: Tree, a: Seq<Op>, b: Seq<Op>, fails: spec_fn(Op) -> bool)
    ensures
        run_failing(fs, a + b, fails) == run_failing(run_failing(fs, a, fails), b, fails),
    decreases b.len(),
{
    if b.len() == 0 {
        assert(a + b =~= a);
    } else {
        assert((a + b).drop_last() =~= a + b.drop_last());
        assert((a + b).last() == b.last());
        lemma_run_failing_concat(fs, a, b.drop_last(), fails);
    }
}

proof fn lemma_run_failing_none(fs: Tree, ops: Seq<Op>)
    ensures
        run_failing(fs, ops, |op: Op| false) == run(fs, ops),
    decreases ops.len(),
{
    if ops.len() > 0 {
        lemma_run_failing_none(fs, ops.drop_last());
    }
}

/// Running two plans in turn is running their concatenation.
pub proof fn lemma_run_concat(fs: Tree, a: Seq<Op>, b: Seq<Op>)
    ensures
        run(fs, a + b) == run(run(fs, a), b),
    decreases b.len(),
{
    if b.len() == 0 {
        assert(a + b =~= a);
    } else {
        assert((a + b).drop_last() =~= a + b.drop_last());
        assert((a + b).last() == b.last());
        lemma_run_concat(fs, a, b.drop_last());
    }
}

/// Creating a directory is idempotent: a second call changes nothing.
pub proof fn lemma_create_dir_idempotent(fs: Tree, p: Seq<u8>)
    ensures
        apply(apply(fs, Op::CreateDir(p)), Op::CreateDir(p)) == apply(fs, Op::CreateDir(p)),
{
    assert(apply(apply(fs, Op::CreateDir(p)), Op::CreateDir(p)) =~= apply(fs, Op::CreateDir(p)));
}

/// Removing an existing or missing tree, when every action succeeds, leaves
/// nothing at or beneath its root.
pub proof fn lemma_remove_complete(fs: Tree, root: Seq<u8>, es: Seq<EntryModel>)
    requires
        wf(fs),
    ensures
        forall|q: Seq<u8>|
            is_within(q, root) ==> !(#[trigger] run(fs, remove_plan(root, kind_at(fs, root), es)).dom().contains(q)),
{
    let plan = remove_plan(root, kind_at(fs, root), es);
    match kind_at(fs, root) {
        None => {
            assert forall|q: Seq<u8>| is_within(q, root) implies !run(fs, plan).dom().contains(q) by {
                if q != root && fs.dom().contains(q) {
                    assert(fs.dom().contains(root));
                }
            }
        },
        Some(EntryKind::File) => {
            assert(plan.drop_last() =~= Seq::<Op>::empty());
            assert(run(fs, plan.drop_last()) == fs);
            assert(run(fs, plan) == fs.remove(root));
            assert forall|q: Seq<u8>| is_within(q, root) implies !run(fs, plan).dom().contains(q) by {
                if q != root && fs.dom().contains(q) {
                    assert(fs[root] is Dir);
                }
            }
        },
        Some(_) => {
            assert(plan.drop_last() =~= file_deletes(es));
            assert(plan.last() == Op::RemoveTree(root));
        },
    }
}

/// Remove, copy and move of a missing source plan nothing, so they leave
/// the filesystem as it was.
pub proof fn lemma_missing_source_untouched(
    fs: Tree,
    src: Seq<u8>,
    dst: Seq<u8>,
    renamed: bool,
    es: Seq<EntryModel>,
)
    requires
        !fs.dom().contains(src),
    ensures
        run(fs, remove_plan(src, kind_at(fs, src), es)) == fs,
        run(fs, copy_plan(src, dst, kind_at(fs, src), es)) == fs,
        run(fs, move_plan(src, dst, renamed, kind_at(fs, src), es)) == fs,
{
    let k = kind_at(fs, src);
    assert(move_plan(src, dst, renamed, k, es).len() == 0);
}

/// A move whose rename failed ends exactly as a copy followed by a remove.
pub proof fn lemma_move_fallback(
    fs: Tree,
    src: Seq<u8>,
    dst: Seq<u8>,
    kind: Option<EntryKind>,
    es: Seq<EntryModel>,
)
    ensures
        run(fs, move_plan(src, dst, false, kind, es)) == run(
            run(fs, copy_plan(src, dst, kind, es)),
            remove_plan(src, kind, es),
        ),
{
    lemma_run_concat(fs, copy_plan(src, dst, kind, es), remove_plan(src, kind, es));
}

/// A move whose rename succeeded has nothing left to do.
pub proof fn lemma_move_renamed(
    fs: Tree,
    src: Seq<u8>,
    dst: Seq<u8>,
    kind: Option<EntryKind>,
    es: Seq<EntryModel>,
)
    ensures
        run(fs, move_plan(src, dst, true, kind, es)) == fs,
{
}

proof fn lemma_entry_copies_members(src: Seq<u8>, dst: Seq<u8>, es: Seq<EntryModel>)
    ensures
        forall|i: int, op: Op|
            0 <= i < es.len() && #[trigger] entry_copy(src, dst, es[i]).contains(op)
                ==> entry_copies(src, dst, es).contains(op),
        forall|op: Op|
            #[trigger] entry_copies(src, dst, es).contains(op) ==> exists|i: int|
                0 <= i < es.len() && #[trigger] entry_copy(src, dst, es[i]).contains(op),
    decreases es.len(),
{
    if es.len() > 0 {
        let init = es.drop_last();
        lemma_entry_copies_members(src, dst, init);
        let a = entry_copies(src, dst, init);
        let b = entry_copy(src, dst, es.last());
        assert(entry_copies(src, dst, es) == a + b);
        assert forall|i: int, op: Op|
            0 <= i < es.len() && #[trigger] entry_copy(src, dst, es[i]).contains(op)
                implies entry_copies(src, dst, es).contains(op) by {
            if i < es.len() - 1 {
                assert(init[i] == es[i]);
                let k = choose|k: int| 0 <= k < a.len() && a[k] == op;
                assert((a + b)[k] == op);
            } else {
                let k = choose|k: int| 0 <= k < b.len() && b[k] == op;
                assert((a + b)[a.len() + k] == op);
            }
        }
        assert forall|op: Op| #[trigger] entry_copies(src, dst, es).contains(op) implies exists|i: int|
            0 <= i < es.len() && #[trigger] entry_copy(src, dst, es[i]).contains(op) by {
            let k = choose|k: int| 0 <= k < (a + b).len() && (a + b)[k] == op;
            if k < a.len() {
                assert(a.contains(op));
                let i = choose|i: int| 0 <= i < init.len() && #[trigger] entry_copy(src, dst, init[i]).contains(op);
                assert(init[i] == es[i]);
            } else {
                assert(b[k - a.len()] == op);
                assert(entry_copy(src, dst, es[es.len() - 1]).contains(op));
            }
        }
    }
}

/// A copy of a directory plans, for every file and directory of its walk, the
/// action that creates it at the same relative path under the destination;
/// apart from creating the destination itself it plans nothing else.
pub proof fn lemma_copy_maps_every_entry(src: Seq<u8>, dst: Seq<u8>, es: Seq<EntryModel>)
    ensures
        forall|i: int|
            #![trigger es[i]]
            0 <= i < es.len() && is_within(es[i].path, src) && es[i].kind == EntryKind::File ==> {
                let t = join_of(dst, rel_of(es[i].path, src));
                &&& copy_plan(src, dst, Some(EntryKind::Dir), es).contains(
                    Op::CopyFile(es[i].path, t),
                )
                &&& is_within(t, dst)
                &&& rel_of(t, dst) == rel_of(es[i].path, src)
            },
        forall|i: int|
            #![trigger es[i]]
            0 <= i < es.len() && is_within(es[i].path, src) && es[i].kind == EntryKind::Dir ==> {
                let t = join_of(dst, rel_of(es[i].path, src));
                &&& copy_plan(src, dst, Some(EntryKind::Dir), es).contains(
                    Op::CreateDir(t),
                )
                &&& is_within(t, dst)
                &&& rel_of(t, dst) == rel_of(es[i].path, src)
            },
        forall|op: Op|
            #[trigger] copy_plan(src, dst, Some(EntryKind::Dir), es).contains(op) && op != Op::CreateDir(dst)
                ==> exists|i: int|
                0 <= i < es.len() && is_within(es[i].path, src) && {
                    let t = join_of(dst, rel_of(es[i].path, src));
                    ||| (es[i].kind == EntryKind::File && op == Op::CopyFile(es[i].path, t))
                    ||| (es[i].kind == EntryKind::Dir && op == Op::CreateDir(t))
                },
{
    lemma_entry_copies_members(src, dst, es);
    let head = seq![Op::CreateDir(dst)];
    let tail = entry_copies(src, dst, es);
    let plan = copy_plan(src, dst, Some(EntryKind::Dir), es);
    assert(plan == head + tail);
    assert forall|i: int|
        #![trigger es[i]]
        0 <= i < es.len() && is_within(es[i].path, src) && es[i].kind == EntryKind::File implies {
            let t = join_of(dst, rel_of(es[i].path, src));
            &&& plan.contains(Op::CopyFile(es[i].path, t))
            &&& is_within(t, dst)
            &&& rel_of(t, dst) == rel_of(es[i].path, src)
        } by {
        let t = join_of(dst, rel_of(es[i].path, src));
        let op = Op::CopyFile(es[i].path, t);
        lemma_reroot_keeps_relative(es[i].path, src, dst);
        assert(entry_copy(src, dst, es[i])[0] == op);
        assert(entry_copy(src, dst, es[i]).contains(op));
        assert(tail.contains(op));
        let k = choose|k: int| 0 <= k < tail.len() && tail[k] == op;
        assert(plan[1 + k] == op);
    }
    assert forall|i: int|
        #![trigger es[i]]
        0 <= i < es.len() && is_within(es[i].path, src) && es[i].kind == EntryKind::Dir implies {
            let t = join_of(dst, rel_of(es[i].path, src));
            &&& plan.contains(Op::CreateDir(t))
            &&& is_within(t, dst)
            &&& rel_of(t, dst) == rel_of(es[i].path, src)
        } by {
        let t = join_of(dst, rel_of(es[i].path, src));
        let op = Op::CreateDir(t);
        lemma_reroot_keeps_relative(es[i].path, src, dst);
        assert(entry_copy(src, dst, es[i])[0] == op);
        assert(entry_copy(src, dst, es[i]).contains(op));
        assert(tail.contains(op));
        let k = choose|k: int| 0 <= k < tail.len() && tail[k] == op;
        assert(plan[1 + k] == op);
    }
    assert forall|op: Op| #[trigger] plan.contains(op) && op != Op::CreateDir(dst) implies exists|i: int|
        0 <= i < es.len() && is_within(es[i].path, src) && {
            let t = join_of(dst, rel_of(es[i].path, src));
            ||| (es[i].kind == EntryKind::File && op == Op::CopyFile(es[i].path, t))
            ||| (es[i].kind == EntryKind::Dir && op == Op::CreateDir(t))
        } by {
        let k = choose|k: int| 0 <= k < plan.len() && plan[k] == op;
        assert(k >= 1);
        assert(tail[k - 1] == op);
        assert(tail.contains(op));
        let i = choose|i: int| 0 <= i < es.len() && #[trigger] entry_copy(src, dst, es[i]).contains(op);
        assert(entry_copy(src, dst, es[i]).len() > 0);
    }
}

/// Where `p`, within `src`, lands when the tree is copied to `dst`.
pub open spec fn reroot(p: Seq<u8>, src: Seq<u8>, dst: Seq<u8>) -> Seq<u8> {
    join_of(dst, rel_of(p, src))
}

/// `es` is a walk of the tree at `src` in `fs`: each entry exists there with
/// its kind, and every path at or beneath `src` is an entry.
pub open spec fn is_walk(fs: Tree, src: Seq<u8>, es: Seq<EntryModel>) -> bool {
    &&& forall|i: int|
        #![trigger es[i]]
        0 <= i < es.len() ==> fs.dom().contains(es[i].path) && is_within(es[i].path, src) && kind_at(
            fs,
            es[i].path,
        ) == Some(es[i].kind)
    &&& forall|q: Seq<u8>|
        #![trigger fs.dom().contains(q), is_within(q, src)]
        fs.dom().contains(q) && is_within(q, src) ==> exists|i: int| 0 <= i < es.len() && #[trigger] es[i].path == q
}

spec fn keeps(fs: Tree, s: Tree) -> bool {
    forall|q: Seq<u8>| #[trigger] fs.dom().contains(q) ==> s.dom().contains(q) && s[q] == fs[q]
}

spec fn sourced(fs: Tree, s: Tree, src: Seq<u8>, dst: Seq<u8>) -> bool {
    forall|q: Seq<u8>|
        #![trigger s.dom().contains(q), is_within(q, dst)]
        is_within(q, dst) && s.dom().contains(q) ==> exists|p: Seq<u8>|
            #![trigger reroot(p, src, dst)]
            fs.dom().contains(p) && is_within(p, src) && q == reroot(p, src, dst) && s[q] == fs[p]
}

spec fn placed(
    fs: Tree,
    s: Tree,
    src: Seq<u8>,
    dst: Seq<u8>,
    es: Seq<EntryModel>,
    k: int,
    fails: spec_fn(Op) -> bool,
) -> bool {
    forall|j: int|
        #![trigger es[j]]
        0 <= j < k && !fails(entry_copy(src, dst, es[j])[0]) ==> s.dom().contains(reroot(es[j].path, src, dst)) && s[reroot(es[j].path, src, dst)]
            == fs[es[j].path]
}

spec fn copy_setup(fs: Tree, src: Seq<u8>, dst: Seq<u8>, es: Seq<EntryModel>) -> bool {
    &&& wf(fs)
    &&& fs.dom().contains(src)
    &&& fs[src] is Dir
    &&& forall|q: Seq<u8>| #[trigger] is_within(q, dst) ==> !fs.dom().contains(q)
    &&& is_walk(fs, src, es)
}

proof fn lemma_run_one(fs: Tree, op: Op, fails: spec_fn(Op) -> bool)
    ensures
        run_failing(fs, seq![op], fails) == if fails(op) {
            fs
        } else {
            apply(fs, op)
        },
{
    assert(seq![op].drop_last() =~= Seq::<Op>::empty());
    assert(run_failing(fs, seq![op].drop_last(), fails) == fs);
    assert(seq![op].last() == op);
}

/// A node created under `dst` as an ancestor of the landing place of `p`
/// stands for a directory of the source.
proof fn lemma_new_ancestor_sourced(fs: Tree, src: Seq<u8>, dst: Seq<u8>, p: Seq<u8>, q: Seq<u8>)
    requires
        wf(fs),
        fs.dom().contains(p),
        is_within(p, src),
        is_within(q, dst),
        is_within(reroot(p, src, dst), q),
        q != reroot(p, src, dst) || fs[p] is Dir,
    ensures
        exists|a: Seq<u8>|
            #![trigger reroot(a, src, dst)]
            fs.dom().contains(a) && is_within(a, src) && q == reroot(a, src, dst) && fs[a] == Node::Dir,
{
    lemma_reroot_ancestor(p, src, dst, q);
    let a = join_of(src, rel_of(q, dst));
    if a != p {
        assert(fs.dom().contains(a) && fs[a] is Dir);
    }
    assert(fs.dom().contains(a) && is_within(a, src) && q == reroot(a, src, dst) && fs[a] == Node::Dir);
}

proof fn lemma_copy_state(
    fs: Tree,
    src: Seq<u8>,
    dst: Seq<u8>,
    es: Seq<EntryModel>,
    k: int,
    fails: spec_fn(Op) -> bool,
)
    requires
        copy_setup(fs, src, dst, es),
        0 <= k <= es.len(),
    ensures
        keeps(fs, run_failing(fs, seq![Op::CreateDir(dst)] + entry_copies(src, dst, es.subrange(0, k)), fails)),
        sourced(
            fs,
            run_failing(fs, seq![Op::CreateDir(dst)] + entry_copies(src, dst, es.subrange(0, k)), fails),
            src,
            dst,
        ),
        placed(
            fs,
            run_failing(fs, seq![Op::CreateDir(dst)] + entry_copies(src, dst, es.subrange(0, k)), fails),
            src,
            dst,
            es,
            k,
            fails,
        ),
    decreases k,
{
    let head = seq![Op::CreateDir(dst)];
    if k == 0 {
        assert(entry_copies(src, dst, es.subrange(0, 0)) =~= Seq::<Op>::empty());
        assert(head + Seq::<Op>::empty() =~= head);
        lemma_run_one(fs, Op::CreateDir(dst), fails);
        let s0 = run_failing(fs, head, fails);
        assert forall|q: Seq<u8>| is_within(q, dst) && s0.dom().contains(q) implies exists|p: Seq<u8>|
            #![trigger reroot(p, src, dst)]
            fs.dom().contains(p) && is_within(p, src) && q == reroot(p, src, dst) && s0[q] == fs[p] by {
            lemma_within_antisymmetric(q, dst);
            assert(rel_of(src, src) =~= Seq::<u8>::empty());
            assert(reroot(src, src, dst) == dst);
        }
        return;
    }
    lemma_copy_state(fs, src, dst, es, k - 1, fails);
    let prev = head + entry_copies(src, dst, es.subrange(0, k - 1));
    let s = run_failing(fs, prev, fails);
    let e = es[k - 1];
    let p = e.path;
    let t = reroot(p, src, dst);
    assert(es.subrange(0, k).drop_last() =~= es.subrange(0, k - 1));
    assert(es.subrange(0, k).last() == e);
    let step = entry_copy(src, dst, e);
    assert(head + entry_copies(src, dst, es.subrange(0, k)) =~= prev + step);
    lemma_run_failing_concat(fs, prev, step, fails);
    lemma_reroot_keeps_relative(p, src, dst);
    assert(fs.dom().contains(p) && is_within(p, src) && kind_at(fs, p) == Some(e.kind));
    let op = step[0];
    assert(step =~= seq![op]);
    lemma_run_one(s, op, fails);
    if fails(op) {
        assert(run_failing(fs, head + entry_copies(src, dst, es.subrange(0, k)), fails) == s);
        return;
    }
    let s2 = apply(s, op);
    assert(run_failing(fs, head + entry_copies(src, dst, es.subrange(0, k)), fails) == s2);
    assert forall|q: Seq<u8>| is_within(q, dst) && s2.dom().contains(q) implies exists|a: Seq<u8>|
        #![trigger reroot(a, src, dst)]
        fs.dom().contains(a) && is_within(a, src) && q == reroot(a, src, dst) && s2[q] == fs[a] by {
        if s.dom().contains(q) && !(e.kind == EntryKind::File && q == t) {
            let a = choose|a: Seq<u8>|
                #![trigger reroot(a, src, dst)]
                fs.dom().contains(a) && is_within(a, src) && q == reroot(a, src, dst) && s[q] == fs[a];
            assert(s2[q] == s[q]);
        } else if e.kind == EntryKind::File && q == t {
            assert(s2[q] == fs[p]);
        } else {
            lemma_new_ancestor_sourced(fs, src, dst, p, q);
        }
    }
    assert forall|j: int|
        #![trigger es[j]]
        0 <= j < k && !fails(entry_copy(src, dst, es[j])[0]) implies s2.dom().contains(reroot(es[j].path, src, dst)) && s2[reroot(es[j].path, src, dst)]
            == fs[es[j].path] by {
        let pj = es[j].path;
        assert(is_within(pj, src));
        if j < k - 1 {
            if reroot(pj, src, dst) == t {
                lemma_reroot_injective(pj, p, src, dst);
            }
        } else {
            if s.dom().contains(t) && e.kind == EntryKind::Dir {
                let a = choose|a: Seq<u8>|
                    #![trigger reroot(a, src, dst)]
                    fs.dom().contains(a) && is_within(a, src) && t == reroot(a, src, dst) && s[t] == fs[a];
                lemma_reroot_injective(a, p, src, dst);
            }
        }
    }
}

/// Copying a directory tree to a destination where nothing exists yet, when
/// every action succeeds, puts at each relative path under the destination
/// exactly what the source has at that relative path (file bytes or a
/// directory), and nothing else beneath the destination; everything that
/// existed before is left as it was.
pub proof fn lemma_copy_fidelity(fs: Tree, src: Seq<u8>, dst: Seq<u8>, es: Seq<EntryModel>)
    requires
        wf(fs),
        fs.dom().contains(src),
        fs[src] is Dir,
        forall|q: Seq<u8>| #[trigger] is_within(q, dst) ==> !fs.dom().contains(q),
        is_walk(fs, src, es),
    ensures
        forall|p: Seq<u8>|
            #![trigger fs.dom().contains(p), is_within(p, src)]
            fs.dom().contains(p) && is_within(p, src) ==> {
                let out = run(fs, copy_plan(src, dst, Some(EntryKind::Dir), es));
                &&& out.dom().contains(reroot(p, src, dst))
                &&& out[reroot(p, src, dst)] == fs[p]
                &&& rel_of(reroot(p, src, dst), dst) == rel_of(p, src)
            },
        forall|q: Seq<u8>|
            #![trigger run(fs, copy_plan(src, dst, Some(EntryKind::Dir), es)).dom().contains(q)]
            is_within(q, dst) && run(fs, copy_plan(src, dst, Some(EntryKind::Dir), es)).dom().contains(q)
                ==> exists|p: Seq<u8>|
                #![trigger reroot(p, src, dst)]
                fs.dom().contains(p) && is_within(p, src) && q == reroot(p, src, dst),
        forall|q: Seq<u8>|
            #[trigger] fs.dom().contains(q) ==> run(fs, copy_plan(src, dst, Some(EntryKind::Dir), es)).dom().contains(q)
                && run(fs, copy_plan(src, dst, Some(EntryKind::Dir), es))[q] == fs[q],
{
    let never = |op: Op| false;
    lemma_copy_state(fs, src, dst, es, es.len() as int, never);
    assert(es.subrange(0, es.len() as int) =~= es);
    let out = run(fs, copy_plan(src, dst, Some(EntryKind::Dir), es));
    lemma_run_failing_none(fs, copy_plan(src, dst, Some(EntryKind::Dir), es));
    assert(out == run_failing(fs, copy_plan(src, dst, Some(EntryKind::Dir), es), never));
    assert forall|p: Seq<u8>|
        #![trigger fs.dom().contains(p), is_within(p, src)]
        fs.dom().contains(p) && is_within(p, src) implies {
            &&& out.dom().contains(reroot(p, src, dst))
            &&& out[reroot(p, src, dst)] == fs[p]
            &&& rel_of(reroot(p, src, dst), dst) == rel_of(p, src)
        } by {
        let i = choose|i: int| 0 <= i < es.len() && #[trigger] es[i].path == p;
        lemma_reroot_keeps_relative(p, src, dst);
    }
    assert forall|q: Seq<u8>| is_within(q, dst) && #[trigger] out.dom().contains(q) implies exists|p: Seq<u8>|
        #![trigger reroot(p, src, dst)]
        fs.dom().contains(p) && is_within(p, src) && q == reroot(p, src, dst) by {
        let p = choose|p: Seq<u8>|
            #![trigger reroot(p, src, dst)]
            fs.dom().contains(p) && is_within(p, src) && q == reroot(p, src, dst) && out[q] == fs[p];
    }
}

proof fn lemma_deletes_stay_inside(x: Tree, src: Seq<u8>, es: Seq<EntryModel>)
    requires
        forall|i: int| #![trigger es[i]] 0 <= i < es.len() ==> is_within(es[i].path, src),
    ensures
        forall|q: Seq<u8>|
            !is_within(q, src) ==> (#[trigger] run(x, file_deletes(es)).dom().contains(q) == x.dom().contains(q)
                && (x.dom().contains(q) ==> run(x, file_deletes(es))[q] == x[q])),
    decreases es.len(),
{
    if es.len() > 0 {
        let init = es.drop_last();
        assert forall|i: int| #![trigger init[i]] 0 <= i < init.len() implies is_within(init[i].path, src) by {
            assert(init[i] == es[i]);
        }
        lemma_deletes_stay_inside(x, src, init);
        assert(es.last() == es[es.len() - 1]);
        let d = file_deletes(es);
        let path = es.last().path;
        assert(is_within(path, src));
        if es.last().kind == EntryKind::File {
            assert(d.drop_last() =~= file_deletes(init));
            assert(d.last() == Op::DeleteFile(path));
            assert(run(x, d) == apply(run(x, file_deletes(init)), Op::DeleteFile(path)));
        } else {
            assert(d == file_deletes(init));
        }
    } else {
        assert(run(x, file_deletes(es)) == x);
    }
}

/// A move of a directory tree whose rename failed, to a destination where
/// nothing exists yet and whose tree shares no path with the source's, when
/// every action succeeds, leaves nothing at or beneath the source, every
/// source node at the same relative path under the destination, and nothing
/// else beneath the destination.
pub proof fn lemma_move_fallback_relocates(fs: Tree, src: Seq<u8>, dst: Seq<u8>, es: Seq<EntryModel>)
    requires
        wf(fs),
        fs.dom().contains(src),
        fs[src] is Dir,
        forall|q: Seq<u8>| #[trigger] is_within(q, dst) ==> !fs.dom().contains(q),
        forall|q: Seq<u8>| #[trigger] is_within(q, src) ==> !is_within(q, dst),
        is_walk(fs, src, es),
    ensures
        forall|q: Seq<u8>|
            #[trigger] is_within(q, src) ==> !run(fs, move_plan(src, dst, false, Some(EntryKind::Dir), es)).dom().contains(q),
        forall|p: Seq<u8>|
            #![trigger fs.dom().contains(p), is_within(p, src)]
            fs.dom().contains(p) && is_within(p, src) ==> {
                let out = run(fs, move_plan(src, dst, false, Some(EntryKind::Dir), es));
                &&& out.dom().contains(reroot(p, src, dst))
                &&& out[reroot(p, src, dst)] == fs[p]
            },
        forall|q: Seq<u8>|
            #![trigger run(fs, move_plan(src, dst, false, Some(EntryKind::Dir), es)).dom().contains(q)]
            is_within(q, dst) && run(fs, move_plan(src, dst, false, Some(EntryKind::Dir), es)).dom().contains(q)
                ==> exists|p: Seq<u8>|
                #![trigger reroot(p, src, dst)]
                fs.dom().contains(p) && is_within(p, src) && q == reroot(p, src, dst),
{
    let k = Some(EntryKind::Dir);
    lemma_move_fallback(fs, src, dst, k, es);
    lemma_copy_fidelity(fs, src, dst, es);
    let mid = run(fs, copy_plan(src, dst, k, es));
    let plan = remove_plan(src, k, es);
    assert(plan.drop_last() =~= file_deletes(es));
    assert(plan.last() == Op::RemoveTree(src));
    lemma_deletes_stay_inside(mid, src, es);
    let out = run(fs, move_plan(src, dst, false, k, es));
    assert(out == run(mid, plan));
    let gone = run(mid, file_deletes(es));
    assert(out == apply(gone, Op::RemoveTree(src)));
    assert forall|p: Seq<u8>|
        #![trigger fs.dom().contains(p), is_within(p, src)]
        fs.dom().contains(p) && is_within(p, src) implies {
            &&& out.dom().contains(reroot(p, src, dst))
            &&& out[reroot(p, src, dst)] == fs[p]
        } by {
        lemma_reroot_keeps_relative(p, src, dst);
        let t = reroot(p, src, dst);
        assert(is_within(t, dst));
        assert(!is_within(t, src));
        assert(mid.dom().contains(t));
        assert(gone.dom().contains(t));
    }
    assert forall|q: Seq<u8>|
        is_within(q, dst) && #[trigger] out.dom().contains(q) implies exists|p: Seq<u8>|
        #![trigger reroot(p, src, dst)]
        fs.dom().contains(p) && is_within(p, src) && q == reroot(p, src, dst) by {
        assert(!is_within(q, src));
        assert(gone.dom().contains(q));
        assert(mid.dom().contains(q));
    }
}

/// Copying a directory tree tolerates failures: whichever actions fail, each
/// entry whose own action succeeds still lands at its relative path under
/// the destination with the source's content (a file copy creates its own
/// parent directories, so a failed directory creation above it does no
/// harm); whatever exists beneath the destination is a copy of a source node,
/// and everything that existed before is left as it was.
pub proof fn lemma_copy_tolerates_failures(
    fs: Tree,
    src: Seq<u8>,
    dst: Seq<u8>,
    es: Seq<EntryModel>,
    fails: spec_fn(Op) -> bool,
)
    requires
        wf(fs),
        fs.dom().contains(src),
        fs[src] is Dir,
        forall|q: Seq<u8>| #[trigger] is_within(q, dst) ==> !fs.dom().contains(q),
        is_walk(fs, src, es),
    ensures
        forall|i: int|
            #![trigger es[i]]
            0 <= i < es.len() && !fails(entry_copy(src, dst, es[i])[0]) ==> {
                let out = run_failing(fs, copy_plan(src, dst, Some(EntryKind::Dir), es), fails);
                &&& out.dom().contains(reroot(es[i].path, src, dst))
                &&& out[reroot(es[i].path, src, dst)] == fs[es[i].path]
            },
        forall|q: Seq<u8>|
            #![trigger run_failing(fs, copy_plan(src, dst, Some(EntryKind::Dir), es), fails).dom().contains(q)]
            is_within(q, dst) && run_failing(fs, copy_plan(src, dst, Some(EntryKind::Dir), es), fails).dom().contains(q)
                ==> exists|p: Seq<u8>|
                #![trigger reroot(p, src, dst)]
                fs.dom().contains(p) && is_within(p, src) && q == reroot(p, src, dst)
                    && run_failing(fs, copy_plan(src, dst, Some(EntryKind::Dir), es), fails)[q] == fs[p],
        forall|q: Seq<u8>|
            #[trigger] fs.dom().contains(q) ==> run_failing(fs, copy_plan(src, dst, Some(EntryKind::Dir), es), fails).dom().contains(q)
                && run_failing(fs, copy_plan(src, dst, Some(EntryKind::Dir), es), fails)[q] == fs[q],
{
    lemma_copy_state(fs, src, dst, es, es.len() as int, fails);
    assert(es.subrange(0, es.len() as int) =~= es);
}

/// What an atomic rename of the tree at `src` to `dst` leaves: the same
/// filesystem with the tree moved beneath `dst`.
pub open spec fn rename_tree(fs: Tree, src: Seq<u8>, dst: Seq<u8>) -> Tree {
    Map::new(
        |q: Seq<u8>|
            (fs.dom().contains(q) && !is_within(q, src)) || (is_within(q, dst) && fs.dom().contains(
                join_of(src, rel_of(q, dst)),
            )),
        |q: Seq<u8>|
            if is_within(q, dst) {
                fs[join_of(src, rel_of(q, dst))]
            } else {
                fs[q]
            },
    )
}

spec fn rename_setup(fs: Tree, src: Seq<u8>, dst: Seq<u8>, es: Seq<EntryModel>) -> bool {
    &&& forall|q: Seq<u8>| #[trigger] fs.dom().contains(q) ==> clean(q)
    &&& clean(dst)
    &&& forall|a: Seq<u8>| #[trigger] is_within(dst, a) && a != dst ==> fs.dom().contains(a)
    &&& is_walk(fs, src, es)
}

proof fn lemma_copy_adds_below(fs: Tree, src: Seq<u8>, dst: Seq<u8>, es: Seq<EntryModel>, k: int)
    requires
        rename_setup(fs, src, dst, es),
        0 <= k <= es.len(),
    ensures
        forall|q: Seq<u8>|
            #[trigger] run(fs, seq![Op::CreateDir(dst)] + entry_copies(src, dst, es.subrange(0, k))).dom().contains(q)
                && !fs.dom().contains(q) ==> is_within(q, dst),
    decreases k,
{
    let never = |op: Op| false;
    let head = seq![Op::CreateDir(dst)];
    if k == 0 {
        assert(entry_copies(src, dst, es.subrange(0, 0)) =~= Seq::<Op>::empty());
        assert(head + Seq::<Op>::empty() =~= head);
        lemma_run_one(fs, Op::CreateDir(dst), never);
        lemma_run_failing_none(fs, head);
        return;
    }
    lemma_copy_adds_below(fs, src, dst, es, k - 1);
    let prev = head + entry_copies(src, dst, es.subrange(0, k - 1));
    let s = run(fs, prev);
    let e = es[k - 1];
    let p = e.path;
    let t = reroot(p, src, dst);
    assert(es.subrange(0, k).drop_last() =~= es.subrange(0, k - 1));
    assert(es.subrange(0, k).last() == e);
    let step = entry_copy(src, dst, e);
    assert(head + entry_copies(src, dst, es.subrange(0, k)) =~= prev + step);
    lemma_run_concat(fs, prev, step);
    lemma_reroot_keeps_relative(p, src, dst);
    assert(fs.dom().contains(p) && is_within(p, src) && kind_at(fs, p) == Some(e.kind));
    lemma_reroot_clean(p, src, dst);
    let op = step[0];
    assert(step =~= seq![op]);
    lemma_run_one(s, op, never);
    lemma_run_failing_none(s, step);
    let s2 = apply(s, op);
    assert(run(fs, head + entry_copies(src, dst, es.subrange(0, k))) == s2);
    assert forall|q: Seq<u8>| #[trigger] s2.dom().contains(q) && !fs.dom().contains(q) implies is_within(q, dst) by {
        if !s.dom().contains(q) && q != t && !is_within(q, dst) {
            lemma_outside_ancestor(t, dst, q);
        }
    }
}

/// A move whose rename failed ends exactly where an atomic rename would
/// have: when every action succeeds, the paths are clean, the destination's
/// parents exist and nothing exists at or beneath the destination, and the
/// two trees share no path, copy-then-remove leaves `rename_tree`.
pub proof fn lemma_move_fallback_matches_rename(fs: Tree, src: Seq<u8>, dst: Seq<u8>, es: Seq<EntryModel>)
    requires
        wf(fs),
        forall|q: Seq<u8>| #[trigger] fs.dom().contains(q) ==> clean(q),
        fs.dom().contains(src),
        fs[src] is Dir,
        clean(dst),
        forall|a: Seq<u8>| #[trigger] is_within(dst, a) && a != dst ==> fs.dom().contains(a),
        forall|q: Seq<u8>| #[trigger] is_within(q, dst) ==> !fs.dom().contains(q),
        forall|q: Seq<u8>| #[trigger] is_within(q, src) ==> !is_within(q, dst),
        is_walk(fs, src, es),
    ensures
        run(fs, move_plan(src, dst, false, Some(EntryKind::Dir), es)) == rename_tree(fs, src, dst),
{
    let k = Some(EntryKind::Dir);
    lemma_move_fallback_relocates(fs, src, dst, es);
    lemma_copy_fidelity(fs, src, dst, es);
    lemma_copy_adds_below(fs, src, dst, es, es.len() as int);
    assert(es.subrange(0, es.len() as int) =~= es);
    let mid = run(fs, copy_plan(src, dst, k, es));
    assert(mid == run(fs, seq![Op::CreateDir(dst)] + entry_copies(src, dst, es.subrange(0, es.len() as int))));
    let plan = remove_plan(src, k, es);
    assert(plan.drop_last() =~= file_deletes(es));
    assert(plan.last() == Op::RemoveTree(src));
    lemma_deletes_stay_inside(mid, src, es);
    lemma_run_concat(fs, copy_plan(src, dst, k, es), plan);
    let out = run(fs, move_plan(src, dst, false, k, es));
    let gone = run(mid, file_deletes(es));
    assert(out == apply(gone, Op::RemoveTree(src)));
    let want = rename_tree(fs, src, dst);
    assert forall|q: Seq<u8>| #[trigger] out.dom().contains(q) == want.dom().contains(q) && (out.dom().contains(q) ==> out[q] == want[q]) by {
        if is_within(q, dst) {
            assert(!is_within(q, src));
            let a = join_of(src, rel_of(q, dst));
            lemma_reroot_keeps_relative(q, dst, src);
            lemma_join_rel(q, dst);
            assert(reroot(a, src, dst) == q);
            if fs.dom().contains(a) {
                assert(out.dom().contains(reroot(a, src, dst)));
            }
            if out.dom().contains(q) {
                let p = choose|p: Seq<u8>|
                    #![trigger reroot(p, src, dst)]
                    fs.dom().contains(p) && is_within(p, src) && q == reroot(p, src, dst);
                lemma_reroot_keeps_relative(p, src, dst);
                lemma_join_rel(p, src);
                assert(a == p);
            }
        } else if is_within(q, src) {
        } else {
            if fs.dom().contains(q) {
                assert(mid.dom().contains(q));
            }
        }
    }
    assert(out =~= want);
}

/// Move equivalence: a move whose rename succeeded (leaving `rename_tree`)
/// ends in the same state as a copy followed by a remove, and nothing is
/// left at or beneath the source; under the conditions of
/// `lemma_move_fallback_matches_rename`.
pub proof fn lemma_move_equivalence(fs: Tree, src: Seq<u8>, dst: Seq<u8>, es: Seq<EntryModel>)
    requires
        wf(fs),
        forall|q: Seq<u8>| #[trigger] fs.dom().contains(q) ==> clean(q),
        fs.dom().contains(src),
        fs[src] is Dir,
        clean(dst),
        forall|a: Seq<u8>| #[trigger] is_within(dst, a) && a != dst ==> fs.dom().contains(a),
        forall|q: Seq<u8>| #[trigger] is_within(q, dst) ==> !fs.dom().contains(q),
        forall|q: Seq<u8>| #[trigger] is_within(q, src) ==> !is_within(q, dst),
        is_walk(fs, src, es),
    ensures
        run(rename_tree(fs, src, dst), move_plan(src, dst, true, Some(EntryKind::Dir), es)) == run(
            run(fs, copy_plan(src, dst, Some(EntryKind::Dir), es)),
            remove_plan(src, Some(EntryKind::Dir), es),
        ),
        forall|q: Seq<u8>|
            #[trigger] is_within(q, src) ==> !run(rename_tree(fs, src, dst), move_plan(src, dst, true, Some(EntryKind::Dir), es)).dom().contains(q),
{
    let k = Some(EntryKind::Dir);
    lemma_move_renamed(rename_tree(fs, src, dst), src, dst, k, es);
    lemma_move_fallback_matches_rename(fs, src, dst, es);
    lemma_move_fallback(fs, src, dst, k, es);
}

} // verus!
