//! Paths as byte strings of components separated by `SEP`.
//!
//! An absolute path starts with `SEP` (its root is the empty string); the
//! components themselves never hold `SEP`.
use vstd::prelude::*;

verus! {

/// The component separator, `/`.
pub const SEP: u8 = 47;

/// `p` is `r` itself or lies beneath it, component-wise.
pub open spec fn is_within(p: Seq<u8>, r: Seq<u8>) -> bool {
    p == r || (r.len() + 1 < p.len() && p.subrange(0, r.len() as int) == r && p[r.len() as int] == SEP)
}

/// The part of `p` below `r` (empty when `p == r`); meaningful when `is_within(p, r)`.
pub open spec fn rel_of(p: Seq<u8>, r: Seq<u8>) -> Seq<u8> {
    if p.len() <= r.len() {
        Seq::empty()
    } else {
        p.subrange(r.len() + 1int, p.len() as int)
    }
}

/// `rel` appended to `d`; an empty `rel` names `d` itself.
pub open spec fn join_of(d: Seq<u8>, rel: Seq<u8>) -> Seq<u8> {
    if rel.len() == 0 {
        d
    } else {
        d + seq![SEP] + rel
    }
}

/// The path of `p` relative to `root`, or `None` when `p` is not within `root`.
pub fn relative(p: &Vec<u8>, root: &Vec<u8>) -> (r: Option<Vec<u8>>)
    ensures
        r.is_some() == is_within(p@, root@),
        r.is_some() ==> r.unwrap()@ == rel_of(p@, root@),
{
    let n = root.len();
    if n > p.len() {
        return None;
    }
    let mut i: usize = 0;
    while i < n
        invariant
            n == root@.len(),
            n <= p@.len(),
            i <= n,
            forall|k: int| 0 <= k < i ==> p@[k] == root@[k],
        decreases n - i,
    {
        if p[i] != root[i] {
            proof {
                assert(p@.subrange(0, n as int)[i as int] != root@[i as int]);
            }
            return None;
        }
        i = i + 1;
    }
    assert(p@.subrange(0, n as int) =~= root@);
    if n == p.len() {
        assert(p@ =~= root@);
        return Some(Vec::new());
    }
    if p[n] != SEP || n + 1 == p.len() {
        return None;
    }
    let mut out: Vec<u8> = Vec::new();
    let mut j: usize = n + 1;
    while j < p.len()
        invariant
            n + 1 <= j <= p@.len(),
            out@ =~= p@.subrange(n + 1, j as int),
        decreases p@.len() - j,
    {
        out.push(p[j]);
        j = j + 1;
    }
    Some(out)
}

/// `rel` appended to `d`, with one separator between them.
pub fn join(d: &Vec<u8>, rel: &Vec<u8>) -> (r: Vec<u8>)
    ensures
        r@ == join_of(d@, rel@),
{
    let mut out: Vec<u8> = Vec::new();
    let mut i: usize = 0;
    while i < d.len()
        invariant
            i <= d@.len(),
            out@ =~= d@.subrange(0, i as int),
        decreases d@.len() - i,
    {
        out.push(d[i]);
        i = i + 1;
    }
    if rel.len() == 0 {
        assert(out@ =~= d@);
        return out;
    }
    out.push(SEP);
    let mut j: usize = 0;
    while j < rel.len()
        invariant
            j <= rel@.len(),
            out@ =~= d@ + seq![SEP] + rel@.subrange(0, j as int),
        decreases rel@.len() - j,
    {
        out.push(rel[j]);
        j = j + 1;
    }
    assert(rel@.subrange(0, rel@.len() as int) =~= rel@);
    out
}

/// A path re-rooted from one directory to another keeps its place: the
/// re-rooted path lies within the new root, at the same relative path.
pub proof fn lemma_reroot_keeps_relative(p: Seq<u8>, src: Seq<u8>, dst: Seq<u8>)
    ensures
        is_within(join_of(dst, rel_of(p, src)), dst),
        rel_of(join_of(dst, rel_of(p, src)), dst) == rel_of(p, src),
{
    let x = rel_of(p, src);
    if x.len() > 0 {
        let t = join_of(dst, x);
        assert(t.subrange(0, dst.len() as int) =~= dst);
        assert(t.subrange(dst.len() + 1int, t.len() as int) =~= x);
    }
}

/// A path within a root is that root joined with its relative part.
pub proof fn lemma_join_rel(p: Seq<u8>, r: Seq<u8>)
    requires
        is_within(p, r),
    ensures
        join_of(r, rel_of(p, r)) == p,
{
    if p != r {
        assert(r + seq![SEP] + p.subrange(r.len() + 1int, p.len() as int) =~= p);
    }
}

/// Two paths within each other are the same path.
pub proof fn lemma_within_antisymmetric(p: Seq<u8>, q: Seq<u8>)
    requires
        is_within(p, q),
        is_within(q, p),
    ensures
        p == q,
{
}

/// Re-rooting is one-to-one on the paths within a root.
pub proof fn lemma_reroot_injective(p1: Seq<u8>, p2: Seq<u8>, s: Seq<u8>, d: Seq<u8>)
    requires
        is_within(p1, s),
        is_within(p2, s),
        join_of(d, rel_of(p1, s)) == join_of(d, rel_of(p2, s)),
    ensures
        p1 == p2,
{
    let r1 = rel_of(p1, s);
    let r2 = rel_of(p2, s);
    if r1.len() > 0 && r2.len() > 0 {
        let t = join_of(d, r1);
        assert(t.subrange(d.len() + 1int, t.len() as int) =~= r1);
        assert(join_of(d, r2).subrange(d.len() + 1int, t.len() as int) =~= r2);
    } else if r1.len() > 0 {
        assert(join_of(d, r1).len() > d.len());
    } else if r2.len() > 0 {
        assert(join_of(d, r2).len() > d.len());
    }
    lemma_join_rel(p1, s);
    lemma_join_rel(p2, s);
}

/// An ancestor `q`, within `d`, of the re-rooted `p` is itself the
/// re-rooting of an ancestor `a` of `p` within `s`.
pub proof fn lemma_reroot_ancestor(p: Seq<u8>, s: Seq<u8>, d: Seq<u8>, q: Seq<u8>)
    requires
        is_within(p, s),
        is_within(q, d),
        is_within(join_of(d, rel_of(p, s)), q),
    ensures
        is_within(p, join_of(s, rel_of(q, d))),
        is_within(join_of(s, rel_of(q, d)), s),
        join_of(d, rel_of(join_of(s, rel_of(q, d)), s)) == q,
{
    let r = rel_of(p, s);
    let u = rel_of(q, d);
    let t = join_of(d, r);
    let a = join_of(s, u);
    lemma_join_rel(p, s);
    lemma_join_rel(q, d);
    lemma_reroot_keeps_relative(a, s, s);
    if u.len() == 0 {
        assert(a == s);
        assert(rel_of(s, s) =~= Seq::<u8>::empty());
    } else {
        assert(q == d + seq![SEP] + u);
        assert(t != d) by {
            if t == d {
                assert(q.len() > d.len());
            }
        }
        assert(r.len() > 0);
        assert(t == d + seq![SEP] + r);
        assert(a.subrange(0, s.len() as int) =~= s);
        assert(rel_of(a, s) =~= u);
        if t != q {
            assert(t.subrange(0, q.len() as int) =~= q);
            assert forall|k: int| 0 <= k < u.len() implies r[k] == u[k] by {
                assert(t[d.len() + 1 + k] == q[d.len() + 1 + k]);
            }
            assert(r.len() > u.len());
            assert(r[u.len() as int] == t[q.len() as int]);
            assert(p == s + seq![SEP] + r);
            assert(p.subrange(0, a.len() as int) =~= a);
            assert(p[a.len() as int] == r[u.len() as int]);
        } else {
            assert(r =~= t.subrange(d.len() + 1int, t.len() as int));
            assert(u =~= q.subrange(d.len() + 1int, q.len() as int));
            assert(p == a);
        }
    }
}

/// No component of `p` is empty: every separator is followed by a
/// non-separator byte (an absolute path starts with one; the root is `""`).
pub open spec fn clean(p: Seq<u8>) -> bool {
    forall|k: int| #![trigger p[k]] 0 <= k < p.len() && p[k] == SEP ==> k + 1 < p.len() && p[k + 1] != SEP
}

/// Re-rooting a clean path to a clean root gives a clean path.
pub proof fn lemma_reroot_clean(p: Seq<u8>, s: Seq<u8>, d: Seq<u8>)
    requires
        clean(p),
        clean(d),
        is_within(p, s),
    ensures
        clean(join_of(d, rel_of(p, s))),
{
    if p != s {
        let r = rel_of(p, s);
        let t = join_of(d, r);
        assert(t == d + seq![SEP] + r);
        assert(r[0] == p[s.len() + 1int]);
        assert forall|k: int| #![trigger t[k]] 0 <= k < t.len() && t[k] == SEP implies k + 1 < t.len() && t[k + 1] != SEP by {
            if k < d.len() {
                assert(d[k] == SEP);
                if k + 1 < d.len() {
                    assert(t[k + 1] == d[k + 1]);
                }
            } else if k > d.len() {
                let m = k - d.len() - 1 + s.len() + 1;
                assert(t[k] == p[m]);
                assert(p[m] == SEP);
                assert(t[k + 1] == p[m + 1]);
            }
        }
    }
}

/// If a clean path `t` within `d` also lies within `q`, and `q` is not
/// within `d`, then `q` is a proper ancestor of `d`.
pub proof fn lemma_outside_ancestor(t: Seq<u8>, d: Seq<u8>, q: Seq<u8>)
    requires
        clean(t),
        is_within(t, d),
        is_within(t, q),
        !is_within(q, d),
    ensures
        is_within(d, q),
        q != d,
{
    if t != d {
        assert(t[d.len() as int] == SEP);
        assert(q != t);
        assert(t[q.len() as int] == SEP);
        if q.len() > d.len() {
            assert(q.subrange(0, d.len() as int) =~= t.subrange(0, d.len() as int));
            assert(q[d.len() as int] == t.subrange(0, q.len() as int)[d.len() as int]);
            assert(t[d.len() as int] == SEP);
            assert(q.len() == d.len() + 1);
            assert(t[d.len() + 1int] == SEP);
        } else if q.len() < d.len() {
            assert(d.subrange(0, q.len() as int) =~= t.subrange(0, q.len() as int));
            assert(d[q.len() as int] == t.subrange(0, d.len() as int)[q.len() as int]);
            if d.len() == q.len() + 1 {
                assert(t[q.len() + 1int] == SEP);
            }
        } else {
            assert(q =~= t.subrange(0, q.len() as int));
            assert(d =~= t.subrange(0, d.len() as int));
        }
    }
}

} // verus!
