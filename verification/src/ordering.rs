//! A total order over paths, and the sort that makes output deterministic.
//!
//! Paths are ordered component by component, and components byte by byte,
//! root-most component first.  Sorting is the only place the tool imposes
//! an order on its output; because the order is total, two sorted outputs
//! that hold the same paths are identical, which is what makes repeated
//! runs over unchanged trees print the same bytes.

use vstd::prelude::*;
use vstd::relations::sorted_by;
use vstd::relations::total_ordering;
use vstd::seq_lib::lemma_sorted_unique;
use vstd::seq_lib::to_multiset_insert;
use crate::paths::FilePath;
use crate::paths::bytes_eq;
use crate::paths::lemma_bytes_deep_view;
use crate::paths::path_views;

verus! {

/// Byte-wise comparison of `a` and `b` from position `i` on: `a` is no
/// greater than `b` when they agree up to where one ends and `a` ends
/// first, or when `a` holds the smaller byte at the first difference.
pub open spec fn bytes_le_from(a: Seq<u8>, b: Seq<u8>, i: int) -> bool
    decreases a.len() - i,
{
    if i >= a.len() {
        true
    } else if i >= b.len() {
        false
    } else if a[i] < b[i] {
        true
    } else if a[i] > b[i] {
        false
    } else {
        bytes_le_from(a, b, i + 1)
    }
}

/// Lexicographic order on byte sequences.
pub open spec fn bytes_le(a: Seq<u8>, b: Seq<u8>) -> bool {
    bytes_le_from(a, b, 0)
}

/// Component-wise comparison of paths from component `i` on: equal
/// components are skipped, the first differing pair decides by byte order,
/// and a path that is a prefix of the other comes first.
pub open spec fn path_le_from(a: Seq<Seq<u8>>, b: Seq<Seq<u8>>, i: int) -> bool
    decreases a.len() - i,
{
    if i >= a.len() {
        true
    } else if i >= b.len() {
        false
    } else if a[i] == b[i] {
        path_le_from(a, b, i + 1)
    } else {
        bytes_le(a[i], b[i])
    }
}

/// Lexicographic order on paths, component-wise.
pub open spec fn path_le(a: Seq<Seq<u8>>, b: Seq<Seq<u8>>) -> bool {
    path_le_from(a, b, 0)
}

/// The path order as a relation value, for vstd's ordering vocabulary.
pub open spec fn path_order() -> spec_fn(Seq<Seq<u8>>, Seq<Seq<u8>>) -> bool {
    |a: Seq<Seq<u8>>, b: Seq<Seq<u8>>| path_le(a, b)
}

proof fn bytes_le_refl(a: Seq<u8>, i: int)
    ensures
        bytes_le_from(a, a, i),
    decreases a.len() - i,
{
    if i < a.len() {
        bytes_le_refl(a, i + 1);
    }
}

proof fn bytes_le_antisym(a: Seq<u8>, b: Seq<u8>, i: int)
    requires
        0 <= i <= a.len(),
        i <= b.len(),
        bytes_le_from(a, b, i),
        bytes_le_from(b, a, i),
    ensures
        a.len() == b.len(),
        forall|j: int| i <= j < a.len() ==> a[j] == b[j],
    decreases a.len() - i,
{
    if i == a.len() {
        assert(b.len() <= i);
    } else if i == b.len() {
        assert(!bytes_le_from(a, b, i));
    } else {
        bytes_le_antisym(a, b, i + 1);
    }
}

proof fn bytes_le_trans(a: Seq<u8>, b: Seq<u8>, c: Seq<u8>, i: int)
    requires
        bytes_le_from(a, b, i),
        bytes_le_from(b, c, i),
    ensures
        bytes_le_from(a, c, i),
    decreases a.len() - i,
{
    if i < a.len() && i < b.len() && i < c.len() && a[i] == b[i] && b[i] == c[i] {
        bytes_le_trans(a, b, c, i + 1);
    }
}

proof fn bytes_le_conn(a: Seq<u8>, b: Seq<u8>, i: int)
    ensures
        bytes_le_from(a, b, i) || bytes_le_from(b, a, i),
    decreases a.len() - i,
{
    if i < a.len() && i < b.len() && a[i] == b[i] {
        bytes_le_conn(a, b, i + 1);
    }
}

proof fn path_le_refl(a: Seq<Seq<u8>>, i: int)
    ensures
        path_le_from(a, a, i),
    decreases a.len() - i,
{
    if i < a.len() {
        path_le_refl(a, i + 1);
    }
}

proof fn path_le_antisym(a: Seq<Seq<u8>>, b: Seq<Seq<u8>>, i: int)
    requires
        0 <= i <= a.len(),
        i <= b.len(),
        path_le_from(a, b, i),
        path_le_from(b, a, i),
    ensures
        a.len() == b.len(),
        forall|j: int| i <= j < a.len() ==> a[j] == b[j],
    decreases a.len() - i,
{
    if i == a.len() {
        assert(b.len() <= i);
    } else if i == b.len() {
        assert(!path_le_from(a, b, i));
    } else if a[i] == b[i] {
        path_le_antisym(a, b, i + 1);
    } else {
        bytes_le_antisym(a[i], b[i], 0);
        assert(a[i] =~= b[i]);
    }
}

proof fn path_le_trans(a: Seq<Seq<u8>>, b: Seq<Seq<u8>>, c: Seq<Seq<u8>>, i: int)
    requires
        path_le_from(a, b, i),
        path_le_from(b, c, i),
    ensures
        path_le_from(a, c, i),
    decreases a.len() - i,
{
    if i < a.len() {
        if i < b.len() && i < c.len() {
            if a[i] == b[i] && b[i] == c[i] {
                path_le_trans(a, b, c, i + 1);
            } else if a[i] == b[i] {
                // the pair b, c decides, and a[i] matches b[i]
            } else if b[i] == c[i] {
                // the pair a, b decides, and c[i] matches b[i]
            } else {
                bytes_le_trans(a[i], b[i], c[i], 0);
                if a[i] == c[i] {
                    bytes_le_antisym(a[i], b[i], 0);
                    assert(a[i] =~= b[i]);
                }
            }
        }
    }
}

proof fn path_le_conn(a: Seq<Seq<u8>>, b: Seq<Seq<u8>>, i: int)
    ensures
        path_le_from(a, b, i) || path_le_from(b, a, i),
    decreases a.len() - i,
{
    if i < a.len() && i < b.len() {
        if a[i] == b[i] {
            path_le_conn(a, b, i + 1);
        } else {
            bytes_le_conn(a[i], b[i], 0);
        }
    }
}

/// Law: the component-wise path order is a total order, so sorting by it
/// leaves exactly one possible arrangement of any collection of paths.
pub proof fn lemma_path_order_total()
    ensures
        total_ordering(path_order()),
{
    let r = path_order();
    assert forall|x: Seq<Seq<u8>>| #[trigger] r(x, x) by {
        path_le_refl(x, 0);
    }
    assert forall|x: Seq<Seq<u8>>, y: Seq<Seq<u8>>| #[trigger] r(x, y) && #[trigger] r(
        y,
        x,
    ) implies x == y by {
        path_le_antisym(x, y, 0);
        assert(x =~= y);
    }
    assert forall|x: Seq<Seq<u8>>, y: Seq<Seq<u8>>, z: Seq<Seq<u8>>|
        #[trigger] r(x, y) && #[trigger] r(y, z) implies r(x, z) by {
        path_le_trans(x, y, z, 0);
    }
    assert forall|x: Seq<Seq<u8>>, y: Seq<Seq<u8>>| #[trigger] r(x, y) || #[trigger] r(y, x) by {
        path_le_conn(x, y, 0);
    }
}

/// Law: a total order admits one sorted arrangement only — two sorted
/// sequences that hold the same paths, with the same multiplicities, are
/// identical.  This is why running the comparison twice over unchanged
/// trees prints identical sorted output, whatever order the grouping
/// produced the paths in.
pub proof fn lemma_sorted_output_unique(x: Seq<Seq<Seq<u8>>>, y: Seq<Seq<Seq<u8>>>)
    requires
        sorted_by(x, path_order()),
        sorted_by(y, path_order()),
        x.to_multiset() == y.to_multiset(),
    ensures
        x == y,
{
    lemma_path_order_total();
    lemma_sorted_unique(x, y, path_order());
}

/// Law: two sorted runs of paths in which every path occurs the same
/// number of times are identical.  Together with the partition's count
/// contracts this is why running the comparison twice over unchanged trees
/// yields byte-identical sorted output, however the worker pool happened
/// to interleave.
pub proof fn lemma_runs_identical(x: Seq<Seq<Seq<u8>>>, y: Seq<Seq<Seq<u8>>>)
    requires
        sorted_by(x, path_order()),
        sorted_by(y, path_order()),
        forall|p: Seq<Seq<u8>>|
            #![auto]
            x.to_multiset().count(p) == y.to_multiset().count(p),
    ensures
        x == y,
{
    assert(x.to_multiset() =~= y.to_multiset());
    lemma_sorted_output_unique(x, y);
}

/// Byte-wise lexicographic comparison.
fn bytes_cmp_le(a: &Vec<u8>, b: &Vec<u8>) -> (r: bool)
    ensures
        r == bytes_le(a@, b@),
{
    let na = a.len();
    let nb = b.len();
    let n = if na < nb {
        na
    } else {
        nb
    };
    let mut i: usize = 0;
    while i < n
        invariant
            i <= n,
            na == a@.len(),
            nb == b@.len(),
            n == if na < nb {
                na
            } else {
                nb
            },
            bytes_le(a@, b@) == bytes_le_from(a@, b@, i as int),
        decreases n - i,
    {
        if a[i] < b[i] {
            return true;
        }
        if a[i] > b[i] {
            return false;
        }
        i = i + 1;
    }
    na <= nb
}

/// Component-wise lexicographic comparison of two paths.
fn paths_cmp_le(a: &FilePath, b: &FilePath) -> (r: bool)
    ensures
        r == path_le(a@, b@),
{
    let ca = a.components();
    let cb = b.components();
    let na = ca.len();
    let nb = cb.len();
    let n = if na < nb {
        na
    } else {
        nb
    };
    let mut i: usize = 0;
    while i < n
        invariant
            i <= n,
            na == ca@.len(),
            nb == cb@.len(),
            ca.deep_view() == a@,
            cb.deep_view() == b@,
            n == if na < nb {
                na
            } else {
                nb
            },
            path_le(a@, b@) == path_le_from(a@, b@, i as int),
        decreases n - i,
    {
        proof {
            lemma_bytes_deep_view(ca@[i as int]);
            lemma_bytes_deep_view(cb@[i as int]);
        }
        if !bytes_eq(&ca[i], &cb[i]) {
            proof {
                assert(a@[i as int] != b@[i as int]);
            }
            return bytes_cmp_le(&ca[i], &cb[i]);
        }
        proof {
            assert(a@[i as int] == b@[i as int]);
        }
        i = i + 1;
    }
    na <= nb
}

/// The first position in a sorted run at which `p` can stand.
fn find_insert_pos(out: &Vec<FilePath>, p: &FilePath) -> (j: usize)
    ensures
        j <= out@.len(),
        forall|m: int| 0 <= m < j ==> !path_le(p@, path_views(out@)[m]),
        j < out@.len() ==> path_le(p@, path_views(out@)[j as int]),
{
    let n = out.len();
    let mut j: usize = 0;
    while j < n
        invariant
            j <= n,
            n == out@.len(),
            forall|m: int| 0 <= m < j ==> !path_le(p@, path_views(out@)[m]),
        decreases n - j,
    {
        if paths_cmp_le(p, &out[j]) {
            return j;
        }
        j = j + 1;
    }
    j
}

/// Places one path into an already sorted run, keeping it sorted.
fn insert_sorted(out: &mut Vec<FilePath>, p: FilePath)
    requires
        sorted_by(path_views(old(out)@), path_order()),
    ensures
        sorted_by(path_views(final(out)@), path_order()),
        path_views(final(out)@).to_multiset() == path_views(old(out)@).to_multiset().insert(p@),
{
    let ghost vs0 = path_views(out@);
    let j = find_insert_pos(out, &p);
    proof {
        assert forall|m: int| 0 <= m < j implies path_le(vs0[m], p@) by {
            path_le_conn(vs0[m], p@, 0);
        }
    }
    out.insert(j, p);
    proof {
        let vs1 = path_views(out@);
        assert(vs1 =~= vs0.insert(j as int, p@));
        assert forall|x: int, y: int| 0 <= x < y < vs1.len() implies #[trigger] path_order()(
            vs1[x],
            vs1[y],
        ) by {
            let ji = j as int;
            if y < ji {
                assert(path_order()(vs0[x], vs0[y]));
            } else if x < ji && y == ji {
                assert(path_le(vs0[x], p@));
            } else if x < ji && y > ji {
                assert(path_order()(vs0[x], vs0[y - 1]));
            } else if x == ji {
                assert(path_le(p@, vs0[ji]));
                if y > ji + 1 {
                    assert(path_order()(vs0[ji], vs0[y - 1]));
                    path_le_trans(p@, vs0[ji], vs0[y - 1], 0);
                }
            } else {
                assert(path_order()(vs0[x - 1], vs0[y - 1]));
            }
        }
        to_multiset_insert(vs0, j as int, p@);
    }
}

/// Sorts paths by the component-wise order; the result holds exactly the
/// given paths, with their multiplicities.
pub fn sort_paths(v: Vec<FilePath>) -> (r: Vec<FilePath>)
    ensures
        sorted_by(path_views(r@), path_order()),
        path_views(r@).to_multiset() == path_views(v@).to_multiset(),
{
    let mut out: Vec<FilePath> = Vec::new();
    let n = v.len();
    let mut i: usize = 0;
    proof {
        assert(path_views(out@) =~= Seq::<Seq<Seq<u8>>>::empty());
        assert(path_views(v@.take(0)) =~= Seq::<Seq<Seq<u8>>>::empty());
    }
    while i < n
        invariant
            i <= n,
            n == v@.len(),
            sorted_by(path_views(out@), path_order()),
            path_views(out@).to_multiset() == path_views(v@.take(i as int)).to_multiset(),
        decreases n - i,
    {
        let ghost pre = path_views(out@);
        insert_sorted(&mut out, v[i].clone_path());
        proof {
            let t0 = path_views(v@.take(i as int));
            let t1 = path_views(v@.take(i + 1));
            assert(t1 =~= t0.push(v@[i as int]@));
            vstd::seq_lib::to_multiset_build(t0, v@[i as int]@);
        }
        i = i + 1;
    }
    proof {
        assert(v@.take(n as int) =~= v@);
    }
    out
}

} // verus!
