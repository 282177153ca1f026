//! Partitioning two digest groupings into shared and unique paths.
//!
//! Given the global grouping of each tree side, a digest key present in
//! both groupings puts every path it carries — on either side — into the
//! intersection; a key present on one side only puts its paths into that
//! side's unique output.  Each of the three outputs is computed only when
//! its flag asks for it, and is skipped entirely otherwise.

use vstd::prelude::*;
use vstd::multiset::Multiset;
use crate::mapping::DigestGroups;
use crate::mapping::Entry;
use crate::mapping::SideMapping;
use crate::mapping::clone_paths;
use crate::mapping::entries_view;
use crate::mapping::has_key;
use crate::mapping::key_idx;
use crate::mapping::lemma_entry_view;
use crate::mapping::unique_keys;
use crate::paths::FilePath;
use crate::paths::bytes_eq;
use crate::paths::path_views;

verus! {

/// Some digest key present in both groupings carries `p` on the first
/// grouping's side.
pub open spec fn in_common_part(ma: DigestGroups, mb: DigestGroups, p: Seq<Seq<u8>>) -> bool {
    exists|k: Seq<u8>| #![auto] ma.contains_key(k) && mb.contains_key(k) && ma[k].contains(p)
}

/// `p` belongs to the intersection: its digest key exists in both
/// groupings, on whichever side `p` was recorded.
pub open spec fn in_intersection(m1: DigestGroups, m2: DigestGroups, p: Seq<Seq<u8>>) -> bool {
    in_common_part(m1, m2, p) || in_common_part(m2, m1, p)
}

/// `p` is unique to the first grouping: it sits under a digest key that
/// the second grouping lacks.
pub open spec fn in_unique(m1: DigestGroups, m2: DigestGroups, p: Seq<Seq<u8>>) -> bool {
    exists|k: Seq<u8>| #![auto] m1.contains_key(k) && !m2.contains_key(k) && m1[k].contains(p)
}

/// A run of paths with no path listed twice.
pub open spec fn no_repeats(s: Seq<Seq<Seq<u8>>>) -> bool {
    forall|i: int, j: int| 0 <= i < j < s.len() ==> s[i] != s[j]
}

/// Every path of the grouping stands under exactly one key, exactly once —
/// the shape a grouping has when each discovered file was hashed once.
pub open spec fn distinct_paths(m: DigestGroups) -> bool {
    &&& forall|k: Seq<u8>| #![auto] m.contains_key(k) ==> no_repeats(m[k])
    &&& forall|k1: Seq<u8>, k2: Seq<u8>, p: Seq<Seq<u8>>|
        #![auto]
        m.contains_key(k1) && m.contains_key(k2) && m[k1].contains(p) && m[k2].contains(p) ==> k1
            == k2
}

/// One when the common keys of the first grouping carry `p` on its side,
/// zero otherwise.
pub open spec fn common_count(ma: DigestGroups, mb: DigestGroups, p: Seq<Seq<u8>>) -> int {
    if in_common_part(ma, mb, p) {
        1
    } else {
        0
    }
}

/// One when `p` is unique to the first grouping, zero otherwise.
pub open spec fn unique_count(m1: DigestGroups, m2: DigestGroups, p: Seq<Seq<u8>>) -> int {
    if in_unique(m1, m2, p) {
        1
    } else {
        0
    }
}

/// A run with no repeats counts each path at most once.
proof fn lemma_count_no_repeats(s: Seq<Seq<Seq<u8>>>, p: Seq<Seq<u8>>)
    requires
        no_repeats(s),
    ensures
        s.to_multiset().count(p) == if s.contains(p) {
            1int
        } else {
            0int
        },
    decreases s.len(),
{
    broadcast use vstd::seq_lib::group_to_multiset_ensures;

    if s.len() == 0 {
        assert(s.to_multiset() =~= Multiset::<Seq<Seq<u8>>>::empty());
    } else {
        let s0 = s.drop_last();
        let x = s.last();
        assert(s =~= s0.push(x));
        lemma_count_no_repeats(s0, p);
        assert(s0.push(x).to_multiset() == s0.to_multiset().insert(x));
        if p == x {
            if s0.contains(p) {
                let w = choose|w: int| 0 <= w < s0.len() && s0[w] == p;
                assert(s[w] == s[s.len() - 1]);
                assert(false);
            }
        } else {
            if s.contains(p) {
                let w = choose|w: int| 0 <= w < s.len() && s[w] == p;
                assert(s0[w] == p);
            }
            if s0.contains(p) {
                let w = choose|w: int| 0 <= w < s0.len() && s0[w] == p;
                assert(s[w] == p);
            }
        }
    }
}

/// Whether a grouping holds the given digest key.
fn contains_key_exec(m: &SideMapping, kb: &Vec<u8>) -> (r: bool)
    ensures
        r == m@.contains_key(kb@),
{
    let n = m.entries.len();
    let mut i: usize = 0;
    while i < n
        invariant
            i <= n,
            n == m.entries@.len(),
            forall|j: int| 0 <= j < i ==> #[trigger] m.entries@[j].digest_bytes@ != kb@,
        decreases n - i,
    {
        if bytes_eq(&m.entries[i].digest_bytes, kb) {
            assert(has_key(m.entries@, kb@));
            return true;
        }
        i = i + 1;
    }
    assert(!has_key(m.entries@, kb@));
    false
}

/// The run of paths a grouping holds under the given digest key.
fn get_paths<'a>(m: &'a SideMapping, kb: &Vec<u8>) -> (r: Option<&'a Vec<FilePath>>)
    ensures
        m@.contains_key(kb@) ==> r is Some && path_views(r.unwrap()@) == m@[kb@],
        !m@.contains_key(kb@) ==> r is None,
{
    proof {
        use_type_invariant(m);
    }
    let n = m.entries.len();
    let mut i: usize = 0;
    while i < n
        invariant
            i <= n,
            n == m.entries@.len(),
            unique_keys(m.entries@),
            forall|j: int| 0 <= j < i ==> #[trigger] m.entries@[j].digest_bytes@ != kb@,
        decreases n - i,
    {
        if bytes_eq(&m.entries[i].digest_bytes, kb) {
            proof {
                lemma_entry_view(m.entries@, i as int);
            }
            return Some(&m.entries[i].paths);
        }
        i = i + 1;
    }
    assert(!has_key(m.entries@, kb@));
    None
}

/// Entry keys of the prefix `s[..t]` that `mb` also holds carry `p`.
spec fn prefix_common_a(s: Seq<Entry>, mb: DigestGroups, t: int, p: Seq<Seq<u8>>) -> bool {
    exists|j: int|
        #![auto]
        0 <= j < t && mb.contains_key(s[j].digest_bytes@) && path_views(s[j].paths@).contains(p)
}

/// `mb`'s runs under the keys of the prefix `s[..t]` carry `p`.
spec fn prefix_common_b(s: Seq<Entry>, mb: DigestGroups, t: int, p: Seq<Seq<u8>>) -> bool {
    exists|j: int|
        #![auto]
        0 <= j < t && mb.contains_key(s[j].digest_bytes@) && mb[s[j].digest_bytes@].contains(p)
}

/// Collects, for every digest key the two groupings share, the paths both
/// sides recorded under it.
fn gather_intersection(map1: &SideMapping, map2: &SideMapping) -> (out: Vec<FilePath>)
    ensures
        forall|p: Seq<Seq<u8>>|
            #![auto]
            path_views(out@).contains(p) <==> in_intersection(map1@, map2@, p),
        distinct_paths(map1@) && distinct_paths(map2@) ==> forall|p: Seq<Seq<u8>>|
            #![auto]
            path_views(out@).to_multiset().count(p) == common_count(map1@, map2@, p)
                + common_count(map2@, map1@, p),
{
    proof {
        use_type_invariant(map1);
        use_type_invariant(map2);
    }
    let ghost s1 = map1.entries@;
    let ghost m1 = map1@;
    let ghost m2 = map2@;
    let mut out: Vec<FilePath> = Vec::new();
    let n = map1.entries.len();
    let mut t: usize = 0;
    proof {
        broadcast use vstd::seq_lib::group_to_multiset_ensures;

        assert(path_views(out@) =~= Seq::<Seq<Seq<u8>>>::empty());
        assert(path_views(out@).to_multiset() =~= Multiset::<Seq<Seq<u8>>>::empty());
    }
    while t < n
        invariant
            t <= n,
            n == s1.len(),
            s1 == map1.entries@,
            m1 == map1@,
            m2 == map2@,
            unique_keys(s1),
            unique_keys(map2.entries@),
            forall|p: Seq<Seq<u8>>|
                #![auto]
                path_views(out@).contains(p) <==> (prefix_common_a(s1, m2, t as int, p)
                    || prefix_common_b(s1, m2, t as int, p)),
            distinct_paths(m1) && distinct_paths(m2) ==> forall|p: Seq<Seq<u8>>|
                #![auto]
                path_views(out@).to_multiset().count(p) == (if prefix_common_a(s1, m2, t as int, p) {
                    1int
                } else {
                    0int
                }) + (if prefix_common_b(s1, m2, t as int, p) {
                    1int
                } else {
                    0int
                }),
        decreases n - t,
    {
        let ghost pre = path_views(out@);
        let kb = &map1.entries[t].digest_bytes;
        let found = get_paths(map2, kb);
        proof {
            lemma_entry_view(s1, t as int);
        }
        match found {
            Some(other_paths) => {
                let mut add1 = clone_paths(&map1.entries[t].paths);
                let mut add2 = clone_paths(other_paths);
                let ghost v1 = path_views(add1@);
                let ghost v2 = path_views(add2@);
                out.append(&mut add1);
                out.append(&mut add2);
                proof {
                    broadcast use vstd::seq_lib::group_to_multiset_ensures;

                    let kt = s1[t as int].digest_bytes@;
                    let post = path_views(out@);
                    assert(post =~= pre + v1 + v2);
                    assert(v1 == m1[kt]);
                    assert(v2 == m2[kt]);
                    vstd::seq_lib::lemma_multiset_commutative(pre + v1, v2);
                    vstd::seq_lib::lemma_multiset_commutative(pre, v1);
                    // membership carries over the two appended runs
                    assert forall|p: Seq<Seq<u8>>| #![auto] post.contains(p) implies (
                    prefix_common_a(s1, m2, t + 1, p) || prefix_common_b(s1, m2, t + 1, p)) by {
                        let w = choose|w: int| 0 <= w < post.len() && post[w] == p;
                        if w < pre.len() {
                            assert(pre.contains(p));
                        } else if w < pre.len() + v1.len() {
                            assert(v1[w - pre.len()] == p);
                            assert(path_views(s1[t as int].paths@).contains(p));
                        } else {
                            assert(v2[w - pre.len() - v1.len()] == p);
                            assert(m2[kt].contains(p));
                        }
                    }
                    assert forall|p: Seq<Seq<u8>>| #![auto] (prefix_common_a(s1, m2, t + 1, p)
                        || prefix_common_b(s1, m2, t + 1, p)) implies post.contains(p) by {
                        if prefix_common_a(s1, m2, t + 1, p) {
                            let j = choose|j: int|
                                #![auto]
                                0 <= j < t + 1 && m2.contains_key(s1[j].digest_bytes@)
                                    && path_views(s1[j].paths@).contains(p);
                            if j < t {
                                assert(pre.contains(p));
                                let w = choose|w: int| 0 <= w < pre.len() && pre[w] == p;
                                assert(post[w] == p);
                            } else {
                                let w = choose|w: int| 0 <= w < v1.len() && v1[w] == p;
                                assert(post[pre.len() + w] == p);
                            }
                        } else {
                            let j = choose|j: int|
                                #![auto]
                                0 <= j < t + 1 && m2.contains_key(s1[j].digest_bytes@)
                                    && m2[s1[j].digest_bytes@].contains(p);
                            if j < t {
                                assert(pre.contains(p));
                                let w = choose|w: int| 0 <= w < pre.len() && pre[w] == p;
                                assert(post[w] == p);
                            } else {
                                let w = choose|w: int| 0 <= w < v2.len() && v2[w] == p;
                                assert(post[pre.len() + v1.len() + w] == p);
                            }
                        }
                    }
                    if distinct_paths(m1) && distinct_paths(m2) {
                        assert forall|p: Seq<Seq<u8>>|
                            #![auto]
                            post.to_multiset().count(p) == (if prefix_common_a(s1, m2, t + 1, p) {
                                1int
                            } else {
                                0int
                            }) + (if prefix_common_b(s1, m2, t + 1, p) {
                                1int
                            } else {
                                0int
                            }) by {
                            lemma_count_no_repeats(v1, p);
                            lemma_count_no_repeats(v2, p);
                            assert(post.to_multiset().count(p) == pre.to_multiset().count(p)
                                + v1.to_multiset().count(p) + v2.to_multiset().count(p));
                            if v1.contains(p) {
                                // no other processed key of this side carries p
                                assert forall|j: int|
                                    #![auto]
                                    0 <= j < t && m2.contains_key(s1[j].digest_bytes@) implies !path_views(
                                    s1[j].paths@,
                                ).contains(p) by {
                                    lemma_entry_view(s1, j);
                                    if path_views(s1[j].paths@).contains(p) {
                                        assert(s1[j].digest_bytes@ == kt);
                                    }
                                }
                                assert(!prefix_common_a(s1, m2, t as int, p));
                                assert(prefix_common_a(s1, m2, t + 1, p));
                            } else {
                                assert(prefix_common_a(s1, m2, t + 1, p) == prefix_common_a(
                                    s1,
                                    m2,
                                    t as int,
                                    p,
                                ));
                            }
                            if v2.contains(p) {
                                assert forall|j: int|
                                    #![auto]
                                    0 <= j < t && m2.contains_key(s1[j].digest_bytes@) implies !m2[s1[j].digest_bytes@].contains(
                                    p,
                                ) by {
                                    if m2[s1[j].digest_bytes@].contains(p) {
                                        assert(s1[j].digest_bytes@ == kt);
                                    }
                                }
                                assert(!prefix_common_b(s1, m2, t as int, p));
                                assert(prefix_common_b(s1, m2, t + 1, p));
                            } else {
                                assert(prefix_common_b(s1, m2, t + 1, p) == prefix_common_b(
                                    s1,
                                    m2,
                                    t as int,
                                    p,
                                ));
                            }
                        }
                    }
                }
            },
            None => {
                proof {
                    assert forall|p: Seq<Seq<u8>>|
                        #![auto]
                        prefix_common_a(s1, m2, t + 1, p) == prefix_common_a(s1, m2, t as int, p)
                            && prefix_common_b(s1, m2, t + 1, p) == prefix_common_b(
                            s1,
                            m2,
                            t as int,
                            p,
                        ) by {}
                }
            },
        }
        t = t + 1;
    }
    proof {
        assert forall|p: Seq<Seq<u8>>| #![auto] prefix_common_a(s1, m2, n as int, p)
            == in_common_part(m1, m2, p) by {
            if prefix_common_a(s1, m2, n as int, p) {
                let j = choose|j: int|
                    #![auto]
                    0 <= j < n && m2.contains_key(s1[j].digest_bytes@) && path_views(
                        s1[j].paths@,
                    ).contains(p);
                lemma_entry_view(s1, j);
            }
            if in_common_part(m1, m2, p) {
                let k = choose|k: Seq<u8>|
                    #![auto]
                    m1.contains_key(k) && m2.contains_key(k) && m1[k].contains(p);
                let j = key_idx(s1, k);
                assert(0 <= j < s1.len() && s1[j].digest_bytes@ == k);
                lemma_entry_view(s1, j);
            }
        }
        assert forall|p: Seq<Seq<u8>>| #![auto] prefix_common_b(s1, m2, n as int, p)
            == in_common_part(m2, m1, p) by {
            if prefix_common_b(s1, m2, n as int, p) {
                let j = choose|j: int|
                    #![auto]
                    0 <= j < n && m2.contains_key(s1[j].digest_bytes@) && m2[s1[j].digest_bytes@].contains(
                        p,
                    );
                lemma_entry_view(s1, j);
            }
            if in_common_part(m2, m1, p) {
                let k = choose|k: Seq<u8>|
                    #![auto]
                    m2.contains_key(k) && m1.contains_key(k) && m2[k].contains(p);
                let j = key_idx(s1, k);
                assert(0 <= j < s1.len() && s1[j].digest_bytes@ == k);
                lemma_entry_view(s1, j);
            }
        }
    }
    out
}

/// Keys of the prefix `s[..t]` that `mb` lacks carry `p`.
spec fn prefix_unique(s: Seq<Entry>, mb: DigestGroups, t: int, p: Seq<Seq<u8>>) -> bool {
    exists|j: int|
        #![auto]
        0 <= j < t && !mb.contains_key(s[j].digest_bytes@) && path_views(s[j].paths@).contains(p)
}

/// Collects the paths the first grouping records under digest keys the
/// second grouping lacks.
fn gather_unique(ma: &SideMapping, mb: &SideMapping) -> (out: Vec<FilePath>)
    ensures
        forall|p: Seq<Seq<u8>>| #![auto] path_views(out@).contains(p) <==> in_unique(ma@, mb@, p),
        distinct_paths(ma@) ==> forall|p: Seq<Seq<u8>>|
            #![auto]
            path_views(out@).to_multiset().count(p) == unique_count(ma@, mb@, p),
{
    proof {
        use_type_invariant(ma);
    }
    let ghost s1 = ma.entries@;
    let ghost m1 = ma@;
    let ghost m2 = mb@;
    let mut out: Vec<FilePath> = Vec::new();
    let n = ma.entries.len();
    let mut t: usize = 0;
    proof {
        broadcast use vstd::seq_lib::group_to_multiset_ensures;

        assert(path_views(out@) =~= Seq::<Seq<Seq<u8>>>::empty());
        assert(path_views(out@).to_multiset() =~= Multiset::<Seq<Seq<u8>>>::empty());
    }
    while t < n
        invariant
            t <= n,
            n == s1.len(),
            s1 == ma.entries@,
            m1 == ma@,
            m2 == mb@,
            unique_keys(s1),
            forall|p: Seq<Seq<u8>>|
                #![auto]
                path_views(out@).contains(p) <==> prefix_unique(s1, m2, t as int, p),
            distinct_paths(m1) ==> forall|p: Seq<Seq<u8>>|
                #![auto]
                path_views(out@).to_multiset().count(p) == (if prefix_unique(s1, m2, t as int, p) {
                    1int
                } else {
                    0int
                }),
        decreases n - t,
    {
        let ghost pre = path_views(out@);
        let kb = &ma.entries[t].digest_bytes;
        proof {
            lemma_entry_view(s1, t as int);
        }
        if !contains_key_exec(mb, kb) {
            let mut add1 = clone_paths(&ma.entries[t].paths);
            let ghost v1 = path_views(add1@);
            out.append(&mut add1);
            proof {
                broadcast use vstd::seq_lib::group_to_multiset_ensures;

                let kt = s1[t as int].digest_bytes@;
                let post = path_views(out@);
                assert(post =~= pre + v1);
                assert(v1 == m1[kt]);
                vstd::seq_lib::lemma_multiset_commutative(pre, v1);
                assert forall|p: Seq<Seq<u8>>| #![auto] post.contains(p) implies prefix_unique(
                    s1,
                    m2,
                    t + 1,
                    p,
                ) by {
                    let w = choose|w: int| 0 <= w < post.len() && post[w] == p;
                    if w < pre.len() {
                        assert(pre.contains(p));
                    } else {
                        assert(v1[w - pre.len()] == p);
                        assert(path_views(s1[t as int].paths@).contains(p));
                    }
                }
                assert forall|p: Seq<Seq<u8>>| #![auto] prefix_unique(s1, m2, t + 1, p) implies post.contains(
                    p,
                ) by {
                    let j = choose|j: int|
                        #![auto]
                        0 <= j < t + 1 && !m2.contains_key(s1[j].digest_bytes@) && path_views(
                            s1[j].paths@,
                        ).contains(p);
                    if j < t {
                        assert(pre.contains(p));
                        let w = choose|w: int| 0 <= w < pre.len() && pre[w] == p;
                        assert(post[w] == p);
                    } else {
                        let w = choose|w: int| 0 <= w < v1.len() && v1[w] == p;
                        assert(post[pre.len() + w] == p);
                    }
                }
                if distinct_paths(m1) {
                    assert forall|p: Seq<Seq<u8>>|
                        #![auto]
                        post.to_multiset().count(p) == (if prefix_unique(s1, m2, t + 1, p) {
                            1int
                        } else {
                            0int
                        }) by {
                        lemma_count_no_repeats(v1, p);
                        assert(post.to_multiset().count(p) == pre.to_multiset().count(p)
                            + v1.to_multiset().count(p));
                        if v1.contains(p) {
                            assert forall|j: int|
                                #![auto]
                                0 <= j < t && !m2.contains_key(s1[j].digest_bytes@) implies !path_views(
                                s1[j].paths@,
                            ).contains(p) by {
                                lemma_entry_view(s1, j);
                                if path_views(s1[j].paths@).contains(p) {
                                    assert(s1[j].digest_bytes@ == kt);
                                }
                            }
                            assert(!prefix_unique(s1, m2, t as int, p));
                            assert(prefix_unique(s1, m2, t + 1, p));
                        } else {
                            assert(prefix_unique(s1, m2, t + 1, p) == prefix_unique(
                                s1,
                                m2,
                                t as int,
                                p,
                            ));
                        }
                    }
                }
            }
        } else {
            proof {
                assert forall|p: Seq<Seq<u8>>|
                    #![auto]
                    prefix_unique(s1, m2, t + 1, p) == prefix_unique(s1, m2, t as int, p) by {}
            }
        }
        t = t + 1;
    }
    proof {
        assert forall|p: Seq<Seq<u8>>| #![auto] prefix_unique(s1, m2, n as int, p) == in_unique(
            m1,
            m2,
            p,
        ) by {
            if prefix_unique(s1, m2, n as int, p) {
                let j = choose|j: int|
                    #![auto]
                    0 <= j < n && !m2.contains_key(s1[j].digest_bytes@) && path_views(
                        s1[j].paths@,
                    ).contains(p);
                lemma_entry_view(s1, j);
            }
            if in_unique(m1, m2, p) {
                let k = choose|k: Seq<u8>|
                    #![auto]
                    m1.contains_key(k) && !m2.contains_key(k) && m1[k].contains(p);
                let j = key_idx(s1, k);
                assert(0 <= j < s1.len() && s1[j].digest_bytes@ == k);
                lemma_entry_view(s1, j);
            }
        }
    }
    out
}

/// Partitions two digest groupings into the paths whose content appears in
/// both, the paths unique to the first, and the paths unique to the
/// second.  Each of the three outputs exists exactly when its flag is set,
/// and an unrequested output is never computed at all.
pub fn compare_hashmaps(
    map1: &SideMapping,
    map2: &SideMapping,
    include_intersection: bool,
    include_unique_dir1: bool,
    include_unique_dir2: bool,
) -> (r: (Option<Vec<FilePath>>, Option<Vec<FilePath>>, Option<Vec<FilePath>>))
    ensures
        r.0 is Some <==> include_intersection,
        r.1 is Some <==> include_unique_dir1,
        r.2 is Some <==> include_unique_dir2,
        include_intersection ==> forall|p: Seq<Seq<u8>>|
            #![auto]
            path_views(r.0.unwrap()@).contains(p) <==> in_intersection(map1@, map2@, p),
        include_unique_dir1 ==> forall|p: Seq<Seq<u8>>|
            #![auto]
            path_views(r.1.unwrap()@).contains(p) <==> in_unique(map1@, map2@, p),
        include_unique_dir2 ==> forall|p: Seq<Seq<u8>>|
            #![auto]
            path_views(r.2.unwrap()@).contains(p) <==> in_unique(map2@, map1@, p),
        include_intersection && distinct_paths(map1@) && distinct_paths(map2@) ==> forall|
            p: Seq<Seq<u8>>,
        |
            #![auto]
            path_views(r.0.unwrap()@).to_multiset().count(p) == common_count(map1@, map2@, p)
                + common_count(map2@, map1@, p),
        include_unique_dir1 && distinct_paths(map1@) ==> forall|p: Seq<Seq<u8>>|
            #![auto]
            path_views(r.1.unwrap()@).to_multiset().count(p) == unique_count(map1@, map2@, p),
        include_unique_dir2 && distinct_paths(map2@) ==> forall|p: Seq<Seq<u8>>|
            #![auto]
            path_views(r.2.unwrap()@).to_multiset().count(p) == unique_count(map2@, map1@, p),
{
    let intersection = if include_intersection {
        Some(gather_intersection(map1, map2))
    } else {
        None
    };
    let unique_dir1 = if include_unique_dir1 {
        Some(gather_unique(map1, map2))
    } else {
        None
    };
    let unique_dir2 = if include_unique_dir2 {
        Some(gather_unique(map2, map1))
    } else {
        None
    };
    (intersection, unique_dir1, unique_dir2)
}

/// Partitions values from two digest groupings by key occurrence; the
/// same partition as `compare_hashmaps`, under the name the worker-pool
/// pipeline uses.
pub fn partition_map_values(
    map1: &SideMapping,
    map2: &SideMapping,
    include_intersection: bool,
    include_unique_dir1: bool,
    include_unique_dir2: bool,
) -> (r: (Option<Vec<FilePath>>, Option<Vec<FilePath>>, Option<Vec<FilePath>>))
    ensures
        r.0 is Some <==> include_intersection,
        r.1 is Some <==> include_unique_dir1,
        r.2 is Some <==> include_unique_dir2,
        include_intersection ==> forall|p: Seq<Seq<u8>>|
            #![auto]
            path_views(r.0.unwrap()@).contains(p) <==> in_intersection(map1@, map2@, p),
        include_unique_dir1 ==> forall|p: Seq<Seq<u8>>|
            #![auto]
            path_views(r.1.unwrap()@).contains(p) <==> in_unique(map1@, map2@, p),
        include_unique_dir2 ==> forall|p: Seq<Seq<u8>>|
            #![auto]
            path_views(r.2.unwrap()@).contains(p) <==> in_unique(map2@, map1@, p),
        include_intersection && distinct_paths(map1@) && distinct_paths(map2@) ==> forall|
            p: Seq<Seq<u8>>,
        |
            #![auto]
            path_views(r.0.unwrap()@).to_multiset().count(p) == common_count(map1@, map2@, p)
                + common_count(map2@, map1@, p),
        include_unique_dir1 && distinct_paths(map1@) ==> forall|p: Seq<Seq<u8>>|
            #![auto]
            path_views(r.1.unwrap()@).to_multiset().count(p) == unique_count(map1@, map2@, p),
        include_unique_dir2 && distinct_paths(map2@) ==> forall|p: Seq<Seq<u8>>|
            #![auto]
            path_views(r.2.unwrap()@).to_multiset().count(p) == unique_count(map2@, map1@, p),
{
    compare_hashmaps(map1, map2, include_intersection, include_unique_dir1, include_unique_dir2)
}

/// Law: a path recorded on the left side, under its one digest key and
/// absent from the right side's runs, lands in exactly one of the
/// intersection and the left-unique output — the intersection when the
/// right grouping holds its key, the left-unique output when not.
pub proof fn lemma_partition_complete(
    m1: DigestGroups,
    m2: DigestGroups,
    p: Seq<Seq<u8>>,
    k: Seq<u8>,
)
    requires
        m1.contains_key(k),
        m1[k].contains(p),
        forall|k2: Seq<u8>| #![auto] m1.contains_key(k2) && m1[k2].contains(p) ==> k2 == k,
        forall|k2: Seq<u8>| #![auto] m2.contains_key(k2) ==> !m2[k2].contains(p),
    ensures
        in_intersection(m1, m2, p) || in_unique(m1, m2, p),
        !(in_intersection(m1, m2, p) && in_unique(m1, m2, p)),
{
    if m2.contains_key(k) {
        assert(in_common_part(m1, m2, p));
        if in_unique(m1, m2, p) {
            let k2 = choose|k2: Seq<u8>|
                #![auto]
                m1.contains_key(k2) && !m2.contains_key(k2) && m1[k2].contains(p);
            assert(k2 == k);
        }
    } else {
        assert(in_unique(m1, m2, p));
        if in_common_part(m1, m2, p) {
            let k2 = choose|k2: Seq<u8>|
                #![auto]
                m1.contains_key(k2) && m2.contains_key(k2) && m1[k2].contains(p);
            assert(k2 == k);
        }
        assert(!in_common_part(m2, m1, p));
    }
}

/// Law: two distinct files on the same side with identical content — the
/// same digest key, which the other side lacks — both land in that side's
/// unique output, together, and neither is flagged as an intersection.
pub proof fn lemma_duplicates_grouped(
    m1: DigestGroups,
    m2: DigestGroups,
    p1: Seq<Seq<u8>>,
    p2: Seq<Seq<u8>>,
    k: Seq<u8>,
)
    requires
        m1.contains_key(k),
        !m2.contains_key(k),
        m1[k].contains(p1),
        m1[k].contains(p2),
        forall|k2: Seq<u8>| #![auto] m1.contains_key(k2) && m1[k2].contains(p1) ==> k2 == k,
        forall|k2: Seq<u8>| #![auto] m1.contains_key(k2) && m1[k2].contains(p2) ==> k2 == k,
        forall|k2: Seq<u8>|
            #![auto]
            m2.contains_key(k2) ==> !m2[k2].contains(p1) && !m2[k2].contains(p2),
    ensures
        in_unique(m1, m2, p1),
        in_unique(m1, m2, p2),
        !in_intersection(m1, m2, p1),
        !in_intersection(m1, m2, p2),
{
    lemma_partition_complete(m1, m2, p1, k);
    lemma_partition_complete(m1, m2, p2, k);
}

/// Law: the partition makes no paths up — whatever stands in an output was
/// recorded in one of the two groupings.
pub proof fn lemma_no_new_paths(m1: DigestGroups, m2: DigestGroups, p: Seq<Seq<u8>>)
    requires
        in_intersection(m1, m2, p) || in_unique(m1, m2, p) || in_unique(m2, m1, p),
    ensures
        exists|k: Seq<u8>|
            #![auto]
            (m1.contains_key(k) && m1[k].contains(p)) || (m2.contains_key(k) && m2[k].contains(p)),
{
}

/// No path of the grouping has a component that names a hidden entry.
pub open spec fn no_hidden_paths(m: DigestGroups) -> bool {
    forall|k: Seq<u8>, p: Seq<Seq<u8>>, i: int|
        #![auto]
        m.contains_key(k) && m[k].contains(p) && 0 <= i < p.len() ==> !crate::paths::is_hidden_name(
            p[i],
        )
}

/// Law: when the walks pruned hidden entries — so neither grouping records
/// a path with a hidden component — no output of the partition holds one
/// either.
pub proof fn lemma_hidden_excluded(m1: DigestGroups, m2: DigestGroups, p: Seq<Seq<u8>>, i: int)
    requires
        no_hidden_paths(m1),
        no_hidden_paths(m2),
        in_intersection(m1, m2, p) || in_unique(m1, m2, p) || in_unique(m2, m1, p),
        0 <= i < p.len(),
    ensures
        !crate::paths::is_hidden_name(p[i]),
{
    lemma_no_new_paths(m1, m2, p);
}

} // verus!
