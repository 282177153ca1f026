//! Digest-to-paths groupings.
//!
//! A `SideMapping` groups the file paths of one tree side by their content
//! digest.  Each worker fills one pair of such groupings while receiving
//! paths, and the pairs are folded together into one global grouping per
//! side once every worker has finished.  A grouping's view is a map from
//! digest bytes to the sequence of recorded path views, so everything said
//! about it is independent of the order entries happen to sit in.

use vstd::prelude::*;
use vstd::pervasive::VecAdditionalExecFns;
use crate::digest::Digest;
use crate::digest::FileHasher;
use crate::digest::blake3_of;
use crate::paths::FilePath;
use crate::paths::bytes_eq;
use crate::paths::copy_bytes;
use crate::paths::path_views;
use crate::paths::strip_or_keep;

verus! {

/// A grouping's mathematical content: digest bytes to recorded path views.
pub type DigestGroups = Map<Seq<u8>, Seq<Seq<Seq<u8>>>>;

/// The paths a grouping holds under a key: none when the key is absent.
pub open spec fn paths_for(m: DigestGroups, k: Seq<u8>) -> Seq<Seq<Seq<u8>>> {
    if m.contains_key(k) {
        m[k]
    } else {
        Seq::<Seq<Seq<u8>>>::empty()
    }
}

pub(crate) struct Entry {
    pub(crate) digest_bytes: Vec<u8>,
    pub(crate) paths: Vec<FilePath>,
}

pub(crate) open spec fn has_key(s: Seq<Entry>, k: Seq<u8>) -> bool {
    exists|i: int| 0 <= i < s.len() && s[i].digest_bytes@ == k
}

pub(crate) open spec fn key_idx(s: Seq<Entry>, k: Seq<u8>) -> int {
    choose|i: int| 0 <= i < s.len() && s[i].digest_bytes@ == k
}

pub(crate) open spec fn unique_keys(s: Seq<Entry>) -> bool {
    forall|i: int, j: int|
        0 <= i < j < s.len() ==> #[trigger] s[i].digest_bytes@ != #[trigger] s[j].digest_bytes@
}

pub(crate) open spec fn entries_view(s: Seq<Entry>) -> DigestGroups {
    Map::new(
        |k: Seq<u8>| has_key(s, k),
        |k: Seq<u8>| path_views(s[key_idx(s, k)].paths@),
    )
}

/// With unique keys, the view reads entry `i` back exactly.
pub(crate) proof fn lemma_entry_view(s: Seq<Entry>, i: int)
    requires
        unique_keys(s),
        0 <= i < s.len(),
    ensures
        entries_view(s).contains_key(s[i].digest_bytes@),
        entries_view(s)[s[i].digest_bytes@] == path_views(s[i].paths@),
{
    let k = s[i].digest_bytes@;
    assert(has_key(s, k));
    let j = key_idx(s, k);
    assert(0 <= j < s.len() && s[j].digest_bytes@ == k);
    assert(j == i);
}

/// After replacing entry `i` by one with the same key and `tail` appended
/// to its run of paths, the view is the old view with that key's run
/// extended by `tail`.
proof fn lemma_view_after_update(s0: Seq<Entry>, s2: Seq<Entry>, i: int, tail: Seq<Seq<Seq<u8>>>)
    requires
        unique_keys(s0),
        0 <= i < s0.len(),
        s2.len() == s0.len(),
        forall|m: int| 0 <= m < s2.len() && m != i ==> s2[m] == s0[m],
        s2[i].digest_bytes@ == s0[i].digest_bytes@,
        path_views(s2[i].paths@) == path_views(s0[i].paths@) + tail,
    ensures
        unique_keys(s2),
        entries_view(s2) == entries_view(s0).insert(
            s0[i].digest_bytes@,
            paths_for(entries_view(s0), s0[i].digest_bytes@) + tail,
        ),
{
    let kb = s0[i].digest_bytes@;
    let m0 = entries_view(s0);
    assert forall|m: int| 0 <= m < s2.len() implies #[trigger] s2[m].digest_bytes@
        == s0[m].digest_bytes@ by {}
    assert(unique_keys(s2));
    let target = m0.insert(kb, paths_for(m0, kb) + tail);
    assert forall|k: Seq<u8>| has_key(s0, k) implies has_key(s2, k) by {
        let j = key_idx(s0, k);
        assert(s2[j].digest_bytes@ == k);
    }
    assert forall|k: Seq<u8>| has_key(s2, k) implies has_key(s0, k) by {
        let j = key_idx(s2, k);
        assert(s0[j].digest_bytes@ == k);
    }
    lemma_entry_view(s0, i);
    lemma_entry_view(s2, i);
    assert forall|k: Seq<u8>| #[trigger] entries_view(s2).contains_key(k) implies target.contains_key(
        k,
    ) by {}
    assert forall|k: Seq<u8>| #[trigger] target.contains_key(k) implies entries_view(
        s2,
    ).contains_key(k) by {}
    assert forall|k: Seq<u8>| #[trigger] entries_view(s2).contains_key(k) implies entries_view(
        s2,
    )[k] == target[k] by {
        if k == kb {
            assert(entries_view(s2)[kb] == path_views(s2[i].paths@));
            assert(target[kb] == paths_for(m0, kb) + tail);
            assert(paths_for(m0, kb) == path_views(s0[i].paths@));
        } else {
            let j = key_idx(s2, k);
            assert(0 <= j < s2.len() && s2[j].digest_bytes@ == k);
            assert(j != i);
            assert(s2[j] == s0[j]);
            lemma_entry_view(s2, j);
            lemma_entry_view(s0, j);
        }
    }
    assert(entries_view(s2) =~= target);
}

/// After pushing an entry whose key was absent, the view is the old view
/// with that key bound to the new entry's run of paths.
proof fn lemma_view_after_push(s0: Seq<Entry>, s2: Seq<Entry>)
    requires
        unique_keys(s0),
        s2.len() == s0.len() + 1,
        forall|m: int| 0 <= m < s0.len() ==> s2[m] == s0[m],
        !has_key(s0, s2[s0.len() as int].digest_bytes@),
    ensures
        unique_keys(s2),
        entries_view(s2) == entries_view(s0).insert(
            s2[s0.len() as int].digest_bytes@,
            path_views(s2[s0.len() as int].paths@),
        ),
{
    let ni = s0.len() as int;
    let kb = s2[ni].digest_bytes@;
    let m0 = entries_view(s0);
    assert forall|a: int, b: int| 0 <= a < b < s2.len() implies #[trigger] s2[a].digest_bytes@
        != #[trigger] s2[b].digest_bytes@ by {
        if b == ni {
            assert(s2[a] == s0[a]);
            if s2[a].digest_bytes@ == kb {
                assert(has_key(s0, kb));
            }
        }
    }
    let target = m0.insert(kb, path_views(s2[ni].paths@));
    assert forall|k: Seq<u8>| has_key(s0, k) implies has_key(s2, k) by {
        let j = key_idx(s0, k);
        assert(s2[j].digest_bytes@ == k);
    }
    assert forall|k: Seq<u8>| has_key(s2, k) && k != kb implies has_key(s0, k) by {
        let j = key_idx(s2, k);
        assert(j != ni);
        assert(s0[j].digest_bytes@ == k);
    }
    lemma_entry_view(s2, ni);
    assert forall|k: Seq<u8>| #[trigger] entries_view(s2).contains_key(k) implies target.contains_key(
        k,
    ) by {}
    assert forall|k: Seq<u8>| #[trigger] target.contains_key(k) implies entries_view(
        s2,
    ).contains_key(k) by {
        assert(has_key(s2, kb));
    }
    assert forall|k: Seq<u8>| #[trigger] entries_view(s2).contains_key(k) implies entries_view(
        s2,
    )[k] == target[k] by {
        if k == kb {
        } else {
            let j = key_idx(s2, k);
            assert(0 <= j < s2.len() && s2[j].digest_bytes@ == k);
            assert(j != ni);
            assert(s2[j] == s0[j]);
            lemma_entry_view(s2, j);
            lemma_entry_view(s0, j);
        }
    }
    assert(entries_view(s2) =~= target);
}

/// Copies a sequence of paths.
pub(crate) fn clone_paths(v: &Vec<FilePath>) -> (r: Vec<FilePath>)
    ensures
        path_views(r@) == path_views(v@),
{
    let mut r: Vec<FilePath> = Vec::new();
    let n = v.len();
    let mut i: usize = 0;
    while i < n
        invariant
            i <= n,
            n == v@.len(),
            r@.len() == i,
            forall|j: int| 0 <= j < i ==> path_views(r@)[j] == path_views(v@)[j],
        decreases n - i,
    {
        r.push(v[i].clone_path());
        i = i + 1;
    }
    proof {
        assert(path_views(r@) =~= path_views(v@));
    }
    r
}

/// Appends one path under a key, creating the key when absent.
fn push_under_key(entries: &mut Vec<Entry>, kb: Vec<u8>, p: FilePath)
    requires
        unique_keys(old(entries)@),
    ensures
        unique_keys(final(entries)@),
        entries_view(final(entries)@) == entries_view(old(entries)@).insert(
            kb@,
            paths_for(entries_view(old(entries)@), kb@).push(p@),
        ),
{
    let ghost s0 = entries@;
    let ghost m0 = entries_view(s0);
    let n = entries.len();
    let mut i: usize = 0;
    while i < n
        invariant
            i <= n,
            n == entries@.len(),
            entries@ == s0,
            s0 == old(entries)@,
            m0 == entries_view(s0),
            unique_keys(s0),
            forall|m: int| 0 <= m < i ==> #[trigger] s0[m].digest_bytes@ != kb@,
        decreases n - i,
    {
        if bytes_eq(&entries[i].digest_bytes, &kb) {
            let mut e = Entry { digest_bytes: Vec::new(), paths: Vec::new() };
            entries.set_and_swap(i, &mut e);
            e.paths.push(p);
            entries.set_and_swap(i, &mut e);
            proof {
                let s2 = entries@;
                let e2 = s2[i as int];
                assert(e2.paths@ == s0[i as int].paths@.push(p));
                assert(path_views(e2.paths@) =~= path_views(s0[i as int].paths@) + seq![p@]);
                lemma_view_after_update(s0, s2, i as int, seq![p@]);
                assert(paths_for(m0, kb@) + seq![p@] =~= paths_for(m0, kb@).push(p@));
            }
            return;
        }
        i = i + 1;
    }
    let mut paths: Vec<FilePath> = Vec::new();
    paths.push(p);
    entries.push(Entry { digest_bytes: kb, paths });
    proof {
        let s2 = entries@;
        assert(!has_key(s0, kb@));
        lemma_view_after_push(s0, s2);
        assert(!m0.contains_key(kb@));
        assert(path_views(s2[s0.len() as int].paths@) =~= paths_for(m0, kb@).push(p@));
    }
}

/// Appends a whole run of paths under a key, creating the key when absent.
fn append_under_key(entries: &mut Vec<Entry>, src: &Entry)
    requires
        unique_keys(old(entries)@),
    ensures
        unique_keys(final(entries)@),
        entries_view(final(entries)@) == entries_view(old(entries)@).insert(
            src.digest_bytes@,
            paths_for(entries_view(old(entries)@), src.digest_bytes@) + path_views(src.paths@),
        ),
{
    let ghost s0 = entries@;
    let ghost m0 = entries_view(s0);
    let ghost kb = src.digest_bytes@;
    let n = entries.len();
    let mut i: usize = 0;
    while i < n
        invariant
            i <= n,
            n == entries@.len(),
            entries@ == s0,
            s0 == old(entries)@,
            m0 == entries_view(s0),
            unique_keys(s0),
            kb == src.digest_bytes@,
            forall|m: int| 0 <= m < i ==> #[trigger] s0[m].digest_bytes@ != kb,
        decreases n - i,
    {
        if bytes_eq(&entries[i].digest_bytes, &src.digest_bytes) {
            let mut clones = clone_paths(&src.paths);
            let mut e = Entry { digest_bytes: Vec::new(), paths: Vec::new() };
            entries.set_and_swap(i, &mut e);
            e.paths.append(&mut clones);
            entries.set_and_swap(i, &mut e);
            proof {
                let s2 = entries@;
                let e2 = s2[i as int];
                assert(path_views(e2.paths@) =~= path_views(s0[i as int].paths@) + path_views(
                    src.paths@,
                ));
                lemma_view_after_update(s0, s2, i as int, path_views(src.paths@));
            }
            return;
        }
        i = i + 1;
    }
    entries.push(
        Entry { digest_bytes: copy_bytes(&src.digest_bytes), paths: clone_paths(&src.paths) },
    );
    proof {
        let s2 = entries@;
        assert(!has_key(s0, kb));
        lemma_view_after_push(s0, s2);
        assert(!m0.contains_key(kb));
        assert(path_views(s2[s0.len() as int].paths@) =~= paths_for(m0, kb) + path_views(
            src.paths@,
        ));
    }
}

/// A digest-to-paths grouping for one tree side.
pub struct SideMapping {
    pub(crate) entries: Vec<Entry>,
}

impl View for SideMapping {
    type V = DigestGroups;

    open(crate) spec fn view(&self) -> DigestGroups {
        entries_view(self.entries@)
    }
}

impl SideMapping {
    #[verifier::type_invariant]
    pub(crate) open spec fn wf(self) -> bool {
        unique_keys(self.entries@)
    }

    /// An empty grouping.
    pub fn new() -> (r: SideMapping)
        ensures
            r@ == DigestGroups::empty(),
    {
        let r = SideMapping { entries: Vec::new() };
        proof {
            assert(r@ =~= DigestGroups::empty());
        }
        r
    }

    /// Records one path under its content digest: the path joins whatever
    /// run of paths the digest already had, and no other key changes.
    pub fn insert(&mut self, d: Digest, p: FilePath)
        ensures
            final(self)@ == old(self)@.insert(d@, paths_for(old(self)@, d@).push(p@)),
    {
        proof {
            use_type_invariant(&*self);
        }
        let mut entries: Vec<Entry> = Vec::new();
        core::mem::swap(&mut entries, &mut self.entries);
        let kb = d.into_bytes();
        push_under_key(&mut entries, kb, p);
        self.entries = entries;
    }

    /// Folds another grouping into this one: for every digest of `other`,
    /// its run of paths is appended after the run this grouping already
    /// holds for that digest, so nothing is dropped and nothing is
    /// duplicated; keys absent from `other` keep their runs unchanged.
    pub fn merge_from(&mut self, other: &SideMapping)
        ensures
            forall|k: Seq<u8>|
                #![auto]
                final(self)@.contains_key(k) <==> (old(self)@.contains_key(k)
                    || other@.contains_key(k)),
            forall|k: Seq<u8>|
                #![auto]
                (old(self)@.contains_key(k) || other@.contains_key(k)) ==> final(self)@[k]
                    == paths_for(old(self)@, k) + paths_for(other@, k),
    {
        proof {
            use_type_invariant(&*self);
            use_type_invariant(other);
        }
        let ghost m0 = self@;
        let ghost os = other.entries@;
        let mut entries: Vec<Entry> = Vec::new();
        core::mem::swap(&mut entries, &mut self.entries);
        let n = other.entries.len();
        let mut t: usize = 0;
        while t < n
            invariant
                t <= n,
                n == os.len(),
                os == other.entries@,
                m0 == old(self)@,
                unique_keys(os),
                unique_keys(entries@),
                forall|k: Seq<u8>|
                    #![auto]
                    entries_view(entries@).contains_key(k) <==> (m0.contains_key(k) || has_key(
                        os.take(t as int),
                        k,
                    )),
                forall|j: int|
                    0 <= j < t ==> entries_view(entries@)[#[trigger] os[j].digest_bytes@]
                        == paths_for(m0, os[j].digest_bytes@) + path_views(os[j].paths@),
                forall|k: Seq<u8>|
                    #![auto]
                    m0.contains_key(k) && !has_key(os.take(t as int), k) ==> entries_view(
                        entries@,
                    )[k] == m0[k],
            decreases n - t,
        {
            let ghost mpre = entries_view(entries@);
            append_under_key(&mut entries, &other.entries[t]);
            proof {
                let kt = os[t as int].digest_bytes@;
                let mpost = entries_view(entries@);
                assert(os.take(t + 1) =~= os.take(t as int).push(os[t as int]));
                assert forall|k: Seq<u8>| has_key(os.take(t + 1), k) implies (has_key(
                    os.take(t as int),
                    k,
                ) || k == kt) by {
                    let j = key_idx(os.take(t + 1), k);
                    if j < t {
                        assert(os.take(t as int)[j].digest_bytes@ == k);
                    }
                }
                assert forall|k: Seq<u8>| has_key(os.take(t as int), k) implies has_key(
                    os.take(t + 1),
                    k,
                ) by {
                    let j = key_idx(os.take(t as int), k);
                    assert(os.take(t + 1)[j].digest_bytes@ == k);
                }
                assert(has_key(os.take(t + 1), kt)) by {
                    assert(os.take(t + 1)[t as int].digest_bytes@ == kt);
                }
                // the key handled now was not among the first t keys of `other`
                assert forall|j: int| 0 <= j < t implies #[trigger] os[j].digest_bytes@ != kt by {}
                assert(!has_key(os.take(t as int), kt));
                // paths_for(mpre, kt) is the run m0 holds for kt, or empty
                assert(mpost[kt] == paths_for(m0, kt) + path_views(os[t as int].paths@));
                assert forall|j: int| 0 <= j < t + 1 implies entries_view(
                    entries@,
                )[#[trigger] os[j].digest_bytes@] == paths_for(m0, os[j].digest_bytes@)
                    + path_views(os[j].paths@) by {
                    if j < t {
                        assert(os[j].digest_bytes@ != kt);
                        assert(mpost[os[j].digest_bytes@] == mpre[os[j].digest_bytes@]);
                    }
                }
            }
            t = t + 1;
        }
        self.entries = entries;
        proof {
            assert(os.take(n as int) =~= os);
            assert forall|k: Seq<u8>| #[trigger] other@.contains_key(k) implies has_key(os, k) by {}
            assert forall|k: Seq<u8>| has_key(os, k) implies #[trigger] other@.contains_key(k) by {}
            assert forall|k: Seq<u8>| other@.contains_key(k) implies final(self)@[k] == paths_for(
                m0,
                k,
            ) + paths_for(other@, k) by {
                let j = key_idx(os, k);
                assert(0 <= j < os.len() && os[j].digest_bytes@ == k);
                lemma_entry_view(os, j);
                assert(paths_for(other@, k) == path_views(os[j].paths@));
            }
        }
    }
}

/// Law: folding workers' groupings in one order or another changes only
/// the arrangement of a digest's run of paths, never which paths it holds
/// or how often — so the merged grouping is, up to the order that sorting
/// later erases, the one single-threaded processing would have built.
pub proof fn lemma_merge_order_irrelevant(
    x: Seq<Seq<Seq<u8>>>,
    y: Seq<Seq<Seq<u8>>>,
    z: Seq<Seq<Seq<u8>>>,
)
    ensures
        (x + y + z).to_multiset() == (x + z + y).to_multiset(),
{
    broadcast use vstd::seq_lib::lemma_multiset_commutative;
    broadcast use vstd::multiset::group_multiset_axioms;

    assert((x + y + z).to_multiset() =~= (x + z + y).to_multiset());
}

/// Which tree side a file path was discovered on.
#[derive(Clone, Copy)]
pub enum Side {
    Left,
    Right,
}

/// One worker's accumulation state: a digest grouping per tree side,
/// owned by that worker alone while paths are being received.
pub struct WorkerMaps {
    pub left: SideMapping,
    pub right: SideMapping,
}

impl WorkerMaps {
    /// A worker's state at thread start: both groupings empty.
    pub fn new() -> (r: WorkerMaps)
        ensures
            r.left@ == DigestGroups::empty(),
            r.right@ == DigestGroups::empty(),
    {
        WorkerMaps { left: SideMapping::new(), right: SideMapping::new() }
    }

    /// Records one received file on the side it arrived from: the digest of
    /// its streamed content keys its (possibly rewritten) path into that
    /// side's grouping, and the other side's grouping is untouched.
    pub fn record(
        &mut self,
        side: Side,
        hasher: &FileHasher,
        path: FilePath,
        base: Option<&FilePath>,
    )
        ensures
            side is Left ==> final(self).right == old(self).right && final(self).left@ == old(
                self,
            ).left@.insert(
                blake3_of(hasher@),
                paths_for(old(self).left@, blake3_of(hasher@)).push(
                    match base {
                        Some(b) => strip_or_keep(b@, path@),
                        None => path@,
                    },
                ),
            ),
            side is Right ==> final(self).left == old(self).left && final(self).right@ == old(
                self,
            ).right@.insert(
                blake3_of(hasher@),
                paths_for(old(self).right@, blake3_of(hasher@)).push(
                    match base {
                        Some(b) => strip_or_keep(b@, path@),
                        None => path@,
                    },
                ),
            ),
    {
        match side {
            Side::Left => compute_file_hash_and_insert_path(&mut self.left, hasher, path, base),
            Side::Right => compute_file_hash_and_insert_path(&mut self.right, hasher, path, base),
        }
    }
}

/// Finishes a file's streamed content and records its path in the given
/// grouping under the resulting digest.  With a base directory the path is
/// first rewritten relative to it; a path not under the base is recorded
/// unchanged rather than failing.
pub fn compute_file_hash_and_insert_path(
    map: &mut SideMapping,
    hasher: &FileHasher,
    path: FilePath,
    base: Option<&FilePath>,
)
    ensures
        final(map)@ == old(map)@.insert(
            blake3_of(hasher@),
            paths_for(old(map)@, blake3_of(hasher@)).push(
                match base {
                    Some(b) => strip_or_keep(b@, path@),
                    None => path@,
                },
            ),
        ),
{
    let d = hasher.finalize();
    let recorded = match base {
        Some(b) => path.relative_to(b),
        None => path,
    };
    map.insert(d, recorded);
}

} // verus!
