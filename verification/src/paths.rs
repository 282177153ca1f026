//! Filesystem paths as the library sees them.
//!
//! A path is a sequence of name components, each a sequence of bytes; the
//! surrounding binary converts to and from the platform's path type at the
//! boundary.  This module holds the two path decisions the tool makes: the
//! hidden-name test that the tree walk filters on, and the rewrite of an
//! absolute path to a form relative to its tree's root.

use vstd::prelude::*;

verus! {

/// A name is hidden when its first byte is an ASCII dot.
pub open spec fn is_hidden_name(name: Seq<u8>) -> bool {
    name.len() > 0 && name[0] == 46u8
}

/// Whether a file or directory name begins with `.`.  The tree walk uses
/// this to prune hidden entries, and with them their whole subtrees.
pub fn is_hidden(name: &[u8]) -> (r: bool)
    ensures
        r == is_hidden_name(name@),
{
    name.len() > 0 && name[0] == 46u8
}

/// A filesystem path: its name components, root-most first.
pub struct FilePath {
    parts: Vec<Vec<u8>>,
}

impl View for FilePath {
    type V = Seq<Seq<u8>>;

    closed spec fn view(&self) -> Seq<Seq<u8>> {
        self.parts.deep_view()
    }
}

/// `base` is an initial run of `p`'s components.
pub open spec fn is_prefix_of(base: Seq<Seq<u8>>, p: Seq<Seq<u8>>) -> bool {
    base.len() <= p.len() && forall|i: int| 0 <= i < base.len() ==> p[i] == base[i]
}

/// The relative form of `p` under `base`: the components after the prefix
/// when `base` really is a prefix, and `p` unchanged otherwise.
pub open spec fn strip_or_keep(base: Seq<Seq<u8>>, p: Seq<Seq<u8>>) -> Seq<Seq<u8>> {
    if is_prefix_of(base, p) {
        p.skip(base.len() as int)
    } else {
        p
    }
}

/// The paths of a sequence of path values, as their component views.
pub open spec fn path_views(s: Seq<FilePath>) -> Seq<Seq<Seq<u8>>> {
    s.map_values(|p: FilePath| p@)
}

/// A byte vector's deep view is its view.
pub(crate) proof fn lemma_bytes_deep_view(v: Vec<u8>)
    ensures
        v.deep_view() == v@,
{
    assert(v.deep_view() =~= v@);
}

/// Copies a byte vector.
pub(crate) fn copy_bytes(v: &Vec<u8>) -> (r: Vec<u8>)
    ensures
        r@ == v@,
{
    let mut r: Vec<u8> = Vec::new();
    let n = v.len();
    let mut i: usize = 0;
    while i < n
        invariant
            i <= n,
            n == v@.len(),
            r@ == v@.take(i as int),
        decreases n - i,
    {
        r.push(v[i]);
        proof {
            assert(r@ =~= v@.take(i + 1));
        }
        i = i + 1;
    }
    proof {
        assert(v@.take(n as int) =~= v@);
    }
    r
}

/// Whether two byte vectors hold the same bytes.
pub(crate) fn bytes_eq(a: &Vec<u8>, b: &Vec<u8>) -> (r: bool)
    ensures
        r == (a@ == b@),
{
    if a.len() != b.len() {
        return false;
    }
    let n = a.len();
    let mut i: usize = 0;
    while i < n
        invariant
            i <= n,
            n == a@.len(),
            n == b@.len(),
            forall|j: int| 0 <= j < i ==> a@[j] == b@[j],
        decreases n - i,
    {
        if a[i] != b[i] {
            return false;
        }
        i = i + 1;
    }
    proof {
        assert(a@ =~= b@);
    }
    true
}

impl FilePath {
    /// A path made of the given components.
    pub fn from_components(parts: Vec<Vec<u8>>) -> (r: FilePath)
        ensures
            r@ == parts.deep_view(),
    {
        FilePath { parts }
    }

    /// The path's components, root-most first.
    pub fn components(&self) -> (r: &Vec<Vec<u8>>)
        ensures
            r.deep_view() == self@,
    {
        &self.parts
    }

    /// An identical copy of the path.
    pub fn clone_path(&self) -> (r: FilePath)
        ensures
            r@ == self@,
    {
        let mut parts: Vec<Vec<u8>> = Vec::new();
        let n = self.parts.len();
        let mut i: usize = 0;
        while i < n
            invariant
                i <= n,
                n == self.parts@.len(),
                parts@.len() == i,
                forall|j: int| 0 <= j < i ==> parts@[j]@ == #[trigger] self.parts@[j]@,
            decreases n - i,
        {
            parts.push(copy_bytes(&self.parts[i]));
            i = i + 1;
        }
        let r = FilePath { parts };
        proof {
            assert(r@ =~= self@);
        }
        r
    }

    /// The path rewritten relative to `base`: the components after the
    /// prefix when `base` is a prefix of the path, and the path unchanged
    /// otherwise — a rewrite that cannot apply falls back to the original
    /// path rather than failing.
    pub fn relative_to(&self, base: &FilePath) -> (r: FilePath)
        ensures
            r@ == strip_or_keep(base@, self@),
    {
        let bn = base.parts.len();
        let n = self.parts.len();
        if bn > n {
            proof {
                assert(!is_prefix_of(base@, self@));
            }
            return self.clone_path();
        }
        let mut i: usize = 0;
        while i < bn
            invariant
                i <= bn,
                bn == base.parts@.len(),
                bn <= n,
                n == self.parts@.len(),
                forall|j: int| 0 <= j < i ==> self@[j] == #[trigger] base@[j],
            decreases bn - i,
        {
            if !bytes_eq(&self.parts[i], &base.parts[i]) {
                proof {
                    lemma_bytes_deep_view(self.parts@[i as int]);
                    lemma_bytes_deep_view(base.parts@[i as int]);
                    assert(self@[i as int] != base@[i as int]);
                    assert(!is_prefix_of(base@, self@));
                }
                return self.clone_path();
            }
            i = i + 1;
        }
        proof {
            assert(is_prefix_of(base@, self@));
        }
        let mut parts: Vec<Vec<u8>> = Vec::new();
        let mut k: usize = bn;
        while k < n
            invariant
                bn <= k <= n,
                bn == base.parts@.len(),
                n == self.parts@.len(),
                parts@.len() == k - bn,
                forall|j: int| bn <= j < k ==> parts@[j - bn]@ == #[trigger] self.parts@[j]@,
            decreases n - k,
        {
            parts.push(copy_bytes(&self.parts[k]));
            k = k + 1;
        }
        let r = FilePath { parts };
        proof {
            assert(r@ =~= self@.skip(bn as int));
        }
        r
    }
}

/// Law: with the relative option on, a path that lies under its tree's root
/// is rewritten to exactly the components after the root: the root prefix is
/// gone, and root plus rewritten path give back the original.
pub proof fn lemma_relative_rewrite(base: Seq<Seq<u8>>, p: Seq<Seq<u8>>)
    requires
        is_prefix_of(base, p),
    ensures
        strip_or_keep(base, p).len() == p.len() - base.len(),
        base + strip_or_keep(base, p) == p,
{
    assert(base + p.skip(base.len() as int) =~= p);
}

} // verus!
