//! The order in which entry paths are visited.
//!
//! A path is a sequence of components and a component is a sequence of bytes.
//! Components are ordered lexicographically by byte value, and paths
//! lexicographically by component, so `["lib", "x"]` comes before `["lib.rs"]`
//! just as a directory's contents come before a sibling whose name merely
//! extends the directory's name.

use vstd::prelude::*;

verus! {

/// A path as the contracts speak of it: its components from the outermost
/// directory to the file name, each a byte string.
pub type PathView = Seq<Seq<u8>>;

/// Outcome of comparing a left value with a right value.
#[derive(Clone, Copy, Debug, PartialEq, Eq, Structural)]
pub enum Order {
    /// The left value comes strictly first.
    Before,
    /// Both values are equal.
    Same,
    /// The left value comes strictly last.
    After,
}

/// `a` and `b` agree on their first `k` bytes, and at position `k` either `a`
/// ends while `b` goes on, or `a` holds the smaller byte.
pub open spec fn bytes_lt_at(a: Seq<u8>, b: Seq<u8>, k: int) -> bool {
    &&& 0 <= k <= a.len()
    &&& k <= b.len()
    &&& forall|j: int| 0 <= j < k ==> a[j] == b[j]
    &&& if k == a.len() {
        k < b.len()
    } else {
        k < b.len() && a[k] < b[k]
    }
}

/// Strict lexicographic order on byte strings.
pub open spec fn bytes_lt(a: Seq<u8>, b: Seq<u8>) -> bool {
    exists|k: int| #[trigger] bytes_lt_at(a, b, k)
}

/// `a` and `b` agree on their first `k` components, and at position `k` either
/// `a` ends while `b` goes on, or `a` holds the smaller component.
pub open spec fn path_lt_at(a: PathView, b: PathView, k: int) -> bool {
    &&& 0 <= k <= a.len()
    &&& k <= b.len()
    &&& forall|j: int| 0 <= j < k ==> a[j] == b[j]
    &&& if k == a.len() {
        k < b.len()
    } else {
        k < b.len() && bytes_lt(a[k], b[k])
    }
}

/// Strict lexicographic order on paths, component by component.
pub open spec fn path_lt(a: PathView, b: PathView) -> bool {
    exists|k: int| #[trigger] path_lt_at(a, b, k)
}

/// A sequence of paths is strictly ascending: every path comes before all the
/// paths after it. In particular no path occurs twice.
pub open spec fn ascending(paths: Seq<PathView>) -> bool {
    forall|i: int, j: int| 0 <= i < j < paths.len() ==> path_lt(#[trigger] paths[i], #[trigger] paths[j])
}

/// No byte string comes before itself.
pub proof fn lemma_bytes_lt_irreflexive(a: Seq<u8>)
    ensures
        !bytes_lt(a, a),
{
}

/// Of two byte strings at most one comes before the other.
pub proof fn lemma_bytes_lt_asymmetric(a: Seq<u8>, b: Seq<u8>)
    requires
        bytes_lt(a, b),
    ensures
        !bytes_lt(b, a),
{
    let k = choose|k: int| bytes_lt_at(a, b, k);
    if bytes_lt(b, a) {
        let m = choose|m: int| bytes_lt_at(b, a, m);
        if k < m {
            assert(b[k] == a[k]);
        } else if m < k {
            assert(a[m] == b[m]);
        }
    }
}

/// The order on byte strings is transitive.
pub proof fn lemma_bytes_lt_transitive(a: Seq<u8>, b: Seq<u8>, c: Seq<u8>)
    requires
        bytes_lt(a, b),
        bytes_lt(b, c),
    ensures
        bytes_lt(a, c),
{
    let k = choose|k: int| bytes_lt_at(a, b, k);
    let m = choose|m: int| bytes_lt_at(b, c, m);
    let n = if k <= m { k } else { m };
    assert(bytes_lt_at(a, c, n));
}

/// No path comes before itself.
pub proof fn lemma_path_lt_irreflexive(a: PathView)
    ensures
        !path_lt(a, a),
{
    if path_lt(a, a) {
        let k = choose|k: int| path_lt_at(a, a, k);
        lemma_bytes_lt_irreflexive(a[k]);
    }
}

/// Of two paths at most one comes before the other.
pub proof fn lemma_path_lt_asymmetric(a: PathView, b: PathView)
    requires
        path_lt(a, b),
    ensures
        !path_lt(b, a),
{
    let k = choose|k: int| path_lt_at(a, b, k);
    if path_lt(b, a) {
        let m = choose|m: int| path_lt_at(b, a, m);
        if k < m {
            assert(b[k] == a[k]);
            lemma_bytes_lt_irreflexive(a[k]);
        } else if m < k {
            assert(a[m] == b[m]);
            lemma_bytes_lt_irreflexive(a[m]);
        } else {
            lemma_bytes_lt_asymmetric(a[k], b[k]);
        }
    }
}

/// The order on paths is transitive.
pub proof fn lemma_path_lt_transitive(a: PathView, b: PathView, c: PathView)
    requires
        path_lt(a, b),
        path_lt(b, c),
    ensures
        path_lt(a, c),
{
    let k = choose|k: int| path_lt_at(a, b, k);
    let m = choose|m: int| path_lt_at(b, c, m);
    if k < m {
        assert(b[k] == c[k]);
        assert(path_lt_at(a, c, k));
    } else if m < k {
        assert(a[m] == b[m]);
        assert(path_lt_at(a, c, m));
    } else {
        if k < a.len() {
            lemma_bytes_lt_transitive(a[k], b[k], c[k]);
        }
        assert(path_lt_at(a, c, k));
    }
}

/// Compares two byte strings lexicographically.
pub fn compare_bytes(a: &[u8], b: &[u8]) -> (r: Order)
    ensures
        (r == Order::Before) == bytes_lt(a@, b@),
        (r == Order::Same) == (a@ == b@),
        (r == Order::After) == bytes_lt(b@, a@),
{
    let mut i: usize = 0;
    while i < a.len() && i < b.len()
        invariant
            i <= a.len(),
            i <= b.len(),
            forall|j: int| 0 <= j < i ==> a@[j] == b@[j],
        decreases a.len() - i,
    {
        if a[i] < b[i] {
            proof {
                assert(bytes_lt_at(a@, b@, i as int));
                lemma_bytes_lt_asymmetric(a@, b@);
            }
            return Order::Before;
        }
        if b[i] < a[i] {
            proof {
                assert(bytes_lt_at(b@, a@, i as int));
                lemma_bytes_lt_asymmetric(b@, a@);
            }
            return Order::After;
        }
        i += 1;
    }
    if i < b.len() {
        proof {
            assert(bytes_lt_at(a@, b@, i as int));
            lemma_bytes_lt_asymmetric(a@, b@);
        }
        Order::Before
    } else if i < a.len() {
        proof {
            assert(bytes_lt_at(b@, a@, i as int));
            lemma_bytes_lt_asymmetric(b@, a@);
        }
        Order::After
    } else {
        proof {
            assert(a@ =~= b@);
            lemma_bytes_lt_irreflexive(a@);
        }
        Order::Same
    }
}

} // verus!
