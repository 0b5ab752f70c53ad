//! Entry paths as the merger holds them: relative, free of separators, one
//! string per component.

use vstd::prelude::*;
use vstd::utf8::encode_utf8;

use crate::order::{
    bytes_lt, compare_bytes, lemma_path_lt_asymmetric, lemma_path_lt_irreflexive, path_lt,
    path_lt_at, Order, PathView,
};

verus! {

/// The path of an entry inside a container, split into its components.
#[derive(Debug)]
pub struct EntryPath {
    /// The components from the outermost directory to the file name.
    pub components: Vec<String>,
}

impl View for EntryPath {
    type V = PathView;

    /// The components, each as the bytes of its UTF-8 encoding.
    open spec fn view(&self) -> PathView {
        Seq::new(self.components@.len(), |i: int| encode_utf8(self.components@[i]@))
    }
}

/// The number of bytes in all the components of `path` together.
pub open spec fn total_len(path: PathView) -> nat
    decreases path.len(),
{
    if path.len() == 0 {
        0
    } else {
        total_len(path.drop_last()) + path.last().len()
    }
}

/// The number of bytes of `path` when its components are joined by one
/// separator byte each.
pub open spec fn joined_len(path: PathView) -> nat {
    if path.len() == 0 {
        0
    } else {
        (total_len(path) + path.len() - 1) as nat
    }
}

/// The first components of a path hold no more bytes than the whole path.
pub proof fn lemma_total_len_prefix(path: PathView, n: int)
    requires
        0 <= n <= path.len(),
    ensures
        total_len(path.take(n)) <= total_len(path),
        n < path.len() ==> total_len(path.take(n + 1)) == total_len(path.take(n)) + path[n].len(),
    decreases path.len() - n,
{
    if n < path.len() {
        assert(path.take(n + 1).drop_last() =~= path.take(n));
        lemma_total_len_prefix(path, n + 1);
    } else {
        assert(path.take(n) =~= path);
    }
}

impl EntryPath {
    /// True when the path has no component at all, as the path of an entry
    /// with an empty name has.
    pub fn is_empty(&self) -> (r: bool)
        ensures
            r == (self@.len() == 0),
    {
        self.components.len() == 0
    }

    /// True when the path, joined by separators, is at most `limit` bytes
    /// long.
    pub fn joined_fits(&self, limit: usize) -> (r: bool)
        ensures
            r == (joined_len(self@) <= limit),
    {
        let n = self.components.len();
        if n == 0 {
            return true;
        }
        if n - 1 > limit {
            return false;
        }
        let mut room: usize = limit - (n - 1);
        let mut i: usize = 0;
        while i < n
            invariant
                i <= n,
                n == self@.len(),
                n == self.components@.len(),
                n - 1 <= limit,
                room + total_len(self@.take(i as int)) == limit - (n - 1),
            decreases n - i,
        {
            let len = self.components[i].as_str().as_bytes().len();
            proof {
                lemma_total_len_prefix(self@, i as int);
                lemma_total_len_prefix(self@, i + 1);
                assert(self@[i as int].len() == len);
            }
            if len > room {
                return false;
            }
            room -= len;
            i += 1;
        }
        proof {
            assert(self@.take(n as int) =~= self@);
        }
        true
    }

    /// A copy of this path.
    pub fn duplicate(&self) -> (r: EntryPath)
        ensures
            r@ == self@,
    {
        let mut components: Vec<String> = Vec::new();
        let mut i: usize = 0;
        while i < self.components.len()
            invariant
                i <= self.components@.len(),
                components@.len() == i,
                forall|j: int| 0 <= j < i ==> components@[j]@ == self.components@[j]@,
            decreases self.components.len() - i,
        {
            components.push(self.components[i].clone());
            i += 1;
        }
        let r = EntryPath { components };
        assert(r@ =~= self@);
        r
    }

    /// Compares this path with another, component by component.
    pub fn compare(&self, other: &EntryPath) -> (r: Order)
        ensures
            (r == Order::Before) == path_lt(self@, other@),
            (r == Order::Same) == (self@ == other@),
            (r == Order::After) == path_lt(other@, self@),
    {
        let mut i: usize = 0;
        while i < self.components.len() && i < other.components.len()
            invariant
                i <= self@.len(),
                i <= other@.len(),
                self@.len() == self.components@.len(),
                other@.len() == other.components@.len(),
                forall|j: int| 0 <= j < i ==> self@[j] == other@[j],
            decreases self.components.len() - i,
        {
            let step = compare_bytes(
                self.components[i].as_str().as_bytes(),
                other.components[i].as_str().as_bytes(),
            );
            match step {
                Order::Before => {
                    proof {
                        assert(bytes_lt(self@[i as int], other@[i as int]));
                        assert(path_lt_at(self@, other@, i as int));
                        lemma_path_lt_asymmetric(self@, other@);
                        lemma_path_lt_irreflexive(self@);
                    }
                    return Order::Before;
                },
                Order::After => {
                    proof {
                        assert(bytes_lt(other@[i as int], self@[i as int]));
                        assert(path_lt_at(other@, self@, i as int));
                        lemma_path_lt_asymmetric(other@, self@);
                        lemma_path_lt_irreflexive(self@);
                    }
                    return Order::After;
                },
                Order::Same => {
                    assert(self@[i as int] == other@[i as int]);
                },
            }
            i += 1;
        }
        proof {
            lemma_path_lt_irreflexive(self@);
        }
        if i < other.components.len() {
            proof {
                assert(path_lt_at(self@, other@, i as int));
                lemma_path_lt_asymmetric(self@, other@);
            }
            Order::Before
        } else if i < self.components.len() {
            proof {
                assert(path_lt_at(other@, self@, i as int));
                lemma_path_lt_asymmetric(other@, self@);
            }
            Order::After
        } else {
            proof {
                assert(self@ =~= other@);
            }
            Order::Same
        }
    }
}

} // verus!
