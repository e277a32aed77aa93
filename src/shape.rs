//! The structure of a tree as a plain value, and what searches, insertions and
//! removals do on it.
use vstd::prelude::*;
use crate::order::key_lt;

verus! {

/// The structure of a binary search tree: empty, or a vertex with a key, a
/// value and two subtrees.
pub enum Shape<K, V> {
    Empty,
    Vertex(Box<Shape<K, V>>, K, V, Box<Shape<K, V>>),
}

impl<K, V> Shape<K, V> {
    /// Whether this is a vertex that holds `k`.
    pub open spec fn has_root_key(self, k: K) -> bool {
        match self {
            Shape::Empty => false,
            Shape::Vertex(_, key, _, _) => key == k,
        }
    }

    /// The number of vertices on the longest downward path.
    pub open spec fn height(self) -> nat
        decreases self,
    {
        match self {
            Shape::Empty => 0,
            Shape::Vertex(l, _, _, r) => 1 + vstd::math::max(l.height() as int, r.height() as int) as nat,
        }
    }

    /// The key and value of the vertex reached by going left to the end.
    pub open spec fn min_entry(self) -> Option<(K, V)>
        decreases self,
    {
        match self {
            Shape::Empty => None,
            Shape::Vertex(l, key, value, _) => if *l is Empty {
                Some((key, value))
            } else {
                l.min_entry()
            },
        }
    }

    /// The number of vertices.
    pub open spec fn count(self) -> nat
        decreases self,
    {
        match self {
            Shape::Empty => 0,
            Shape::Vertex(l, _, _, r) => 1 + l.count() + r.count(),
        }
    }
}

impl<K: Ord, V> Shape<K, V> {
    /// What a search for `k` finds: an equal key stops it, a smaller key goes
    /// left, a larger one goes right.
    pub open spec fn lookup(self, k: K) -> Option<V>
        decreases self,
    {
        match self {
            Shape::Empty => None,
            Shape::Vertex(l, key, value, r) => if k == key {
                Some(value)
            } else if key_lt(k, key) {
                l.lookup(k)
            } else {
                r.lookup(k)
            },
        }
    }

    /// Each key that a search finds, with the value found.
    pub open spec fn contents(self) -> Map<K, V> {
        Map::new(|k: K| self.lookup(k) is Some, |k: K| self.lookup(k)->0)
    }

    /// The structure after `k` is put with `v`: the value of the first vertex
    /// on the search path that holds `k` is replaced, or else a new leaf ends
    /// the search path.
    pub open spec fn insert(self, k: K, v: V) -> Shape<K, V>
        decreases self,
    {
        match self {
            Shape::Empty => Shape::Vertex(Box::new(Shape::Empty), k, v, Box::new(Shape::Empty)),
            Shape::Vertex(l, key, value, r) => if key_lt(k, key) {
                Shape::Vertex(Box::new(l.insert(k, v)), key, value, r)
            } else if k == key {
                Shape::Vertex(l, key, v, r)
            } else {
                Shape::Vertex(l, key, value, Box::new(r.insert(k, v)))
            },
        }
    }

    /// Whether removal of `k` below the top vertex takes a vertex out. The left
    /// child is tested first, then the descent goes left for a smaller key;
    /// then the right child is tested, and the descent goes right only for a
    /// key that is smaller than the top one.
    pub open spec fn removes_below(self, k: K) -> bool
        decreases self,
    {
        match self {
            Shape::Empty => false,
            Shape::Vertex(l, key, _, r) => if l.has_root_key(k) {
                true
            } else if *l is Vertex && key_lt(k, key) {
                l.removes_below(k)
            } else if r.has_root_key(k) {
                true
            } else if *r is Vertex && key_lt(k, key) {
                r.removes_below(k)
            } else {
                false
            },
        }
    }

    /// Whether removal of `k` takes a vertex out: the top vertex when it holds
    /// `k`, otherwise as `removes_below` decides.
    pub open spec fn removes(self, k: K) -> bool {
        self.has_root_key(k) || self.removes_below(k)
    }

    /// What a search for `k` finds once the first vertex that holds `k` on the
    /// search path is taken out: the search goes on in that vertex's right
    /// subtree.
    pub open spec fn shadow(self, k: K) -> Option<V>
        decreases self,
    {
        match self {
            Shape::Empty => None,
            Shape::Vertex(l, key, _, r) => if k == key {
                r.lookup(k)
            } else if key_lt(k, key) {
                l.shadow(k)
            } else {
                r.shadow(k)
            },
        }
    }

    /// The structure after removal of `k` below the top vertex: the child
    /// that `removes_below` picks is replaced by its splice, along the same
    /// descent.
    pub open spec fn remove_below(self, k: K) -> Shape<K, V>
        decreases self.height(), 1int,
    {
        match self {
            Shape::Empty => Shape::Empty,
            Shape::Vertex(l, key, value, r) => if l.has_root_key(k) {
                Shape::Vertex(Box::new(l.splice()), key, value, r)
            } else if *l is Vertex && key_lt(k, key) {
                Shape::Vertex(Box::new(l.remove_below(k)), key, value, r)
            } else if r.has_root_key(k) {
                Shape::Vertex(l, key, value, Box::new(r.splice()))
            } else if *r is Vertex && key_lt(k, key) {
                Shape::Vertex(l, key, value, Box::new(r.remove_below(k)))
            } else {
                self
            },
        }
    }

    /// The structure that takes the place of the top vertex when it is
    /// removed: nothing for a leaf, the only child for one child, and for two
    /// children a vertex with the least key of the right subtree and its
    /// value over both children, from which that key is then removed below.
    pub open spec fn splice(self) -> Shape<K, V>
        decreases self.height(), 2int,
    {
        match self {
            Shape::Empty => Shape::Empty,
            Shape::Vertex(l, key, value, r) => if *l is Empty && *r is Empty {
                Shape::Empty
            } else if *r is Empty {
                *l
            } else if *l is Empty {
                *r
            } else {
                match r.min_entry() {
                    Some((m, mv)) => Shape::Vertex(l, m, mv, r).remove_below(m),
                    None => Shape::Empty,
                }
            },
        }
    }

    /// The structure after removal of `k`: the top vertex is spliced out when
    /// it holds `k`, otherwise removal goes on below it.
    pub open spec fn remove(self, k: K) -> Shape<K, V> {
        if self.has_root_key(k) {
            self.splice()
        } else {
            self.remove_below(k)
        }
    }
}

} // verus!
