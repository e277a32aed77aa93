//! The tree: its vertices, each with a key, a value and up to two owned
//! subtrees, and the container that holds the root.
use vstd::prelude::*;
use crate::order::{key_lt, lawful, total_order};
use crate::shape::Shape;

verus! {

/// `m` with the entry of `k` set to `v`, or taken out where `v` is `None`.
pub open spec fn with_entry<K, V>(m: Map<K, V>, k: K, v: Option<V>) -> Map<K, V> {
    match v {
        Some(x) => m.insert(k, x),
        None => m.remove(k),
    }
}

/// A mapping from keys to values with lookup, insertion and removal.
pub trait Tree<K, V>: Sized {
    /// The mapping that the structure holds.
    spec fn contents(&self) -> Map<K, V>;

    /// The number of entries that the structure stores.
    spec fn stored(&self) -> nat;

    /// The structure's internal invariant.
    spec fn well_formed(&self) -> bool;

    /// Whether `remove(k)` takes an entry out.
    spec fn removes(&self, k: K) -> bool;

    /// The value that `k` maps to once `remove(k)` has taken its entry out, if
    /// any: an older entry of `k` that the removed one hid.
    spec fn shadow(&self, k: K) -> Option<V>;

    /// The value of `key`, if the mapping holds it.
    fn get(&self, key: &K) -> (r: Option<&V>)
        requires
            self.well_formed(),
        ensures
            r is Some <==> self.contents().contains_key(*key),
            r is Some ==> *r->0 == self.contents()[*key],
    ;

    /// Maps `key` to `value`, replacing an earlier value of `key`.
    fn put(&mut self, key: K, value: V)
        requires
            old(self).well_formed(),
        ensures
            final(self).well_formed(),
            final(self).contents() == old(self).contents().insert(key, value),
            final(self).stored() == old(self).stored() + if old(self).contents().contains_key(key) {
                0int
            } else {
                1int
            },
    ;

    /// Takes the entry of `key` out, where `removes` says so, and returns its
    /// value; otherwise changes nothing and returns `None`.
    fn remove(&mut self, key: &K) -> (r: Option<V>)
        requires
            old(self).well_formed(),
        ensures
            final(self).well_formed(),
            r is Some <==> old(self).removes(*key),
            r is Some ==> old(self).contents().contains_key(*key) && r->0 == old(self).contents()[*key],
            r is Some ==> final(self).contents() == with_entry(old(self).contents(), *key, old(self).shadow(*key)),
            r is None ==> final(self).contents() == old(self).contents(),
            old(self).contents() == Map::<K, V>::empty() ==> r is None,
            r is Some && old(self).shadow(*key) is None ==> !final(self).contents().contains_key(*key),
            forall|j: K|
                j != *key ==> (#[trigger] final(self).contents().contains_key(j)
                    == old(self).contents().contains_key(j)),
            forall|j: K|
                j != *key && old(self).contents().contains_key(j) ==> #[trigger] final(self).contents()[j]
                    == old(self).contents()[j],
    ;

    /// Whether the mapping is empty.
    fn is_empty(&self) -> (r: bool)
        requires
            self.well_formed(),
        ensures
            r <==> self.contents() == Map::<K, V>::empty(),
    ;

    /// Removes every entry.
    fn clear(&mut self)
        requires
            old(self).well_formed(),
        ensures
            final(self).well_formed(),
            final(self).contents() == Map::<K, V>::empty(),
    ;
}

/// A vertex of a binary search tree. Keys in the left subtree come before
/// `key`; keys in the right subtree do not.
#[derive(Debug)]
pub struct BinaryTreeNode<K, V> {
    key: K,
    value: V,
    left: Option<Box<BinaryTreeNode<K, V>>>,
    right: Option<Box<BinaryTreeNode<K, V>>>,
}

/// The keys held anywhere in an optional subtree.
pub closed spec fn keys_of<K, V>(t: Option<Box<BinaryTreeNode<K, V>>>) -> Set<K>
    decreases t,
{
    match t {
        None => Set::empty(),
        Some(n) => n.keys(),
    }
}

/// What a search for `k` finds in an optional subtree.
pub closed spec fn lookup_in<K: Ord, V>(t: Option<Box<BinaryTreeNode<K, V>>>, k: K) -> Option<V>
    decreases t,
{
    match t {
        None => None,
        Some(n) => n.lookup(k),
    }
}

/// Every vertex of an optional subtree respects the search order.
pub closed spec fn ordered_in<K: Ord, V>(t: Option<Box<BinaryTreeNode<K, V>>>) -> bool
    decreases t,
{
    match t {
        None => true,
        Some(n) => n.ordered(),
    }
}

/// The structure of an optional subtree as a plain value.
pub closed spec fn shape_in<K, V>(t: Option<Box<BinaryTreeNode<K, V>>>) -> Shape<K, V>
    decreases t,
{
    match t {
        None => Shape::Empty,
        Some(n) => n.shape(),
    }
}

/// The number of vertices of an optional subtree.
pub closed spec fn count_of<K, V>(t: Option<Box<BinaryTreeNode<K, V>>>) -> nat
    decreases t,
{
    match t {
        None => 0,
        Some(n) => n.count(),
    }
}

/// The number of vertices on the longest downward path of an optional subtree.
pub closed spec fn height_of<K, V>(t: Option<Box<BinaryTreeNode<K, V>>>) -> nat
    decreases t,
{
    match t {
        None => 0,
        Some(n) => n.height(),
    }
}

impl<K, V> BinaryTreeNode<K, V> {
    /// The key of this vertex.
    pub closed spec fn spec_key(self) -> K {
        self.key
    }

    /// The value of this vertex.
    pub closed spec fn spec_value(self) -> V {
        self.value
    }

    /// The keys held in this vertex and below it.
    pub closed spec fn keys(self) -> Set<K>
        decreases self,
    {
        keys_of(self.left).union(keys_of(self.right)).insert(self.key)
    }

    /// The structure of the subtree rooted here as a plain value.
    pub closed spec fn shape(self) -> Shape<K, V>
        decreases self,
    {
        Shape::Vertex(Box::new(shape_in(self.left)), self.key, self.value, Box::new(shape_in(self.right)))
    }

    /// The number of vertices of the subtree rooted here.
    pub closed spec fn count(self) -> nat
        decreases self,
    {
        1 + count_of(self.left) + count_of(self.right)
    }

    /// The number of vertices on the longest downward path from this vertex.
    pub closed spec fn height(self) -> nat
        decreases self,
    {
        1 + vstd::math::max(height_of(self.left) as int, height_of(self.right) as int) as nat
    }
}

impl<K: Ord, V> BinaryTreeNode<K, V> {
    /// What a search for `k` that starts here finds.
    pub closed spec fn lookup(self, k: K) -> Option<V>
        decreases self,
    {
        if k == self.key {
            Some(self.value)
        } else if key_lt(k, self.key) {
            lookup_in(self.left, k)
        } else {
            lookup_in(self.right, k)
        }
    }

    /// The mapping that searches from this vertex give: each key that a search
    /// finds, with the value found.
    pub open spec fn contents(self) -> Map<K, V> {
        Map::new(|k: K| self.lookup(k) is Some, |k: K| self.lookup(k)->0)
    }

    /// This vertex and all below it respect the search order: keys on the left
    /// come before this key, keys on the right do not.
    pub closed spec fn ordered(self) -> bool
        decreases self,
    {
        &&& forall|x: K| #[trigger] keys_of(self.left).contains(x) ==> key_lt(x, self.key)
        &&& forall|x: K| #[trigger] keys_of(self.right).contains(x) ==> !key_lt(x, self.key)
        &&& ordered_in(self.left)
        &&& ordered_in(self.right)
    }
}

/// What a search for `k` finds in an optional subtree once the first vertex
/// holding `k` on the search path is taken out.
pub closed spec fn shadow_in<K: Ord, V>(t: Option<Box<BinaryTreeNode<K, V>>>, k: K) -> Option<V>
    decreases t,
{
    match t {
        None => None,
        Some(n) => n.shadow(k),
    }
}

impl<K: Ord, V> BinaryTreeNode<K, V> {
    /// What a search for `k` finds below this vertex, on the side that the
    /// key order picks.
    pub open spec fn below(self, k: K) -> Option<V> {
        if key_lt(k, self.spec_key()) {
            lookup_in(self.spec_left(), k)
        } else {
            lookup_in(self.spec_right(), k)
        }
    }

    /// What a search for `k` from this vertex finds once the first vertex that
    /// holds `k` on the search path is taken out: the search then goes on in
    /// that vertex's right subtree.
    pub closed spec fn shadow(self, k: K) -> Option<V>
        decreases self,
    {
        if k == self.key {
            lookup_in(self.right, k)
        } else if key_lt(k, self.key) {
            shadow_in(self.left, k)
        } else {
            shadow_in(self.right, k)
        }
    }

    /// The same as `shadow`, for the search below this vertex.
    pub open spec fn shadow_below(self, k: K) -> Option<V> {
        if key_lt(k, self.spec_key()) {
            shadow_in(self.spec_left(), k)
        } else {
            shadow_in(self.spec_right(), k)
        }
    }

    /// Whether removal of `k` below this vertex takes a vertex out. The left
    /// child is tested first, then the descent goes left for a smaller key;
    /// then the right child is tested, and the descent goes right only for a
    /// key that is smaller than this one.
    pub closed spec fn removes_below(self, k: K) -> bool
        decreases self,
    {
        if self.left is Some && self.left->0.key == k {
            true
        } else if self.left is Some && key_lt(k, self.key) {
            self.left->0.removes_below(k)
        } else if self.right is Some && self.right->0.key == k {
            true
        } else if self.right is Some && key_lt(k, self.key) {
            self.right->0.removes_below(k)
        } else {
            false
        }
    }
}

impl<K, V> BinaryTreeNode<K, V> {
    /// The left subtree of this vertex.
    pub closed spec fn spec_left(self) -> Option<Box<BinaryTreeNode<K, V>>> {
        self.left
    }

    /// The right subtree of this vertex.
    pub closed spec fn spec_right(self) -> Option<Box<BinaryTreeNode<K, V>>> {
        self.right
    }
}

/// A search finds only keys that the subtree holds.
proof fn lemma_lookup_in_keys<K: Ord, V>(t: Option<Box<BinaryTreeNode<K, V>>>, k: K)
    ensures
        lookup_in(t, k) is Some ==> keys_of(t).contains(k),
    decreases t,
{
    if let Some(n) = t {
        if k != n.key {
            if key_lt(k, n.key) {
                lemma_lookup_in_keys(n.left, k);
            } else {
                lemma_lookup_in_keys(n.right, k);
            }
        }
    }
}

/// Searches, removals and counts on a subtree agree with those on its shape.
proof fn lemma_shape_agrees<K: Ord, V>(t: Option<Box<BinaryTreeNode<K, V>>>, k: K)
    ensures
        lookup_in(t, k) == shape_in(t).lookup(k),
        shadow_in(t, k) == shape_in(t).shadow(k),
        count_of(t) == shape_in(t).count(),
        t is Some ==> t->0.removes_below(k) == shape_in(t).removes_below(k),
    decreases t,
{
    if let Some(n) = t {
        lemma_shape_agrees(n.left, k);
        lemma_shape_agrees(n.right, k);
    }
}

impl<K: Ord, V> BinaryTreeNode<K, V> {
    /// Two vertices with the same key and value whose subtrees answer every
    /// search but one alike answer every search but that one alike.
    proof fn lemma_same_lookups_but(a: Self, b: Self, k: K)
        requires
            a.key == b.key,
            a.value == b.value,
            forall|j: K| j != k ==> #[trigger] lookup_in(a.left, j) == lookup_in(b.left, j),
            forall|j: K| j != k ==> #[trigger] lookup_in(a.right, j) == lookup_in(b.right, j),
        ensures
            forall|j: K| j != k ==> #[trigger] a.lookup(j) == b.lookup(j),
    {
        assert forall|j: K| j != k implies #[trigger] a.lookup(j) == b.lookup(j) by {
            if j != a.key {
                if key_lt(j, a.key) {
                    assert(lookup_in(a.left, j) == lookup_in(b.left, j));
                } else {
                    assert(lookup_in(a.right, j) == lookup_in(b.right, j));
                }
            }
        }
    }

    /// Below a vertex whose keys all come after `k`, no removal of `k` takes
    /// a vertex out.
    proof fn lemma_nothing_to_remove(self, k: K)
        requires
            total_order::<K>(),
            forall|x: K| #[trigger] self.keys().contains(x) ==> key_lt(k, x),
        ensures
            !self.removes_below(k),
        decreases self,
    {
        if let Some(l) = self.left {
            assert(l.keys().contains(l.key));
            assert(keys_of(self.left) == l.keys());
            assert forall|x: K| #[trigger] l.keys().contains(x) implies key_lt(k, x) by {
                assert(self.keys().contains(x));
            }
            l.lemma_nothing_to_remove(k);
        }
        if let Some(r) = self.right {
            assert(r.keys().contains(r.key));
            assert(keys_of(self.right) == r.keys());
            assert forall|x: K| #[trigger] r.keys().contains(x) implies key_lt(k, x) by {
                assert(self.keys().contains(x));
            }
            r.lemma_nothing_to_remove(k);
        }
    }
}

impl<K: Ord + Clone, V: Clone> BinaryTreeNode<K, V> {
    /// A vertex with no children.
    pub fn new(key: K, value: V) -> (r: BinaryTreeNode<K, V>)
        ensures
            r.spec_key() == key,
            r.spec_value() == value,
            r.keys() == set![key],
            r.count() == 1,
            r.shape() == Shape::Vertex(Box::new(Shape::Empty), key, value, Box::new(Shape::Empty)),
            r.ordered(),
            forall|j: K| #[trigger] r.lookup(j) == if j == key { Some(value) } else { None },
    {
        let r = BinaryTreeNode { key, value, left: None, right: None };
        proof {
            assert(keys_of(r.left) == Set::<K>::empty());
            assert(r.keys() =~= set![key]);
        }
        r
    }

    /// Searches for `key` from this vertex: equal keys stop the search, smaller
    /// keys go left, larger keys go right.
    pub fn find(&self, key: &K) -> (r: Option<&V>)
        requires
            total_order::<K>(),
        ensures
            r is Some <==> self.shape().lookup(*key) is Some,
            r is Some ==> self.shape().lookup(*key) == Some(*r->0),
        decreases self,
    {
        proof {
            lemma_shape_agrees(self.left, *key);
            lemma_shape_agrees(self.right, *key);
        }
        if *key == self.key {
            Some(&self.value)
        } else if *key < self.key {
            match &self.left {
                None => None,
                Some(left) => left.find(key),
            }
        } else {
            match &self.right {
                None => None,
                Some(right) => right.find(key),
            }
        }
    }

    /// Puts the key and value of `node` into the subtree of this vertex: an
    /// equal key has its value replaced, otherwise a new leaf is attached
    /// where the search for the key ends.
    pub fn append(&mut self, node: BinaryTreeNode<K, V>)
        requires
            total_order::<K>(),
        ensures
            final(self).spec_key() == old(self).spec_key(),
            final(self).keys() == old(self).keys().insert(node.spec_key()),
            forall|j: K| #[trigger] final(self).lookup(j) == if j == node.spec_key() {
                Some(node.spec_value())
            } else {
                old(self).lookup(j)
            },
            final(self).contents() == old(self).contents().insert(node.spec_key(), node.spec_value()),
            final(self).count() == old(self).count() + if old(self).lookup(node.spec_key()) is Some {
                0int
            } else {
                1int
            },
            final(self).shape() == old(self).shape().insert(node.spec_key(), node.spec_value()),
            old(self).ordered() ==> final(self).ordered(),
        decreases *old(self), 1nat,
    {
        if node.key < self.key {
            self.insert_left(node);
        } else if node.key == self.key {
            self.value = node.value;
        } else {
            self.insert_right(node);
        }
        proof {
            assert(self.keys() =~= old(self).keys().insert(node.key));
            assert(!key_lt(old(self).key, old(self).key));
            if node.key != self.key {
                if key_lt(node.key, self.key) {
                    assert(old(self).lookup(node.key) == lookup_in(old(self).left, node.key));
                } else {
                    assert(old(self).lookup(node.key) == lookup_in(old(self).right, node.key));
                }
            }
            assert forall|j: K| #[trigger] self.lookup(j) == if j == node.key {
                Some(node.value)
            } else {
                old(self).lookup(j)
            } by {
                assert(!key_lt(self.key, self.key));
                if j == self.key {
                    assert(self.lookup(j) == Some(self.value));
                    assert(old(self).lookup(j) == Some(old(self).value));
                } else if key_lt(j, self.key) {
                    assert(self.lookup(j) == lookup_in(self.left, j));
                    assert(old(self).lookup(j) == lookup_in(old(self).left, j));
                } else {
                    assert(self.lookup(j) == lookup_in(self.right, j));
                    assert(old(self).lookup(j) == lookup_in(old(self).right, j));
                }
            }
            assert(self.contents() =~= old(self).contents().insert(node.key, node.value));
        }
    }

    /// The smallest key of this subtree, found by going left to the end, with
    /// its value; both are copies.
    fn min_key_value(&self) -> (r: (K, V))
        requires
            lawful::<K, V>(),
            self.ordered(),
        ensures
            self.keys().contains(r.0),
            forall|x: K| #[trigger] self.keys().contains(x) ==> !key_lt(x, r.0),
            self.lookup(r.0) == Some(r.1),
            self.shape().min_entry() == Some(r),
        decreases self,
    {
        match &self.left {
            None => {
                let r = (self.key.clone(), self.value.clone());
                proof {
                    assert(keys_of(self.left) == Set::<K>::empty());
                    assert forall|x: K| #[trigger] self.keys().contains(x) implies !key_lt(x, r.0) by {
                        if x != r.0 {
                            assert(keys_of(self.right).contains(x));
                        }
                    }
                }
                r
            },
            Some(left) => {
                let r = left.min_key_value();
                proof {
                    assert(keys_of(self.left).contains(r.0));
                    assert(key_lt(r.0, self.key));
                    assert(self.lookup(r.0) == lookup_in(self.left, r.0));
                    assert forall|x: K| #[trigger] self.keys().contains(x) implies !key_lt(x, r.0) by {
                        if keys_of(self.left).contains(x) {
                        } else if keys_of(self.right).contains(x) {
                            assert(!key_lt(x, self.key));
                        } else {
                            assert(x == self.key);
                        }
                    }
                }
                r
            },
        }
    }

    /// Takes out the first vertex below this one that holds `key`, as
    /// `removes_below` decides, and returns its value.
    fn remove_descendent(&mut self, key: &K) -> (r: Option<V>)
        requires
            lawful::<K, V>(),
            old(self).ordered(),
        ensures
            final(self).ordered(),
            final(self).spec_key() == old(self).spec_key(),
            final(self).spec_value() == old(self).spec_value(),
            final(self).keys().subset_of(old(self).keys()),
            r is Some <==> old(self).removes_below(*key),
            r is Some ==> r == old(self).below(*key),
            r is Some ==> final(self).below(*key) == old(self).shadow_below(*key),
            r is None ==> *final(self) == *old(self),
            forall|j: K| j != *key ==> #[trigger] final(self).lookup(j) == old(self).lookup(j),
            key_lt(*key, old(self).spec_key()) ==> final(self).spec_right() == old(self).spec_right(),
            !key_lt(*key, old(self).spec_key()) ==> final(self).spec_left() == old(self).spec_left(),
            final(self).shape() == old(self).shape().remove_below(*key),
        decreases old(self).height(), 1int,
    {
        if self.left.is_some() && self.left.as_ref().unwrap().key == *key {
            proof {
                let c = self.left->0;
                assert(c.keys().contains(c.key));
                assert(keys_of(self.left).contains(*key));
                assert(c.lookup(*key) == Some(c.value));
                assert(lookup_in(self.left, *key) == c.lookup(*key));
                assert(self.below(*key) == Some(c.value));
            }
            let r = self.remove_left();
            proof {
                assert forall|x: K| #[trigger] keys_of(self.left).contains(x) implies keys_of(old(self).left).contains(x) by {}
                assert(self.ordered());
                BinaryTreeNode::lemma_same_lookups_but(*self, *old(self), *key);
                assert(self.keys() =~= self.keys().intersect(old(self).keys()));
            }
            return r;
        }
        if self.left.is_some() && *key < self.key {
            let ghost child = self.left->0;
            let mut left = self.left.take().unwrap();
            let r = (&mut *left).remove_descendent(key);
            self.left = Some(left);
            proof {
                assert(shape_in(old(self).left) == child.shape());
                assert(shape_in(self.left) == left.shape());
                if old(self).left is Some {
                    assert(shape_in(old(self).left) == old(self).left->0.shape());
                }
                assert(keys_of(old(self).left) == child.keys());
                assert(keys_of(self.left) == left.keys());
                assert forall|j: K| j != *key implies #[trigger] lookup_in(self.left, j) == lookup_in(old(self).left, j) by {
                    assert(lookup_in(self.left, j) == left.lookup(j));
                    assert(lookup_in(old(self).left, j) == child.lookup(j));
                }
                BinaryTreeNode::lemma_same_lookups_but(*self, *old(self), *key);
                assert forall|x: K| #[trigger] keys_of(self.left).contains(x) implies keys_of(old(self).left).contains(x) by {}
                assert(self.ordered());
                assert(self.keys() =~= self.keys().intersect(old(self).keys()));
            }
            return r;
        }
        if self.right.is_some() && self.right.as_ref().unwrap().key == *key {
            proof {
                let c = self.right->0;
                assert(c.keys().contains(c.key));
                assert(keys_of(self.right).contains(*key));
                assert(!key_lt(*key, self.key));
                assert(c.lookup(*key) == Some(c.value));
                assert(lookup_in(self.right, *key) == c.lookup(*key));
                assert(self.below(*key) == Some(c.value));
            }
            let r = self.remove_right();
            proof {
                assert forall|x: K| #[trigger] keys_of(self.right).contains(x) implies keys_of(old(self).right).contains(x) by {}
                assert(self.ordered());
                BinaryTreeNode::lemma_same_lookups_but(*self, *old(self), *key);
                assert(self.keys() =~= self.keys().intersect(old(self).keys()));
            }
            return r;
        }
        if self.right.is_some() && *key < self.key {
            proof {
                let c = self.right->0;
                assert(keys_of(self.right) == c.keys());
                assert forall|x: K| #[trigger] c.keys().contains(x) implies key_lt(*key, x) by {
                    assert(!key_lt(x, self.key));
                    if !key_lt(self.key, x) {
                        assert(x == self.key);
                    }
                }
                c.lemma_nothing_to_remove(*key);
            }
            let ghost child = self.right->0;
            let mut right = self.right.take().unwrap();
            let r = (&mut *right).remove_descendent(key);
            self.right = Some(right);
            proof {
                assert(shape_in(old(self).right) == child.shape());
                assert(shape_in(self.right) == right.shape());
                if old(self).left is Some {
                    assert(shape_in(old(self).left) == old(self).left->0.shape());
                }
                assert(keys_of(old(self).right) == child.keys());
                assert(keys_of(self.right) == right.keys());
                assert forall|j: K| j != *key implies #[trigger] lookup_in(self.right, j) == lookup_in(old(self).right, j) by {
                    assert(lookup_in(self.right, j) == right.lookup(j));
                    assert(lookup_in(old(self).right, j) == child.lookup(j));
                }
                BinaryTreeNode::lemma_same_lookups_but(*self, *old(self), *key);
                assert forall|x: K| #[trigger] keys_of(self.right).contains(x) implies keys_of(old(self).right).contains(x) by {}
                assert(self.ordered());
                assert(self.keys() =~= self.keys().intersect(old(self).keys()));
            }
            return r;
        }
        proof {
            if self.left is Some {
                assert(shape_in(self.left) == self.left->0.shape());
            }
            if self.right is Some {
                assert(shape_in(self.right) == self.right->0.shape());
            }
        }
        None
    }

    /// Takes out the left child, puts its replacement in its place, and
    /// returns the child's value.
    fn remove_left(&mut self) -> (r: Option<V>)
        requires
            lawful::<K, V>(),
            old(self).ordered(),
            old(self).spec_left() is Some,
        ensures
            final(self).ordered(),
            final(self).key == old(self).key,
            final(self).value == old(self).value,
            final(self).right == old(self).right,
            keys_of(final(self).left).subset_of(keys_of(old(self).left)),
            r == Some(old(self).left->0.value),
            forall|j: K| j != old(self).left->0.key ==> #[trigger] lookup_in(final(self).left, j) == lookup_in(old(self).left, j),
            lookup_in(final(self).left, old(self).left->0.key) == lookup_in(old(self).left->0.right, old(self).left->0.key),
            shape_in(final(self).left) == old(self).left->0.shape().splice(),
        decreases old(self).height(), 0int,
    {
        let mut removed_left = self.left.take().unwrap();
        self.left = (&mut *removed_left).take_subtree();
        proof {
            assert(keys_of(old(self).left) == old(self).left->0.keys());
            assert(ordered_in(old(self).left) && ordered_in(old(self).right));
            assert forall|x: K| #[trigger] keys_of(self.left).contains(x) implies keys_of(old(self).left).contains(x) by {}
        }
        Some(removed_left.value)
    }

    /// Takes out the right child, puts its replacement in its place, and
    /// returns the child's value.
    fn remove_right(&mut self) -> (r: Option<V>)
        requires
            lawful::<K, V>(),
            old(self).ordered(),
            old(self).spec_right() is Some,
        ensures
            final(self).ordered(),
            final(self).key == old(self).key,
            final(self).value == old(self).value,
            final(self).left == old(self).left,
            keys_of(final(self).right).subset_of(keys_of(old(self).right)),
            r == Some(old(self).right->0.value),
            forall|j: K| j != old(self).right->0.key ==> #[trigger] lookup_in(final(self).right, j) == lookup_in(old(self).right, j),
            lookup_in(final(self).right, old(self).right->0.key) == lookup_in(old(self).right->0.right, old(self).right->0.key),
            shape_in(final(self).right) == old(self).right->0.shape().splice(),
        decreases old(self).height(), 0int,
    {
        let mut removed_right = self.right.take().unwrap();
        self.right = (&mut *removed_right).take_subtree();
        proof {
            assert(keys_of(old(self).right) == old(self).right->0.keys());
            assert(ordered_in(old(self).left) && ordered_in(old(self).right));
            assert forall|x: K| #[trigger] keys_of(self.right).contains(x) implies keys_of(old(self).right).contains(x) by {}
        }
        Some(removed_right.value)
    }

    /// The subtree that takes this vertex's place when it is removed: none
    /// for a leaf, the only child for a vertex with one child, and for a
    /// vertex with two children a new vertex that carries the smallest key of
    /// the right subtree. This vertex gives up its children.
    fn take_subtree(&mut self) -> (r: Option<Box<BinaryTreeNode<K, V>>>)
        requires
            lawful::<K, V>(),
            old(self).ordered(),
        ensures
            final(self).key == old(self).key,
            final(self).value == old(self).value,
            ordered_in(r),
            keys_of(r).subset_of(old(self).keys()),
            forall|j: K| j != old(self).key ==> #[trigger] lookup_in(r, j) == old(self).lookup(j),
            lookup_in(r, old(self).key) == lookup_in(old(self).right, old(self).key),
            final(self).left is None,
            final(self).right is None,
            shape_in(r) == old(self).shape().splice(),
            old(self).left is None && old(self).right is None ==> r is None,
            old(self).left is Some && old(self).right is None ==> r == old(self).left,
            old(self).left is None && old(self).right is Some ==> r == old(self).right,
            old(self).left is Some && old(self).right is Some ==> {
                &&& r is Some
                &&& keys_of(old(self).right).contains(r->0.key)
                &&& forall|x: K| #[trigger] keys_of(old(self).right).contains(x) ==> !key_lt(x, r->0.key)
                &&& lookup_in(old(self).right, r->0.key) == Some(r->0.value)
                &&& r->0.left == old(self).left
            },
        decreases old(self).height(), 3int,
    {
        proof {
            lemma_lookup_in_keys(self.left, self.key);
            lemma_lookup_in_keys(self.right, self.key);
        }
        match (self.left.as_ref(), self.right.as_ref()) {
            (None, None) => {
                proof {
                    assert forall|j: K| j != old(self).key implies #[trigger] lookup_in::<K, V>(None, j) == old(self).lookup(j) by {
                        assert(lookup_in(old(self).left, j) is None);
                        assert(lookup_in(old(self).right, j) is None);
                    }
                }
                None
            },
            (Some(_), None) => {
                let r = self.left.take();
                proof {
                    assert forall|j: K| j != old(self).key implies #[trigger] lookup_in(r, j) == old(self).lookup(j) by {
                        lemma_lookup_in_keys(r, j);
                    }
                }
                r
            },
            (None, Some(_)) => {
                let r = self.right.take();
                proof {
                    assert forall|j: K| j != old(self).key implies #[trigger] lookup_in(r, j) == old(self).lookup(j) by {
                        lemma_lookup_in_keys(r, j);
                    }
                }
                r
            },
            (Some(_), Some(_)) => {
                let r = self.take_right_min_subtree();
                proof {
                    assert(keys_of(Some(r)) == r.keys());
                    assert forall|j: K| j != old(self).key implies #[trigger] lookup_in(Some(r), j) == old(self).lookup(j) by {
                        assert(lookup_in(Some(r), j) == r.lookup(j));
                    }
                    assert(lookup_in(Some(r), old(self).key) == r.lookup(old(self).key));
                }
                Some(r)
            },
        }
    }

    /// The replacement for a vertex with two children: a new vertex with the
    /// smallest key of the right subtree and its value, over both children,
    /// from whose right side that key is then removed.
    fn take_right_min_subtree(&mut self) -> (r: Box<BinaryTreeNode<K, V>>)
        requires
            lawful::<K, V>(),
            old(self).ordered(),
            old(self).spec_left() is Some,
            old(self).spec_right() is Some,
        ensures
            final(self).key == old(self).key,
            final(self).value == old(self).value,
            r.ordered(),
            r.keys().subset_of(old(self).keys()),
            forall|j: K| j != old(self).key ==> #[trigger] r.lookup(j) == old(self).lookup(j),
            r.lookup(old(self).key) == lookup_in(old(self).right, old(self).key),
            final(self).left is None,
            final(self).right is None,
            keys_of(old(self).right).contains(r.key),
            forall|x: K| #[trigger] keys_of(old(self).right).contains(x) ==> !key_lt(x, r.key),
            lookup_in(old(self).right, r.key) == Some(r.value),
            r.left == old(self).left,
            r.shape() == old(self).shape().splice(),
        decreases old(self).height(), 2int,
    {
        let (min_key, min_value) = self.right.as_ref().unwrap().min_key_value();
        let copied_key = min_key.clone();
        let mut new_node = BinaryTreeNode {
            key: min_key,
            value: min_value,
            left: self.left.take(),
            right: self.right.take(),
        };
        let ghost fresh = new_node;
        proof {
            let k = old(self).key;
            let m = min_key;
            let l = old(self).left;
            let rt = old(self).right;
            assert(keys_of(rt).contains(m));
            assert(!key_lt(m, k));
            assert forall|x: K| #[trigger] keys_of(l).contains(x) implies key_lt(x, m) by {
                assert(key_lt(x, k));
                if m != k {
                    assert(key_lt(k, m));
                }
            }
            assert(fresh.ordered());
            assert(fresh.height() == old(self).height());
            assert forall|j: K| j != k implies #[trigger] fresh.lookup(j) == old(self).lookup(j) by {
                lemma_lookup_in_keys(l, j);
                lemma_lookup_in_keys(rt, j);
                if j == m {
                } else if key_lt(j, m) {
                    if !key_lt(j, k) {
                        assert(key_lt(k, j));
                    }
                } else {
                    assert(key_lt(m, j));
                }
            }
            lemma_lookup_in_keys(l, k);
            lemma_lookup_in_keys(rt, k);
            if m != k {
                assert(key_lt(k, m));
            }
            assert(fresh.lookup(k) == lookup_in(rt, k));
        }
        new_node.remove_descendent(&copied_key);
        proof {
            let c = old(self).right->0;
            assert(shape_in(old(self).right) == c.shape());
            assert(shape_in(old(self).left) == old(self).left->0.shape());
            assert(fresh.shape() == Shape::Vertex(Box::new(shape_in(old(self).left)), min_key, min_value, Box::new(shape_in(old(self).right))));
            assert(old(self).shape().splice() == fresh.shape().remove_below(min_key));
            assert(new_node.lookup(min_key) == fresh.lookup(min_key));
        }
        Box::new(new_node)
    }

    fn insert_left(&mut self, node: BinaryTreeNode<K, V>)
        requires
            total_order::<K>(),
            key_lt(node.spec_key(), old(self).spec_key()),
        ensures
            final(self).key == old(self).key,
            final(self).value == old(self).value,
            final(self).right == old(self).right,
            keys_of(final(self).left) == keys_of(old(self).left).insert(node.key),
            shape_in(final(self).left) == shape_in(old(self).left).insert(node.key, node.value),
            count_of(final(self).left) == count_of(old(self).left) + if lookup_in(old(self).left, node.key) is Some {
                0int
            } else {
                1int
            },
            forall|j: K| #[trigger] lookup_in(final(self).left, j) == if j == node.key {
                Some(node.value)
            } else {
                lookup_in(old(self).left, j)
            },
            ordered_in(old(self).left) ==> ordered_in(final(self).left),
        decreases *old(self), 0nat,
    {
        match self.left.take() {
            None => {
                let leaf = BinaryTreeNode::new(node.key, node.value);
                self.left = Some(Box::new(leaf));
                proof {
                    assert(keys_of(self.left) =~= keys_of(old(self).left).insert(node.key));
                    assert forall|j: K| #[trigger] lookup_in(self.left, j) == if j == node.key {
                        Some(node.value)
                    } else {
                        lookup_in(old(self).left, j)
                    } by {
                        assert(lookup_in(self.left, j) == leaf.lookup(j));
                    }
                }
            },
            Some(mut left) => {
                let ghost before = *left;
                (&mut *left).append(node);
                self.left = Some(left);
                proof {
                    assert(lookup_in(old(self).left, node.key) == before.lookup(node.key));
                    assert forall|j: K| #[trigger] lookup_in(self.left, j) == if j == node.key {
                        Some(node.value)
                    } else {
                        lookup_in(old(self).left, j)
                    } by {
                        assert(lookup_in(old(self).left, j) == before.lookup(j));
                        assert(left.lookup(j) == if j == node.key { Some(node.value) } else { before.lookup(j) });
                        assert(lookup_in(self.left, j) == left.lookup(j));
                    }
                }
            },
        }
    }

    fn insert_right(&mut self, node: BinaryTreeNode<K, V>)
        requires
            total_order::<K>(),
            !key_lt(node.spec_key(), old(self).spec_key()),
            node.spec_key() != old(self).spec_key(),
        ensures
            final(self).key == old(self).key,
            final(self).value == old(self).value,
            final(self).left == old(self).left,
            keys_of(final(self).right) == keys_of(old(self).right).insert(node.key),
            shape_in(final(self).right) == shape_in(old(self).right).insert(node.key, node.value),
            count_of(final(self).right) == count_of(old(self).right) + if lookup_in(old(self).right, node.key) is Some {
                0int
            } else {
                1int
            },
            forall|j: K| #[trigger] lookup_in(final(self).right, j) == if j == node.key {
                Some(node.value)
            } else {
                lookup_in(old(self).right, j)
            },
            ordered_in(old(self).right) ==> ordered_in(final(self).right),
        decreases *old(self), 0nat,
    {
        match self.right.take() {
            None => {
                let leaf = BinaryTreeNode::new(node.key, node.value);
                self.right = Some(Box::new(leaf));
                proof {
                    assert(keys_of(self.right) =~= keys_of(old(self).right).insert(node.key));
                    assert forall|j: K| #[trigger] lookup_in(self.right, j) == if j == node.key {
                        Some(node.value)
                    } else {
                        lookup_in(old(self).right, j)
                    } by {
                        assert(lookup_in(self.right, j) == leaf.lookup(j));
                    }
                }
            },
            Some(mut right) => {
                let ghost before = *right;
                (&mut *right).append(node);
                self.right = Some(right);
                proof {
                    assert(lookup_in(old(self).right, node.key) == before.lookup(node.key));
                    assert forall|j: K| #[trigger] lookup_in(self.right, j) == if j == node.key {
                        Some(node.value)
                    } else {
                        lookup_in(old(self).right, j)
                    } by {
                        assert(lookup_in(old(self).right, j) == before.lookup(j));
                        assert(right.lookup(j) == if j == node.key { Some(node.value) } else { before.lookup(j) });
                        assert(lookup_in(self.right, j) == right.lookup(j));
                    }
                }
            },
        }
    }
}


/// A binary search tree without rebalancing.
pub struct BinaryTree<K, V> {
    root: Option<BinaryTreeNode<K, V>>,
}

impl<K, V> BinaryTree<K, V> {
    /// The structure of the tree as a plain value.
    pub closed spec fn shape(&self) -> Shape<K, V> {
        match self.root {
            None => Shape::Empty,
            Some(n) => n.shape(),
        }
    }
}

impl<K: Ord + Clone, V: Clone> BinaryTree<K, V> {
    /// An empty tree.
    pub fn new() -> (r: BinaryTree<K, V>)
        requires
            lawful::<K, V>(),
        ensures
            r.well_formed(),
            r.shape() == Shape::<K, V>::Empty,
            r.contents() == Map::<K, V>::empty(),
    {
        let r = BinaryTree { root: None };
        proof {
            assert(r.contents() =~= Map::<K, V>::empty());
        }
        r
    }

    /// The mapping that searches from the root vertex give.
    closed spec fn held(&self) -> Map<K, V> {
        match self.root {
            None => Map::empty(),
            Some(n) => n.contents(),
        }
    }

    /// The number of vertices under the root.
    closed spec fn held_count(&self) -> nat {
        match self.root {
            None => 0,
            Some(n) => n.count(),
        }
    }

    /// Whether removal of `k` takes a vertex out, read from the vertices.
    closed spec fn held_removes(&self, k: K) -> bool {
        match self.root {
            None => false,
            Some(n) => n.key == k || n.removes_below(k),
        }
    }

    /// What a search for `k` finds after its removal, read from the vertices.
    closed spec fn held_shadow(&self, k: K) -> Option<V> {
        match self.root {
            None => None,
            Some(n) => n.shadow(k),
        }
    }

    /// The tree's vertices and its shape give the same answers.
    proof fn lemma_model(&self)
        ensures
            self.contents() == self.held(),
            self.stored() == self.held_count(),
            forall|k: K| #[trigger] self.removes(k) == self.held_removes(k),
            forall|k: K| #[trigger] self.shadow(k) == self.held_shadow(k),
    {
        assert forall|k: K| #[trigger] self.shape().lookup(k) == match self.root {
            None => None,
            Some(n) => n.lookup(k),
        } by {
            if let Some(n) = self.root {
                lemma_shape_agrees(Some(Box::new(n)), k);
            }
        }
        assert forall|k: K| #[trigger] self.removes(k) == self.held_removes(k) by {
            if let Some(n) = self.root {
                lemma_shape_agrees(Some(Box::new(n)), k);
            }
        }
        assert forall|k: K| #[trigger] self.shadow(k) == self.held_shadow(k) by {
            if let Some(n) = self.root {
                lemma_shape_agrees(Some(Box::new(n)), k);
            }
        }
        if let Some(n) = self.root {
            lemma_shape_agrees(Some(Box::new(n)), n.key);
        }
        assert(self.contents() =~= self.held());
    }
}

impl<K: Ord + Clone, V: Clone> BinaryTreeNode<K, V> {
    /// A search for this vertex's own key stops here.
    proof fn lemma_contents_has_key(self)
        ensures
            self.contents().contains_key(self.key),
            self.contents()[self.key] == self.value,
    {
    }
}

impl<K: Ord + Clone, V: Clone> Tree<K, V> for BinaryTree<K, V> {
    open spec fn contents(&self) -> Map<K, V> {
        self.shape().contents()
    }

    open spec fn stored(&self) -> nat {
        self.shape().count()
    }

    closed spec fn well_formed(&self) -> bool {
        &&& lawful::<K, V>()
        &&& match self.root {
            None => true,
            Some(n) => n.ordered(),
        }
    }

    open spec fn removes(&self, k: K) -> bool {
        self.shape().removes(k)
    }

    open spec fn shadow(&self, k: K) -> Option<V> {
        self.shape().shadow(k)
    }

    fn get(&self, key: &K) -> (r: Option<&V>) {
        proof {
            self.lemma_model();
        }
        match &self.root {
            None => None,
            Some(root) => root.find(key),
        }
    }

    fn put(&mut self, key: K, value: V)
        ensures
            final(self).shape() == old(self).shape().insert(key, value),
    {
        proof {
            old(self).lemma_model();
        }
        match self.root.take() {
            None => {
                let n = BinaryTreeNode::new(key, value);
                self.root = Some(n);
            },
            Some(mut node) => {
                node.append(BinaryTreeNode::new(key, value));
                self.root = Some(node);
            },
        }
        proof {
            self.lemma_model();
            assert(self.held() =~= old(self).held().insert(key, value));
        }
    }

    fn remove(&mut self, key: &K) -> (r: Option<V>)
        ensures
            r is None ==> final(self).shape() == old(self).shape(),
            final(self).shape() == old(self).shape().remove(*key),
    {
        proof {
            old(self).lemma_model();
        }
        if self.root.is_none() {
            return None;
        }
        proof {
            self.root->0.lemma_contents_has_key();
        }
        if self.root.as_ref().unwrap().key != *key {
            let mut root = self.root.take().unwrap();
            let ghost before = root;
            let r = root.remove_descendent(key);
            self.root = Some(root);
            proof {
                self.lemma_model();
                assert(before.lookup(*key) == before.below(*key));
                if r is Some {
                    assert(root.lookup(*key) == root.below(*key));
                    assert(before.shadow(*key) == before.shadow_below(*key));
                    assert(self.held() =~= with_entry(old(self).held(), *key, old(self).held_shadow(*key)));
                } else {
                    assert(self.held() =~= old(self).held());
                }
            }
            return r;
        }
        let removed_value = self.root.as_ref().unwrap().value.clone();
        let mut root = self.root.take().unwrap();
        let ghost before = root;
        let replacement = root.take_subtree();
        self.root = match replacement {
            None => None,
            Some(b) => Some(*b),
        };
        proof {
            self.lemma_model();
            before.lemma_contents_has_key();
            assert(before.shadow(*key) == lookup_in(before.right, *key));
            assert forall|j: K| #[trigger] lookup_in(replacement, j) == match self.root {
                None => None,
                Some(n) => n.lookup(j),
            } by {
            }
            assert(before.key == *key);
            let target = with_entry(old(self).held(), *key, old(self).held_shadow(*key));
            assert forall|j: K| #[trigger] self.held().contains_key(j) == target.contains_key(j)
                && (self.held().contains_key(j) ==> self.held()[j] == target[j]) by {
                if j == *key {
                    assert(lookup_in(replacement, j) == before.shadow(j));
                } else {
                    assert(lookup_in(replacement, j) == before.lookup(j));
                }
            }
            assert(self.held() =~= target);
        }
        Some(removed_value)
    }

    fn is_empty(&self) -> (r: bool) {
        proof {
            self.lemma_model();
            if self.root is Some {
                self.root->0.lemma_contents_has_key();
            }
        }
        match self.root {
            None => true,
            Some(_) => false,
        }
    }

    fn clear(&mut self)
        ensures
            final(self).shape() == Shape::<K, V>::Empty,
    {
        self.root = None;
        proof {
            assert(self.contents() =~= Map::<K, V>::empty());
        }
    }
}

} // verus!
