//! The mathematical model of a search tree: shape, contents, order and balance.
use vstd::prelude::*;
use crate::record::Key;
use vstd::set_lib::lemma_set_disjoint_lens;

verus! {

/// A binary tree whose nodes carry the slot index that holds them, a key and
/// a value.
pub enum Tree<K, V> {
    Nil,
    Node { left: Box<Tree<K, V>>, index: int, key: K, value: V, right: Box<Tree<K, V>> },
}

pub open spec fn max_nat(a: nat, b: nat) -> nat {
    if a >= b {
        a
    } else {
        b
    }
}

impl<K: Key, V> Tree<K, V> {
    pub open spec fn height(self) -> nat
        decreases self,
    {
        match self {
            Tree::Nil => 0,
            Tree::Node { left, right, .. } => 1 + max_nat(left.height(), right.height()),
        }
    }

    pub open spec fn count(self) -> nat
        decreases self,
    {
        match self {
            Tree::Nil => 0,
            Tree::Node { left, right, .. } => 1 + left.count() + right.count(),
        }
    }

    /// The slot indices that hold the nodes of the tree.
    pub open spec fn indices(self) -> Set<int>
        decreases self,
    {
        match self {
            Tree::Nil => Set::empty(),
            Tree::Node { left, index, right, .. } => left.indices().union(right.indices()).insert(
                index,
            ),
        }
    }

    /// The value found by a search for `k`, descending by key order.
    pub open spec fn lookup(self, k: K) -> Option<V>
        decreases self,
    {
        match self {
            Tree::Nil => None,
            Tree::Node { left, key, value, right, .. } => {
                if k.rank() < key.rank() {
                    left.lookup(k)
                } else if key.rank() < k.rank() {
                    right.lookup(k)
                } else {
                    Some(value)
                }
            },
        }
    }

    /// The slot reached by a search for `k`, or zero if none is.
    pub open spec fn locate(self, k: K) -> int
        decreases self,
    {
        match self {
            Tree::Nil => 0,
            Tree::Node { left, index, key, right, .. } => {
                if k.rank() < key.rank() {
                    left.locate(k)
                } else if key.rank() < k.rank() {
                    right.locate(k)
                } else {
                    index
                }
            },
        }
    }

    /// The key of the leftmost node.
    pub open spec fn min_key(self) -> K
        decreases self,
    {
        match self {
            Tree::Nil => arbitrary(),
            Tree::Node { left, key, .. } => {
                if *left is Nil {
                    key
                } else {
                    left.min_key()
                }
            },
        }
    }

    /// Every key ranks below `b`.
    pub open spec fn keys_below(self, b: int) -> bool
        decreases self,
    {
        match self {
            Tree::Nil => true,
            Tree::Node { left, key, right, .. } => key.rank() < b && left.keys_below(b)
                && right.keys_below(b),
        }
    }

    /// Every key ranks above `b`.
    pub open spec fn keys_above(self, b: int) -> bool
        decreases self,
    {
        match self {
            Tree::Nil => true,
            Tree::Node { left, key, right, .. } => b < key.rank() && left.keys_above(b)
                && right.keys_above(b),
        }
    }

    /// Search-tree order: left keys below a node's key, right keys above it.
    pub open spec fn is_bst(self) -> bool
        decreases self,
    {
        match self {
            Tree::Nil => true,
            Tree::Node { left, key, right, .. } => left.is_bst() && right.is_bst()
                && left.keys_below(key.rank()) && right.keys_above(key.rank()),
        }
    }

    /// The heights of two sibling subtrees differ by at most one.
    pub open spec fn is_avl(self) -> bool
        decreases self,
    {
        match self {
            Tree::Nil => true,
            Tree::Node { left, right, .. } => left.is_avl() && right.is_avl() && left.height()
                <= right.height() + 1 && right.height() <= left.height() + 1,
        }
    }

    /// No slot index occurs twice.
    pub open spec fn is_uniq(self) -> bool
        decreases self,
    {
        match self {
            Tree::Nil => true,
            Tree::Node { left, index, right, .. } => left.is_uniq() && right.is_uniq()
                && left.indices().disjoint(right.indices()) && !left.indices().contains(index)
                && !right.indices().contains(index),
        }
    }

    pub open spec fn valid(self) -> bool {
        self.is_bst() && self.is_avl() && self.is_uniq()
    }

    pub open spec fn left(self) -> Tree<K, V> {
        match self {
            Tree::Nil => Tree::Nil,
            Tree::Node { left, .. } => *left,
        }
    }

    pub open spec fn right(self) -> Tree<K, V> {
        match self {
            Tree::Nil => Tree::Nil,
            Tree::Node { right, .. } => *right,
        }
    }

    /// The contents as a map from key to value.
    pub open spec fn contents(self) -> Map<K, V> {
        Map::new(|k: K| self.lookup(k) is Some, |k: K| self.lookup(k)->Some_0)
    }
}

pub open spec fn node<K, V>(l: Tree<K, V>, i: int, k: K, v: V, r: Tree<K, V>) -> Tree<K, V> {
    Tree::Node { left: Box::new(l), index: i, key: k, value: v, right: Box::new(r) }
}

/// Right rotation: the left child becomes the root of the subtree.
pub open spec fn rotate_right<K, V>(t: Tree<K, V>) -> Tree<K, V> {
    match t {
        Tree::Node { left, index, key, value, right } => match *left {
            Tree::Node { left: a, index: li, key: lk, value: lv, right: b } => node(
                *a,
                li,
                lk,
                lv,
                node(*b, index, key, value, *right),
            ),
            Tree::Nil => t,
        },
        Tree::Nil => t,
    }
}

/// Left rotation: the right child becomes the root of the subtree.
pub open spec fn rotate_left<K, V>(t: Tree<K, V>) -> Tree<K, V> {
    match t {
        Tree::Node { left, index, key, value, right } => match *right {
            Tree::Node { left: b, index: ri, key: rk, value: rv, right: c } => node(
                node(*left, index, key, value, *b),
                ri,
                rk,
                rv,
                *c,
            ),
            Tree::Nil => t,
        },
        Tree::Nil => t,
    }
}

pub proof fn lemma_keys_below_weaken<K: Key, V>(t: Tree<K, V>, a: int, b: int)
    requires
        t.keys_below(a),
        a <= b,
    ensures
        t.keys_below(b),
    decreases t,
{
    if let Tree::Node { left, right, .. } = t {
        lemma_keys_below_weaken(*left, a, b);
        lemma_keys_below_weaken(*right, a, b);
    }
}

pub proof fn lemma_keys_above_weaken<K: Key, V>(t: Tree<K, V>, a: int, b: int)
    requires
        t.keys_above(a),
        b <= a,
    ensures
        t.keys_above(b),
    decreases t,
{
    if let Tree::Node { left, right, .. } = t {
        lemma_keys_above_weaken(*left, a, b);
        lemma_keys_above_weaken(*right, a, b);
    }
}

/// A key ranked at or above every bound of the tree is not found in it.
pub proof fn lemma_below_lookup_none<K: Key, V>(t: Tree<K, V>, b: int, k: K)
    requires
        t.keys_below(b),
        b <= k.rank(),
    ensures
        t.lookup(k) is None,
    decreases t,
{
    if let Tree::Node { left, right, .. } = t {
        lemma_below_lookup_none(*left, b, k);
        lemma_below_lookup_none(*right, b, k);
    }
}

pub proof fn lemma_above_lookup_none<K: Key, V>(t: Tree<K, V>, b: int, k: K)
    requires
        t.keys_above(b),
        k.rank() <= b,
    ensures
        t.lookup(k) is None,
    decreases t,
{
    if let Tree::Node { left, right, .. } = t {
        lemma_above_lookup_none(*left, b, k);
        lemma_above_lookup_none(*right, b, k);
    }
}

/// A key that is found in the tree is within every bound of it.
pub proof fn lemma_lookup_bounds<K: Key, V>(t: Tree<K, V>, k: K, b: int)
    requires
        t.lookup(k) is Some,
    ensures
        t.keys_below(b) ==> k.rank() < b,
        t.keys_above(b) ==> b < k.rank(),
    decreases t,
{
    if let Tree::Node { left, key, right, .. } = t {
        if k.rank() < key.rank() {
            lemma_lookup_bounds(*left, k, b);
        } else if key.rank() < k.rank() {
            lemma_lookup_bounds(*right, k, b);
        }
    }
}

pub proof fn lemma_height_le_count<K: Key, V>(t: Tree<K, V>)
    ensures
        t.height() <= t.count(),
    decreases t,
{
    if let Tree::Node { left, right, .. } = t {
        lemma_height_le_count(*left);
        lemma_height_le_count(*right);
    }
}

/// A right rotation keeps contents, order, indices, count and bounds.
pub proof fn lemma_rotate_right<K: Key, V>(t: Tree<K, V>)
    requires
        t is Node,
        t.left() is Node,
        t.left().is_bst(),
        t.right().is_bst(),
        t.left().keys_below(t->key.rank()),
        t.right().keys_above(t->key.rank()),
    ensures
        rotate_right(t).is_bst(),
        forall|k: K| #[trigger] rotate_right(t).lookup(k) == t.lookup(k),
        rotate_right(t).indices() =~= t.indices(),
        rotate_right(t).count() == t.count(),
        forall|b: int| #[trigger] rotate_right(t).keys_below(b) == t.keys_below(b),
        forall|b: int| #[trigger] rotate_right(t).keys_above(b) == t.keys_above(b),
{
    let l = t.left();
    let a = l.left();
    let b = l.right();
    let c = t.right();
    let x = l->key.rank();
    let y = t->key.rank();
    lemma_keys_above_weaken(c, y, x);
    assert(b.keys_below(y));
    let inner = node(b, t->index, t->key, t->value, c);
    assert(inner.is_bst());
    let rt = rotate_right(t);
    assert(rt == node(a, l->index, l->key, l->value, inner));
    assert(t == node(l, t->index, t->key, t->value, c));
    assert(l == node(a, l->index, l->key, l->value, b));
    assert(inner.indices() == b.indices().union(c.indices()).insert(t->index));
    assert(l.indices() == a.indices().union(b.indices()).insert(l->index));
    assert(inner.count() == 1 + b.count() + c.count());
    assert(l.count() == 1 + a.count() + b.count());
    assert forall|k: K| #[trigger] rotate_right(t).lookup(k) == t.lookup(k) by {
        assert(inner.lookup(k) == (if k.rank() < y {
            b.lookup(k)
        } else if y < k.rank() {
            c.lookup(k)
        } else {
            Some(t->value)
        }));
        assert(l.lookup(k) == (if k.rank() < x {
            a.lookup(k)
        } else if x < k.rank() {
            b.lookup(k)
        } else {
            Some(l->value)
        }));
    }
    assert forall|bd: int| #[trigger] rotate_right(t).keys_below(bd) == t.keys_below(bd) by {
        assert(inner.keys_below(bd) == (y < bd && b.keys_below(bd) && c.keys_below(bd)));
        assert(l.keys_below(bd) == (x < bd && a.keys_below(bd) && b.keys_below(bd)));
    }
    assert forall|bd: int| #[trigger] rotate_right(t).keys_above(bd) == t.keys_above(bd) by {
        assert(inner.keys_above(bd) == (bd < y && b.keys_above(bd) && c.keys_above(bd)));
        assert(l.keys_above(bd) == (bd < x && a.keys_above(bd) && b.keys_above(bd)));
    }
}

/// A left rotation keeps contents, order, indices, count and bounds.
pub proof fn lemma_rotate_left<K: Key, V>(t: Tree<K, V>)
    requires
        t is Node,
        t.right() is Node,
        t.left().is_bst(),
        t.right().is_bst(),
        t.left().keys_below(t->key.rank()),
        t.right().keys_above(t->key.rank()),
    ensures
        rotate_left(t).is_bst(),
        forall|k: K| #[trigger] rotate_left(t).lookup(k) == t.lookup(k),
        rotate_left(t).indices() =~= t.indices(),
        rotate_left(t).count() == t.count(),
        forall|b: int| #[trigger] rotate_left(t).keys_below(b) == t.keys_below(b),
        forall|b: int| #[trigger] rotate_left(t).keys_above(b) == t.keys_above(b),
{
    let r = t.right();
    let b = r.left();
    let c = r.right();
    let a = t.left();
    let x = t->key.rank();
    let y = r->key.rank();
    lemma_keys_below_weaken(a, x, y);
    assert(b.keys_above(x));
    let inner = node(a, t->index, t->key, t->value, b);
    assert(inner.is_bst());
    let rt = rotate_left(t);
    assert(rt == node(inner, r->index, r->key, r->value, c));
    assert(t == node(a, t->index, t->key, t->value, r));
    assert(r == node(b, r->index, r->key, r->value, c));
    assert(inner.indices() == a.indices().union(b.indices()).insert(t->index));
    assert(r.indices() == b.indices().union(c.indices()).insert(r->index));
    assert(inner.count() == 1 + a.count() + b.count());
    assert(r.count() == 1 + b.count() + c.count());
    assert forall|k: K| #[trigger] rotate_left(t).lookup(k) == t.lookup(k) by {
        assert(inner.lookup(k) == (if k.rank() < x {
            a.lookup(k)
        } else if x < k.rank() {
            b.lookup(k)
        } else {
            Some(t->value)
        }));
        assert(r.lookup(k) == (if k.rank() < y {
            b.lookup(k)
        } else if y < k.rank() {
            c.lookup(k)
        } else {
            Some(r->value)
        }));
    }
    assert forall|bd: int| #[trigger] rotate_left(t).keys_below(bd) == t.keys_below(bd) by {
        assert(inner.keys_below(bd) == (x < bd && a.keys_below(bd) && b.keys_below(bd)));
        assert(r.keys_below(bd) == (y < bd && b.keys_below(bd) && c.keys_below(bd)));
    }
    assert forall|bd: int| #[trigger] rotate_left(t).keys_above(bd) == t.keys_above(bd) by {
        assert(inner.keys_above(bd) == (bd < x && a.keys_above(bd) && b.keys_above(bd)));
        assert(r.keys_above(bd) == (bd < y && b.keys_above(bd) && c.keys_above(bd)));
    }
}

/// Rotations keep slot indices distinct.
pub proof fn lemma_rotate_uniq<K: Key, V>(t: Tree<K, V>)
    requires
        t.is_uniq(),
    ensures
        t.left() is Node ==> rotate_right(t).is_uniq(),
        t.right() is Node ==> rotate_left(t).is_uniq(),
{
    if let Tree::Node { left, index, key, value, right } = t {
        let l = *left;
        let r = *right;
        assert(t.indices() == l.indices().union(r.indices()).insert(index));
        if let Tree::Node { left: a, index: li, key: lk, value: lv, right: b } = l {
            assert(l.indices() == a.indices().union(b.indices()).insert(li));
            let inner = node(*b, index, key, value, r);
            assert(inner.indices() == b.indices().union(r.indices()).insert(index));
            assert(b.indices().disjoint(r.indices())) by {
                assert forall|j: int| b.indices().contains(j) implies !r.indices().contains(j) by {
                    assert(l.indices().contains(j));
                }
            }
            assert(l.is_uniq());
            assert(!b.indices().contains(index)) by {
                if b.indices().contains(index) {
                    assert(l.indices().contains(index));
                }
            }
            assert(inner.is_uniq());
            assert(a.indices().disjoint(inner.indices())) by {
                assert forall|j: int| a.indices().contains(j) implies !inner.indices().contains(j) by {
                    assert(l.indices().contains(j));
                    assert(!b.indices().contains(j));
                    assert(!r.indices().contains(j));
                    assert(j != index);
                }
            }
            assert(rotate_right(t) == node(*a, li, lk, lv, inner));
        }
        if let Tree::Node { left: b, index: ri, key: rk, value: rv, right: c } = r {
            assert(r.indices() == b.indices().union(c.indices()).insert(ri));
            let inner = node(l, index, key, value, *b);
            assert(inner.indices() == l.indices().union(b.indices()).insert(index));
            assert(l.indices().disjoint(b.indices())) by {
                assert forall|j: int| b.indices().contains(j) implies !l.indices().contains(j) by {
                    assert(r.indices().contains(j));
                }
            }
            assert(r.is_uniq());
            assert(!b.indices().contains(index)) by {
                if b.indices().contains(index) {
                    assert(r.indices().contains(index));
                }
            }
            assert(inner.is_uniq());
            assert(inner.indices().disjoint(c.indices())) by {
                assert forall|j: int| c.indices().contains(j) implies !inner.indices().contains(j) by {
                    assert(r.indices().contains(j));
                    assert(!b.indices().contains(j));
                    assert(!l.indices().contains(j));
                    assert(j != index);
                }
            }
            assert(rotate_left(t) == node(inner, ri, rk, rv, *c));
        }
    }
}

/// A single right rotation balances a subtree whose left side is two
/// higher and whose left child does not lean right.
pub proof fn lemma_balance_right_single<K: Key, V>(t: Tree<K, V>)
    requires
        t is Node,
        t.left() is Node,
        t.left().is_avl(),
        t.right().is_avl(),
        t.left().height() == t.right().height() + 2,
        t.left().left().height() >= t.left().right().height(),
    ensures
        rotate_right(t).is_avl(),
        t.left().height() <= rotate_right(t).height() <= t.left().height() + 1,
{
    let l = t.left();
    let a = l.left();
    let b = l.right();
    let c = t.right();
    assert(l == node(a, l->index, l->key, l->value, b));
    let inner = node(b, t->index, t->key, t->value, c);
    assert(rotate_right(t) == node(a, l->index, l->key, l->value, inner));
    assert(l.height() == 1 + max_nat(a.height(), b.height()));
    assert(inner.height() == 1 + max_nat(b.height(), c.height()));
    assert(inner.is_avl());
}

/// A right-then-left double rotation, written as a rotation of the left child
/// followed by a rotation at the root, balances a subtree whose left side is
/// two higher and whose left child leans right.
pub proof fn lemma_balance_right_double<K: Key, V>(t: Tree<K, V>)
    requires
        t is Node,
        t.left() is Node,
        t.left().is_avl(),
        t.right().is_avl(),
        t.left().height() == t.right().height() + 2,
        t.left().left().height() < t.left().right().height(),
    ensures
        rotate_right(node(rotate_left(t.left()), t->index, t->key, t->value, t.right())).is_avl(),
        rotate_right(node(rotate_left(t.left()), t->index, t->key, t->value, t.right())).height()
            == t.left().height(),
{
    let l = t.left();
    let a = l.left();
    let lr = l.right();
    let c = t.right();
    assert(l == node(a, l->index, l->key, l->value, lr));
    assert(lr is Node);
    let b1 = lr.left();
    let b2 = lr.right();
    assert(lr == node(b1, lr->index, lr->key, lr->value, b2));
    assert(lr.is_avl());
    let x = node(a, l->index, l->key, l->value, b1);
    assert(rotate_left(l) == node(x, lr->index, lr->key, lr->value, b2));
    let t2 = node(rotate_left(l), t->index, t->key, t->value, c);
    let y = node(b2, t->index, t->key, t->value, c);
    assert(rotate_right(t2) == node(x, lr->index, lr->key, lr->value, y));
    assert(l.height() == 1 + max_nat(a.height(), lr.height()));
    assert(lr.height() == 1 + max_nat(b1.height(), b2.height()));
    assert(x.height() == 1 + max_nat(a.height(), b1.height()));
    assert(y.height() == 1 + max_nat(b2.height(), c.height()));
    assert(x.is_avl());
    assert(y.is_avl());
}

/// Mirror of `lemma_balance_right_single`.
pub proof fn lemma_balance_left_single<K: Key, V>(t: Tree<K, V>)
    requires
        t is Node,
        t.right() is Node,
        t.left().is_avl(),
        t.right().is_avl(),
        t.right().height() == t.left().height() + 2,
        t.right().right().height() >= t.right().left().height(),
    ensures
        rotate_left(t).is_avl(),
        t.right().height() <= rotate_left(t).height() <= t.right().height() + 1,
{
    let r = t.right();
    let b = r.left();
    let c = r.right();
    let a = t.left();
    assert(r == node(b, r->index, r->key, r->value, c));
    let inner = node(a, t->index, t->key, t->value, b);
    assert(rotate_left(t) == node(inner, r->index, r->key, r->value, c));
    assert(r.height() == 1 + max_nat(b.height(), c.height()));
    assert(inner.height() == 1 + max_nat(a.height(), b.height()));
    assert(inner.is_avl());
}

/// Mirror of `lemma_balance_right_double`.
pub proof fn lemma_balance_left_double<K: Key, V>(t: Tree<K, V>)
    requires
        t is Node,
        t.right() is Node,
        t.left().is_avl(),
        t.right().is_avl(),
        t.right().height() == t.left().height() + 2,
        t.right().right().height() < t.right().left().height(),
    ensures
        rotate_left(node(t.left(), t->index, t->key, t->value, rotate_right(t.right()))).is_avl(),
        rotate_left(node(t.left(), t->index, t->key, t->value, rotate_right(t.right()))).height()
            == t.right().height(),
{
    let r = t.right();
    let rl = r.left();
    let c = r.right();
    let a = t.left();
    assert(r == node(rl, r->index, r->key, r->value, c));
    assert(rl is Node);
    let b1 = rl.left();
    let b2 = rl.right();
    assert(rl == node(b1, rl->index, rl->key, rl->value, b2));
    assert(rl.is_avl());
    let y = node(b2, r->index, r->key, r->value, c);
    assert(rotate_right(r) == node(b1, rl->index, rl->key, rl->value, y));
    let t2 = node(a, t->index, t->key, t->value, rotate_right(r));
    let x = node(a, t->index, t->key, t->value, b1);
    assert(rotate_left(t2) == node(x, rl->index, rl->key, rl->value, y));
    assert(r.height() == 1 + max_nat(rl.height(), c.height()));
    assert(rl.height() == 1 + max_nat(b1.height(), b2.height()));
    assert(x.height() == 1 + max_nat(a.height(), b1.height()));
    assert(y.height() == 1 + max_nat(b2.height(), c.height()));
    assert(x.is_avl());
    assert(y.is_avl());
}

/// The leftmost key is in the tree and ranks lowest of all its keys.
pub proof fn lemma_min_key<K: Key, V>(t: Tree<K, V>)
    requires
        t is Node,
        t.is_bst(),
    ensures
        t.lookup(t.min_key()) is Some,
        forall|k: K| #[trigger] t.lookup(k) is Some ==> t.min_key().rank() <= k.rank(),
    decreases t,
{
    let l = t.left();
    let key = t->key;
    if l is Nil {
        assert forall|k: K| #[trigger] t.lookup(k) is Some implies t.min_key().rank() <= k.rank() by {
            if k.rank() < key.rank() {
                assert(l.lookup(k) is None);
            }
        }
    } else {
        lemma_min_key(l);
        lemma_lookup_bounds(l, l.min_key(), key.rank());
        assert forall|k: K| #[trigger] t.lookup(k) is Some implies t.min_key().rank() <= k.rank() by {
            if k.rank() < key.rank() {
                assert(l.lookup(k) is Some);
            }
        }
    }
}

/// A search tree holds as many keys as nodes.
pub proof fn lemma_contents_size<K: Key, V>(t: Tree<K, V>)
    requires
        t.is_bst(),
    ensures
        t.contents().dom().finite(),
        t.contents().dom().len() == t.count(),
    decreases t,
{
    let d = t.contents().dom();
    assert(d =~= Set::new(|k: K| t.lookup(k) is Some));
    match t {
        Tree::Nil => {
            assert(d =~= Set::<K>::empty());
        },
        Tree::Node { left, key, right, .. } => {
            let l = *left;
            let r = *right;
            lemma_contents_size(l);
            lemma_contents_size(r);
            let dl = l.contents().dom();
            let dr = r.contents().dom();
            assert(dl =~= Set::new(|k: K| l.lookup(k) is Some));
            assert(dr =~= Set::new(|k: K| r.lookup(k) is Some));
            assert forall|k: K| dl.contains(k) implies k.rank() < key.rank() by {
                lemma_lookup_bounds(l, k, key.rank());
            }
            assert forall|k: K| dr.contains(k) implies key.rank() < k.rank() by {
                lemma_lookup_bounds(r, k, key.rank());
            }
            assert(dl.disjoint(dr)) by {
                assert forall|k: K| dl.contains(k) implies !dr.contains(k) by {
                    assert(k.rank() < key.rank());
                }
            }
            assert(d =~= (dl + dr).insert(key)) by {
                assert forall|k: K| d.contains(k) <==> (dl + dr).insert(key).contains(k) by {
                    if k.rank() == key.rank() {
                        K::lemma_rank_injective(k, key);
                        if dl.contains(k) {
                            assert(k.rank() < key.rank());
                        }
                        if dr.contains(k) {
                            assert(key.rank() < k.rank());
                        }
                    } else if k.rank() < key.rank() {
                        if dr.contains(k) {
                            assert(key.rank() < k.rank());
                        }
                    } else {
                        if dl.contains(k) {
                            assert(k.rank() < key.rank());
                        }
                    }
                }
            }
            lemma_set_disjoint_lens(dl, dr);
            assert(!(dl + dr).contains(key)) by {
                if dl.contains(key) {
                    assert(key.rank() < key.rank());
                }
                if dr.contains(key) {
                    assert(key.rank() < key.rank());
                }
            }
        },
    }
}

/// The tree with the value of the node in slot `j` replaced by `v`.
pub open spec fn with_value<K, V>(t: Tree<K, V>, j: int, v: V) -> Tree<K, V>
    decreases t,
{
    match t {
        Tree::Nil => Tree::Nil,
        Tree::Node { left, index, key, value, right } => node(
            with_value(*left, j, v),
            index,
            key,
            if index == j {
                v
            } else {
                value
            },
            with_value(*right, j, v),
        ),
    }
}

/// Replacing a value keeps the shape, keys, slots, order and balance.
pub proof fn lemma_with_value_shape<K: Key, V>(t: Tree<K, V>, j: int, v: V)
    ensures
        with_value(t, j, v).height() == t.height(),
        with_value(t, j, v).indices() == t.indices(),
        with_value(t, j, v).count() == t.count(),
        forall|b: int| #[trigger] with_value(t, j, v).keys_below(b) == t.keys_below(b),
        forall|b: int| #[trigger] with_value(t, j, v).keys_above(b) == t.keys_above(b),
        with_value(t, j, v).is_bst() == t.is_bst(),
        with_value(t, j, v).is_avl() == t.is_avl(),
        with_value(t, j, v).is_uniq() == t.is_uniq(),
    decreases t,
{
    if let Tree::Node { left, right, .. } = t {
        lemma_with_value_shape(*left, j, v);
        lemma_with_value_shape(*right, j, v);
        assert forall|b: int| #[trigger] with_value(t, j, v).keys_below(b) == t.keys_below(b) by {
            assert(with_value(*left, j, v).keys_below(b) == left.keys_below(b));
            assert(with_value(*right, j, v).keys_below(b) == right.keys_below(b));
        }
        assert forall|b: int| #[trigger] with_value(t, j, v).keys_above(b) == t.keys_above(b) by {
            assert(with_value(*left, j, v).keys_above(b) == left.keys_above(b));
            assert(with_value(*right, j, v).keys_above(b) == right.keys_above(b));
        }
    }
}

/// In a search tree with distinct slots, replacing the value of the node in
/// slot `j`, whose key is `k`, changes what a search for `k` finds and
/// nothing else.
pub proof fn lemma_with_value_lookup<K: Key, V>(t: Tree<K, V>, j: int, k: K, v: V, x: K)
    requires
        t.is_bst(),
        t.is_uniq(),
        t.indices().contains(j),
        t.key_at(j) == k,
    ensures
        with_value(t, j, v).lookup(x) == if x.rank() == k.rank() {
            Some(v)
        } else {
            t.lookup(x)
        },
    decreases t,
{
    if let Tree::Node { left, index, key, right, .. } = t {
        assert(t.indices() == left.indices().union(right.indices()).insert(index));
        if index == j {
            if x.rank() < key.rank() {
                lemma_with_value_absent(*left, j, v, x);
            } else if key.rank() < x.rank() {
                lemma_with_value_absent(*right, j, v, x);
            }
        } else if left.indices().contains(j) {
            lemma_key_at_bounds(*left, j, key.rank());
            if x.rank() < key.rank() {
                lemma_with_value_lookup(*left, j, k, v, x);
            } else if key.rank() < x.rank() {
                lemma_with_value_absent(*right, j, v, x);
            }
        } else {
            lemma_key_at_bounds(*right, j, key.rank());
            if x.rank() < key.rank() {
                lemma_with_value_absent(*left, j, v, x);
            } else if key.rank() < x.rank() {
                lemma_with_value_lookup(*right, j, k, v, x);
            }
        }
    }
}

/// Replacing the value of a slot that the tree does not hold changes nothing.
proof fn lemma_with_value_absent<K: Key, V>(t: Tree<K, V>, j: int, v: V, x: K)
    requires
        !t.indices().contains(j),
    ensures
        with_value(t, j, v) == t,
    decreases t,
{
    if let Tree::Node { left, index, right, .. } = t {
        assert(t.indices() == left.indices().union(right.indices()).insert(index));
        lemma_with_value_absent(*left, j, v, x);
        lemma_with_value_absent(*right, j, v, x);
    }
}

impl<K: Key, V> Tree<K, V> {
    /// The key of the node in slot `j`.
    pub open spec fn key_at(self, j: int) -> K
        decreases self,
    {
        match self {
            Tree::Nil => arbitrary(),
            Tree::Node { left, index, key, right, .. } => {
                if index == j {
                    key
                } else if left.indices().contains(j) {
                    left.key_at(j)
                } else {
                    right.key_at(j)
                }
            },
        }
    }
}

/// The key of a node of the tree is within every bound of the tree.
proof fn lemma_key_at_bounds<K: Key, V>(t: Tree<K, V>, j: int, b: int)
    requires
        t.indices().contains(j),
    ensures
        t.keys_below(b) ==> t.key_at(j).rank() < b,
        t.keys_above(b) ==> b < t.key_at(j).rank(),
    decreases t,
{
    if let Tree::Node { left, index, right, .. } = t {
        assert(t.indices() == left.indices().union(right.indices()).insert(index));
        if index != j {
            if left.indices().contains(j) {
                lemma_key_at_bounds(*left, j, b);
            } else {
                lemma_key_at_bounds(*right, j, b);
            }
        }
    }
}

/// A search that finds `k` reaches a slot of the tree holding a key that
/// ranks as `k` does.
pub proof fn lemma_locate_found<K: Key, V>(t: Tree<K, V>, k: K)
    requires
        t.is_uniq(),
        t.lookup(k) is Some,
    ensures
        t.indices().contains(t.locate(k)),
        t.key_at(t.locate(k)).rank() == k.rank(),
    decreases t,
{
    if let Tree::Node { left, index, key, right, .. } = t {
        assert(t.indices() == left.indices().union(right.indices()).insert(index));
        if k.rank() < key.rank() {
            lemma_locate_found(*left, k);
            assert(left.indices().contains(left.locate(k)));
        } else if key.rank() < k.rank() {
            lemma_locate_found(*right, k);
            assert(right.indices().contains(right.locate(k)));
            assert(!left.indices().contains(right.locate(k)));
        }
    }
}

/// In a search tree, the one slot holding a key that ranks as `k` does is
/// the slot a search for `k` reaches.
pub proof fn lemma_locate_unique<K: Key, V>(t: Tree<K, V>, j: int, k: K)
    requires
        t.is_bst(),
        t.is_uniq(),
        t.indices().contains(j),
        t.key_at(j).rank() == k.rank(),
    ensures
        t.locate(k) == j,
    decreases t,
{
    if let Tree::Node { left, index, key, right, .. } = t {
        assert(t.indices() == left.indices().union(right.indices()).insert(index));
        if index != j {
            if left.indices().contains(j) {
                lemma_key_at_bounds(*left, j, key.rank());
                lemma_locate_unique(*left, j, k);
            } else {
                lemma_key_at_bounds(*right, j, key.rank());
                lemma_locate_unique(*right, j, k);
            }
        }
    }
}

/// Replacing a value moves no key.
pub proof fn lemma_with_value_locate<K: Key, V>(t: Tree<K, V>, j: int, v: V, k: K)
    ensures
        with_value(t, j, v).locate(k) == t.locate(k),
    decreases t,
{
    if let Tree::Node { left, right, .. } = t {
        lemma_with_value_locate(*left, j, v, k);
        lemma_with_value_locate(*right, j, v, k);
    }
}

} // verus!
