//! A self-balancing search tree (AVL) over a flat array of nodes addressed by
//! one-byte indices, with an embedded slot allocator and free list.
use vstd::prelude::*;
use crate::record::{Key, Zeroed};
use crate::error::TranslationError;
use crate::tree_model::{
    Tree,
    node,
    max_nat,
    rotate_left,
    rotate_right,
    lemma_rotate_left,
    lemma_rotate_right,
    lemma_rotate_uniq,
    lemma_balance_right_single,
    lemma_balance_right_double,
    lemma_balance_left_single,
    lemma_balance_left_double,
    lemma_height_le_count,
    lemma_keys_below_weaken,
    lemma_keys_above_weaken,
    lemma_below_lookup_none,
    lemma_above_lookup_none,
    lemma_lookup_bounds,
    lemma_min_key,
    lemma_contents_size,
    with_value,
    lemma_with_value_shape,
    lemma_with_value_lookup,
    lemma_with_value_locate,
    lemma_locate_found,
    lemma_locate_unique,
};

verus! {

/// The index that stands for "no node".
pub const SENTINEL: u8 = 0;

/// The largest capacity a one-byte index can address: the sequence counter
/// runs one past the last slot and must still fit in a byte.
pub const MAX_CAPACITY: u8 = 254;

/// The fields of the allocator header.
pub enum Field {
    Root,
    Size,
    Capacity,
    FreeListHead,
    Sequence,
}

/// The header of a tree: the root, the number of live nodes, the number of
/// slots, the first free slot and one past the highest slot ever handed out.
#[derive(Clone, Copy)]
pub struct U8Allocator {
    root: u8,
    size: u8,
    capacity: u8,
    free_list_head: u8,
    sequence: u8,
}

impl U8Allocator {
    pub closed spec fn field(&self, f: Field) -> u8 {
        match f {
            Field::Root => self.root,
            Field::Size => self.size,
            Field::Capacity => self.capacity,
            Field::FreeListHead => self.free_list_head,
            Field::Sequence => self.sequence,
        }
    }

    /// A header with every field zero, as found in a zeroed buffer.
    pub fn zeroed() -> (r: Self)
        ensures
            forall|f: Field| #[trigger] r.field(f) == 0,
    {
        U8Allocator { root: 0, size: 0, capacity: 0, free_list_head: 0, sequence: 0 }
    }

    /// Sets up an empty tree of `capacity` slots.
    pub fn initialize(&mut self, capacity: u8)
        ensures
            final(self).field(Field::Root) == SENTINEL,
            final(self).field(Field::Size) == 0,
            final(self).field(Field::Capacity) == capacity,
            final(self).field(Field::FreeListHead) == 1,
            final(self).field(Field::Sequence) == 1,
    {
        self.root = SENTINEL;
        self.size = 0;
        self.capacity = capacity;
        self.free_list_head = 1;
        self.sequence = 1;
    }

    pub fn get_field(&self, field: Field) -> (r: u8)
        ensures
            r == self.field(field),
    {
        match field {
            Field::Root => self.root,
            Field::Size => self.size,
            Field::Capacity => self.capacity,
            Field::FreeListHead => self.free_list_head,
            Field::Sequence => self.sequence,
        }
    }

    pub fn set_field(&mut self, field: Field, value: u8)
        ensures
            final(self).field(field) == value,
            forall|f: Field| f != field ==> #[trigger] final(self).field(f) == old(self).field(f),
    {
        match field {
            Field::Root => self.root = value,
            Field::Size => self.size = value,
            Field::Capacity => self.capacity = value,
            Field::FreeListHead => self.free_list_head = value,
            Field::Sequence => self.sequence = value,
        }
    }
}

/// A node slot: child indices, the cached height of its subtree (a leaf has
/// zero), and the payload. While the slot is free, `height` holds the index
/// of the next free slot.
#[derive(Clone, Copy)]
pub struct U8Node<K, V> {
    left: u8,
    right: u8,
    height: u8,
    key: K,
    value: V,
}

impl<K, V> U8Node<K, V> {
    pub closed spec fn spec_left(&self) -> u8 {
        self.left
    }

    pub closed spec fn spec_right(&self) -> u8 {
        self.right
    }

    /// The cached height, or the next free slot while the slot is free.
    pub closed spec fn spec_height(&self) -> u8 {
        self.height
    }

    pub closed spec fn spec_key(&self) -> K {
        self.key
    }

    pub closed spec fn spec_value(&self) -> V {
        self.value
    }

    /// The slot with its value replaced by `v`.
    pub closed spec fn set_value(self, v: V) -> Self {
        U8Node { value: v, ..self }
    }
}

impl<K: Zeroed, V: Zeroed> U8Node<K, V> {
    /// The slot links to no child and has a cached height (or next free
    /// slot) of zero.
    pub closed spec fn is_blank(&self) -> bool {
        self.left == SENTINEL && self.right == SENTINEL && self.height == 0
    }

    /// A slot with every field zero.
    pub fn zeroed() -> (r: Self)
        ensures
            r.is_blank(),
    {
        U8Node { left: 0, right: 0, height: 0, key: K::zeroed(), value: V::zeroed() }
    }
}

/// The subtree rooted at slot `i` of `nodes` is `t`, with correct cached heights.
pub closed spec fn realizes<K: Key, V>(nodes: Seq<U8Node<K, V>>, i: int, t: Tree<K, V>) -> bool
    decreases t,
{
    match t {
        Tree::Nil => i == 0,
        Tree::Node { left, index, key, value, right } => {
            &&& i == index
            &&& 1 <= i <= nodes.len()
            &&& nodes[i - 1].key == key
            &&& nodes[i - 1].value == value
            &&& nodes[i - 1].height as int == t.height() - 1
            &&& realizes(nodes, nodes[i - 1].left as int, *left)
            &&& realizes(nodes, nodes[i - 1].right as int, *right)
        },
    }
}

/// Slot `i` holds the key and value of `t`'s root and its children are `t`'s
/// subtrees; its own cached height may be stale.
pub closed spec fn links<K: Key, V>(nodes: Seq<U8Node<K, V>>, i: int, t: Tree<K, V>) -> bool {
    &&& t is Node
    &&& t->index == i
    &&& 1 <= i <= nodes.len()
    &&& nodes[i - 1].key == t->key
    &&& nodes[i - 1].value == t->value
    &&& realizes(nodes, nodes[i - 1].left as int, t.left())
    &&& realizes(nodes, nodes[i - 1].right as int, t.right())
}

/// `b` holds the same key and value as `a` in every slot.
pub closed spec fn keys_kept<K, V>(a: Seq<U8Node<K, V>>, b: Seq<U8Node<K, V>>) -> bool {
    &&& a.len() == b.len()
    &&& forall|j: int| #![trigger b[j]] 0 <= j < a.len() ==> b[j].key == a[j].key && b[j].value == a[j].value
}

proof fn lemma_keys_kept_trans<K, V>(a: Seq<U8Node<K, V>>, b: Seq<U8Node<K, V>>, c: Seq<U8Node<K, V>>)
    requires
        keys_kept(a, b),
        keys_kept(b, c),
    ensures
        keys_kept(a, c),
{
    assert forall|j: int| #![trigger c[j]] 0 <= j < a.len() implies c[j].key == a[j].key && c[j].value == a[j].value by {
        assert(b[j].key == a[j].key && b[j].value == a[j].value);
        assert(c[j].key == b[j].key && c[j].value == b[j].value);
    }
}

/// `b` agrees with `a` on every slot outside `s`.
pub closed spec fn same_outside<K, V>(a: Seq<U8Node<K, V>>, b: Seq<U8Node<K, V>>, s: Set<int>) -> bool {
    &&& a.len() == b.len()
    &&& forall|j: int| 1 <= j <= a.len() && !s.contains(j) ==> #[trigger] b[j - 1] == a[j - 1]
}

proof fn lemma_same_outside_trans<K, V>(
    a: Seq<U8Node<K, V>>,
    b: Seq<U8Node<K, V>>,
    c: Seq<U8Node<K, V>>,
    s1: Set<int>,
    s2: Set<int>,
    s: Set<int>,
)
    requires
        same_outside(a, b, s1),
        same_outside(b, c, s2),
        s1.subset_of(s),
        s2.subset_of(s),
    ensures
        same_outside(a, c, s),
{
    assert forall|j: int| 1 <= j <= a.len() && !s.contains(j) implies #[trigger] c[j - 1] == a[j - 1] by {
        assert(!s1.contains(j) && !s2.contains(j));
        assert(b[j - 1] == a[j - 1]);
    }
}

proof fn lemma_realizes_links<K: Key, V>(nodes: Seq<U8Node<K, V>>, i: int, t: Tree<K, V>)
    requires
        realizes(nodes, i, t),
        t is Node,
    ensures
        links(nodes, i, t),
{
}

proof fn lemma_realizes_range<K: Key, V>(nodes: Seq<U8Node<K, V>>, i: int, t: Tree<K, V>)
    requires
        realizes(nodes, i, t),
    ensures
        forall|j: int| #[trigger] t.indices().contains(j) ==> 1 <= j <= nodes.len(),
        t is Node ==> i == t->index,
    decreases t,
{
    if let Tree::Node { left, right, index, .. } = t {
        lemma_realizes_range(nodes, nodes[i - 1].left as int, *left);
        lemma_realizes_range(nodes, nodes[i - 1].right as int, *right);
        assert(t.indices() == left.indices().union(right.indices()).insert(index));
    }
}

/// Realization depends only on the slots of the tree.
proof fn lemma_realizes_frame<K: Key, V>(
    a: Seq<U8Node<K, V>>,
    b: Seq<U8Node<K, V>>,
    i: int,
    t: Tree<K, V>,
)
    requires
        realizes(a, i, t),
        a.len() == b.len(),
        forall|j: int| #[trigger] t.indices().contains(j) ==> b[j - 1] == a[j - 1],
    ensures
        realizes(b, i, t),
    decreases t,
{
    lemma_realizes_range(a, i, t);
    if let Tree::Node { left, right, index, .. } = t {
        assert(t.indices() == left.indices().union(right.indices()).insert(index));
        assert forall|j: int| #[trigger] left.indices().contains(j) implies b[j - 1] == a[j - 1] by {
            assert(t.indices().contains(j));
        }
        assert forall|j: int| #[trigger] right.indices().contains(j) implies b[j - 1] == a[j - 1] by {
            assert(t.indices().contains(j));
        }
        assert(t.indices().contains(i));
        lemma_realizes_frame(a, b, a[i - 1].left as int, *left);
        lemma_realizes_frame(a, b, a[i - 1].right as int, *right);
    }
}

/// One slot index realizes at most one tree.
proof fn lemma_realizes_unique<K: Key, V>(
    nodes: Seq<U8Node<K, V>>,
    i: int,
    t1: Tree<K, V>,
    t2: Tree<K, V>,
)
    requires
        realizes(nodes, i, t1),
        realizes(nodes, i, t2),
    ensures
        t1 == t2,
    decreases t1,
{
    match t1 {
        Tree::Nil => {},
        Tree::Node { left, right, .. } => {
            lemma_realizes_unique(nodes, nodes[i - 1].left as int, *left, t2.left());
            lemma_realizes_unique(nodes, nodes[i - 1].right as int, *right, t2.right());
        },
    }
}

proof fn lemma_same_outside_frame<K: Key, V>(
    a: Seq<U8Node<K, V>>,
    b: Seq<U8Node<K, V>>,
    s: Set<int>,
    i: int,
    t: Tree<K, V>,
)
    requires
        realizes(a, i, t),
        same_outside(a, b, s),
        t.indices().disjoint(s),
    ensures
        realizes(b, i, t),
{
    lemma_realizes_range(a, i, t);
    assert forall|j: int| #[trigger] t.indices().contains(j) implies b[j - 1] == a[j - 1] by {
        assert(!s.contains(j));
    }
    lemma_realizes_frame(a, b, i, t);
}

/// The free list: `fl` lists distinct free slots below `seq` in order from
/// `head`, each linking to the next through its `height`, the last to `seq`.
pub closed spec fn free_list<K, V>(nodes: Seq<U8Node<K, V>>, head: int, seq: int, fl: Seq<int>) -> bool {
    &&& fl.no_duplicates()
    &&& forall|k: int| 0 <= k < fl.len() ==> 1 <= #[trigger] fl[k] < seq
    &&& head == if fl.len() == 0 {
        seq
    } else {
        fl[0]
    }
    &&& forall|k: int|
        0 <= k < fl.len() ==> nodes[#[trigger] fl[k] - 1].height as int == if k + 1 < fl.len() {
            fl[k + 1]
        } else {
            seq
        }
}

/// The full invariant of a tree over header `a` and slots `nodes`, with model
/// `t` and free list `fl`.
pub closed spec fn inv<K: Key, V>(
    a: U8Allocator,
    nodes: Seq<U8Node<K, V>>,
    t: Tree<K, V>,
    fl: Seq<int>,
) -> bool {
    &&& a.capacity <= MAX_CAPACITY
    &&& a.capacity <= nodes.len()
    &&& 1 <= a.sequence <= a.capacity + 1
    &&& realizes(nodes, a.root as int, t)
    &&& t.valid()
    &&& forall|j: int| #[trigger] t.indices().contains(j) ==> 1 <= j < a.sequence
    &&& a.size == t.count()
    &&& free_list(nodes, a.free_list_head as int, a.sequence as int, fl)
    &&& forall|k: int| 0 <= k < fl.len() ==> !t.indices().contains(#[trigger] fl[k])
    &&& fl.len() + t.count() == a.sequence - 1
}

/// Header `a` and slots `nodes` hold the well-formed tree `t`.
pub closed spec fn holds_tree<K: Key, V>(a: U8Allocator, nodes: Seq<U8Node<K, V>>, t: Tree<K, V>) -> bool {
    exists|fl: Seq<int>| inv(a, nodes, t, fl)
}

/// Header `a` and slots `nodes` hold a well-formed tree.
pub closed spec fn parts_wf<K: Key, V>(a: U8Allocator, nodes: Seq<U8Node<K, V>>) -> bool {
    exists|t: Tree<K, V>| holds_tree(a, nodes, t)
}

/// The tree that header `a` and slots `nodes` hold.
pub closed spec fn parts_tree<K: Key, V>(a: U8Allocator, nodes: Seq<U8Node<K, V>>) -> Tree<K, V> {
    choose|t: Tree<K, V>| holds_tree(a, nodes, t)
}

/// The contents, key to value, of the tree that `a` and `nodes` hold.
pub closed spec fn parts_view<K: Key, V>(a: U8Allocator, nodes: Seq<U8Node<K, V>>) -> Map<K, V> {
    parts_tree(a, nodes).contents()
}

/// The key that the model gives a slot is the key stored there.
proof fn lemma_key_at_realizes<K: Key, V>(nodes: Seq<U8Node<K, V>>, i: int, t: Tree<K, V>, j: int)
    requires
        realizes(nodes, i, t),
        t.indices().contains(j),
    ensures
        t.key_at(j) == nodes[j - 1].key,
    decreases t,
{
    if let Tree::Node { left, index, right, .. } = t {
        assert(t.indices() == left.indices().union(right.indices()).insert(index));
        if index != j {
            if left.indices().contains(j) {
                lemma_key_at_realizes(nodes, nodes[i - 1].left as int, *left, j);
            } else {
                lemma_key_at_realizes(nodes, nodes[i - 1].right as int, *right, j);
            }
        }
    }
}

/// Storing `v` as the value of slot `j` realizes the model with that value
/// replaced.
proof fn lemma_realizes_with_value<K: Key, V>(nodes: Seq<U8Node<K, V>>, i: int, t: Tree<K, V>, j: int, v: V)
    requires
        realizes(nodes, i, t),
        1 <= j <= nodes.len(),
    ensures
        realizes(nodes.update(j - 1, U8Node { value: v, ..nodes[j - 1] }), i, with_value(t, j, v)),
    decreases t,
{
    lemma_with_value_shape(t, j, v);
    if let Tree::Node { left, right, .. } = t {
        lemma_realizes_with_value(nodes, nodes[i - 1].left as int, *left, j, v);
        lemma_realizes_with_value(nodes, nodes[i - 1].right as int, *right, j, v);
    }
}

/// In a well-formed tree, a key keeps its slot when the slot still holds
/// it after a change: its key is kept and it is still in the tree.
proof fn lemma_slot_kept<K: Key, V>(
    n0: Seq<U8Node<K, V>>,
    r0: int,
    t0: Tree<K, V>,
    n1: Seq<U8Node<K, V>>,
    r1: int,
    t1: Tree<K, V>,
    k: K,
)
    requires
        realizes(n0, r0, t0),
        realizes(n1, r1, t1),
        t0.is_uniq(),
        t1.valid(),
        t0.lookup(k) is Some,
        t1.indices().contains(t0.locate(k)),
        n1[t0.locate(k) - 1].key == n0[t0.locate(k) - 1].key,
    ensures
        t1.locate(k) == t0.locate(k),
{
    lemma_locate_found(t0, k);
    let i = t0.locate(k);
    lemma_key_at_realizes(n0, r0, t0, i);
    lemma_key_at_realizes(n1, r1, t1, i);
    lemma_locate_unique(t1, i, k);
}

proof fn lemma_parts_tree<K: Key, V>(
    a: U8Allocator,
    nodes: Seq<U8Node<K, V>>,
    t: Tree<K, V>,
    fl: Seq<int>,
)
    requires
        inv(a, nodes, t, fl),
    ensures
        parts_wf(a, nodes),
        parts_tree(a, nodes) == t,
        parts_view(a, nodes) == t.contents(),
{
    assert(holds_tree(a, nodes, t));
    let t2 = parts_tree(a, nodes);
    let fl2 = choose|fl2: Seq<int>| inv(a, nodes, t2, fl2);
    lemma_realizes_unique(nodes, a.root as int, t, t2);
}

/// A tree over a header and an array of node slots that it owns. Insertion
/// and removal keep it ordered by key and balanced.
pub struct U8AVLTreeMut<K, V> {
    allocator: U8Allocator,
    nodes: Vec<U8Node<K, V>>,
}

impl<K: Key, W: Zeroed> View for U8AVLTreeMut<K, W> {
    type V = Map<K, W>;

    closed spec fn view(&self) -> Map<K, W> {
        parts_view(self.allocator, self.nodes@)
    }
}

/// Searches the tree rooted at `root` for `key`, returning the slot that holds it.
fn find_in<K: Key, V>(root: u8, nodes: &[U8Node<K, V>], key: &K, Ghost(t): Ghost<Tree<K, V>>) -> (r:
    Option<u8>)
    requires
        realizes(nodes@, root as int, t),
    ensures
        (r is Some) == (t.lookup(*key) is Some),
        r matches Some(j) ==> 1 <= j <= nodes@.len() && nodes@[j - 1].value == t.lookup(
            *key,
        )->Some_0 && nodes@[j - 1].key.rank() == key.rank() && t.indices().contains(j as int),
{
    let mut cur = root;
    let ghost mut sub = t;
    while cur != SENTINEL
        invariant
            realizes(nodes@, cur as int, sub),
            sub.lookup(*key) == t.lookup(*key),
            sub.indices().subset_of(t.indices()),
        decreases sub.count(),
    {
        proof {
            lemma_realizes_range(nodes@, cur as int, sub);
            assert(sub.indices() == sub.left().indices().union(sub.right().indices()).insert(cur as int));
        }
        let idx = (cur - 1) as usize;
        let current = nodes[idx].key;
        if key.less_than(&current) {
            cur = nodes[idx].left;
            proof {
                sub = sub.left();
            }
        } else if current.less_than(key) {
            cur = nodes[idx].right;
            proof {
                sub = sub.right();
            }
        } else {
            return Some(cur);
        }
    }
    None
}

/// The lowest key of the tree rooted at `root`, found by following left children.
fn lowest_in<K: Key, V>(root: u8, nodes: &[U8Node<K, V>], Ghost(t): Ghost<Tree<K, V>>) -> (r: Option<K>)
    requires
        realizes(nodes@, root as int, t),
        t.is_bst(),
    ensures
        (r is None) == (t is Nil),
        r matches Some(k) ==> t.lookup(k) is Some && forall|k2: K| #[trigger]
            t.lookup(k2) is Some ==> k.rank() <= k2.rank(),
{
    if root == SENTINEL {
        return None;
    }
    proof {
        lemma_min_key(t);
    }
    let mut cur = root;
    let ghost mut sub = t;
    while nodes[(cur - 1) as usize].left != SENTINEL
        invariant
            realizes(nodes@, cur as int, sub),
            sub is Node,
            sub.is_bst(),
            sub.min_key() == t.min_key(),
        decreases sub.count(),
    {
        proof {
            lemma_realizes_links(nodes@, cur as int, sub);
            assert(sub.left() is Node);
        }
        cur = nodes[(cur - 1) as usize].left;
        proof {
            sub = sub.left();
        }
    }
    proof {
        lemma_realizes_links(nodes@, cur as int, sub);
        assert(sub.left() is Nil);
    }
    Some(nodes[(cur - 1) as usize].key)
}

/// A read-only tree over a header and an array of node slots that it borrows.
pub struct U8AVLTree<'a, K, V> {
    allocator: &'a U8Allocator,
    nodes: &'a [U8Node<K, V>],
}

impl<'a, K: Key, W> View for U8AVLTree<'a, K, W> {
    type V = Map<K, W>;

    closed spec fn view(&self) -> Map<K, W> {
        parts_view(*self.allocator, self.nodes@)
    }
}

impl<'a, K: Key, V: Zeroed> U8AVLTree<'a, K, V> {
    pub closed spec fn wf(&self) -> bool {
        parts_wf(*self.allocator, self.nodes@)
    }

    pub closed spec fn spec_len(&self) -> nat {
        self.allocator.size as nat
    }

    pub closed spec fn spec_capacity(&self) -> nat {
        self.allocator.capacity as nat
    }

    /// Views the tree held by `allocator` and `nodes` as they are: slots
    /// beyond the recorded capacity are left out of use. Fails if there are
    /// fewer slots than the recorded capacity.
    pub fn from_parts(allocator: &'a U8Allocator, nodes: &'a [U8Node<K, V>]) -> (r: Result<Self, TranslationError>)
        ensures
            (r is Err) == (nodes@.len() < allocator.field(Field::Capacity)),
            r matches Err(e) ==> e == TranslationError::InvalidLength,
            r matches Ok(tree) ==> {
                &&& tree.wf() == parts_wf(*allocator, nodes@)
                &&& tree@ == parts_view(*allocator, nodes@)
                &&& tree.spec_len() == allocator.field(Field::Size)
                &&& tree.spec_capacity() == allocator.field(Field::Capacity)
            },
    {
        if nodes.len() < allocator.capacity as usize {
            return Err(TranslationError::InvalidLength);
        }
        Ok(U8AVLTree { allocator, nodes })
    }

    /// The number of nodes in the tree.
    pub fn len(&self) -> (r: usize)
        ensures
            r == self.spec_len(),
    {
        self.allocator.get_field(Field::Size) as usize
    }

    /// The number of slots the tree may use.
    pub fn capacity(&self) -> (r: usize)
        ensures
            r == self.spec_capacity(),
    {
        self.allocator.get_field(Field::Capacity) as usize
    }

    pub fn is_full(&self) -> (r: bool)
        ensures
            r == (self.spec_len() >= self.spec_capacity()),
    {
        self.allocator.get_field(Field::Size) >= self.allocator.get_field(Field::Capacity)
    }

    pub fn is_empty(&self) -> (r: bool)
        ensures
            r == (self.spec_len() == 0),
    {
        self.allocator.get_field(Field::Size) == 0
    }

    /// Whether `key` is in the tree.
    pub fn contains(&self, key: &K) -> (r: bool)
        requires
            self.wf(),
        ensures
            r == self@.contains_key(*key),
    {
        let ghost t = parts_tree(*self.allocator, self.nodes@);
        proof {
            let fl = choose|fl: Seq<int>| inv(*self.allocator, self.nodes@, t, fl);
            lemma_parts_tree(*self.allocator, self.nodes@, t, fl);
        }
        find_in(self.allocator.root, self.nodes, key, Ghost(t)).is_some()
    }

    /// The value stored under `key`, if any.
    pub fn get(&self, key: &K) -> (r: Option<V>)
        requires
            self.wf(),
        ensures
            r == if self@.contains_key(*key) {
                Some(self@[*key])
            } else {
                None
            },
    {
        let ghost t = parts_tree(*self.allocator, self.nodes@);
        proof {
            let fl = choose|fl: Seq<int>| inv(*self.allocator, self.nodes@, t, fl);
            lemma_parts_tree(*self.allocator, self.nodes@, t, fl);
        }
        match find_in(self.allocator.root, self.nodes, key, Ghost(t)) {
            Some(j) => Some(self.nodes[(j - 1) as usize].value),
            None => None,
        }
    }

    /// The lowest key in the tree, if any.
    pub fn lowest(&self) -> (r: Option<K>)
        requires
            self.wf(),
        ensures
            r is None ==> forall|k: K| !#[trigger] self@.contains_key(k),
            r matches Some(k) ==> self@.contains_key(k) && forall|k2: K| #[trigger]
                self@.contains_key(k2) ==> k.rank() <= k2.rank(),
    {
        let ghost t = parts_tree(*self.allocator, self.nodes@);
        proof {
            let fl = choose|fl: Seq<int>| inv(*self.allocator, self.nodes@, t, fl);
            lemma_parts_tree(*self.allocator, self.nodes@, t, fl);
        }
        lowest_in(self.allocator.root, self.nodes, Ghost(t))
    }
}

impl<K: Key, V: Zeroed> U8AVLTreeMut<K, V> {
    pub closed spec fn wf(&self) -> bool {
        parts_wf(self.allocator, self.nodes@)
    }

    pub closed spec fn spec_len(&self) -> nat {
        self.allocator.size as nat
    }

    pub closed spec fn spec_capacity(&self) -> nat {
        self.allocator.capacity as nat
    }

    /// The header.
    pub closed spec fn header(&self) -> U8Allocator {
        self.allocator
    }

    /// The slot that holds `k`, if the tree holds it.
    pub closed spec fn slot_of(&self, k: K) -> int {
        self.model().locate(k)
    }

    /// The node slots.
    pub closed spec fn slots(&self) -> Seq<U8Node<K, V>> {
        self.nodes@
    }

    /// What callers observe: the contents, the length and the capacity.
    pub open spec fn state(&self) -> (Map<K, V>, nat, nat) {
        (self@, self.spec_len(), self.spec_capacity())
    }

    /// The tree of nodes that the slots hold.
    pub closed spec fn model(&self) -> Tree<K, V> {
        parts_tree(self.allocator, self.nodes@)
    }

    /// The number of node slots the tree is laid over.
    pub closed spec fn spec_slots(&self) -> nat {
        self.nodes@.len()
    }

    fn set_left(&mut self, i: u8, c: u8)
        requires
            1 <= i <= old(self).nodes@.len(),
        ensures
            final(self).allocator == old(self).allocator,
            final(self).nodes@ == old(self).nodes@.update(
                i - 1,
                U8Node { left: c, ..old(self).nodes@[i - 1] },
            ),
    {
        let idx = (i - 1) as usize;
        let mut n = self.nodes[idx];
        n.left = c;
        self.nodes.set(idx, n);
    }

    fn set_right(&mut self, i: u8, c: u8)
        requires
            1 <= i <= old(self).nodes@.len(),
        ensures
            final(self).allocator == old(self).allocator,
            final(self).nodes@ == old(self).nodes@.update(
                i - 1,
                U8Node { right: c, ..old(self).nodes@[i - 1] },
            ),
    {
        let idx = (i - 1) as usize;
        let mut n = self.nodes[idx];
        n.right = c;
        self.nodes.set(idx, n);
    }

    /// The height of the subtree at `i`: zero for the sentinel, else one
    /// more than the cached value.
    fn height_of(&self, i: u8, Ghost(t): Ghost<Tree<K, V>>) -> (h: u8)
        requires
            realizes(self.nodes@, i as int, t),
            t.height() <= 255,
        ensures
            h == t.height(),
    {
        if i == SENTINEL {
            0
        } else {
            self.nodes[(i - 1) as usize].height + 1
        }
    }

    /// The balance factor of a node with children `left` and `right`: the
    /// height of the left subtree minus that of the right.
    fn balance_factor(&self, left: u8, right: u8, Ghost(l): Ghost<Tree<K, V>>, Ghost(r): Ghost<Tree<K, V>>) -> (b: i16)
        requires
            realizes(self.nodes@, left as int, l),
            realizes(self.nodes@, right as int, r),
            l.height() <= 255,
            r.height() <= 255,
        ensures
            b == l.height() - r.height(),
    {
        let left_height = self.height_of(left, Ghost(l)) as i16;
        let right_height = self.height_of(right, Ghost(r)) as i16;
        left_height - right_height
    }

    /// Recomputes the cached height of slot `i` from its children.
    fn update_height(&mut self, i: u8, Ghost(t): Ghost<Tree<K, V>>)
        requires
            links(old(self).nodes@, i as int, t),
            t.is_uniq(),
            t.height() <= 255,
        ensures
            keys_kept(old(self).nodes@, final(self).nodes@),
            final(self).allocator == old(self).allocator,
            realizes(final(self).nodes@, i as int, t),
            same_outside(old(self).nodes@, final(self).nodes@, set![i as int]),
    {
        let ghost old_nodes = self.nodes@;
        let idx = (i - 1) as usize;
        let left = self.nodes[idx].left;
        let right = self.nodes[idx].right;
        let hl = self.height_of(left, Ghost(t.left()));
        let hr = self.height_of(right, Ghost(t.right()));
        let h = if hl >= hr {
            hl
        } else {
            hr
        };
        let mut n = self.nodes[idx];
        n.height = h;
        self.nodes.set(idx, n);
        proof {
            assert(t.indices() == t.left().indices().union(t.right().indices()).insert(i as int));
            lemma_same_outside_frame(old_nodes, self.nodes@, set![i as int], left as int, t.left());
            lemma_same_outside_frame(old_nodes, self.nodes@, set![i as int], right as int, t.right());
        }
    }

    /// Right rotation at `i`: the left child becomes the subtree root, taking
    /// `i` as its right child; `i` takes the child's former right subtree.
    fn right_rotate(&mut self, i: u8, Ghost(t): Ghost<Tree<K, V>>) -> (res: u8)
        requires
            links(old(self).nodes@, i as int, t),
            t.left() is Node,
            t.is_uniq(),
            t.count() <= 254,
        ensures
            keys_kept(old(self).nodes@, final(self).nodes@),
            final(self).allocator == old(self).allocator,
            realizes(final(self).nodes@, res as int, rotate_right(t)),
            same_outside(old(self).nodes@, final(self).nodes@, t.indices()),
    {
        let ghost n0 = self.nodes@;
        let ghost l = t.left();
        let ghost a = l.left();
        let ghost b = l.right();
        let ghost c = t.right();
        let ghost inner = node(b, i as int, t->key, t->value, c);
        proof {
            lemma_realizes_range(n0, n0[i - 1].left as int, l);
            assert(t.indices() == l.indices().union(c.indices()).insert(i as int));
            assert(l.indices() == a.indices().union(b.indices()).insert(l->index));
            assert(inner.indices() == b.indices().union(c.indices()).insert(i as int));
            lemma_height_le_count(t);
            lemma_rotate_uniq(t);
            assert(rotate_right(t) == node(a, l->index, l->key, l->value, inner));
        }
        let li = self.nodes[(i - 1) as usize].left;
        let lr = self.nodes[(li - 1) as usize].right;
        self.set_left(i, lr);
        let ghost n1 = self.nodes@;
        proof {
            assert(same_outside(n0, n1, set![i as int]));
            lemma_same_outside_frame(n0, n1, set![i as int], lr as int, b);
            lemma_same_outside_frame(n0, n1, set![i as int], n0[i - 1].right as int, c);
        }
        self.update_height(i, Ghost(inner));
        let ghost n2 = self.nodes@;
        self.set_right(li, i);
        let ghost n3 = self.nodes@;
        proof {
            lemma_same_outside_trans(n0, n1, n2, set![i as int], set![i as int], set![i as int]);
            assert(same_outside(n2, n3, set![li as int]));
            lemma_same_outside_frame(n0, n2, set![i as int], n0[li - 1].left as int, a);
            lemma_same_outside_frame(n2, n3, set![li as int], n0[li - 1].left as int, a);
            lemma_same_outside_frame(n2, n3, set![li as int], i as int, inner);
        }
        self.update_height(li, Ghost(rotate_right(t)));
        proof {
            lemma_same_outside_trans(n0, n2, n3, set![i as int], set![li as int], t.indices());
            lemma_same_outside_trans(n0, n3, self.nodes@, t.indices(), set![li as int], t.indices());
        }
        li
    }

    /// Left rotation at `i`: the right child becomes the subtree root, taking
    /// `i` as its left child; `i` takes the child's former left subtree.
    fn left_rotate(&mut self, i: u8, Ghost(t): Ghost<Tree<K, V>>) -> (res: u8)
        requires
            links(old(self).nodes@, i as int, t),
            t.right() is Node,
            t.is_uniq(),
            t.count() <= 254,
        ensures
            keys_kept(old(self).nodes@, final(self).nodes@),
            final(self).allocator == old(self).allocator,
            realizes(final(self).nodes@, res as int, rotate_left(t)),
            same_outside(old(self).nodes@, final(self).nodes@, t.indices()),
    {
        let ghost n0 = self.nodes@;
        let ghost r = t.right();
        let ghost b = r.left();
        let ghost c = r.right();
        let ghost a = t.left();
        let ghost inner = node(a, i as int, t->key, t->value, b);
        proof {
            lemma_realizes_range(n0, n0[i - 1].right as int, r);
            assert(t.indices() == a.indices().union(r.indices()).insert(i as int));
            assert(r.indices() == b.indices().union(c.indices()).insert(r->index));
            assert(inner.indices() == a.indices().union(b.indices()).insert(i as int));
            lemma_height_le_count(t);
            lemma_rotate_uniq(t);
            assert(rotate_left(t) == node(inner, r->index, r->key, r->value, c));
        }
        let ri = self.nodes[(i - 1) as usize].right;
        let rl = self.nodes[(ri - 1) as usize].left;
        self.set_right(i, rl);
        let ghost n1 = self.nodes@;
        proof {
            assert(same_outside(n0, n1, set![i as int]));
            lemma_same_outside_frame(n0, n1, set![i as int], rl as int, b);
            lemma_same_outside_frame(n0, n1, set![i as int], n0[i - 1].left as int, a);
        }
        self.update_height(i, Ghost(inner));
        let ghost n2 = self.nodes@;
        self.set_left(ri, i);
        let ghost n3 = self.nodes@;
        proof {
            lemma_same_outside_trans(n0, n1, n2, set![i as int], set![i as int], set![i as int]);
            assert(same_outside(n2, n3, set![ri as int]));
            lemma_same_outside_frame(n0, n2, set![i as int], n0[ri - 1].right as int, c);
            lemma_same_outside_frame(n2, n3, set![ri as int], n0[ri - 1].right as int, c);
            lemma_same_outside_frame(n2, n3, set![ri as int], i as int, inner);
        }
        self.update_height(ri, Ghost(rotate_left(t)));
        proof {
            lemma_same_outside_trans(n0, n2, n3, set![i as int], set![ri as int], t.indices());
            lemma_same_outside_trans(n0, n3, self.nodes@, t.indices(), set![ri as int], t.indices());
        }
        ri
    }

    /// Restores the balance at `i`, whose subtrees differ in height by at
    /// most two, by a single or double rotation, or refreshes its height.
    /// Returns the new root of the subtree.
    fn rebalance(&mut self, i: u8, Ghost(t): Ghost<Tree<K, V>>) -> (res: (u8, Ghost<Tree<K, V>>))
        requires
            links(old(self).nodes@, i as int, t),
            t.is_bst(),
            t.is_uniq(),
            t.left().is_avl(),
            t.right().is_avl(),
            t.left().height() <= t.right().height() + 2,
            t.right().height() <= t.left().height() + 2,
            t.count() <= 254,
        ensures
            keys_kept(old(self).nodes@, final(self).nodes@),
            final(self).allocator == old(self).allocator,
            realizes(final(self).nodes@, res.0 as int, res.1@),
            res.1@.valid(),
            forall|k: K| #[trigger] res.1@.lookup(k) == t.lookup(k),
            res.1@.indices() == t.indices(),
            res.1@.count() == t.count(),
            forall|b: int| #[trigger] res.1@.keys_below(b) == t.keys_below(b),
            forall|b: int| #[trigger] res.1@.keys_above(b) == t.keys_above(b),
            max_nat(t.left().height(), t.right().height()) <= res.1@.height(),
            res.1@.height() <= max_nat(t.left().height(), t.right().height()) + 1,
            t.left().height() <= t.right().height() + 1 && t.right().height() <= t.left().height()
                + 1 ==> res.1@.height() == max_nat(t.left().height(), t.right().height()) + 1,
            same_outside(old(self).nodes@, final(self).nodes@, t.indices()),
    {
        let ghost n0 = self.nodes@;
        let ghost l = t.left();
        let ghost r = t.right();
        proof {
            lemma_height_le_count(t);
            lemma_height_le_count(l);
            lemma_height_le_count(r);
            assert(t.indices() == l.indices().union(r.indices()).insert(i as int));
            assert(t.count() == 1 + l.count() + r.count());
        }
        let left = self.nodes[(i - 1) as usize].left;
        let right = self.nodes[(i - 1) as usize].right;
        let balance_factor = self.balance_factor(left, right, Ghost(l), Ghost(r));
        if balance_factor > 1 {
            proof {
                lemma_realizes_range(n0, left as int, l);
                lemma_realizes_links(n0, left as int, l);
                assert(l.indices() == l.left().indices().union(l.right().indices()).insert(left as int));
                assert(l.count() == 1 + l.left().count() + l.right().count());
                lemma_height_le_count(l.left());
                lemma_height_le_count(l.right());
            }
            let left_left = self.nodes[(left - 1) as usize].left;
            let left_right = self.nodes[(left - 1) as usize].right;
            let left_balance_factor = self.balance_factor(left_left, left_right, Ghost(l.left()), Ghost(l.right()));
            if left_balance_factor < 0 {
                let nl = self.left_rotate(left, Ghost(l));
                let ghost n1 = self.nodes@;
                let ghost l2 = rotate_left(l);
                proof {
                    assert(l.is_bst());
                    assert(l.left().is_bst() && l.right().is_bst());
                    lemma_rotate_left(l);
                    lemma_rotate_uniq(l);
                }
                self.set_left(i, nl);
                let ghost n2 = self.nodes@;
                let ghost t2 = node(l2, i as int, t->key, t->value, r);
                proof {
                    assert(same_outside(n1, n2, set![i as int]));
                    lemma_same_outside_frame(n0, n1, l.indices(), right as int, r);
                    lemma_same_outside_frame(n1, n2, set![i as int], right as int, r);
                    lemma_same_outside_frame(n1, n2, set![i as int], nl as int, l2);
                    lemma_same_outside_trans(n0, n1, n2, l.indices(), set![i as int], t.indices());
                    assert(t2.indices() == l2.indices().union(r.indices()).insert(i as int));
                    assert(t2.count() == t.count());
                    assert(t2.is_uniq());
                    assert(t2.is_bst());
                    lemma_rotate_right(t2);
                    lemma_rotate_uniq(t2);
                    lemma_balance_right_double(t);
                    assert forall|k: K| #[trigger] rotate_right(t2).lookup(k) == t.lookup(k) by {
                        assert(l2.lookup(k) == l.lookup(k));
                    }
                    assert forall|b: int| #[trigger] rotate_right(t2).keys_below(b) == t.keys_below(b) by {
                        assert(l2.keys_below(b) == l.keys_below(b));
                    }
                    assert forall|b: int| #[trigger] rotate_right(t2).keys_above(b) == t.keys_above(b) by {
                        assert(l2.keys_above(b) == l.keys_above(b));
                    }
                }
                let res = self.right_rotate(i, Ghost(t2));
                proof {
                    lemma_same_outside_trans(n0, n2, self.nodes@, t.indices(), t2.indices(), t.indices());
                    lemma_keys_kept_trans(n0, n1, n2);
                    lemma_keys_kept_trans(n0, n2, self.nodes@);
                }
                (res, Ghost(rotate_right(t2)))
            } else {
                proof {
                    lemma_rotate_right(t);
                    lemma_rotate_uniq(t);
                    lemma_balance_right_single(t);
                }
                let res = self.right_rotate(i, Ghost(t));
                (res, Ghost(rotate_right(t)))
            }
        } else if balance_factor < -1 {
            proof {
                lemma_realizes_range(n0, right as int, r);
                lemma_realizes_links(n0, right as int, r);
                assert(r.indices() == r.left().indices().union(r.right().indices()).insert(right as int));
                assert(r.count() == 1 + r.left().count() + r.right().count());
                lemma_height_le_count(r.left());
                lemma_height_le_count(r.right());
            }
            let right_left = self.nodes[(right - 1) as usize].left;
            let right_right = self.nodes[(right - 1) as usize].right;
            let right_balance_factor = self.balance_factor(right_left, right_right, Ghost(r.left()), Ghost(r.right()));
            if right_balance_factor > 0 {
                let nr = self.right_rotate(right, Ghost(r));
                let ghost n1 = self.nodes@;
                let ghost r2 = rotate_right(r);
                proof {
                    assert(r.is_bst());
                    assert(r.left().is_bst() && r.right().is_bst());
                    lemma_rotate_right(r);
                    lemma_rotate_uniq(r);
                }
                self.set_right(i, nr);
                let ghost n2 = self.nodes@;
                let ghost t2 = node(l, i as int, t->key, t->value, r2);
                proof {
                    assert(same_outside(n1, n2, set![i as int]));
                    lemma_same_outside_frame(n0, n1, r.indices(), left as int, l);
                    lemma_same_outside_frame(n1, n2, set![i as int], left as int, l);
                    lemma_same_outside_frame(n1, n2, set![i as int], nr as int, r2);
                    lemma_same_outside_trans(n0, n1, n2, r.indices(), set![i as int], t.indices());
                    assert(t2.indices() == l.indices().union(r2.indices()).insert(i as int));
                    assert(t2.count() == t.count());
                    assert(t2.is_uniq());
                    assert(t2.is_bst());
                    lemma_rotate_left(t2);
                    lemma_rotate_uniq(t2);
                    lemma_balance_left_double(t);
                    assert forall|k: K| #[trigger] rotate_left(t2).lookup(k) == t.lookup(k) by {
                        assert(r2.lookup(k) == r.lookup(k));
                    }
                    assert forall|b: int| #[trigger] rotate_left(t2).keys_below(b) == t.keys_below(b) by {
                        assert(r2.keys_below(b) == r.keys_below(b));
                    }
                    assert forall|b: int| #[trigger] rotate_left(t2).keys_above(b) == t.keys_above(b) by {
                        assert(r2.keys_above(b) == r.keys_above(b));
                    }
                }
                let res = self.left_rotate(i, Ghost(t2));
                proof {
                    lemma_same_outside_trans(n0, n2, self.nodes@, t.indices(), t2.indices(), t.indices());
                    lemma_keys_kept_trans(n0, n1, n2);
                    lemma_keys_kept_trans(n0, n2, self.nodes@);
                }
                (res, Ghost(rotate_left(t2)))
            } else {
                proof {
                    lemma_rotate_left(t);
                    lemma_rotate_uniq(t);
                    lemma_balance_left_single(t);
                }
                let res = self.left_rotate(i, Ghost(t));
                (res, Ghost(rotate_left(t)))
            }
        } else {
            self.update_height(i, Ghost(t));
            (i, Ghost(t))
        }
    }

    /// Takes a slot for a new leaf holding `key` and `value`: the head of the
    /// free list, or else the next never-used slot.
    #[verifier::spinoff_prover]
    #[verifier::rlimit(40)]
    fn add(&mut self, key: K, value: V, Ghost(t): Ghost<Tree<K, V>>, Ghost(fl): Ghost<Seq<int>>) -> (res: (
        u8,
        Ghost<Seq<int>>,
    ))
        requires
            inv(old(self).allocator, old(self).nodes@, t, fl),
            old(self).allocator.size < old(self).allocator.capacity,
        ensures
            1 <= res.0 <= old(self).nodes@.len(),
            res.0 == old(self).allocator.free_list_head,
            old(self).allocator.free_list_head == old(self).allocator.sequence
                ==> final(self).allocator.sequence == old(self).allocator.sequence + 1
                && final(self).allocator.free_list_head == old(self).allocator.sequence + 1,
            old(self).allocator.free_list_head != old(self).allocator.sequence
                ==> final(self).allocator.sequence == old(self).allocator.sequence
                && final(self).allocator.free_list_head == old(self).nodes@[res.0 - 1].height,
            !t.indices().contains(res.0 as int),
            final(self).nodes@ == old(self).nodes@.update(
                res.0 - 1,
                U8Node { left: 0, right: 0, height: 0, key, value },
            ),
            final(self).allocator.root == old(self).allocator.root,
            final(self).allocator.capacity == old(self).allocator.capacity,
            final(self).allocator.size == old(self).allocator.size + 1,
            old(self).allocator.sequence <= final(self).allocator.sequence <= final(self).allocator.capacity + 1,
            res.0 < final(self).allocator.sequence,
            free_list(
                final(self).nodes@,
                final(self).allocator.free_list_head as int,
                final(self).allocator.sequence as int,
                res.1@,
            ),
            forall|k: int|
                0 <= k < res.1@.len() ==> !t.indices().contains(#[trigger] res.1@[k]) && res.1@[k]
                    != res.0,
            res.1@.len() + t.count() + 1 == final(self).allocator.sequence - 1,
    {
        let ghost n0 = self.nodes@;
        let free_node = self.allocator.free_list_head;
        let sequence = self.allocator.sequence;
        let ghost fl2: Seq<int>;
        if free_node == sequence {
            proof {
                if fl.len() > 0 {
                    assert(1 <= fl[0] < sequence);
                }
                fl2 = fl;
            }
            self.allocator.sequence = sequence + 1;
            self.allocator.free_list_head = sequence + 1;
        } else {
            proof {
                assert(fl.len() > 0);
                assert(fl.contains(fl[0]));
                fl2 = fl.drop_first();
            }
            self.allocator.free_list_head = self.nodes[(free_node - 1) as usize].height;
        }
        let entry = U8Node { left: 0, right: 0, height: 0, key, value };
        self.nodes.set((free_node - 1) as usize, entry);
        self.allocator.size = self.allocator.size + 1;
        proof {
            assert forall|k: int| 0 <= k < fl2.len() implies #[trigger] fl2[k] != free_node as int by {
                if free_node != sequence {
                    assert(fl2[k] == fl[k + 1]);
                    assert(fl[0] != fl[k + 1]);
                }
            }
            assert forall|k: int| 0 <= k < fl2.len() implies !t.indices().contains(#[trigger] fl2[k]) by {
                if free_node != sequence {
                    assert(fl2[k] == fl[k + 1]);
                }
            }
            if free_node != sequence {
                assert forall|k: int| 0 <= k < fl2.len() implies 1 <= #[trigger] fl2[k] < self.allocator.sequence by {
                    assert(fl2[k] == fl[k + 1]);
                }
                assert forall|k: int| 0 <= k < fl2.len() implies self.nodes@[#[trigger] fl2[k] - 1].height as int == if k + 1 < fl2.len() {
                    fl2[k + 1]
                } else {
                    self.allocator.sequence as int
                } by {
                    assert(fl2[k] == fl[k + 1]);
                    assert(fl[0] != fl[k + 1]);
                }
                if fl2.len() == 0 {
                    assert(self.allocator.free_list_head == sequence);
                } else {
                    assert(fl2[0] == fl[1]);
                }
            }
        }
        (free_node, Ghost(fl2))
    }

    /// Links the fresh leaf in slot `j` into the subtree at `i`, rebalancing
    /// on the way back up. Returns the new root of the subtree.
    fn insert_rec(&mut self, i: u8, j: u8, Ghost(t): Ghost<Tree<K, V>>) -> (res: (
        u8,
        Ghost<Tree<K, V>>,
    ))
        requires
            realizes(old(self).nodes@, i as int, t),
            t.valid(),
            1 <= j <= old(self).nodes@.len(),
            !t.indices().contains(j as int),
            old(self).nodes@[j - 1].left == 0,
            old(self).nodes@[j - 1].right == 0,
            old(self).nodes@[j - 1].height == 0,
            t.lookup(old(self).nodes@[j - 1].key) is None,
            t.count() + 1 <= 254,
        ensures
            keys_kept(old(self).nodes@, final(self).nodes@),
            final(self).allocator == old(self).allocator,
            realizes(final(self).nodes@, res.0 as int, res.1@),
            res.1@.valid(),
            res.1@.indices() == t.indices().insert(j as int),
            res.1@.count() == t.count() + 1,
            forall|k: K| #[trigger]
                res.1@.lookup(k) == if k.rank() == old(self).nodes@[j - 1].key.rank() {
                    Some(old(self).nodes@[j - 1].value)
                } else {
                    t.lookup(k)
                },
            forall|b: int|
                t.keys_below(b) && old(self).nodes@[j - 1].key.rank() < b ==> #[trigger] res.1@.keys_below(b),
            forall|b: int|
                t.keys_above(b) && b < old(self).nodes@[j - 1].key.rank() ==> #[trigger] res.1@.keys_above(b),
            t.height() <= res.1@.height() <= t.height() + 1,
            same_outside(old(self).nodes@, final(self).nodes@, t.indices().insert(j as int)),
        decreases t.count(),
    {
        let ghost n0 = self.nodes@;
        let ghost nk = n0[j - 1].key;
        let ghost nv = n0[j - 1].value;
        if i == SENTINEL {
            let ghost leaf = node(Tree::Nil, j as int, nk, nv, Tree::Nil);
            proof {
                assert(realizes(n0, 0, Tree::<K, V>::Nil));
                assert(realizes(n0, j as int, leaf));
                assert(leaf.indices() =~= t.indices().insert(j as int));
                assert forall|k: K| #[trigger]
                    leaf.lookup(k) == if k.rank() == nk.rank() {
                        Some(nv)
                    } else {
                        t.lookup(k)
                    } by {}
            }
            return (j, Ghost(leaf));
        }
        let ghost l = t.left();
        let ghost r = t.right();
        proof {
            lemma_realizes_links(n0, i as int, t);
            lemma_realizes_range(n0, i as int, t);
            assert(t.indices() == l.indices().union(r.indices()).insert(i as int));
            assert(t.count() == 1 + l.count() + r.count());
        }
        let jk = self.nodes[(j - 1) as usize].key;
        let ik = self.nodes[(i - 1) as usize].key;
        let left = self.nodes[(i - 1) as usize].left;
        let right = self.nodes[(i - 1) as usize].right;
        if jk.less_than(&ik) {
            let (nl, Ghost(l2)) = self.insert_rec(left, j, Ghost(l));
            let ghost n1 = self.nodes@;
            self.set_left(i, nl);
            let ghost n2 = self.nodes@;
            let ghost t2 = node(l2, i as int, t->key, t->value, r);
            proof {
                assert(same_outside(n1, n2, set![i as int]));
                lemma_same_outside_frame(n0, n1, l.indices().insert(j as int), right as int, r);
                lemma_same_outside_frame(n1, n2, set![i as int], right as int, r);
                lemma_same_outside_frame(n1, n2, set![i as int], nl as int, l2);
                lemma_same_outside_trans(n0, n1, n2, l.indices().insert(j as int), set![i as int], t.indices().insert(j as int));
                assert(t2.indices() == l2.indices().union(r.indices()).insert(i as int));
                assert(t2.indices() =~= t.indices().insert(j as int));
                assert(t2.is_uniq());
                assert(t2.is_bst());
            }
            let (res, Ghost(t3)) = self.rebalance(i, Ghost(t2));
            proof {
                lemma_same_outside_trans(n0, n2, self.nodes@, t.indices().insert(j as int), t2.indices(), t.indices().insert(j as int));
                assert forall|k: K| #[trigger]
                    t3.lookup(k) == if k.rank() == nk.rank() {
                        Some(nv)
                    } else {
                        t.lookup(k)
                    } by {
                    assert(t2.lookup(k) == t3.lookup(k));
                    assert(t.lookup(k) == (if k.rank() < ik.rank() {
                        l.lookup(k)
                    } else if ik.rank() < k.rank() {
                        r.lookup(k)
                    } else {
                        Some(t->value)
                    }));
                    assert(t2.lookup(k) == (if k.rank() < ik.rank() {
                        t2.left().lookup(k)
                    } else if ik.rank() < k.rank() {
                        t2.right().lookup(k)
                    } else {
                        Some(t->value)
                    }));
                }
                assert forall|b: int| t.keys_below(b) && nk.rank() < b implies #[trigger] t3.keys_below(b) by {
                    assert(t2.keys_below(b) == t3.keys_below(b));
                    assert(t2.left().keys_below(b) && t2.right().keys_below(b));
                }
                assert forall|b: int| t.keys_above(b) && b < nk.rank() implies #[trigger] t3.keys_above(b) by {
                    assert(t2.keys_above(b) == t3.keys_above(b));
                    assert(t2.left().keys_above(b) && t2.right().keys_above(b));
                }
            }
            (res, Ghost(t3))
        } else {
            proof {
                if !(ik.rank() < jk.rank()) {
                    assert(t.lookup(jk) is Some);
                }
            }
            let (nr, Ghost(r2)) = self.insert_rec(right, j, Ghost(r));
            let ghost n1 = self.nodes@;
            self.set_right(i, nr);
            let ghost n2 = self.nodes@;
            let ghost t2 = node(l, i as int, t->key, t->value, r2);
            proof {
                assert(same_outside(n1, n2, set![i as int]));
                lemma_same_outside_frame(n0, n1, r.indices().insert(j as int), left as int, l);
                lemma_same_outside_frame(n1, n2, set![i as int], left as int, l);
                lemma_same_outside_frame(n1, n2, set![i as int], nr as int, r2);
                lemma_same_outside_trans(n0, n1, n2, r.indices().insert(j as int), set![i as int], t.indices().insert(j as int));
                assert(t2.indices() == l.indices().union(r2.indices()).insert(i as int));
                assert(t2.indices() =~= t.indices().insert(j as int));
                assert(t2.is_uniq());
                assert(t2.is_bst());
            }
            let (res, Ghost(t3)) = self.rebalance(i, Ghost(t2));
            proof {
                lemma_same_outside_trans(n0, n2, self.nodes@, t.indices().insert(j as int), t2.indices(), t.indices().insert(j as int));
                assert forall|k: K| #[trigger]
                    t3.lookup(k) == if k.rank() == nk.rank() {
                        Some(nv)
                    } else {
                        t.lookup(k)
                    } by {
                    assert(t2.lookup(k) == t3.lookup(k));
                    assert(t.lookup(k) == (if k.rank() < ik.rank() {
                        l.lookup(k)
                    } else if ik.rank() < k.rank() {
                        r.lookup(k)
                    } else {
                        Some(t->value)
                    }));
                    assert(t2.lookup(k) == (if k.rank() < ik.rank() {
                        t2.left().lookup(k)
                    } else if ik.rank() < k.rank() {
                        t2.right().lookup(k)
                    } else {
                        Some(t->value)
                    }));
                }
                assert forall|b: int| t.keys_below(b) && nk.rank() < b implies #[trigger] t3.keys_below(b) by {
                    assert(t2.keys_below(b) == t3.keys_below(b));
                    assert(t2.left().keys_below(b) && t2.right().keys_below(b));
                }
                assert forall|b: int| t.keys_above(b) && b < nk.rank() implies #[trigger] t3.keys_above(b) by {
                    assert(t2.keys_above(b) == t3.keys_above(b));
                    assert(t2.left().keys_above(b) && t2.right().keys_above(b));
                }
            }
            (res, Ghost(t3))
        }
    }

    /// Detaches the leftmost node of the subtree at `i`, rebalancing on the
    /// way back up. Returns the new root of the subtree and the detached slot.
    fn remove_min(&mut self, i: u8, Ghost(t): Ghost<Tree<K, V>>) -> (res: (u8, u8, Ghost<Tree<K, V>>))
        requires
            realizes(old(self).nodes@, i as int, t),
            t is Node,
            t.valid(),
            t.count() <= 254,
        ensures
            keys_kept(old(self).nodes@, final(self).nodes@),
            final(self).allocator == old(self).allocator,
            realizes(final(self).nodes@, res.0 as int, res.2@),
            res.2@.valid(),
            t.indices().contains(res.1 as int),
            1 <= res.1 <= old(self).nodes@.len(),
            res.2@.indices() == t.indices().remove(res.1 as int),
            res.2@.count() + 1 == t.count(),
            t.lookup(old(self).nodes@[res.1 - 1].key) == Some(old(self).nodes@[res.1 - 1].value),
            forall|k: K| #[trigger]
                res.2@.lookup(k) == if k.rank() == old(self).nodes@[res.1 - 1].key.rank() {
                    None
                } else {
                    t.lookup(k)
                },
            res.2@.keys_above(old(self).nodes@[res.1 - 1].key.rank()),
            forall|b: int| t.keys_below(b) ==> #[trigger] res.2@.keys_below(b),
            forall|b: int| t.keys_above(b) ==> #[trigger] res.2@.keys_above(b),
            res.2@.height() <= t.height() <= res.2@.height() + 1,
            same_outside(old(self).nodes@, final(self).nodes@, t.indices().remove(res.1 as int)),
        decreases t.count(),
    {
        let ghost n0 = self.nodes@;
        let ghost l = t.left();
        let ghost r = t.right();
        proof {
            lemma_realizes_links(n0, i as int, t);
            lemma_realizes_range(n0, i as int, t);
            assert(t.indices() == l.indices().union(r.indices()).insert(i as int));
            assert(t.count() == 1 + l.count() + r.count());
        }
        let ik = self.nodes[(i - 1) as usize].key;
        let left = self.nodes[(i - 1) as usize].left;
        let right = self.nodes[(i - 1) as usize].right;
        if left == SENTINEL {
            proof {
                assert(l is Nil);
                assert(r.indices() =~= t.indices().remove(i as int));
                assert forall|k: K| #[trigger]
                    r.lookup(k) == if k.rank() == ik.rank() {
                        None
                    } else {
                        t.lookup(k)
                    } by {
                    assert(t.lookup(k) == (if k.rank() < ik.rank() {
                        l.lookup(k)
                    } else if ik.rank() < k.rank() {
                        r.lookup(k)
                    } else {
                        Some(t->value)
                    }));
                    if k.rank() <= ik.rank() {
                        lemma_above_lookup_none(r, ik.rank(), k);
                    }
                }
                assert forall|b: int| t.keys_below(b) implies #[trigger] r.keys_below(b) by {}
                assert forall|b: int| t.keys_above(b) implies #[trigger] r.keys_above(b) by {}
            }
            return (right, i, Ghost(r));
        }
        let (nl, m, Ghost(l2)) = self.remove_min(left, Ghost(l));
        let ghost n1 = self.nodes@;
        let ghost mk = n0[m - 1].key;
        self.set_left(i, nl);
        let ghost n2 = self.nodes@;
        let ghost t2 = node(l2, i as int, t->key, t->value, r);
        proof {
            assert(same_outside(n1, n2, set![i as int]));
            lemma_same_outside_frame(n0, n1, l.indices().remove(m as int), right as int, r);
            lemma_same_outside_frame(n1, n2, set![i as int], right as int, r);
            lemma_same_outside_frame(n1, n2, set![i as int], nl as int, l2);
            lemma_same_outside_trans(n0, n1, n2, l.indices().remove(m as int), set![i as int], t.indices().remove(m as int));
            assert(t2.indices() == l2.indices().union(r.indices()).insert(i as int));
            assert(t2.indices() =~= t.indices().remove(m as int));
            lemma_lookup_bounds(l, mk, ik.rank());
            assert(t2.is_uniq());
            assert(t2.is_bst());
            lemma_keys_above_weaken(r, ik.rank(), mk.rank());
        }
        let (res, Ghost(t3)) = self.rebalance(i, Ghost(t2));
        proof {
            lemma_same_outside_trans(n0, n2, self.nodes@, t.indices().remove(m as int), t2.indices(), t.indices().remove(m as int));
            assert forall|k: K| #[trigger]
                t3.lookup(k) == if k.rank() == mk.rank() {
                    None
                } else {
                    t.lookup(k)
                } by {
                assert(t2.lookup(k) == t3.lookup(k));
                assert(t.lookup(k) == (if k.rank() < ik.rank() {
                    l.lookup(k)
                } else if ik.rank() < k.rank() {
                    r.lookup(k)
                } else {
                    Some(t->value)
                }));
                assert(t2.lookup(k) == (if k.rank() < ik.rank() {
                    l2.lookup(k)
                } else if ik.rank() < k.rank() {
                    r.lookup(k)
                } else {
                    Some(t->value)
                }));
            }
            assert(t2.keys_above(mk.rank()));
            assert forall|b: int| t.keys_below(b) implies #[trigger] t3.keys_below(b) by {
                assert(t2.keys_below(b) == t3.keys_below(b));
                assert(l2.keys_below(b));
            }
            assert forall|b: int| t.keys_above(b) implies #[trigger] t3.keys_above(b) by {
                assert(t2.keys_above(b) == t3.keys_above(b));
                assert(l2.keys_above(b));
            }
        }
        (res, m, Ghost(t3))
    }

    /// Removes the node holding `key` from the subtree at `i`. A node with two
    /// children is replaced, in its place in the tree, by its in-order
    /// successor. Returns the new root of the subtree and the slot released.
    fn remove_rec(&mut self, i: u8, key: &K, Ghost(t): Ghost<Tree<K, V>>) -> (res: (u8, u8, Ghost<Tree<K, V>>))
        requires
            realizes(old(self).nodes@, i as int, t),
            t.valid(),
            t.lookup(*key) is Some,
            t.count() <= 254,
        ensures
            keys_kept(old(self).nodes@, final(self).nodes@),
            final(self).allocator == old(self).allocator,
            realizes(final(self).nodes@, res.0 as int, res.2@),
            res.2@.valid(),
            t.indices().contains(res.1 as int),
            1 <= res.1 <= old(self).nodes@.len(),
            res.2@.indices() == t.indices().remove(res.1 as int),
            res.2@.count() + 1 == t.count(),
            t.lookup(*key) == Some(old(self).nodes@[res.1 - 1].value),
            old(self).nodes@[res.1 - 1].key.rank() == key.rank(),
            forall|k: K| #[trigger]
                res.2@.lookup(k) == if k.rank() == key.rank() {
                    None
                } else {
                    t.lookup(k)
                },
            forall|b: int| t.keys_below(b) ==> #[trigger] res.2@.keys_below(b),
            forall|b: int| t.keys_above(b) ==> #[trigger] res.2@.keys_above(b),
            res.2@.height() <= t.height() <= res.2@.height() + 1,
            same_outside(old(self).nodes@, final(self).nodes@, t.indices().remove(res.1 as int)),
        decreases t.count(),
    {
        let ghost n0 = self.nodes@;
        let ghost l = t.left();
        let ghost r = t.right();
        proof {
            lemma_realizes_links(n0, i as int, t);
            lemma_realizes_range(n0, i as int, t);
            assert(t.indices() == l.indices().union(r.indices()).insert(i as int));
            assert(t.count() == 1 + l.count() + r.count());
        }
        let ik = self.nodes[(i - 1) as usize].key;
        let left = self.nodes[(i - 1) as usize].left;
        let right = self.nodes[(i - 1) as usize].right;
        if key.less_than(&ik) {
            let (nl, m, Ghost(l2)) = self.remove_rec(left, key, Ghost(l));
            let ghost n1 = self.nodes@;
            self.set_left(i, nl);
            let ghost n2 = self.nodes@;
            let ghost t2 = node(l2, i as int, t->key, t->value, r);
            proof {
                assert(same_outside(n1, n2, set![i as int]));
                lemma_same_outside_frame(n0, n1, l.indices().remove(m as int), right as int, r);
                lemma_same_outside_frame(n1, n2, set![i as int], right as int, r);
                lemma_same_outside_frame(n1, n2, set![i as int], nl as int, l2);
                lemma_same_outside_trans(n0, n1, n2, l.indices().remove(m as int), set![i as int], t.indices().remove(m as int));
                assert(t2.indices() == l2.indices().union(r.indices()).insert(i as int));
                assert(t2.indices() =~= t.indices().remove(m as int));
                assert(t2.is_uniq());
                assert(t2.is_bst());
            }
            let (res, Ghost(t3)) = self.rebalance(i, Ghost(t2));
            proof {
                lemma_same_outside_trans(n0, n2, self.nodes@, t.indices().remove(m as int), t2.indices(), t.indices().remove(m as int));
                assert forall|k: K| #[trigger]
                    t3.lookup(k) == if k.rank() == key.rank() {
                        None
                    } else {
                        t.lookup(k)
                    } by {
                    assert(t2.lookup(k) == t3.lookup(k));
                    assert(t.lookup(k) == (if k.rank() < ik.rank() {
                        l.lookup(k)
                    } else if ik.rank() < k.rank() {
                        r.lookup(k)
                    } else {
                        Some(t->value)
                    }));
                    assert(t2.lookup(k) == (if k.rank() < ik.rank() {
                        l2.lookup(k)
                    } else if ik.rank() < k.rank() {
                        r.lookup(k)
                    } else {
                        Some(t->value)
                    }));
                }
                assert forall|b: int| t.keys_below(b) implies #[trigger] t3.keys_below(b) by {
                    assert(t2.keys_below(b) == t3.keys_below(b));
                    assert(l2.keys_below(b));
                }
                assert forall|b: int| t.keys_above(b) implies #[trigger] t3.keys_above(b) by {
                    assert(t2.keys_above(b) == t3.keys_above(b));
                    assert(l2.keys_above(b));
                }
            }
            (res, m, Ghost(t3))
        } else if ik.less_than(key) {
            let (nr, m, Ghost(r2)) = self.remove_rec(right, key, Ghost(r));
            let ghost n1 = self.nodes@;
            self.set_right(i, nr);
            let ghost n2 = self.nodes@;
            let ghost t2 = node(l, i as int, t->key, t->value, r2);
            proof {
                assert(same_outside(n1, n2, set![i as int]));
                lemma_same_outside_frame(n0, n1, r.indices().remove(m as int), left as int, l);
                lemma_same_outside_frame(n1, n2, set![i as int], left as int, l);
                lemma_same_outside_frame(n1, n2, set![i as int], nr as int, r2);
                lemma_same_outside_trans(n0, n1, n2, r.indices().remove(m as int), set![i as int], t.indices().remove(m as int));
                assert(t2.indices() == l.indices().union(r2.indices()).insert(i as int));
                assert(t2.indices() =~= t.indices().remove(m as int));
                assert(t2.is_uniq());
                assert(t2.is_bst());
            }
            let (res, Ghost(t3)) = self.rebalance(i, Ghost(t2));
            proof {
                lemma_same_outside_trans(n0, n2, self.nodes@, t.indices().remove(m as int), t2.indices(), t.indices().remove(m as int));
                assert forall|k: K| #[trigger]
                    t3.lookup(k) == if k.rank() == key.rank() {
                        None
                    } else {
                        t.lookup(k)
                    } by {
                    assert(t2.lookup(k) == t3.lookup(k));
                    assert(t.lookup(k) == (if k.rank() < ik.rank() {
                        l.lookup(k)
                    } else if ik.rank() < k.rank() {
                        r.lookup(k)
                    } else {
                        Some(t->value)
                    }));
                    assert(t2.lookup(k) == (if k.rank() < ik.rank() {
                        l.lookup(k)
                    } else if ik.rank() < k.rank() {
                        r2.lookup(k)
                    } else {
                        Some(t->value)
                    }));
                }
                assert forall|b: int| t.keys_below(b) implies #[trigger] t3.keys_below(b) by {
                    assert(t2.keys_below(b) == t3.keys_below(b));
                    assert(r2.keys_below(b));
                }
                assert forall|b: int| t.keys_above(b) implies #[trigger] t3.keys_above(b) by {
                    assert(t2.keys_above(b) == t3.keys_above(b));
                    assert(r2.keys_above(b));
                }
            }
            (res, m, Ghost(t3))
        } else {
            proof {
                K::lemma_rank_injective(*key, ik);
            }
            if left != SENTINEL && right != SENTINEL {
                let (nr, m, Ghost(r2)) = self.remove_min(right, Ghost(r));
                let ghost n1 = self.nodes@;
                let ghost mk = n0[m - 1].key;
                let ghost mv = n0[m - 1].value;
                self.set_left(m, left);
                self.set_right(m, nr);
                let ghost n2 = self.nodes@;
                let ghost t2 = node(l, m as int, mk, mv, r2);
                proof {
                    assert(!r.indices().remove(m as int).contains(m as int));
                    assert(n1[m - 1] == n0[m - 1]);
                    assert(same_outside(n1, n2, set![m as int]));
                    lemma_same_outside_frame(n0, n1, r.indices().remove(m as int), left as int, l);
                    lemma_same_outside_frame(n1, n2, set![m as int], left as int, l);
                    lemma_same_outside_frame(n1, n2, set![m as int], nr as int, r2);
                    lemma_same_outside_trans(n0, n1, n2, r.indices().remove(m as int), set![m as int], t.indices().remove(i as int));
                    assert(links(n2, m as int, t2));
                    assert(t2.indices() == l.indices().union(r2.indices()).insert(m as int));
                    assert(t2.indices() =~= t.indices().remove(i as int));
                    lemma_lookup_bounds(r, mk, ik.rank());
                    lemma_keys_below_weaken(l, ik.rank(), mk.rank());
                    assert(t2.is_uniq());
                    assert(t2.is_bst());
                    assert(t2.count() == t.count() - 1);
                }
                let (res, Ghost(t3)) = self.rebalance(m, Ghost(t2));
                proof {
                    lemma_same_outside_trans(n0, n2, self.nodes@, t.indices().remove(i as int), t2.indices(), t.indices().remove(i as int));
                    assert forall|k: K| #[trigger]
                        t3.lookup(k) == if k.rank() == key.rank() {
                            None
                        } else {
                            t.lookup(k)
                        } by {
                        assert(t2.lookup(k) == t3.lookup(k));
                        assert(t.lookup(k) == (if k.rank() < ik.rank() {
                            l.lookup(k)
                        } else if ik.rank() < k.rank() {
                            r.lookup(k)
                        } else {
                            Some(t->value)
                        }));
                        assert(t2.lookup(k) == (if k.rank() < mk.rank() {
                            l.lookup(k)
                        } else if mk.rank() < k.rank() {
                            r2.lookup(k)
                        } else {
                            Some(mv)
                        }));
                        if k.rank() >= ik.rank() {
                            lemma_below_lookup_none(l, ik.rank(), k);
                        }
                        if k.rank() <= mk.rank() {
                            lemma_above_lookup_none(r2, mk.rank(), k);
                        }
                        if k.rank() == mk.rank() {
                            K::lemma_rank_injective(k, mk);
                        }
                    }
                    assert forall|b: int| t.keys_below(b) implies #[trigger] t3.keys_below(b) by {
                        assert(t2.keys_below(b) == t3.keys_below(b));
                        assert(r2.keys_below(b));
                        lemma_lookup_bounds(r, mk, b);
                    }
                    assert forall|b: int| t.keys_above(b) implies #[trigger] t3.keys_above(b) by {
                        assert(t2.keys_above(b) == t3.keys_above(b));
                        assert(r2.keys_above(b));
                        lemma_lookup_bounds(r, mk, b);
                    }
                }
                (res, i, Ghost(t3))
            } else if left != SENTINEL {
                proof {
                    assert(r is Nil);
                    assert(l.indices() =~= t.indices().remove(i as int));
                    assert forall|k: K| #[trigger]
                        l.lookup(k) == if k.rank() == key.rank() {
                            None
                        } else {
                            t.lookup(k)
                        } by {
                        assert(t.lookup(k) == (if k.rank() < ik.rank() {
                            l.lookup(k)
                        } else if ik.rank() < k.rank() {
                            r.lookup(k)
                        } else {
                            Some(t->value)
                        }));
                        if k.rank() >= ik.rank() {
                            lemma_below_lookup_none(l, ik.rank(), k);
                        }
                    }
                    assert forall|b: int| t.keys_below(b) implies #[trigger] l.keys_below(b) by {}
                    assert forall|b: int| t.keys_above(b) implies #[trigger] l.keys_above(b) by {}
                }
                (left, i, Ghost(l))
            } else {
                proof {
                    assert(l is Nil);
                    assert(r.indices() =~= t.indices().remove(i as int));
                    assert forall|k: K| #[trigger]
                        r.lookup(k) == if k.rank() == key.rank() {
                            None
                        } else {
                            t.lookup(k)
                        } by {
                        assert(t.lookup(k) == (if k.rank() < ik.rank() {
                            l.lookup(k)
                        } else if ik.rank() < k.rank() {
                            r.lookup(k)
                        } else {
                            Some(t->value)
                        }));
                        if k.rank() <= ik.rank() {
                            lemma_above_lookup_none(r, ik.rank(), k);
                        }
                    }
                    assert forall|b: int| t.keys_below(b) implies #[trigger] r.keys_below(b) by {}
                    assert forall|b: int| t.keys_above(b) implies #[trigger] r.keys_above(b) by {}
                }
                (right, i, Ghost(r))
            }
        }
    }

    /// Releases slot `index`: clears it and pushes it on the free list.
    /// Returns the value it held.
    fn remove_node(&mut self, index: u8) -> (r: V)
        requires
            1 <= index <= old(self).nodes@.len(),
            old(self).allocator.size > 0,
        ensures
            r == old(self).nodes@[index - 1].value,
            final(self).nodes@ == old(self).nodes@.update(
                index - 1,
                U8Node {
                    left: SENTINEL,
                    right: SENTINEL,
                    height: old(self).allocator.free_list_head,
                    key: K::spec_zeroed(),
                    value: V::spec_zeroed(),
                },
            ),
            final(self).allocator == (U8Allocator {
                free_list_head: index,
                size: (old(self).allocator.size - 1) as u8,
                ..old(self).allocator
            }),
    {
        let idx = (index - 1) as usize;
        let value = self.nodes[idx].value;
        let free_list_head = self.allocator.get_field(Field::FreeListHead);
        let cleared = U8Node {
            left: SENTINEL,
            right: SENTINEL,
            height: free_list_head,
            key: K::zeroed(),
            value: V::zeroed(),
        };
        self.nodes.set(idx, cleared);
        self.allocator.free_list_head = index;
        self.allocator.size = self.allocator.size - 1;
        value
    }

    /// Lays a tree over `allocator` and `nodes`. Fails if there are fewer
    /// slots than the recorded capacity. Where there are more, the capacity
    /// grows to take them in (up to `MAX_CAPACITY`); if the tree has free
    /// slots, the slots never handed out are appended to its free list.
    /// Growth rewrites no slot that was ever handed out, nor the root, size
    /// or free-list head; without growth, nothing is written.
    pub fn from_parts(allocator: U8Allocator, nodes: Vec<U8Node<K, V>>) -> (r: Result<Self, TranslationError>)
        ensures
            (r is Err) == (nodes@.len() < allocator.field(Field::Capacity)),
            r matches Err(e) ==> e == TranslationError::InvalidLength,
            r matches Ok(tree) ==> {
                &&& tree.spec_slots() == nodes@.len()
                &&& tree.spec_len() == allocator.field(Field::Size)
                &&& tree.spec_capacity() == if allocator.field(Field::Capacity) < nodes@.len()
                    && allocator.field(Field::Capacity) < MAX_CAPACITY {
                    if nodes@.len() < MAX_CAPACITY {
                        nodes@.len()
                    } else {
                        MAX_CAPACITY as nat
                    }
                } else {
                    allocator.field(Field::Capacity) as nat
                }
                &&& parts_wf(allocator, nodes@) ==> tree.wf() && tree@ == parts_view(allocator, nodes@)
                &&& tree.spec_capacity() == allocator.field(Field::Capacity) ==> tree.header()
                    == allocator && tree.slots() == nodes@
                &&& tree.header().field(Field::Root) == allocator.field(Field::Root)
                &&& tree.header().field(Field::Size) == allocator.field(Field::Size)
                &&& tree.header().field(Field::FreeListHead) == allocator.field(Field::FreeListHead)
                &&& tree.slots().len() == nodes@.len()
                &&& forall|j: int|
                    1 <= j < allocator.field(Field::Sequence) && j <= nodes@.len() ==> #[trigger] tree.slots()[j - 1]
                        == nodes@[j - 1]
            },
    {
        let mut tree = U8AVLTreeMut { allocator, nodes };
        let current = tree.allocator.capacity;
        let n = tree.nodes.len();
        if n < current as usize {
            return Err(TranslationError::InvalidLength);
        }
        if current as usize >= n || current >= MAX_CAPACITY {
            proof {
                if parts_wf(allocator, nodes@) {
                    let t = parts_tree(allocator, nodes@);
                    let fl = choose|fl: Seq<int>| inv(allocator, nodes@, t, fl);
                    lemma_parts_tree(allocator, nodes@, t, fl);
                }
            }
            return Ok(tree);
        }
        let new_capacity: u8 = if n < MAX_CAPACITY as usize {
            n as u8
        } else {
            MAX_CAPACITY
        };
        tree.allocator.capacity = new_capacity;
        let sequence = tree.allocator.sequence;
        let free_list_head = tree.allocator.free_list_head;
        if sequence == free_list_head || sequence == 0 || sequence > current + 1 {
            // no free slot: the new slots are reached by advancing the sequence
            proof {
                if parts_wf(allocator, nodes@) {
                    let t = parts_tree(allocator, nodes@);
                    let fl = choose|fl: Seq<int>| inv(allocator, nodes@, t, fl);
                    assert(inv(tree.allocator, tree.nodes@, t, fl));
                    lemma_parts_tree(allocator, nodes@, t, fl);
                    lemma_parts_tree(tree.allocator, tree.nodes@, t, fl);
                }
            }
            return Ok(tree);
        }
        // the last free slot links to `sequence`, so the slots from there on
        // continue the free list, each linking to the next
        let ghost n0 = tree.nodes@;
        let ghost a1 = tree.allocator;
        let mut k: u8 = sequence;
        while k <= new_capacity
            invariant
                tree.allocator == a1,
                1 <= sequence <= k <= new_capacity + 1,
                new_capacity <= MAX_CAPACITY,
                new_capacity <= n0.len(),
                tree.nodes@.len() == n0.len(),
                tree.allocator.sequence == sequence,
                forall|x: int| sequence <= x < k ==> #[trigger] tree.nodes@[x - 1].height == x + 1,
                forall|x: int|
                    1 <= x <= n0.len() && !(sequence <= x < k) ==> #[trigger] tree.nodes@[x - 1] == n0[x - 1],
            decreases new_capacity + 1 - k,
        {
            let idx = (k - 1) as usize;
            let mut slot = tree.nodes[idx];
            slot.height = k + 1;
            tree.nodes.set(idx, slot);
            k = k + 1;
        }
        tree.allocator.sequence = new_capacity + 1;
        proof {
            if parts_wf(allocator, nodes@) {
                let t = parts_tree(allocator, nodes@);
                let fl = choose|fl: Seq<int>| inv(allocator, nodes@, t, fl);
                lemma_parts_tree(allocator, nodes@, t, fl);
                let tail = Seq::new((new_capacity + 1 - sequence) as nat, |x: int| sequence + x);
                let fl2 = fl + tail;
                let a = tree.allocator;
                let ns = tree.nodes@;
                assert forall|j: int| #[trigger] t.indices().contains(j) implies ns[j - 1] == n0[j - 1] by {
                    lemma_realizes_range(n0, allocator.root as int, t);
                }
                lemma_realizes_frame(n0, ns, allocator.root as int, t);
                assert(fl.len() > 0);
                assert forall|x: int, y: int| 0 <= x < fl2.len() && 0 <= y < fl2.len() && x != y implies fl2[x] != fl2[y] by {
                    if x < fl.len() && y < fl.len() {
                        assert(fl[x] != fl[y]);
                    }
                    if x < fl.len() && y >= fl.len() {
                        assert(fl[x] < sequence);
                    }
                    if x >= fl.len() && y < fl.len() {
                        assert(fl[y] < sequence);
                    }
                }
                assert forall|x: int| 0 <= x < fl2.len() implies 1 <= #[trigger] fl2[x] < a.sequence by {
                    if x < fl.len() {
                        assert(1 <= fl[x] < sequence);
                    }
                }
                assert forall|x: int| 0 <= x < fl2.len() implies ns[#[trigger] fl2[x] - 1].height as int == if x + 1 < fl2.len() {
                    fl2[x + 1]
                } else {
                    a.sequence as int
                } by {
                    if x < fl.len() {
                        assert(1 <= fl[x] < sequence);
                        assert(ns[fl[x] - 1] == n0[fl[x] - 1]);
                        if x + 1 == fl.len() {
                            assert(fl2[x + 1] == sequence);
                        }
                    }
                }
                assert forall|x: int| 0 <= x < fl2.len() implies !t.indices().contains(#[trigger] fl2[x]) by {
                    if x >= fl.len() {
                        assert(fl2[x] >= sequence);
                    }
                }
                assert(free_list(ns, a.free_list_head as int, a.sequence as int, fl2));
                assert(inv(a, ns, t, fl2));
                lemma_parts_tree(a, ns, t, fl2);
            }
        }
        Ok(tree)
    }

    /// Hands back the header and the node slots.
    pub fn into_parts(self) -> (r: (U8Allocator, Vec<U8Node<K, V>>))
        ensures
            parts_wf(r.0, r.1@) == self.wf(),
            parts_view(r.0, r.1@) == self@,
            r.1@.len() == self.spec_slots(),
            r.0.field(Field::Size) == self.spec_len(),
            r.0.field(Field::Capacity) == self.spec_capacity(),
            r.0 == self.header(),
            r.1@ == self.slots(),
    {
        (self.allocator, self.nodes)
    }

    /// Sets up an empty tree of `capacity` slots. Called once, before any
    /// other operation, on a fresh set of slots.
    pub fn initialize(&mut self, capacity: u8)
        requires
            capacity <= MAX_CAPACITY,
            capacity <= old(self).spec_slots(),
        ensures
            final(self).wf(),
            final(self)@ == Map::<K, V>::empty(),
            final(self).spec_len() == 0,
            final(self).spec_capacity() == capacity,
            final(self).spec_slots() == old(self).spec_slots(),
            final(self).slots() == old(self).slots(),
    {
        self.allocator.initialize(capacity);
        proof {
            let t = Tree::<K, V>::Nil;
            let fl = Seq::<int>::empty();
            assert(inv(self.allocator, self.nodes@, t, fl));
            lemma_parts_tree(self.allocator, self.nodes@, t, fl);
            assert(t.contents() =~= Map::<K, V>::empty());
        }
    }

    /// The lowest key in the tree, if any.
    pub fn lowest(&self) -> (r: Option<K>)
        requires
            self.wf(),
        ensures
            r is None ==> forall|k: K| !#[trigger] self@.contains_key(k),
            r matches Some(k) ==> self@.contains_key(k) && forall|k2: K| #[trigger]
                self@.contains_key(k2) ==> k.rank() <= k2.rank(),
    {
        let ghost t = parts_tree(self.allocator, self.nodes@);
        proof {
            let fl = choose|fl: Seq<int>| inv(self.allocator, self.nodes@, t, fl);
            lemma_parts_tree(self.allocator, self.nodes@, t, fl);
        }
        lowest_in(self.allocator.root, self.nodes.as_slice(), Ghost(t))
    }

    /// Removes `key` and returns its value, or `None`, leaving the tree as it
    /// was, when the key is absent.
    pub fn remove(&mut self, key: &K) -> (r: Option<V>)
        requires
            old(self).wf(),
        ensures
            final(self).wf(),
            r == if old(self)@.contains_key(*key) {
                Some(old(self)@[*key])
            } else {
                None
            },
            old(self)@.contains_key(*key) ==> final(self)@ == old(self)@.remove(*key)
                && final(self).spec_len() + 1 == old(self).spec_len(),
            !old(self)@.contains_key(*key) ==> *final(self) == *old(self),
            final(self).spec_capacity() == old(self).spec_capacity(),
            removed(old(self).state(), *key, r is Some, final(self).state()),
            r is Some ==> final(self).header().field(Field::FreeListHead) == old(self).slot_of(*key),
            forall|k: K| #[trigger] final(self)@.contains_key(k) ==> final(self).slot_of(k) == old(self).slot_of(k),
            final(self).spec_slots() == old(self).spec_slots(),
    {
        let ghost t = parts_tree(self.allocator, self.nodes@);
        let ghost fl = choose|fl: Seq<int>| inv(self.allocator, self.nodes@, t, fl);
        proof {
            lemma_parts_tree(self.allocator, self.nodes@, t, fl);
        }
        if !self.contains(key) {
            return None;
        }
        let ghost n0 = self.nodes@;
        let ghost a0 = self.allocator;
        proof {
            lemma_height_le_count(t);
        }
        let root = self.allocator.root;
        let (new_root, m, Ghost(t2)) = self.remove_rec(root, key, Ghost(t));
        self.allocator.root = new_root;
        let ghost n1 = self.nodes@;
        let value = self.remove_node(m);
        proof {
            let a = self.allocator;
            let ns = self.nodes@;
            let fl2 = seq![m as int] + fl;
            assert(!t.indices().remove(m as int).contains(m as int));
            assert(n1[m - 1] == n0[m - 1]);
            assert forall|j: int| #[trigger] t2.indices().contains(j) implies ns[j - 1] == n1[j - 1] by {
                assert(j != m);
            }
            lemma_realizes_frame(n1, ns, new_root as int, t2);
            assert forall|x: int| 0 <= x < fl.len() implies fl[x] != m by {
                assert(!t.indices().contains(fl[x]));
            }
            assert forall|x: int, y: int| 0 <= x < fl2.len() && 0 <= y < fl2.len() && x != y implies fl2[x] != fl2[y] by {
                if x > 0 && y > 0 {
                    assert(fl[x - 1] != fl[y - 1]);
                }
            }
            assert forall|x: int| 0 <= x < fl2.len() implies 1 <= #[trigger] fl2[x] < a.sequence by {
                if x > 0 {
                    assert(fl2[x] == fl[x - 1]);
                }
            }
            assert forall|x: int| 0 <= x < fl2.len() implies ns[#[trigger] fl2[x] - 1].height as int == if x + 1 < fl2.len() {
                fl2[x + 1]
            } else {
                a.sequence as int
            } by {
                if x > 0 {
                    assert(fl2[x] == fl[x - 1]);
                    assert(fl[x - 1] != m);
                    assert(!t.indices().contains(fl[x - 1]));
                    assert(1 <= fl[x - 1] < a.sequence);
                    assert(n1[fl[x - 1] - 1] == n0[fl[x - 1] - 1]);
                }
            }
            assert forall|x: int| 0 <= x < fl2.len() implies !t2.indices().contains(#[trigger] fl2[x]) by {
                if x > 0 {
                    assert(fl2[x] == fl[x - 1]);
                }
            }
            assert forall|j: int| #[trigger] t2.indices().contains(j) implies 1 <= j < a.sequence by {
                assert(t.indices().contains(j));
            }
            assert(free_list(ns, a.free_list_head as int, a.sequence as int, fl2));
            assert(inv(a, ns, t2, fl2));
            lemma_parts_tree(a, ns, t2, fl2);
            lemma_key_at_realizes(n0, a0.root as int, t, m as int);
            lemma_locate_unique(t, m as int, *key);
            assert forall|k: K| #[trigger] t2.lookup(k) is Some implies t2.locate(k) == t.locate(k) by {
                assert(t.lookup(k) is Some);
                assert(k.rank() != key.rank());
                lemma_locate_found(t, k);
                lemma_key_at_realizes(n0, a0.root as int, t, t.locate(k));
                assert(t.locate(k) != m);
                assert(t2.indices().contains(t.locate(k)));
                assert(ns[t.locate(k) - 1].key == n1[t.locate(k) - 1].key);
                lemma_slot_kept(n0, a0.root as int, t, ns, new_root as int, t2, k);
            }
            assert(t2.contents() =~= t.contents().remove(*key)) by {
                assert forall|k: K| #[trigger] t2.lookup(k) == if k == *key {
                    None
                } else {
                    t.lookup(k)
                } by {
                    K::lemma_rank_injective(k, *key);
                }
            }
        }
        Some(value)
    }

    /// The number of nodes in the tree.
    pub fn len(&self) -> (r: usize)
        ensures
            r == self.spec_len(),
    {
        self.allocator.get_field(Field::Size) as usize
    }

    /// The number of slots the tree may use.
    pub fn capacity(&self) -> (r: usize)
        ensures
            r == self.spec_capacity(),
    {
        self.allocator.get_field(Field::Capacity) as usize
    }

    pub fn is_full(&self) -> (r: bool)
        ensures
            r == (self.spec_len() >= self.spec_capacity()),
    {
        self.allocator.get_field(Field::Size) >= self.allocator.get_field(Field::Capacity)
    }

    pub fn is_empty(&self) -> (r: bool)
        ensures
            r == (self.spec_len() == 0),
    {
        self.allocator.get_field(Field::Size) == 0
    }

    /// Whether `key` is in the tree.
    pub fn contains(&self, key: &K) -> (r: bool)
        requires
            self.wf(),
        ensures
            r == self@.contains_key(*key),
    {
        let ghost t = parts_tree(self.allocator, self.nodes@);
        proof {
            let fl = choose|fl: Seq<int>| inv(self.allocator, self.nodes@, t, fl);
            lemma_parts_tree(self.allocator, self.nodes@, t, fl);
        }
        find_in(self.allocator.root, self.nodes.as_slice(), key, Ghost(t)).is_some()
    }

    /// The value stored under `key`, if any.
    pub fn get(&self, key: &K) -> (r: Option<V>)
        requires
            self.wf(),
        ensures
            r == if self@.contains_key(*key) {
                Some(self@[*key])
            } else {
                None
            },
    {
        let ghost t = parts_tree(self.allocator, self.nodes@);
        proof {
            let fl = choose|fl: Seq<int>| inv(self.allocator, self.nodes@, t, fl);
            lemma_parts_tree(self.allocator, self.nodes@, t, fl);
        }
        match find_in(self.allocator.root, self.nodes.as_slice(), key, Ghost(t)) {
            Some(j) => Some(self.nodes[(j - 1) as usize].value),
            None => None,
        }
    }

    /// A mutable reference to the value stored under `key`, if any.
    pub fn get_mut(&mut self, key: &K) -> (r: Option<&mut V>)
        requires
            old(self).wf(),
        ensures
            (r is Some) == old(self)@.contains_key(*key),
            r matches Some(v) ==> *v == old(self)@[*key] && final(self).wf() && final(self)@ == old(
                self,
            )@.insert(*key, *final(v)) && final(self).spec_len() == old(self).spec_len()
                && final(self).spec_capacity() == old(self).spec_capacity(),
            r matches Some(v) ==> final(self).header() == old(self).header() && final(self).slots()
                == old(self).slots().update(
                old(self).slot_of(*key) - 1,
                old(self).slots()[old(self).slot_of(*key) - 1].set_value(*final(v)),
            ),
            r matches Some(v) ==> forall|k: K| #[trigger] final(self).slot_of(k) == old(self).slot_of(k),
            r is None ==> *final(self) == *old(self),
            final(self).spec_slots() == old(self).spec_slots(),
    {
        let ghost t = parts_tree(self.allocator, self.nodes@);
        let ghost fl = choose|fl: Seq<int>| inv(self.allocator, self.nodes@, t, fl);
        proof {
            lemma_parts_tree(self.allocator, self.nodes@, t, fl);
        }
        match find_in(self.allocator.root, self.nodes.as_slice(), key, Ghost(t)) {
            Some(j) => {
                let ghost a = self.allocator;
                let ghost n0 = self.nodes@;
                proof {
                    lemma_key_at_realizes(n0, a.root as int, t, j as int);
                    K::lemma_rank_injective(n0[j - 1].key, *key);
                    lemma_locate_unique(t, j as int, *key);
                }
                let slot = &mut self.nodes[(j - 1) as usize];
                let value = &mut slot.value;
                proof {
                    let v = *final(value);
                    let n1 = n0.update(j - 1, U8Node { value: v, ..n0[j - 1] });
                    let t1 = with_value(t, j as int, v);
                    lemma_realizes_with_value(n0, a.root as int, t, j as int, v);
                    lemma_with_value_shape(t, j as int, v);
                    assert forall|x: int| 0 <= x < fl.len() implies n1[#[trigger] fl[x] - 1].height == n0[fl[x] - 1].height by {}
                    assert(inv(a, n1, t1, fl));
                    lemma_parts_tree(a, n1, t1, fl);
                    assert forall|k: K| #[trigger] t1.locate(k) == t.locate(k) by {
                        lemma_with_value_locate(t, j as int, v, k);
                    }
                    assert(t1.contents() =~= t.contents().insert(*key, v)) by {
                        assert forall|x: K| #[trigger] t1.lookup(x) == if x == *key {
                            Some(v)
                        } else {
                            t.lookup(x)
                        } by {
                            lemma_with_value_lookup(t, j as int, *key, v, x);
                            K::lemma_rank_injective(x, *key);
                        }
                    }
                }
                Some(value)
            },
            None => None,
        }
    }

    /// Inserts `value` under `key`. Returns the slot that now holds it, or
    /// `None`, leaving the tree as it was, when the key is already present or
    /// the tree is full.
    pub fn insert(&mut self, key: K, value: V) -> (r: Option<u8>)
        requires
            old(self).wf(),
        ensures
            final(self).wf(),
            (r is Some) == (!old(self)@.contains_key(key) && old(self).spec_len() < old(self).spec_capacity()),
            r is Some ==> final(self)@ == old(self)@.insert(key, value) && final(self).spec_len()
                == old(self).spec_len() + 1,
            r matches Some(j) ==> 1 <= j <= old(self).spec_capacity(),
            inserted(old(self).state(), key, value, r is Some, final(self).state()),
            r matches Some(j) ==> j == old(self).header().field(Field::FreeListHead)
                && final(self).slot_of(key) == j,
            forall|k: K| #[trigger] old(self)@.contains_key(k) ==> final(self).slot_of(k) == old(self).slot_of(k),
            final(self).spec_slots() == old(self).spec_slots(),
            r is None ==> *final(self) == *old(self),
            final(self).spec_capacity() == old(self).spec_capacity(),
    {
        let ghost t = parts_tree(self.allocator, self.nodes@);
        let ghost fl = choose|fl: Seq<int>| inv(self.allocator, self.nodes@, t, fl);
        proof {
            lemma_parts_tree(self.allocator, self.nodes@, t, fl);
        }
        if self.contains(&key) {
            return None;
        }
        if self.is_full() {
            return None;
        }
        let ghost old_self = *self;
        let (j, Ghost(fl2)) = self.add(key, value, Ghost(t), Ghost(fl));
        let ghost n1 = self.nodes@;
        proof {
            lemma_same_outside_frame(old_self.nodes@, n1, set![j as int], old_self.allocator.root as int, t);
            assert(t.lookup(key) is None);
            lemma_height_le_count(t);
        }
        let root = self.allocator.root;
        let (new_root, Ghost(t2)) = self.insert_rec(root, j, Ghost(t));
        self.allocator.root = new_root;
        proof {
            let a = self.allocator;
            let nodes = self.nodes@;
            assert forall|x: int| #[trigger] t2.indices().contains(x) implies 1 <= x < a.sequence by {
                if x != j as int {
                    assert(t.indices().contains(x));
                }
            }
            assert forall|k: int| 0 <= k < fl2.len() implies !t2.indices().contains(#[trigger] fl2[k]) by {
            }
            assert forall|k: int| 0 <= k < fl2.len() implies nodes[#[trigger] fl2[k] - 1] == n1[fl2[k] - 1] by {
                assert(1 <= fl2[k] < a.sequence);
                assert(!t.indices().insert(j as int).contains(fl2[k]));
            }
            assert(free_list(nodes, a.free_list_head as int, a.sequence as int, fl2));
            assert(inv(a, nodes, t2, fl2));
            lemma_parts_tree(a, nodes, t2, fl2);
            assert(t2.contents() =~= t.contents().insert(key, value)) by {
                assert forall|k: K| #[trigger] t2.lookup(k) == if k == key {
                    Some(value)
                } else {
                    t.lookup(k)
                } by {
                    K::lemma_rank_injective(k, key);
                }
            }
            assert(t2.indices().contains(j as int));
            lemma_key_at_realizes(nodes, new_root as int, t2, j as int);
            lemma_locate_unique(t2, j as int, key);
            assert forall|k: K| #[trigger] old_self@.contains_key(k) implies t2.locate(k) == t.locate(k) by {
                assert(t.lookup(k) is Some);
                lemma_locate_found(t, k);
                assert(t.locate(k) != j);
                assert(t2.indices().contains(t.locate(k)));
                lemma_slot_kept(old_self.nodes@, old_self.allocator.root as int, t, nodes, new_root as int, t2, k);
            }
        }
        Some(j)
    }
}

/// Every well-formed tree is a search tree (each node's key ranks above all
/// keys of its left subtree and below all keys of its right subtree) and
/// balanced (the heights of each node's two subtrees differ by at most one).
/// Its contents are the keys and values of its nodes; it holds `len()` nodes
/// and as many keys, and never more than its capacity.
pub proof fn lemma_tree_shape<K: Key, V: Zeroed>(tree: &U8AVLTreeMut<K, V>)
    requires
        tree.wf(),
    ensures
        tree.model().is_bst(),
        tree.model().is_avl(),
        tree.model().contents() == tree@,
        tree.model().count() == tree.spec_len(),
        tree@.dom().finite(),
        tree@.dom().len() == tree.spec_len(),
        tree.spec_len() <= tree.spec_capacity(),
{
    let t = parts_tree(tree.allocator, tree.nodes@);
    let fl = choose|fl: Seq<int>| inv(tree.allocator, tree.nodes@, t, fl);
    lemma_parts_tree(tree.allocator, tree.nodes@, t, fl);
    lemma_contents_size(t);
}

/// The outcome of an insertion, over the observed state (contents, length,
/// capacity): it succeeds exactly when the key is absent and the length is
/// below the capacity; success adds the entry and one to the length; failure
/// changes nothing.
pub open spec fn inserted<K, V>(
    before: (Map<K, V>, nat, nat),
    key: K,
    value: V,
    ok: bool,
    after: (Map<K, V>, nat, nat),
) -> bool {
    &&& ok == (!before.0.contains_key(key) && before.1 < before.2)
    &&& ok ==> after == (before.0.insert(key, value), before.1 + 1, before.2)
    &&& !ok ==> after == before
}

/// The outcome of a removal, over the observed state: it succeeds exactly
/// when the key is present; success drops the entry and one from a length of
/// at least one; failure changes nothing.
pub open spec fn removed<K, V>(before: (Map<K, V>, nat, nat), key: K, ok: bool, after: (Map<K, V>, nat, nat)) -> bool {
    &&& ok == before.0.contains_key(key)
    &&& ok ==> before.1 >= 1 && after == (before.0.remove(key), (before.1 - 1) as nat, before.2)
    &&& !ok ==> after == before
}

/// `states` are the states before and after each of a run of insertions of
/// keys that the tree does not hold at the time.
pub open spec fn fresh_insertions<K, V>(
    states: Seq<(Map<K, V>, nat, nat)>,
    keys: Seq<K>,
    values: Seq<V>,
    oks: Seq<bool>,
) -> bool {
    &&& states.len() == keys.len() + 1
    &&& values.len() == keys.len()
    &&& oks.len() == keys.len()
    &&& forall|i: int|
        0 <= i < keys.len() ==> !states[i].0.contains_key(#[trigger] keys[i]) && inserted(
            states[i],
            keys[i],
            values[i],
            oks[i],
            states[i + 1],
        )
}

/// `states` are the states before and after each of a run of removals that
/// all succeed.
pub open spec fn successful_removals<K, V>(states: Seq<(Map<K, V>, nat, nat)>, keys: Seq<K>) -> bool {
    &&& states.len() == keys.len() + 1
    &&& forall|i: int| 0 <= i < keys.len() ==> removed(states[i], #[trigger] keys[i], true, states[i + 1])
}

/// A run of insertions of fresh keys succeeds exactly while the length is
/// below the capacity, that is for the first `capacity - len` of them, and
/// keeps every entry that was there before.
pub proof fn lemma_fresh_insertions<K, V>(
    states: Seq<(Map<K, V>, nat, nat)>,
    keys: Seq<K>,
    values: Seq<V>,
    oks: Seq<bool>,
)
    requires
        fresh_insertions(states, keys, values, oks),
        states[0].1 <= states[0].2,
    ensures
        forall|i: int| 0 <= i < oks.len() ==> #[trigger] oks[i] == (states[0].1 + i < states[0].2),
        forall|i: int| 0 <= i < states.len() ==> #[trigger] states[i].2 == states[0].2,
        forall|i: int, k: K|
            0 <= i < states.len() && states[0].0.contains_key(k) ==> #[trigger] states[i].0.contains_key(k)
                && states[i].0[k] == states[0].0[k],
    decreases keys.len(),
{
    if keys.len() > 0 {
        let n = keys.len() - 1;
        let st = states.take(n + 1);
        let ks = keys.take(n);
        let vs = values.take(n);
        let os = oks.take(n);
        assert forall|i: int| 0 <= i < ks.len() implies !st[i].0.contains_key(#[trigger] ks[i]) && inserted(
            st[i],
            ks[i],
            vs[i],
            os[i],
            st[i + 1],
        ) by {
            assert(st[i] == states[i] && st[i + 1] == states[i + 1] && ks[i] == keys[i]);
        }
        lemma_fresh_insertions(st, ks, vs, os);
        assert forall|i: int| 0 <= i < oks.len() implies #[trigger] oks[i] == (states[0].1 + i < states[0].2) by {
            if i < n {
                assert(os[i] == oks[i]);
            } else {
                assert(st[n] == states[n]);
                assert(!states[n].0.contains_key(keys[n]));
                assert forall|j: int| 0 <= j <= n implies #[trigger] states[j].1 == states[0].1 + (
                if states[0].1 + j <= states[0].2 {
                    j
                } else {
                    states[0].2 - states[0].1
                }) by {
                    lemma_length_after(states, keys, values, oks, j);
                }
            }
        }
        assert forall|i: int| 0 <= i < states.len() implies #[trigger] states[i].2 == states[0].2 by {
            if i <= n {
                assert(st[i] == states[i]);
            } else {
                assert(st[n] == states[n]);
                assert(!states[n].0.contains_key(keys[n]));
            }
        }
        assert forall|i: int, k: K|
            0 <= i < states.len() && states[0].0.contains_key(k) implies #[trigger] states[i].0.contains_key(k)
                && states[i].0[k] == states[0].0[k] by {
            if i <= n {
                assert(st[i] == states[i]);
            } else {
                assert(st[n] == states[n]);
                assert(states[n].0.contains_key(k));
                assert(k != keys[n]);
            }
        }
    }
}

/// The length after the first `j` insertions of a run of fresh keys.
proof fn lemma_length_after<K, V>(
    states: Seq<(Map<K, V>, nat, nat)>,
    keys: Seq<K>,
    values: Seq<V>,
    oks: Seq<bool>,
    j: int,
)
    requires
        fresh_insertions(states, keys, values, oks),
        states[0].1 <= states[0].2,
        0 <= j < states.len(),
    ensures
        states[j].1 == states[0].1 + if states[0].1 + j <= states[0].2 {
            j
        } else {
            states[0].2 - states[0].1
        },
        states[j].2 == states[0].2,
    decreases j,
{
    if j > 0 {
        lemma_length_after(states, keys, values, oks, j - 1);
        assert(!states[j - 1].0.contains_key(keys[j - 1]));
    }
}

/// Free and reuse: after `k` successful removals from a full tree, a run of
/// insertions of fresh keys succeeds exactly `k` times, after which the tree
/// is full again.
pub proof fn lemma_free_and_reuse<K, V>(
    removals: Seq<(Map<K, V>, nat, nat)>,
    removed_keys: Seq<K>,
    states: Seq<(Map<K, V>, nat, nat)>,
    keys: Seq<K>,
    values: Seq<V>,
    oks: Seq<bool>,
)
    requires
        removals[0].1 == removals[0].2,
        successful_removals(removals, removed_keys),
        states[0] == removals.last(),
        fresh_insertions(states, keys, values, oks),
    ensures
        forall|i: int| 0 <= i < oks.len() ==> #[trigger] oks[i] == (i < removed_keys.len()),
        oks.len() >= removed_keys.len() ==> states.last().1 == states.last().2,
{
    assert forall|j: int| 0 <= j < removals.len() implies #[trigger] removals[j].1 + j == removals[0].1
        && removals[j].2 == removals[0].2 by {
        lemma_removals_length(removals, removed_keys, j);
    }
    lemma_fresh_insertions(states, keys, values, oks);
    if oks.len() >= removed_keys.len() {
        lemma_length_after(states, keys, values, oks, oks.len() as int);
    }
}

proof fn lemma_removals_length<K, V>(removals: Seq<(Map<K, V>, nat, nat)>, keys: Seq<K>, j: int)
    requires
        successful_removals(removals, keys),
        removals[0].1 == removals[0].2,
        0 <= j < removals.len(),
    ensures
        removals[j].1 + j == removals[0].1,
        removals[j].2 == removals[0].2,
    decreases j,
{
    if j > 0 {
        lemma_removals_length(removals, keys, j - 1);
        assert(removed(removals[j - 1], keys[j - 1], true, removals[j]));
    }
}

/// Growth absorption: a tree of length `len` whose capacity grew to
/// `capacity` takes exactly `capacity - len` fresh keys, and keeps its
/// existing entries throughout.
pub proof fn lemma_growth_absorption<K, V>(
    states: Seq<(Map<K, V>, nat, nat)>,
    keys: Seq<K>,
    values: Seq<V>,
    oks: Seq<bool>,
)
    requires
        fresh_insertions(states, keys, values, oks),
        states[0].1 <= states[0].2,
    ensures
        forall|i: int| 0 <= i < oks.len() ==> #[trigger] oks[i] == (i < states[0].2 - states[0].1),
        forall|i: int, k: K|
            0 <= i < states.len() && states[0].0.contains_key(k) ==> #[trigger] states[i].0.contains_key(k)
                && states[i].0[k] == states[0].0[k],
{
    lemma_fresh_insertions(states, keys, values, oks);
}

/// The contents after inserting `keys[i]` with `values[i]` in order.
pub open spec fn insert_all<K, V>(m: Map<K, V>, keys: Seq<K>, values: Seq<V>) -> Map<K, V>
    decreases keys.len(),
{
    if keys.len() == 0 || values.len() < keys.len() {
        m
    } else {
        insert_all(m, keys.drop_last(), values.subrange(0, keys.len() - 1)).insert(
            keys.last(),
            values[keys.len() - 1],
        )
    }
}

/// Round trip: after distinct keys are inserted, each is found with its own
/// value; after one of them is removed, it is no longer found and the others
/// keep their values.
pub proof fn lemma_round_trip<K, V>(m: Map<K, V>, keys: Seq<K>, values: Seq<V>, gone: int)
    requires
        keys.no_duplicates(),
        keys.len() == values.len(),
        0 <= gone < keys.len(),
    ensures
        forall|i: int| 0 <= i < keys.len() ==> insert_all(m, keys, values).contains_key(#[trigger] keys[i])
            && insert_all(m, keys, values)[keys[i]] == values[i],
        !insert_all(m, keys, values).remove(keys[gone]).contains_key(keys[gone]),
        forall|i: int| 0 <= i < keys.len() && i != gone ==> insert_all(m, keys, values).remove(keys[gone])[#[trigger] keys[i]]
            == values[i],
    decreases keys.len(),
{
    lemma_insert_all_finds(m, keys, values);
    assert forall|i: int| 0 <= i < keys.len() && i != gone implies insert_all(m, keys, values).remove(keys[gone])[#[trigger] keys[i]]
        == values[i] by {
        assert(keys[i] != keys[gone]);
    }
}

proof fn lemma_insert_all_finds<K, V>(m: Map<K, V>, keys: Seq<K>, values: Seq<V>)
    requires
        keys.no_duplicates(),
        keys.len() == values.len(),
    ensures
        forall|i: int| 0 <= i < keys.len() ==> insert_all(m, keys, values).contains_key(#[trigger] keys[i])
            && insert_all(m, keys, values)[keys[i]] == values[i],
    decreases keys.len(),
{
    if keys.len() > 0 {
        let ks = keys.drop_last();
        let vs = values.subrange(0, keys.len() - 1);
        assert(ks.no_duplicates()) by {
            assert forall|a: int, b: int| 0 <= a < ks.len() && 0 <= b < ks.len() && a != b implies ks[a] != ks[b] by {
                assert(ks[a] == keys[a] && ks[b] == keys[b]);
            }
        }
        lemma_insert_all_finds(m, ks, vs);
        assert(insert_all(m, keys, values) == insert_all(m, ks, vs).insert(keys.last(), values[keys.len() - 1]));
        assert forall|i: int| 0 <= i < keys.len() implies insert_all(m, keys, values).contains_key(#[trigger] keys[i])
            && insert_all(m, keys, values)[keys[i]] == values[i] by {
            if i < keys.len() - 1 {
                assert(ks[i] == keys[i]);
                assert(vs[i] == values[i]);
                assert(keys[i] != keys.last());
            }
        }
    }
}

} // verus!
