//! The crit-bit tree: nodes, their abstract contents, and the tree operations.
use vstd::prelude::*;

use crate::bits::{
    crit_bit_pos, agree_above, get_bit, is_crit_bit, key_bit, key_byte, lemma_agree_above_trans,
    lemma_bits_differ, lemma_key_bit_is_binary, max_key_len, min_len, same_bits,
};

verus! {

/// A node is either an internal branch or an external leaf.
pub enum Node {
    Internal(Box<InternalNode>),
    External(Vec<u8>),
}

/// An internal (branch) node.
///
/// A bit node (`by_length` false) splits on bit `crit_bit`, the most
/// significant bit where the two subtrees differ: `children.0` is the subtree
/// where that bit is 0, `children.1` the subtree where it is 1.
///
/// A length node (`by_length` true) splits keys that hold the same bits and
/// differ only in trailing zero bytes: `children.0` holds the key of exactly
/// `crit_bit / 8` bytes, `children.1` the longer ones. Length nodes sit below
/// every bit node on their path.
pub struct InternalNode {
    pub crit_bit: usize,
    pub by_length: bool,
    pub children: (Node, Node),
}

impl InternalNode {
    /// The child on `side` (0 or 1).
    pub open spec fn child(self, side: int) -> Node {
        if side == 0 {
            self.children.0
        } else {
            self.children.1
        }
    }

    /// The side (0 or 1) that `key` takes at this node.
    pub open spec fn side_of(self, key: Seq<u8>) -> int {
        if self.by_length {
            if key.len() > self.crit_bit / 8 {
                1
            } else {
                0
            }
        } else {
            key_bit(key, self.crit_bit as nat) as int
        }
    }
}

impl Node {
    /// The set of keys stored in the subtree.
    pub open spec fn keys(self) -> Set<Seq<u8>>
        decreases self,
    {
        match self {
            Node::External(k) => set![k@],
            Node::Internal(inner) => inner.children.0.keys().union(inner.children.1.keys()),
        }
    }

    /// The keys of the subtree from the 0-side to the 1-side.
    pub open spec fn leaves(self) -> Seq<Seq<u8>>
        decreases self,
    {
        match self {
            Node::External(k) => seq![k@],
            Node::Internal(inner) => inner.children.0.leaves() + inner.children.1.leaves(),
        }
    }

    /// Number of internal nodes on the longest path down from this node.
    pub open spec fn height(self) -> nat
        decreases self,
    {
        match self {
            Node::External(_) => 0,
            Node::Internal(inner) => {
                let h0 = inner.children.0.height();
                let h1 = inner.children.1.height();
                1 + if h0 >= h1 {
                    h0
                } else {
                    h1
                }
            },
        }
    }

    /// The leaf reached by following `key` down the tree.
    pub open spec fn walk_leaf(self, key: Seq<u8>) -> Seq<u8>
        decreases self,
    {
        match self {
            Node::External(k) => k@,
            Node::Internal(inner) => if inner.side_of(key) == 0 {
                inner.children.0.walk_leaf(key)
            } else {
                inner.children.1.walk_leaf(key)
            },
        }
    }

    /// Structural invariant of a crit-bit subtree. Every key fits the bit
    /// addressing. Under a bit node, the keys of the 0-side (1-side) child
    /// have a 0 (1) at the crit bit and all keys agree on every bit above it.
    /// Under a length node, all keys hold the same bits, the crit bit is a
    /// byte boundary `8 * m`, the 0-side key has `m` bytes and the 1-side keys
    /// more.
    pub open spec fn wf(self) -> bool
        decreases self,
    {
        match self {
            Node::External(k) => k@.len() <= max_key_len(),
            Node::Internal(inner) => {
                let c = inner.crit_bit as nat;
                &&& inner.children.0.wf()
                &&& inner.children.1.wf()
                &&& if inner.by_length {
                    &&& c % 8 == 0
                    &&& forall|k: Seq<u8>| #[trigger]
                        inner.children.0.keys().contains(k) ==> k.len() == c / 8
                    &&& forall|k: Seq<u8>| #[trigger]
                        inner.children.1.keys().contains(k) ==> k.len() > c / 8
                    &&& forall|x: Seq<u8>, y: Seq<u8>|
                        #![trigger self.keys().contains(x), self.keys().contains(y)]
                        self.keys().contains(x) && self.keys().contains(y) ==> same_bits(x, y)
                } else {
                    &&& forall|k: Seq<u8>| #[trigger]
                        inner.children.0.keys().contains(k) ==> key_bit(k, c) == 0
                    &&& forall|k: Seq<u8>| #[trigger]
                        inner.children.1.keys().contains(k) ==> key_bit(k, c) == 1
                    &&& forall|x: Seq<u8>, y: Seq<u8>|
                        #![trigger self.keys().contains(x), self.keys().contains(y)]
                        self.keys().contains(x) && self.keys().contains(y) ==> agree_above(
                            x,
                            y,
                            c,
                        )
                }
            },
        }
    }
}

/// The keys of `keys` that start with `prefix`.
pub open spec fn with_prefix(keys: Set<Seq<u8>>, prefix: Seq<u8>) -> Set<Seq<u8>> {
    keys.filter(|k: Seq<u8>| prefix.is_prefix_of(k))
}

/// The byte strings that a sequence of slices points at.
pub open spec fn slices_view(s: Seq<&[u8]>) -> Seq<Seq<u8>> {
    s.map_values(|x: &[u8]| x@)
}

proof fn lemma_walk_in_keys(n: Node, key: Seq<u8>)
    ensures
        n.keys().contains(n.walk_leaf(key)),
    decreases n,
{
    if let Node::Internal(inner) = n {
        lemma_walk_in_keys(inner.children.0, key);
        lemma_walk_in_keys(inner.children.1, key);
    }
}

proof fn lemma_walk_finds(n: Node, key: Seq<u8>)
    requires
        n.wf(),
        n.keys().contains(key),
    ensures
        n.walk_leaf(key) == key,
    decreases n,
{
    if let Node::Internal(inner) = n {
        if inner.children.0.keys().contains(key) {
            lemma_walk_finds(inner.children.0, key);
        } else {
            lemma_walk_finds(inner.children.1, key);
        }
    }
}

proof fn lemma_keys_finite(n: Node)
    ensures
        n.keys().finite(),
    decreases n,
{
    if let Node::Internal(inner) = n {
        lemma_keys_finite(inner.children.0);
        lemma_keys_finite(inner.children.1);
    }
}

proof fn lemma_keys_short(n: Node)
    requires
        n.wf(),
    ensures
        forall|k: Seq<u8>| #[trigger] n.keys().contains(k) ==> k.len() <= max_key_len(),
    decreases n,
{
    match n {
        Node::Internal(inner) => {
            lemma_keys_short(inner.children.0);
            lemma_keys_short(inner.children.1);
            assert forall|x: Seq<u8>| #[trigger] n.keys().contains(x) implies x.len() <= max_key_len() by {
                if inner.children.0.keys().contains(x) {
                } else {
                    assert(inner.children.1.keys().contains(x));
                }
            }
        },
        Node::External(k) => {
            assert forall|x: Seq<u8>| #[trigger] n.keys().contains(x) implies x.len() <= max_key_len() by {
                assert(set![k@].contains(x) ==> x == k@);
            }
        },
    }
}

/// The two children of a well-formed internal node hold disjoint keys.
proof fn lemma_children_disjoint(inner: InternalNode, k: Seq<u8>)
    requires
        Node::Internal(Box::new(inner)).wf(),
    ensures
        !(inner.children.0.keys().contains(k) && inner.children.1.keys().contains(k)),
{
}

proof fn lemma_leaves(n: Node)
    requires
        n.wf(),
    ensures
        n.leaves().no_duplicates(),
        forall|k: Seq<u8>| n.leaves().contains(k) <==> #[trigger] n.keys().contains(k),
    decreases n,
{
    if let Node::Internal(inner) = n {
        let l0 = inner.children.0.leaves();
        let l1 = inner.children.1.leaves();
        lemma_leaves(inner.children.0);
        lemma_leaves(inner.children.1);
        assert forall|i: int, j: int| 0 <= i < l0.len() && 0 <= j < l1.len() implies l0[i]
            != l1[j] by {
            assert(l0.contains(l0[i]));
            assert(l1.contains(l1[j]));
            lemma_children_disjoint(*inner, l0[i]);
        }
        vstd::seq_lib::lemma_no_dup_in_concat(l0, l1);
        assert forall|k: Seq<u8>| n.leaves().contains(k) <==> #[trigger] n.keys().contains(k) by {
            if n.leaves().contains(k) {
                let i = choose|i: int| 0 <= i < n.leaves().len() && n.leaves()[i] == k;
                if i < l0.len() {
                    assert(l0.contains(l0[i]));
                } else {
                    assert(l1[i - l0.len()] == k);
                    assert(l1.contains(l1[i - l0.len()]));
                }
            }
            if inner.children.0.keys().contains(k) {
                let i = choose|i: int| 0 <= i < l0.len() && l0[i] == k;
                assert((l0 + l1)[i] == k);
            }
            if inner.children.1.keys().contains(k) {
                let i = choose|i: int| 0 <= i < l1.len() && l1[i] == k;
                assert((l0 + l1)[l0.len() + i] == k);
            }
        }
    } else if let Node::External(kk) = n {
        assert forall|k: Seq<u8>| n.leaves().contains(k) <==> #[trigger] n.keys().contains(k) by {
            assert(set![kk@].contains(k) <==> k == kk@);
            if k == kk@ {
                assert(seq![kk@][0] == k);
            }
        }
    }
}

/// The side (0 or 1) that `key` takes at `inner`.
fn side_of(inner: &InternalNode, key: &[u8]) -> (side: usize)
    ensures
        side == inner.side_of(key@),
        side <= 1,
{
    if inner.by_length {
        if key.len() > inner.crit_bit / 8 {
            1
        } else {
            0
        }
    } else {
        get_bit(key, inner.crit_bit)
    }
}

/// The child on `side` (0 or 1) of an internal node.
fn child_ref(inner: &InternalNode, side: usize) -> (c: &Node)
    ensures
        *c == inner.child(side as int),
{
    if side == 0 {
        &inner.children.0
    } else {
        &inner.children.1
    }
}

/// Whether two byte strings are equal.
fn bytes_equal(a: &[u8], b: &[u8]) -> (eq: bool)
    ensures
        eq == (a@ == b@),
{
    if a.len() != b.len() {
        return false;
    }
    let mut i: usize = 0;
    while i < a.len()
        invariant
            a@.len() == b@.len(),
            i <= a@.len(),
            forall|j: int| 0 <= j < i ==> a@[j] == b@[j],
        decreases a@.len() - i,
    {
        if a[i] != b[i] {
            return false;
        }
        i = i + 1;
    }
    assert(a@ =~= b@);
    true
}

/// Whether `key` starts with `prefix`.
fn starts_with(key: &[u8], prefix: &[u8]) -> (yes: bool)
    ensures
        yes == prefix@.is_prefix_of(key@),
{
    if prefix.len() > key.len() {
        return false;
    }
    let mut i: usize = 0;
    while i < prefix.len()
        invariant
            prefix@.len() <= key@.len(),
            i <= prefix@.len(),
            forall|j: int| 0 <= j < i ==> prefix@[j] == key@[j],
        decreases prefix@.len() - i,
    {
        if prefix[i] != key[i] {
            assert(prefix@[i as int] != key@.subrange(0, prefix@.len() as int)[i as int]);
            return false;
        }
        i = i + 1;
    }
    assert(prefix@ =~= key@.subrange(0, prefix@.len() as int));
    true
}

/// A crit-bit tree holding a set of byte-string keys.
pub struct CritBitTree {
    root: Option<Node>,
}

impl CritBitTree {
    /// The keys stored in the tree.
    pub closed spec fn keys(self) -> Set<Seq<u8>> {
        match self.root {
            None => Set::empty(),
            Some(n) => n.keys(),
        }
    }

    #[verifier::type_invariant]
    spec fn inv(self) -> bool {
        match self.root {
            None => true,
            Some(n) => n.wf(),
        }
    }
}

impl View for CritBitTree {
    type V = Set<Seq<u8>>;

    open spec fn view(&self) -> Set<Seq<u8>> {
        self.keys()
    }
}

impl CritBitTree {
    /// An empty tree.
    pub fn new() -> (tree: Self)
        ensures
            tree@ == Set::<Seq<u8>>::empty(),
            tree@.finite(),
    {
        CritBitTree { root: None }
    }

    /// Whether the tree holds no key.
    pub fn is_empty(&self) -> (empty: bool)
        ensures
            empty == (self@ == Set::<Seq<u8>>::empty()),
            empty == (self@.len() == 0),
            self@.finite(),
    {
        if let Some(n) = &self.root {
            proof {
                lemma_keys_finite(*n);
                lemma_walk_in_keys(*n, Seq::empty());
                assert(self@.contains(n.walk_leaf(Seq::empty())));
            }
        }
        self.root.is_none()
    }

    /// Returns `true` if `key` is present in the tree.
    pub fn contains(&self, key: &[u8]) -> (found: bool)
        ensures
            found == self@.contains(key@),
    {
        proof {
            use_type_invariant(self);
        }
        match &self.root {
            None => false,
            Some(root) => {
                let leaf = Self::walk(root, key);
                proof {
                    lemma_walk_in_keys(*root, key@);
                    if root.keys().contains(key@) {
                        lemma_walk_finds(*root, key@);
                    }
                }
                bytes_equal(leaf, key)
            },
        }
    }

    /// Walks down the tree following `key` (its crit bits at bit nodes, its
    /// length at length nodes), returning the leaf it lands on. The leaf may
    /// differ from `key`: callers compare.
    fn walk<'a>(node: &'a Node, key: &[u8]) -> (leaf: &'a [u8])
        ensures
            leaf@ == node.walk_leaf(key@),
    {
        let mut cur = node;
        loop
            invariant
                cur.walk_leaf(key@) == node.walk_leaf(key@),
            decreases cur.height(),
        {
            match cur {
                Node::External(k) => {
                    return k.as_slice();
                },
                Node::Internal(inner) => {
                    let side = side_of(inner, key);
                    cur = child_ref(inner, side);
                },
            }
        }
    }
}

impl CritBitTree {
    /// Inserts `key` into the tree.
    ///
    /// Returns `true` if the key was newly inserted, `false` if it was
    /// already present.
    pub fn insert(&mut self, key: Vec<u8>) -> (inserted: bool)
        requires
            key@.len() <= max_key_len(),
        ensures
            inserted == !old(self)@.contains(key@),
            final(self)@ == old(self)@.insert(key@),
            final(self)@.finite(),
            !inserted ==> *final(self) == *old(self),
    {
        proof {
            use_type_invariant(&*self);
        }
        let mut taken = None;
        core::mem::swap(&mut taken, &mut self.root);
        // Case 1: empty tree — the new leaf becomes the root directly.
        let root = match taken {
            None => {
                let leaf = Node::External(key);
                proof {
                    assert(leaf.keys() =~= Set::<Seq<u8>>::empty().insert(key@));
                    lemma_keys_finite(leaf);
                }
                self.root = Some(leaf);
                return true;
            },
            Some(r) => r,
        };
        let ghost keys = root.keys();
        let ghost leaf = root.walk_leaf(key@);
        proof {
            lemma_walk_in_keys(root, key@);
            lemma_keys_short(root);
            if keys.contains(key@) {
                lemma_walk_finds(root, key@);
            }
        }
        // Case 2: find the best-candidate leaf and the bit where it splits from
        // `key`; note whether the two hold the same bits.
        let (crit, twins) = {
            let best_leaf = Self::walk(&root, key.as_slice());
            let crit = crit_bit_pos(best_leaf, key.as_slice());
            let twins = match crit {
                Some(cb) => get_bit(best_leaf, cb) == get_bit(key.as_slice(), cb),
                None => false,
            };
            (crit, twins)
        };
        match crit {
            None => {
                // Key already exists.
                self.root = Some(root);
                proof {
                    assert(keys.insert(key@) =~= keys);
                    lemma_keys_finite(root);
                }
                false
            },
            Some(cb) => {
                // Case 3: splice a new internal node into the path.
                let new_root = if twins {
                    Self::insert_twin(root, key, cb)
                } else {
                    let new_key_side = get_bit(key.as_slice(), cb);
                    Self::insert_node(root, key, cb, new_key_side)
                };
                proof {
                    lemma_keys_finite(new_root);
                }
                self.root = Some(new_root);
                true
            },
        }
    }

    /// A new bit node at `cb` with the leaf `key` on `new_key_side` and
    /// `other` on the opposite side.
    fn join(key: Vec<u8>, other: Node, cb: usize, new_key_side: usize) -> (res: Node)
        requires
            other.wf(),
            key@.len() <= max_key_len(),
            new_key_side == key_bit(key@, cb as nat),
            forall|k: Seq<u8>| #[trigger]
                other.keys().contains(k) ==> key_bit(k, cb as nat) != key_bit(key@, cb as nat)
                    && agree_above(k, key@, cb as nat),
        ensures
            res.wf(),
            res.keys() == other.keys().insert(key@),
    {
        let ghost kv = key@;
        let ghost o = other;
        let leaf = Node::External(key);
        let ghost lg = leaf;
        proof {
            assert(lg.keys() =~= set![kv]);
            assert(lg.wf());
        }
        let children = if new_key_side == 0 {
            (leaf, other)
        } else {
            (other, leaf)
        };
        let res = Node::Internal(Box::new(InternalNode { crit_bit: cb, by_length: false, children }));
        proof {
            let c = cb as nat;
            lemma_key_bit_is_binary(kv, c);
            assert forall|k: Seq<u8>| #[trigger] o.keys().contains(k) implies key_bit(k, c) == 1
                - key_bit(kv, c) by {
                lemma_bits_differ(k, c, kv, c);
            }
            assert(res.keys() =~= o.keys().insert(kv));
            assert forall|x: Seq<u8>, y: Seq<u8>|
                res.keys().contains(x) && res.keys().contains(y) implies agree_above(x, y, c) by {
                if x == kv && y == kv {
                } else if x == kv {
                    assert(o.keys().contains(y));
                    lemma_agree_above_trans(y, kv, kv, c, c);
                } else if y == kv {
                    assert(o.keys().contains(x));
                } else {
                    assert(o.keys().contains(x));
                    assert(o.keys().contains(y));
                    lemma_agree_above_trans(x, kv, y, c, c);
                }
            }
        }
        res
    }

    /// Splices `key` into the subtree `node` under a new bit node at `cb`,
    /// placed above the first node on the path that is a length node or a bit
    /// node with a crit bit lower than `cb`.
    fn insert_node(node: Node, key: Vec<u8>, cb: usize, new_key_side: usize) -> (res: Node)
        requires
            node.wf(),
            key@.len() <= max_key_len(),
            is_crit_bit(node.walk_leaf(key@), key@, cb as nat),
            new_key_side == key_bit(key@, cb as nat),
        ensures
            res.wf(),
            res.keys() == node.keys().insert(key@),
        decreases node,
    {
        let ghost kv = key@;
        let ghost n = node;
        let ghost leaf = node.walk_leaf(key@);
        let ghost c = cb as nat;
        proof {
            lemma_walk_in_keys(node, key@);
        }
        match node {
            Node::External(k) => {
                proof {
                    assert forall|x: Seq<u8>| #[trigger] n.keys().contains(x) implies key_bit(x, c)
                        != key_bit(kv, c) && agree_above(x, kv, c) by {
                        assert(set![k@].contains(x) ==> x == k@);
                    }
                }
                Self::join(key, Node::External(k), cb, new_key_side)
            },
            Node::Internal(inner) => {
                if inner.by_length || inner.crit_bit < cb {
                    // This node belongs below the new one: wrap it.
                    proof {
                        let ic = inner.crit_bit as nat;
                        assert forall|x: Seq<u8>| #[trigger] n.keys().contains(x) implies key_bit(
                            x,
                            c,
                        ) != key_bit(kv, c) && agree_above(x, kv, c) by {
                            if inner.by_length {
                                assert(same_bits(x, leaf));
                                assert(key_bit(x, c) == key_bit(leaf, c));
                                assert forall|i: nat| i > c implies #[trigger] key_bit(x, i)
                                    == key_bit(kv, i) by {
                                    assert(key_bit(x, i) == key_bit(leaf, i));
                                }
                            } else {
                                assert(agree_above(x, leaf, ic));
                                assert(key_bit(x, c) == key_bit(leaf, c));
                                lemma_agree_above_trans(x, leaf, kv, ic, c);
                            }
                        }
                    }
                    Self::join(key, Node::Internal(inner), cb, new_key_side)
                } else {
                    // Go deeper on the side matching the new key's bit at this node's crit bit.
                    let side = get_bit(key.as_slice(), inner.crit_bit);
                    let ghost ic = inner.crit_bit as nat;
                    let InternalNode { crit_bit, by_length, children } = *inner;
                    let (c0, c1) = children;
                    let ghost old_child = if side == 0 {
                        c0
                    } else {
                        c1
                    };
                    proof {
                        lemma_walk_in_keys(old_child, kv);
                        assert(old_child.walk_leaf(kv) == leaf);
                        assert(key_bit(leaf, ic) == key_bit(kv, ic));
                        assert(ic > c);
                    }
                    let res = if side == 0 {
                        let new_child = Self::insert_node(c0, key, cb, new_key_side);
                        Node::Internal(
                            Box::new(InternalNode { crit_bit, by_length, children: (new_child, c1) }),
                        )
                    } else {
                        let new_child = Self::insert_node(c1, key, cb, new_key_side);
                        Node::Internal(
                            Box::new(InternalNode { crit_bit, by_length, children: (c0, new_child) }),
                        )
                    };
                    proof {
                        assert(res.keys() =~= n.keys().insert(kv));
                        assert forall|x: Seq<u8>, y: Seq<u8>|
                            res.keys().contains(x) && res.keys().contains(y) implies agree_above(
                            x,
                            y,
                            ic,
                        ) by {
                            if x == kv && y == kv {
                            } else if x == kv {
                                assert(n.keys().contains(y));
                                assert(agree_above(leaf, y, ic));
                                lemma_agree_above_trans(kv, leaf, y, c, ic);
                            } else if y == kv {
                                assert(n.keys().contains(x));
                                assert(agree_above(x, leaf, ic));
                                lemma_agree_above_trans(x, leaf, kv, ic, c);
                            } else {
                                assert(n.keys().contains(x));
                                assert(n.keys().contains(y));
                            }
                        }
                    }
                    res
                }
            },
        }
    }

    /// A new length node at `cb` (a byte boundary) with the leaf `key` and
    /// `other`, whose keys hold the same bits as `key`: the key of exactly
    /// `cb / 8` bytes goes on side 0, the longer ones on side 1.
    fn join_twin(key: Vec<u8>, other: Node, cb: usize) -> (res: Node)
        requires
            other.wf(),
            key@.len() <= max_key_len(),
            cb % 8 == 0,
            forall|k: Seq<u8>| #[trigger] other.keys().contains(k) ==> same_bits(k, key@),
            key@.len() == cb / 8 ==> forall|k: Seq<u8>| #[trigger]
                other.keys().contains(k) ==> k.len() > cb / 8,
            key@.len() != cb / 8 ==> key@.len() > cb / 8 && forall|k: Seq<u8>| #[trigger]
                other.keys().contains(k) ==> k.len() == cb / 8,
        ensures
            res.wf(),
            res.keys() == other.keys().insert(key@),
    {
        let ghost kv = key@;
        let ghost o = other;
        let longer = key.len() > cb / 8;
        let leaf = Node::External(key);
        let ghost lg = leaf;
        proof {
            assert(lg.keys() =~= set![kv]);
            assert(lg.wf());
        }
        let children = if longer {
            (other, leaf)
        } else {
            (leaf, other)
        };
        let res = Node::Internal(Box::new(InternalNode { crit_bit: cb, by_length: true, children }));
        proof {
            assert(res.keys() =~= o.keys().insert(kv));
            assert forall|x: Seq<u8>, y: Seq<u8>|
                res.keys().contains(x) && res.keys().contains(y) implies same_bits(x, y) by {
                if x == kv && y == kv {
                } else if x == kv {
                    assert(o.keys().contains(y));
                    assert forall|i: nat| #[trigger] key_bit(x, i) == key_bit(y, i) by {
                        assert(key_bit(y, i) == key_bit(kv, i));
                    }
                } else if y == kv {
                    assert(o.keys().contains(x));
                } else {
                    assert(o.keys().contains(x));
                    assert(o.keys().contains(y));
                    assert forall|i: nat| #[trigger] key_bit(x, i) == key_bit(y, i) by {
                        assert(key_bit(y, i) == key_bit(kv, i));
                        assert(key_bit(x, i) == key_bit(kv, i));
                    }
                }
            }
        }
        res
    }

    /// Splices `key` into the subtree `node`, where the leaf that `key`
    /// walks to holds the same bits as `key` and a different length. The new
    /// length node at `cb` goes below every bit node on the path and below
    /// the length nodes whose crit bit is lower than `cb`.
    fn insert_twin(node: Node, key: Vec<u8>, cb: usize) -> (res: Node)
        requires
            node.wf(),
            key@.len() <= max_key_len(),
            same_bits(node.walk_leaf(key@), key@),
            node.walk_leaf(key@).len() != key@.len(),
            cb == 8 * min_len(node.walk_leaf(key@), key@),
        ensures
            res.wf(),
            res.keys() == node.keys().insert(key@),
        decreases node,
    {
        let ghost kv = key@;
        let ghost n = node;
        let ghost leaf = node.walk_leaf(key@);
        let ghost m = cb as nat / 8;
        proof {
            lemma_walk_in_keys(node, key@);
        }
        match node {
            Node::External(k) => {
                proof {
                    assert(n.keys() =~= set![leaf]);
                    assert forall|x: Seq<u8>| #[trigger] n.keys().contains(x) implies same_bits(x, kv) by {
                        assert(x == leaf);
                    }
                }
                Self::join_twin(key, Node::External(k), cb)
            },
            Node::Internal(inner) => {
                if inner.by_length && inner.crit_bit > cb {
                    // This length node splits longer keys: wrap it.
                    proof {
                        let im = inner.crit_bit as nat / 8;
                        assert(im > m);
                        assert forall|x: Seq<u8>| #[trigger] n.keys().contains(x) implies x.len() >= im by {
                            if !inner.children.0.keys().contains(x) {
                                assert(inner.children.1.keys().contains(x));
                            }
                        }
                        assert(leaf.len() >= im);
                        assert(kv.len() == m);
                        assert forall|x: Seq<u8>| #[trigger] n.keys().contains(x) implies same_bits(x, kv) && x.len() > m by {
                            assert(n.keys().contains(leaf));
                            assert(same_bits(x, leaf));
                            assert forall|i: nat| #[trigger] key_bit(x, i) == key_bit(kv, i) by {
                                assert(key_bit(x, i) == key_bit(leaf, i));
                            }
                        }
                    }
                    Self::join_twin(key, Node::Internal(inner), cb)
                } else {
                    // Go deeper on the side `key` takes at this node.
                    let side = side_of(&inner, key.as_slice());
                    let ghost ic = inner.crit_bit as nat;
                    let ghost inn = *inner;
                    let InternalNode { crit_bit, by_length, children } = *inner;
                    let (c0, c1) = children;
                    let ghost old_child = if side == 0 {
                        c0
                    } else {
                        c1
                    };
                    proof {
                        lemma_walk_in_keys(old_child, kv);
                        assert(old_child.walk_leaf(kv) == leaf);
                        if by_length {
                            assert(ic / 8 != m);
                            assert(ic / 8 < m);
                            assert(side == 1);
                        }
                    }
                    let res = if side == 0 {
                        let new_child = Self::insert_twin(c0, key, cb);
                        Node::Internal(
                            Box::new(InternalNode { crit_bit, by_length, children: (new_child, c1) }),
                        )
                    } else {
                        let new_child = Self::insert_twin(c1, key, cb);
                        Node::Internal(
                            Box::new(InternalNode { crit_bit, by_length, children: (c0, new_child) }),
                        )
                    };
                    proof {
                        assert(res.keys() =~= n.keys().insert(kv));
                        if by_length {
                            assert forall|x: Seq<u8>, y: Seq<u8>|
                                res.keys().contains(x) && res.keys().contains(y) implies same_bits(x, y) by {
                                if x == kv || y == kv {
                                    let z = if x == kv { y } else { x };
                                    if z != kv {
                                        assert(n.keys().contains(z));
                                        assert(same_bits(z, leaf));
                                    }
                                    assert forall|i: nat| #[trigger] key_bit(x, i) == key_bit(y, i) by {
                                        assert(key_bit(z, i) == key_bit(leaf, i));
                                        assert(key_bit(kv, i) == key_bit(leaf, i));
                                    }
                                } else {
                                    assert(n.keys().contains(x));
                                    assert(n.keys().contains(y));
                                }
                            }
                        } else {
                            assert(key_bit(kv, ic) == key_bit(leaf, ic));
                            assert forall|x: Seq<u8>, y: Seq<u8>|
                                res.keys().contains(x) && res.keys().contains(y) implies agree_above(x, y, ic) by {
                                if x == kv || y == kv {
                                    let z = if x == kv { y } else { x };
                                    if z != kv {
                                        assert(n.keys().contains(z));
                                        assert(agree_above(z, leaf, ic));
                                    }
                                    assert forall|i: nat| i > ic implies #[trigger] key_bit(x, i) == key_bit(y, i) by {
                                        assert(key_bit(z, i) == key_bit(leaf, i));
                                        assert(key_bit(kv, i) == key_bit(leaf, i));
                                    }
                                } else {
                                    assert(n.keys().contains(x));
                                    assert(n.keys().contains(y));
                                }
                            }
                        }
                    }
                    res
                }
            },
        }
    }
}

/// The keys held by an optional subtree.
pub open spec fn opt_keys(n: Option<Node>) -> Set<Seq<u8>> {
    match n {
        None => Set::empty(),
        Some(n) => n.keys(),
    }
}

impl CritBitTree {
    /// Removes `key` from the tree.
    ///
    /// Returns `true` if the key was found and removed, `false` otherwise.
    pub fn delete(&mut self, key: &[u8]) -> (removed: bool)
        ensures
            removed == old(self)@.contains(key@),
            final(self)@ == old(self)@.remove(key@),
            final(self)@.finite(),
            !removed ==> *final(self) == *old(self),
    {
        proof {
            use_type_invariant(&*self);
        }
        let mut taken = None;
        core::mem::swap(&mut taken, &mut self.root);
        let root = match taken {
            None => {
                proof {
                    assert(old(self)@ =~= old(self)@.remove(key@));
                    assert(old(self)@ =~= Set::<Seq<u8>>::empty());
                }
                return false;
            },
            Some(r) => r,
        };
        match Self::delete_node(root, key) {
            (new_root, true) => {
                proof {
                    lemma_keys_finite(root);
                }
                self.root = new_root;
                true
            },
            (original, false) => {
                proof {
                    lemma_keys_finite(root);
                    assert(root.keys() =~= root.keys().remove(key@));
                }
                self.root = original;
                false
            },
        }
    }

    /// Returns `(new_subtree, found)`.
    ///
    /// When a leaf is deleted its parent inner node is replaced by the sibling,
    /// so the caller receives the replacement subtree directly. When `key` is
    /// absent the subtree comes back unchanged.
    fn delete_node(node: Node, key: &[u8]) -> (res: (Option<Node>, bool))
        requires
            node.wf(),
        ensures
            res.1 == node.keys().contains(key@),
            res.1 ==> opt_keys(res.0) == node.keys().remove(key@),
            res.1 ==> (res.0 matches Some(n) ==> n.wf()),
            !res.1 ==> res.0 == Some(node),
            node is Internal ==> res.0 is Some,
        decreases node,
    {
        let ghost n = node;
        let ghost kv = key@;
        match node {
            Node::External(k) => {
                if bytes_equal(k.as_slice(), key) {
                    proof {
                        assert(n.keys().remove(kv) =~= Set::empty());
                    }
                    (None, true)
                } else {
                    proof {
                        assert(!set![k@].contains(kv));
                    }
                    (Some(Node::External(k)), false)
                }
            },
            Node::Internal(inner) => {
                let side = side_of(&inner, key);
                let ghost ic = inner.crit_bit as nat;
                let target_is_key = match child_ref(&inner, side) {
                    Node::External(k) => bytes_equal(k.as_slice(), key),
                    Node::Internal(_) => false,
                };
                let InternalNode { crit_bit, by_length, children } = *inner;
                let (c0, c1) = children;
                let (target, sibling) = if side == 0 {
                    (c0, c1)
                } else {
                    (c1, c0)
                };
                let ghost tg = target;
                let ghost sb = sibling;
                proof {
                    lemma_key_bit_is_binary(kv, ic);
                    // `key` can only lie on its own side of the crit bit.
                    assert(!sb.keys().contains(kv));
                }
                if target_is_key {
                    proof {
                        assert(tg.keys() =~= set![kv]);
                        assert(n.keys().remove(kv) =~= sb.keys()) by {
                            assert forall|x: Seq<u8>| sb.keys().contains(x) implies x != kv by {}
                        }
                    }
                    return (Some(sibling), true);
                }
                let (new_child, found) = Self::delete_node(target, key);
                let new_child = new_child.unwrap();
                let ghost nc = new_child;
                let res = if side == 0 {
                    Node::Internal(
                        Box::new(InternalNode { crit_bit, by_length, children: (new_child, sibling) }),
                    )
                } else {
                    Node::Internal(
                        Box::new(InternalNode { crit_bit, by_length, children: (sibling, new_child) }),
                    )
                };
                proof {
                    if found {
                        assert(res.keys() =~= n.keys().remove(kv));
                        assert forall|x: Seq<u8>, y: Seq<u8>|
                            res.keys().contains(x) && res.keys().contains(y) implies (if by_length {
                                same_bits(x, y)
                            } else {
                                agree_above(x, y, ic)
                            }) by {
                            assert(n.keys().contains(x));
                            assert(n.keys().contains(y));
                        }
                    }
                }
                (Some(res), found)
            },
        }
    }
}

impl CritBitTree {
    /// Returns all keys in the tree that start with `prefix`, in no
    /// guaranteed order.
    pub fn prefix_collect<'a>(&'a self, prefix: &[u8]) -> (found: Vec<&'a [u8]>)
        ensures
            slices_view(found@).no_duplicates(),
            slices_view(found@).to_set() == with_prefix(self@, prefix@),
    {
        proof {
            use_type_invariant(self);
        }
        let root = match &self.root {
            None => {
                proof {
                    assert(with_prefix(self@, prefix@) =~= Set::empty());
                    assert(slices_view(Seq::<&[u8]>::empty()).to_set() =~= Set::empty());
                }
                return vec![];
            },
            Some(r) => r,
        };
        // Walk to the subtree that holds every key with this prefix.
        let mut node = root;
        loop
            invariant
                node.wf(),
                with_prefix(node.keys(), prefix@) == with_prefix(self@, prefix@),
            decreases node.height(),
        {
            match node {
                Node::External(k) => {
                    let ghost kv = k@;
                    proof {
                        assert(node.keys() == set![kv]);
                    }
                    if starts_with(k.as_slice(), prefix) {
                        let out = vec![k.as_slice()];
                        proof {
                            assert(slices_view(out@) =~= seq![kv]);
                            assert forall|y: Seq<u8>| #[trigger] slices_view(out@).to_set().contains(y)
                                <==> with_prefix(node.keys(), prefix@).contains(y) by {
                                if y == kv {
                                    assert(slices_view(out@)[0] == y);
                                }
                            }
                            assert(slices_view(out@).to_set() =~= with_prefix(node.keys(), prefix@));
                        }
                        return out;
                    } else {
                        let out: Vec<&'a [u8]> = vec![];
                        proof {
                            assert(slices_view(out@).to_set() =~= with_prefix(node.keys(), prefix@));
                        }
                        return out;
                    }
                },
                Node::Internal(inner) => {
                    // Below a length node, or once the crit bit lies past the
                    // prefix, every key of the subtree is collected and filtered.
                    if inner.by_length || inner.crit_bit / 8 >= prefix.len() {
                        let mut all: Vec<&'a [u8]> = Vec::new();
                        Self::collect_all(node, &mut all);
                        proof {
                            lemma_leaves(*node);
                            assert(slices_view(all@) =~= node.leaves());
                        }
                        return Self::keep_with_prefix(&all, prefix, Ghost(*node));
                    }
                    let bit = get_bit(prefix, inner.crit_bit);
                    let ghost c = inner.crit_bit as nat;
                    let next = child_ref(inner, bit);
                    proof {
                        assert forall|x: Seq<u8>| #[trigger]
                            with_prefix(node.keys(), prefix@).contains(x) implies next.keys().contains(x) by {
                            assert(prefix@.is_prefix_of(x));
                            assert(node.keys().contains(x));
                            let b = (c / 8) as int;
                            assert(b < prefix@.len());
                            assert(x[b] == x.subrange(0, prefix@.len() as int)[b]);
                            assert(key_byte(x, b) == key_byte(prefix@, b));
                            crate::bits::lemma_bytes_to_bits(x, prefix@, c);
                            assert(key_bit(x, c) == bit);
                            if bit == 0 {
                                if inner.children.1.keys().contains(x) {
                                    assert(key_bit(x, c) == 1);
                                }
                            } else {
                                if inner.children.0.keys().contains(x) {
                                    assert(key_bit(x, c) == 0);
                                }
                            }
                        }
                        assert(with_prefix(node.keys(), prefix@) =~= with_prefix(next.keys(), prefix@));
                    }
                    node = next;
                },
            }
        }
    }

    /// The slices of `all` that start with `prefix`, in their order in `all`.
    fn keep_with_prefix<'a>(all: &Vec<&'a [u8]>, prefix: &[u8], Ghost(node): Ghost<Node>) -> (out: Vec<&'a [u8]>)
        requires
            slices_view(all@) == node.leaves(),
            node.leaves().no_duplicates(),
            forall|k: Seq<u8>| node.leaves().contains(k) <==> #[trigger] node.keys().contains(k),
        ensures
            slices_view(out@).no_duplicates(),
            slices_view(out@).to_set() == with_prefix(node.keys(), prefix@),
    {
        let ghost av = slices_view(all@);
        let mut out: Vec<&'a [u8]> = Vec::new();
        let mut i: usize = 0;
        while i < all.len()
            invariant
                av == slices_view(all@),
                av.no_duplicates(),
                i <= all@.len(),
                slices_view(out@).no_duplicates(),
                forall|x: Seq<u8>| #[trigger] slices_view(out@).contains(x) <==> (av.subrange(0, i as int).contains(x)
                    && prefix@.is_prefix_of(x)),
            decreases all@.len() - i,
        {
            let ghost before = slices_view(out@);
            let ghost x = av[i as int];
            proof {
                assert(av.subrange(0, i as int + 1) =~= av.subrange(0, i as int).push(x));
            }
            let keep = starts_with(all[i], prefix);
            if keep {
                out.push(all[i]);
                proof {
                    assert(slices_view(out@) =~= before.push(x));
                    assert(!before.contains(x)) by {
                        if before.contains(x) {
                            assert(av.subrange(0, i as int).contains(x));
                            let j = choose|j: int| 0 <= j < i && av.subrange(0, i as int)[j] == x;
                            assert(av[j] == av[i as int]);
                        }
                    }
                }
            }
            proof {
                let after = slices_view(out@);
                let sub = av.subrange(0, i as int);
                let sub1 = av.subrange(0, i as int + 1);
                assert forall|y: Seq<u8>| #[trigger] after.contains(y) <==> (sub1.contains(y)
                    && prefix@.is_prefix_of(y)) by {
                    if sub1.contains(y) {
                        let j = choose|j: int| 0 <= j < sub1.len() && sub1[j] == y;
                        if j < i {
                            assert(sub[j] == y);
                        }
                    }
                    if sub.contains(y) {
                        let j = choose|j: int| 0 <= j < sub.len() && sub[j] == y;
                        assert(sub1[j] == y);
                    }
                    if keep {
                        if after.contains(y) {
                            let j = choose|j: int| 0 <= j < after.len() && after[j] == y;
                            if j < before.len() {
                                assert(before[j] == y);
                            }
                        }
                        if before.contains(y) {
                            let j = choose|j: int| 0 <= j < before.len() && before[j] == y;
                            assert(after[j] == y);
                        }
                        assert(after[before.len() as int] == x);
                        assert(sub1[i as int] == x);
                    } else {
                        if y == x {
                            assert(!prefix@.is_prefix_of(y));
                        }
                    }
                }
            }
            i = i + 1;
        }
        proof {
            assert(av.subrange(0, av.len() as int) =~= av);
            assert(slices_view(out@).to_set() =~= with_prefix(node.keys(), prefix@));
        }
        out
    }

    /// Appends every leaf of `node`'s subtree to `out`.
    fn collect_all<'a>(node: &'a Node, out: &mut Vec<&'a [u8]>)
        ensures
            slices_view(final(out)@) == slices_view(old(out)@) + node.leaves(),
        decreases node,
    {
        match node {
            Node::External(k) => {
                let ghost before = slices_view(out@);
                out.push(k.as_slice());
                proof {
                    assert(slices_view(out@) =~= before + node.leaves());
                }
            },
            Node::Internal(inner) => {
                let ghost before = slices_view(out@);
                Self::collect_all(&inner.children.0, out);
                Self::collect_all(&inner.children.1, out);
                proof {
                    assert(slices_view(out@) =~= before + node.leaves());
                }
            },
        }
    }
}

} // verus!
