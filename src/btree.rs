//! An order-parameterised B+Tree of `i32` keys, grown by node splitting.
//!
//! Keys live in the leaves. An internal node with `n` keys routes to `n + 1`
//! children, all of the same depth. A node that holds more keys than the
//! tree's order after an insert splits in two and hands a key up to its
//! parent: a leaf keeps a copy of that key in its new sibling, an internal
//! node gives it up, so that it keeps one child more than it has keys.
//! Equal keys are allowed.
use vstd::prelude::*;
use vstd::multiset::Multiset;

verus! {

broadcast use vstd::seq_lib::group_to_multiset_ensures;

/// The most keys a node may keep. An order of zero is treated as one, since a
/// node that receives a key must be able to hold it.
pub open spec fn key_cap(order: nat) -> nat {
    if order == 0 {
        1
    } else {
        order
    }
}

/// One level less.
pub open spec fn sub_one(d: nat) -> nat {
    (d - 1) as nat
}

/// The keys are in ascending order, equal keys side by side.
pub open spec fn ascending(s: Seq<i32>) -> bool {
    forall|i: int, j: int| 0 <= i < j < s.len() ==> s[i] <= s[j]
}

/// The B+Tree: a root that is absent until the first insert, and the order,
/// the largest number of keys that a node may hold.
#[derive(Debug)]
pub struct BPlusTree {
    root_node: Option<NodeType>,
    order: usize,
}

/// A node of the tree.
#[derive(Debug)]
pub enum NodeType {
    Leaf(LeafNode),
    Internal(InternalNode),
}

/// A leaf: its keys in ascending order, and a link to the following leaf,
/// meant for range scans and not yet set by inserts.
#[derive(Debug)]
pub struct LeafNode {
    order: usize,
    keys: Vec<i32>,
    next: Option<Box<LeafNode>>,
}

/// An internal node: `n` separating keys and `n + 1` children.
#[derive(Debug)]
pub struct InternalNode {
    order: usize,
    keys: Vec<i32>,
    children: Vec<NodeType>,
}

/// The keys held in the leaves of a sequence of nodes, left to right.
pub closed spec fn keys_of_nodes(s: Seq<NodeType>) -> Multiset<i32>
    decreases s,
{
    if s.len() == 0 {
        Multiset::empty()
    } else {
        keys_of_nodes(s.drop_last()).add(s.last().keys_of())
    }
}

/// The lower bound of child `j` of a node with separating keys `keys`
/// within the bounds `lo`, `hi`: the key before it, or `lo` for the first.
pub open spec fn lower(keys: Seq<i32>, j: int, lo: int) -> int {
    if j == 0 {
        lo
    } else {
        keys[j - 1] as int
    }
}

/// The upper bound of child `j`: the key after it, or `hi` for the last.
pub open spec fn upper(keys: Seq<i32>, j: int, hi: int) -> int {
    if j >= keys.len() {
        hi
    } else {
        keys[j] as int
    }
}

/// All of `s` lies between `lo` and `hi`, both included.
pub open spec fn within(s: Seq<i32>, lo: int, hi: int) -> bool {
    forall|j: int| 0 <= j < s.len() ==> lo <= #[trigger] s[j] <= hi
}

/// An internal node with these keys and children orders its keys: they
/// ascend, lie between `lo` and `hi`, and each child lies between the keys
/// on either side of it.
pub closed spec fn node_bounded(keys: Seq<i32>, children: Seq<NodeType>, lo: int, hi: int) -> bool
    decreases children,
{
    &&& ascending(keys)
    &&& within(keys, lo, hi)
    &&& forall|j: int|
        0 <= j < children.len() ==> (#[trigger] children[j]).bounded(
            lower(keys, j, lo),
            upper(keys, j, hi),
        )
}

impl NodeType {
    /// The keys held in the leaves below this node.
    pub closed spec fn keys_of(self) -> Multiset<i32>
        decreases self,
    {
        match self {
            NodeType::Leaf(l) => l.keys@.to_multiset(),
            NodeType::Internal(n) => keys_of_nodes(n.children@),
        }
    }

    /// The order that the node was made with.
    pub closed spec fn node_order(self) -> nat {
        match self {
            NodeType::Leaf(l) => l.order as nat,
            NodeType::Internal(n) => n.order as nat,
        }
    }

    /// The subtree is a search tree whose keys lie between `lo` and `hi`:
    /// leaf keys ascend, and internal nodes order their keys and children.
    pub closed spec fn bounded(self, lo: int, hi: int) -> bool
        decreases self,
    {
        match self {
            NodeType::Leaf(l) => ascending(l.keys@) && within(l.keys@, lo, hi),
            NodeType::Internal(n) => node_bounded(n.keys@, n.children@, lo, hi),
        }
    }

    /// An insert of `key` keeps the order: a subtree between `lo` and `hi`
    /// that takes a key between them stays between them; where it splits,
    /// the handed-up key lies between them, the node keeps what is up to it
    /// and the sibling what is from it on.
    pub open spec fn keeps_order(before: NodeType, after: NodeType, key: i32, r: Option<(i32, NodeType)>) -> bool {
        forall|lo: int, hi: int|
            #[trigger] before.bounded(lo, hi) && lo <= key <= hi ==> after.ordered_outcome(lo, hi, r)
    }

    /// After an insert between `lo` and `hi`: with no split the node lies
    /// between them; with a split the handed-up key does, the node lies up
    /// to it and the sibling from it on.
    pub open spec fn ordered_outcome(self, lo: int, hi: int, r: Option<(i32, NodeType)>) -> bool {
        match r {
            None => self.bounded(lo, hi),
            Some((k, sibling)) => {
                &&& lo <= k <= hi
                &&& self.bounded(lo, k as int)
                &&& sibling.bounded(k as int, hi)
            },
        }
    }

    /// The subtree is well formed for its own order and its height.
    pub open spec fn well_formed(self) -> bool {
        self.wf(self.node_order(), self.height())
    }

    /// What an insert of `key` into `before` leaves: `after` is well formed at
    /// the same order and height; with no split it holds the old keys and
    /// `key`, and with a split it holds them together with the new sibling,
    /// which is well formed at the same order and height.
    pub open spec fn insert_outcome(
        before: NodeType,
        after: NodeType,
        key: i32,
        r: Option<(i32, NodeType)>,
    ) -> bool {
        let o = before.node_order();
        let d = before.height();
        &&& after.wf(o, d)
        &&& match r {
            None => after.keys_of() =~= before.keys_of().insert(key),
            Some((_, sibling)) => {
                &&& sibling.wf(o, d)
                &&& after.keys_of().add(sibling.keys_of()) =~= before.keys_of().insert(key)
            },
        }
    }

    /// The number of levels down the leftmost path, this node included.
    pub closed spec fn height(self) -> nat
        decreases self,
    {
        match self {
            NodeType::Leaf(_) => 1,
            NodeType::Internal(n) => if n.children@.len() > 0 {
                1 + n.children@[0].height()
            } else {
                1
            },
        }
    }

    /// Every leaf below this node lies `d` levels down, this node being the first.
    pub closed spec fn leaves_at_depth(self, d: nat) -> bool
        decreases self,
    {
        match self {
            NodeType::Leaf(_) => d == 1,
            NodeType::Internal(n) => d > 1 && forall|i: int|
                0 <= i < n.children@.len() ==> (#[trigger] n.children@[i]).leaves_at_depth(sub_one(d)),
        }
    }

    /// No node in this subtree holds more than `k` keys.
    pub closed spec fn keys_at_most(self, k: nat) -> bool
        decreases self,
    {
        match self {
            NodeType::Leaf(l) => l.keys@.len() <= k,
            NodeType::Internal(n) => n.keys@.len() <= k && forall|i: int|
                0 <= i < n.children@.len() ==> (#[trigger] n.children@[i]).keys_at_most(k),
        }
    }

    /// The subtree is a well-formed part of a tree of the given order, with
    /// all its leaves `d` levels down.
    pub closed spec fn wf(self, order: nat, d: nat) -> bool
        decreases self,
    {
        match self {
            NodeType::Leaf(l) => {
                &&& d == 1
                &&& l.order == order
                &&& l.keys@.len() <= key_cap(order)
                &&& ascending(l.keys@)
            },
            NodeType::Internal(n) => {
                &&& d > 1
                &&& n.order == order
                &&& n.keys@.len() <= key_cap(order)
                &&& n.children@.len() == n.keys@.len() + 1
                &&& forall|i: int|
                    0 <= i < n.children@.len() ==> (#[trigger] n.children@[i]).wf(order, sub_one(d))
            },
        }
    }
}

/// The keys of two sequences of nodes, set one after the other, are the
/// keys of each.
proof fn lemma_keys_of_concat(a: Seq<NodeType>, b: Seq<NodeType>)
    ensures
        keys_of_nodes(a + b) =~= keys_of_nodes(a).add(keys_of_nodes(b)),
    decreases b.len(),
{
    if b.len() == 0 {
        assert(a + b =~= a);
    } else {
        lemma_keys_of_concat(a, b.drop_last());
        assert((a + b).drop_last() =~= a + b.drop_last());
        assert((a + b).last() == b.last());
    }
}

/// The keys of a single node are its own.
proof fn lemma_keys_of_single(n: NodeType)
    ensures
        keys_of_nodes(seq![n]) =~= n.keys_of(),
{
    assert(seq![n].drop_last() =~= Seq::<NodeType>::empty());
    assert(seq![n].last() == n);
    assert(keys_of_nodes(Seq::<NodeType>::empty()) == Multiset::<i32>::empty());
}

/// Splits the keys of a sequence of nodes at position `i`.
proof fn lemma_keys_of_split(s: Seq<NodeType>, i: int)
    requires
        0 <= i <= s.len(),
    ensures
        keys_of_nodes(s) =~= keys_of_nodes(s.subrange(0, i)).add(keys_of_nodes(s.subrange(i, s.len() as int))),
{
    assert(s =~= s.subrange(0, i) + s.subrange(i, s.len() as int));
    lemma_keys_of_concat(s.subrange(0, i), s.subrange(i, s.len() as int));
}

/// The keys of a sequence of nodes are those of the node at `i` and those of
/// the others.
proof fn lemma_keys_of_at(s: Seq<NodeType>, i: int)
    requires
        0 <= i < s.len(),
    ensures
        keys_of_nodes(s) =~= keys_of_nodes(s.subrange(0, i)).add(s[i].keys_of()).add(
            keys_of_nodes(s.subrange(i + 1, s.len() as int)),
        ),
{
    let a = s.subrange(0, i);
    let c = s.subrange(i + 1, s.len() as int);
    assert(s =~= a + seq![s[i]] + c);
    lemma_keys_of_concat(a + seq![s[i]], c);
    lemma_keys_of_concat(a, seq![s[i]]);
    lemma_keys_of_single(s[i]);
}

impl NodeType {
    /// A well-formed subtree has its leaves at one depth, the depth it was
    /// formed with, and no node in it over the key cap.
    proof fn lemma_wf_shape(self, order: nat, d: nat)
        requires
            self.wf(order, d),
        ensures
            self.leaves_at_depth(d),
            self.keys_at_most(key_cap(order)),
            self.height() == d,
            self.node_order() == order,
        decreases self,
    {
        if let NodeType::Internal(n) = self {
            let e = sub_one(d);
            assert forall|i: int| 0 <= i < n.children@.len() implies {
                &&& (#[trigger] n.children@[i]).leaves_at_depth(e)
                &&& n.children@[i].keys_at_most(key_cap(order))
                &&& n.children@[i].height() == e
            } by {
                n.children@[i].lemma_wf_shape(order, e);
            }
            assert(n.children@[0].leaves_at_depth(e));
        }
    }
}

/// Inserting `key` at a position with no greater key before it and no
/// smaller or equal key after it keeps a sequence ascending.
proof fn lemma_insert_ascending(s: Seq<i32>, i: int, key: i32)
    requires
        ascending(s),
        0 <= i <= s.len(),
        forall|j: int| 0 <= j < i ==> s[j] <= key,
        forall|j: int| i <= j < s.len() ==> key < s[j],
    ensures
        ascending(s.insert(i, key)),
{
    let t = s.insert(i, key);
    assert forall|a: int, b: int| 0 <= a < b < t.len() implies t[a] <= t[b] by {
        if b < i {
        } else if b == i {
        } else if a < i {
        } else if a == i {
        } else {
        }
    }
}


/// How a leaf takes in `key`: `all`, the old keys and `key` in ascending
/// order, stays whole while it fits the order; else its lower half stays,
/// and the upper half, from the middle key on, goes to a new leaf that is
/// handed up with the middle key.
pub open spec fn leaf_insert_shape(
    before: Seq<i32>,
    key: i32,
    order: nat,
    after: Seq<i32>,
    r: Option<(i32, NodeType)>,
) -> bool {
    exists|all: Seq<i32>|
        {
            &&& ascending(all)
            &&& #[trigger] all.to_multiset() == before.to_multiset().insert(key)
            &&& all.len() == before.len() + 1
            &&& all.len() <= order ==> r is None && after == all
            &&& all.len() > order ==> {
                let m = all.len() / 2;
                &&& after == all.subrange(0, m as int)
                &&& r matches Some((k, NodeType::Leaf(sib)))
                &&& k == all[m as int]
                &&& sib.spec_keys() == all.subrange(m as int, all.len() as int)
                &&& sib.spec_order() == order
            }
        }
}

/// The child that a key goes down to: the first whose separating key is not
/// below it, or the last.
pub open spec fn route(keys: Seq<i32>, key: i32, i: int) -> bool {
    &&& 0 <= i <= keys.len()
    &&& forall|j: int| 0 <= j < i ==> keys[j] < key
    &&& i < keys.len() ==> key <= keys[i]
}

/// How an internal node takes in `key`: it goes down to the routed child,
/// which becomes `c`; a sibling that child hands up comes in right after it,
/// with its key. While the keys then fit the order nothing more happens;
/// else the middle key goes up, and the keys and children after it go to a
/// new node.
pub open spec fn internal_insert_shape(before: InternalNode, key: i32, after: InternalNode, r: Option<(i32, NodeType)>) -> bool {
    exists|i: int, c: NodeType, up: Option<(i32, NodeType)>|
        {
            let keys = match up {
                None => before.spec_keys(),
                Some((k, _)) => before.spec_keys().insert(i, k),
            };
            let children = children_after(before.spec_children(), i, c, sibling_of(up));
            &&& route(before.spec_keys(), key, i)
            &&& #[trigger] NodeType::insert_outcome(before.spec_children()[i], c, key, up)
            &&& after.spec_order() == before.spec_order()
            &&& keys.len() <= before.spec_order() ==> {
                &&& r is None
                &&& after.spec_keys() == keys
                &&& after.spec_children() == children
            }
            &&& keys.len() > before.spec_order() ==> {
                let m = (keys.len() / 2) as int;
                &&& after.spec_keys() == keys.subrange(0, m)
                &&& after.spec_children() == children.subrange(0, m + 1)
                &&& r matches Some((k, NodeType::Internal(sib)))
                &&& k == keys[m]
                &&& sib.spec_keys() == keys.subrange(m + 1, keys.len() as int)
                &&& sib.spec_children() == children.subrange(m + 1, children.len() as int)
                &&& sib.spec_order() == before.spec_order()
            }
        }
}

/// How a node takes in `key`, by its kind.
pub open spec fn node_insert_shape(before: NodeType, key: i32, after: NodeType, r: Option<(i32, NodeType)>) -> bool {
    match before {
        NodeType::Leaf(l) => after matches NodeType::Leaf(l2) && l2.spec_order() == l.spec_order()
            && leaf_insert_shape(l.spec_keys(), key, l.spec_order() as nat, l2.spec_keys(), r),
        NodeType::Internal(n) => after matches NodeType::Internal(n2) && internal_insert_shape(
            n,
            key,
            n2,
            r,
        ),
    }
}


/// Splitting an ordered node at key `m`: the key lies within the node's
/// bounds, the part before it is ordered up to it, and the part after it is
/// ordered from it on.
proof fn lemma_split_bounds(keys: Seq<i32>, children: Seq<NodeType>, lo: int, hi: int, m: int)
    requires
        node_bounded(keys, children, lo, hi),
        children.len() == keys.len() + 1,
        0 <= m < keys.len(),
    ensures
        lo <= keys[m] <= hi,
        node_bounded(keys.subrange(0, m), children.subrange(0, m + 1), lo, keys[m] as int),
        node_bounded(
            keys.subrange(m + 1, keys.len() as int),
            children.subrange(m + 1, children.len() as int),
            keys[m] as int,
            hi,
        ),
{
    let k = keys[m] as int;
    let kl = keys.subrange(0, m);
    let cl = children.subrange(0, m + 1);
    let kr = keys.subrange(m + 1, keys.len() as int);
    let cr = children.subrange(m + 1, children.len() as int);
    assert(lo <= keys[m] <= hi);
    assert forall|j: int| 0 <= j < cl.len() implies (#[trigger] cl[j]).bounded(lower(kl, j, lo), upper(kl, j, k)) by {
        assert(cl[j] == children[j]);
        assert(children[j].bounded(lower(keys, j, lo), upper(keys, j, hi)));
    }
    assert forall|j: int| 0 <= j < cr.len() implies (#[trigger] cr[j]).bounded(lower(kr, j, k), upper(kr, j, hi)) by {
        assert(cr[j] == children[j + m + 1]);
        assert(children[j + m + 1].bounded(lower(keys, j + m + 1, lo), upper(keys, j + m + 1, hi)));
    }
    assert(within(kl, lo, k)) by {
        assert forall|j: int| 0 <= j < kl.len() implies lo <= #[trigger] kl[j] <= k by {
            assert(kl[j] == keys[j]);
        }
    }
    assert(within(kr, k, hi)) by {
        assert forall|j: int| 0 <= j < kr.len() implies k <= #[trigger] kr[j] <= hi by {
            assert(kr[j] == keys[j + m + 1]);
        }
    }
}

/// The keys of an internal node after the routed child `i` took in what it
/// handed up, if anything.
pub open spec fn keys_after(keys: Seq<i32>, i: int, up: Option<(i32, NodeType)>) -> Seq<i32> {
    match up {
        None => keys,
        Some((k, _)) => keys.insert(i, k),
    }
}

/// A child that stays within its bounds, or splits within them, leaves its
/// ordered parent ordered once the parent takes in what it handed up.
proof fn lemma_absorb_bounds(
    keys: Seq<i32>,
    children: Seq<NodeType>,
    lo: int,
    hi: int,
    i: int,
    c: NodeType,
    up: Option<(i32, NodeType)>,
)
    requires
        node_bounded(keys, children, lo, hi),
        children.len() == keys.len() + 1,
        0 <= i <= keys.len(),
        up is None ==> c.bounded(lower(keys, i, lo), upper(keys, i, hi)),
        up matches Some((k, x)) ==> {
            &&& lower(keys, i, lo) <= k <= upper(keys, i, hi)
            &&& c.bounded(lower(keys, i, lo), k as int)
            &&& x.bounded(k as int, upper(keys, i, hi))
        },
    ensures
        node_bounded(keys_after(keys, i, up), children_after(children, i, c, sibling_of(up)), lo, hi),
{
    let nk = keys_after(keys, i, up);
    let nc = children_after(children, i, c, sibling_of(up));
    match up {
        None => {
            assert forall|j: int| 0 <= j < nc.len() implies (#[trigger] nc[j]).bounded(lower(nk, j, lo), upper(nk, j, hi)) by {
                if j != i {
                    assert(nc[j] == children[j]);
                    assert(children[j].bounded(lower(keys, j, lo), upper(keys, j, hi)));
                }
            }
        },
        Some((k, x)) => {
            assert(ascending(nk)) by {
                assert forall|a: int, b: int| 0 <= a < b < nk.len() implies nk[a] <= nk[b] by {
                    if a < i && b > i {
                        assert(keys[a] <= keys[b - 1]);
                    }
                }
            }
            assert forall|j: int| 0 <= j < nc.len() implies (#[trigger] nc[j]).bounded(lower(nk, j, lo), upper(nk, j, hi)) by {
                if j < i {
                    assert(nc[j] == children[j]);
                    assert(children[j].bounded(lower(keys, j, lo), upper(keys, j, hi)));
                } else if j > i + 1 {
                    assert(nc[j] == children[j - 1]);
                    assert(children[j - 1].bounded(lower(keys, j - 1, lo), upper(keys, j - 1, hi)));
                }
            }
        },
    }
}

/// The routed child of an ordered node lies between the keys around it, and
/// so does a key routed to it.
proof fn lemma_routed_child_bounds(keys: Seq<i32>, children: Seq<NodeType>, lo: int, hi: int, key: i32, i: int)
    requires
        node_bounded(keys, children, lo, hi),
        children.len() == keys.len() + 1,
        lo <= key <= hi,
        route(keys, key, i),
    ensures
        children[i].bounded(lower(keys, i, lo), upper(keys, i, hi)),
        lower(keys, i, lo) <= key <= upper(keys, i, hi),
{
    assert(children[i].bounded(lower(keys, i, lo), upper(keys, i, hi)));
}

impl LeafNode {
    /// An empty leaf of the given order.
    pub fn new(order: usize) -> (r: Self)
        ensures
            r.spec_order() == order,
            r.spec_keys() == Seq::<i32>::empty(),
            r.spec_next() is None,
            NodeType::Leaf(r).well_formed(),
    {
        let r = Self { order, keys: Vec::new(), next: None };
        proof {
            NodeType::Leaf(r).lemma_wf_shape(order as nat, 1);
        }
        r
    }

    /// The link to the following leaf.
    pub closed spec fn spec_next(&self) -> Option<Box<LeafNode>> {
        self.next
    }

    /// The order the leaf was made with.
    pub closed spec fn spec_order(&self) -> usize {
        self.order
    }

    /// The leaf's keys.
    pub closed spec fn spec_keys(&self) -> Seq<i32> {
        self.keys@
    }

    /// Inserts `key` in ascending position; where the leaf then holds more
    /// keys than its order, the upper half, from the middle key on, moves to
    /// a new leaf, and the middle key is handed up with it.
    pub fn insert(&mut self, key: i32) -> (r: Option<(i32, NodeType)>)
        requires
            NodeType::Leaf(*old(self)).well_formed(),
        ensures
            NodeType::insert_outcome(NodeType::Leaf(*old(self)), NodeType::Leaf(*final(self)), key, r),
            leaf_insert_shape(
                old(self).spec_keys(),
                key,
                old(self).spec_order() as nat,
                final(self).spec_keys(),
                r,
            ),
            final(self).spec_order() == old(self).spec_order(),
            NodeType::keeps_order(NodeType::Leaf(*old(self)), NodeType::Leaf(*final(self)), key, r),
    {
        let ghost o = self.order as nat;
        let len = self.keys.len();
        let mut i: usize = 0;
        while i < len && self.keys[i] <= key
            invariant
                self.keys@ == old(self).keys@,
                len == self.keys@.len(),
                i <= len,
                forall|j: int| 0 <= j < i ==> self.keys@[j] <= key,
            decreases len - i,
        {
            i += 1;
        }
        proof {
            lemma_insert_ascending(self.keys@, i as int, key);
        }
        self.keys.insert(i, key);
        let ghost all = self.keys@;
        assert(all.to_multiset() == old(self).keys@.to_multiset().insert(key));
        assert forall|lo: int, hi: int|
            #[trigger] NodeType::Leaf(*old(self)).bounded(lo, hi) && lo <= key <= hi implies within(
                all,
                lo,
                hi,
            ) by {
            assert forall|j: int| 0 <= j < all.len() implies lo <= #[trigger] all[j] <= hi by {
                if j < i {
                    assert(all[j] == old(self).keys@[j]);
                } else if j > i {
                    assert(all[j] == old(self).keys@[j - 1]);
                }
            }
        }
        if self.keys.len() > self.order {
            let mid = self.keys.len() / 2;
            let mid_key = self.keys[mid];
            let upper = self.keys.split_off(mid);
            proof {
                assert(all =~= self.keys@ + upper@);
                vstd::seq_lib::lemma_multiset_commutative(self.keys@, upper@);
            }
            let sibling = LeafNode { order: self.order, keys: upper, next: None };
            assert forall|lo: int, hi: int|
                #[trigger] NodeType::Leaf(*old(self)).bounded(lo, hi) && lo <= key <= hi implies NodeType::Leaf(
                    *self,
                ).ordered_outcome(lo, hi, Some((mid_key, NodeType::Leaf(sibling)))) by {
                assert(within(all, lo, hi));
                assert forall|j: int| 0 <= j < self.keys@.len() implies lo <= #[trigger] self.keys@[j] <= mid_key by {
                    assert(self.keys@[j] == all[j]);
                }
                assert forall|j: int| 0 <= j < sibling.keys@.len() implies mid_key <= #[trigger] sibling.keys@[j] <= hi by {
                    assert(sibling.keys@[j] == all[j + mid]);
                }
            }
            Some((mid_key, NodeType::Leaf(sibling)))
        } else {
            None
        }
    }
}

/// The node handed up by an insert, if any.
pub open spec fn sibling_of(r: Option<(i32, NodeType)>) -> Option<NodeType> {
    match r {
        None => None,
        Some((_, x)) => Some(x),
    }
}

/// All nodes of `s` are well formed at order `o` and depth `e`.
pub open spec fn all_wf(s: Seq<NodeType>, o: nat, e: nat) -> bool {
    forall|j: int| 0 <= j < s.len() ==> (#[trigger] s[j]).wf(o, e)
}

/// The children after child `i` took in `key`: the child replaced by what it
/// became, and the sibling it handed up, if any, set right after it.
pub open spec fn children_after(s: Seq<NodeType>, i: int, c: NodeType, sibling: Option<NodeType>) -> Seq<NodeType> {
    match sibling {
        None => s.update(i, c),
        Some(x) => s.update(i, c).insert(i + 1, x),
    }
}

/// Replacing a child by the outcome of an insert into it keeps every child
/// well formed and adds the key to the children's keys.
proof fn lemma_replace_child(
    s: Seq<NodeType>,
    i: int,
    key: i32,
    c: NodeType,
    sibling: Option<NodeType>,
    o: nat,
    e: nat,
)
    requires
        0 <= i < s.len(),
        all_wf(s, o, e),
        c.wf(o, e),
        sibling matches Some(x) ==> x.wf(o, e),
        sibling is None ==> c.keys_of() =~= s[i].keys_of().insert(key),
        sibling matches Some(x) ==> c.keys_of().add(x.keys_of()) =~= s[i].keys_of().insert(key),
    ensures
        all_wf(children_after(s, i, c, sibling), o, e),
        keys_of_nodes(children_after(s, i, c, sibling)) =~= keys_of_nodes(s).insert(key),
{
    let t = children_after(s, i, c, sibling);
    let rest = s.subrange(i + 1, s.len() as int);
    lemma_keys_of_at(s, i);
    let s1 = s.update(i, c);
    assert(s1.subrange(0, i) =~= s.subrange(0, i));
    assert(s1.subrange(i + 1, s1.len() as int) =~= rest);
    lemma_keys_of_at(s1, i);
    match sibling {
        None => {
            assert(keys_of_nodes(t) =~= keys_of_nodes(s).insert(key));
        },
        Some(x) => {
            assert(t.subrange(0, i) =~= s.subrange(0, i));
            assert(t.subrange(i + 1, t.len() as int) =~= seq![x] + rest);
            lemma_keys_of_concat(seq![x], rest);
            lemma_keys_of_single(x);
            assert(t[i] == c);
            lemma_keys_of_at(t, i);
            let ks = keys_of_nodes(s.subrange(0, i));
            let kr = keys_of_nodes(rest);
            assert(keys_of_nodes(t.subrange(i + 1, t.len() as int)) =~= x.keys_of().add(kr));
            assert(keys_of_nodes(t) =~= ks.add(c.keys_of()).add(x.keys_of().add(kr)));
            assert(keys_of_nodes(s) =~= ks.add(s[i].keys_of()).add(kr));
            assert forall|v: i32| #[trigger] keys_of_nodes(t).count(v) == keys_of_nodes(s).insert(key).count(v) by {
                assert(c.keys_of().add(x.keys_of()).count(v) == s[i].keys_of().insert(key).count(v));
            }
            assert(keys_of_nodes(t) =~= keys_of_nodes(s).insert(key));
        },
    }
    assert forall|j: int| 0 <= j < t.len() implies (#[trigger] t[j]).wf(o, e) by {
        if j < i {
            assert(t[j] == s[j]);
        } else if j > i + 1 || (j == i + 1 && sibling is None) {
            assert(t[j] == s[j - t.len() + s.len()]);
        }
    }
}

/// Splitting children at `m` keeps both parts well formed and shares out
/// their keys.
proof fn lemma_split_children(s: Seq<NodeType>, m: int, o: nat, e: nat)
    requires
        0 <= m <= s.len(),
        all_wf(s, o, e),
    ensures
        all_wf(s.subrange(0, m), o, e),
        all_wf(s.subrange(m, s.len() as int), o, e),
        keys_of_nodes(s) =~= keys_of_nodes(s.subrange(0, m)).add(keys_of_nodes(s.subrange(m, s.len() as int))),
{
    lemma_keys_of_split(s, m);
    let a = s.subrange(0, m);
    let b = s.subrange(m, s.len() as int);
    assert forall|j: int| 0 <= j < a.len() implies (#[trigger] a[j]).wf(o, e) by {
        assert(a[j] == s[j]);
    }
    assert forall|j: int| 0 <= j < b.len() implies (#[trigger] b[j]).wf(o, e) by {
        assert(b[j] == s[j + m]);
    }
}

impl InternalNode {
    /// An empty internal node of the given order.
    pub fn new(order: usize) -> (r: Self)
        ensures
            r.spec_order() == order,
            r.spec_keys() == Seq::<i32>::empty(),
            r.spec_children() == Seq::<NodeType>::empty(),
    {
        Self { order, keys: Vec::new(), children: Vec::new() }
    }

    /// The order the node was made with.
    pub closed spec fn spec_order(&self) -> usize {
        self.order
    }

    /// The node's separating keys.
    pub closed spec fn spec_keys(&self) -> Seq<i32> {
        self.keys@
    }

    /// The node's children.
    pub closed spec fn spec_children(&self) -> Seq<NodeType> {
        self.children@
    }

    /// Splits at the middle key: the keys before it and the children up to
    /// it stay, the keys and children after it go to the returned node, and
    /// the middle key itself is returned.
    fn split(&mut self) -> (r: (i32, InternalNode))
        requires
            old(self).keys@.len() >= 1,
            old(self).children@.len() == old(self).keys@.len() + 1,
        ensures
            final(self).order == old(self).order,
            r.1.order == old(self).order,
            final(self).keys@ == old(self).keys@.subrange(0, (old(self).keys@.len() / 2) as int),
            r.0 == old(self).keys@[(old(self).keys@.len() / 2) as int],
            r.1.keys@ == old(self).keys@.subrange(
                (old(self).keys@.len() / 2 + 1) as int,
                old(self).keys@.len() as int,
            ),
            final(self).children@ == old(self).children@.subrange(0, final(self).children@.len() as int),
            r.1.children@ == old(self).children@.subrange(final(self).children@.len() as int, old(self).children@.len() as int),
            final(self).children@.len() == final(self).keys@.len() + 1,
            r.1.children@.len() == r.1.keys@.len() + 1,
    {
        let mid = self.keys.len() / 2;
        let mid_key = self.keys[mid];
        let right_keys = self.keys.split_off(mid + 1);
        self.keys.pop();
        assert(self.keys@ =~= old(self).keys@.subrange(0, mid as int));
        let right_children = self.children.split_off(mid + 1);
        (mid_key, InternalNode { order: self.order, keys: right_keys, children: right_children })
    }

    #[verifier::rlimit(40)]
    /// Inserts `key` into the first child whose separating key is not below
    /// it, or into the last child; takes in what that child hands up, and
    /// splits in turn where it then holds more keys than its order: the
    /// middle key goes up, the keys and children after it move to a new node.
    pub fn insert(&mut self, key: i32) -> (r: Option<(i32, NodeType)>)
        requires
            NodeType::Internal(*old(self)).well_formed(),
        ensures
            NodeType::insert_outcome(
                NodeType::Internal(*old(self)),
                NodeType::Internal(*final(self)),
                key,
                r,
            ),
            internal_insert_shape(*old(self), key, *final(self), r),
            NodeType::keeps_order(NodeType::Internal(*old(self)), NodeType::Internal(*final(self)), key, r),
        decreases *old(self),
    {
        let ghost o = self.order as nat;
        let ghost d = NodeType::Internal(*self).height();
        let ghost s = self.children@;
        proof {
            NodeType::Internal(*self).lemma_wf_shape(o, d);
        }
        let nk = self.keys.len();
        let mut i: usize = 0;
        while i < nk && self.keys[i] < key
            invariant
                self.keys@ == old(self).keys@,
                nk == self.keys@.len(),
                i <= nk,
                forall|j: int| 0 <= j < i ==> self.keys@[j] < key,
            decreases nk - i,
        {
            i += 1;
        }
        let mut child = self.children.remove(i);
        proof {
            assert(child == s[i as int]);
            assert(child.wf(o, sub_one(d)));
            child.lemma_wf_shape(o, sub_one(d));
        }
        let res = child.insert(key);
        let ghost c = child;
        let ghost up = res;
        self.children.insert(i, child);
        let ghost sib = sibling_of(res);
        match res {
            None => {},
            Some((k, sibling)) => {
                assert(i < self.children.len());
                self.keys.insert(i, k);
                self.children.insert(i + 1, sibling);
            },
        }
        proof {
            lemma_replace_child(s, i as int, key, c, sib, o, sub_one(d));
            assert(self.children@ =~= children_after(s, i as int, c, sib));
            assert(route(old(self).keys@, key, i as int));
            assert(NodeType::insert_outcome(s[i as int], c, key, up));
            assert(self.keys@ == match up {
                None => old(self).keys@,
                Some((k, _)) => old(self).keys@.insert(i as int, k),
            });
        }
        let ghost keys = self.keys@;
        if self.keys.len() > self.order {
            let ghost all = self.children@;
            let (mid_key, sibling) = self.split();
            let r = Some((mid_key, NodeType::Internal(sibling)));
            proof {
                lemma_split_children(all, self.children@.len() as int, o, sub_one(d));
                NodeType::Internal(*self).lemma_wf_shape(o, d);
                NodeType::Internal(sibling).lemma_wf_shape(o, d);
                let m = (keys.len() / 2) as int;
                assert(self.children@.len() == m + 1);
                assert({
                    &&& self.spec_keys() == keys.subrange(0, m)
                    &&& self.spec_children() == all.subrange(0, m + 1)
                    &&& r matches Some((k, NodeType::Internal(sib)))
                    &&& k == keys[m]
                    &&& sib.spec_keys() == keys.subrange(m + 1, keys.len() as int)
                    &&& sib.spec_children() == all.subrange(m + 1, all.len() as int)
                    &&& sib.spec_order() == old(self).spec_order()
                });
                assert(NodeType::insert_outcome(old(self).spec_children()[i as int], c, key, up));
                assert(route(old(self).spec_keys(), key, i as int));
                assert(self.spec_order() == old(self).spec_order());
                assert(all == children_after(old(self).spec_children(), i as int, c, sibling_of(up)));
                assert(internal_insert_shape(*old(self), key, *self, r));
                assert(keys == keys_after(old(self).keys@, i as int, up));
                assert forall|lo: int, hi: int|
                    #[trigger] NodeType::Internal(*old(self)).bounded(lo, hi) && lo <= key <= hi implies NodeType::Internal(
                        *self,
                    ).ordered_outcome(lo, hi, r) by {
                    lemma_routed_child_bounds(old(self).keys@, s, lo, hi, key, i as int);
                    assert(c.ordered_outcome(lower(old(self).keys@, i as int, lo), upper(old(self).keys@, i as int, hi), up));
                    lemma_absorb_bounds(old(self).keys@, s, lo, hi, i as int, c, up);
                    lemma_split_bounds(keys, all, lo, hi, m);
                }
            }
            r
        } else {
            proof {
                NodeType::Internal(*self).lemma_wf_shape(o, d);
                assert(NodeType::insert_outcome(old(self).spec_children()[i as int], c, key, up));
                assert(self.spec_keys() == keys);
                assert(self.spec_children() == children_after(old(self).spec_children(), i as int, c, sibling_of(up)));
                assert(internal_insert_shape(*old(self), key, *self, None));
                assert(keys == keys_after(old(self).keys@, i as int, up));
                assert forall|lo: int, hi: int|
                    #[trigger] NodeType::Internal(*old(self)).bounded(lo, hi) && lo <= key <= hi implies NodeType::Internal(
                        *self,
                    ).ordered_outcome(lo, hi, None) by {
                    lemma_routed_child_bounds(old(self).keys@, s, lo, hi, key, i as int);
                    assert(c.ordered_outcome(lower(old(self).keys@, i as int, lo), upper(old(self).keys@, i as int, hi), up));
                    lemma_absorb_bounds(old(self).keys@, s, lo, hi, i as int, c, up);
                }
            }
            None
        }
    }
}

impl NodeType {
    /// Inserts `key` into the leaf or internal node.
    pub fn insert(&mut self, key: i32) -> (r: Option<(i32, NodeType)>)
        requires
            old(self).well_formed(),
        ensures
            NodeType::insert_outcome(*old(self), *final(self), key, r),
            node_insert_shape(*old(self), key, *final(self), r),
            NodeType::keeps_order(*old(self), *final(self), key, r),
        decreases *old(self),
    {
        match self {
            NodeType::Leaf(leaf) => leaf.insert(key),
            NodeType::Internal(node) => node.insert(key),
        }
    }
}

impl NodeType {
    /// The number of levels from this node down its leftmost path to a leaf.
    pub fn get_depth(&self) -> (r: usize)
        requires
            self.height() <= usize::MAX,
        ensures
            r == self.height(),
        decreases self,
    {
        match self {
            NodeType::Leaf(_) => 1,
            NodeType::Internal(node) => {
                if node.children.len() > 0 {
                    node.children[0].get_depth() + 1
                } else {
                    1
                }
            },
        }
    }
}

/// What every kind of node offers: taking in a key, and its depth.
pub trait BtreeNode {
    /// The node as a node of the tree.
    spec fn as_node(&self) -> NodeType;

    /// Inserts `key`; a split hands up a key and a new sibling.
    fn insert(&mut self, key: i32) -> (r: Option<(i32, NodeType)>)
        requires
            old(self).as_node().well_formed(),
        ensures
            NodeType::insert_outcome(old(self).as_node(), final(self).as_node(), key, r),
            node_insert_shape(old(self).as_node(), key, final(self).as_node(), r),
            NodeType::keeps_order(old(self).as_node(), final(self).as_node(), key, r),
    ;

    /// The number of levels down the leftmost path, this node included.
    fn get_depth(&self) -> (r: usize)
        requires
            self.as_node().height() <= usize::MAX,
        ensures
            r == self.as_node().height(),
    ;
}

impl BtreeNode for NodeType {
    open spec fn as_node(&self) -> NodeType {
        *self
    }

    fn insert(&mut self, key: i32) -> (r: Option<(i32, NodeType)>) {
        NodeType::insert(self, key)
    }

    fn get_depth(&self) -> (r: usize) {
        NodeType::get_depth(self)
    }
}

impl BtreeNode for LeafNode {
    open spec fn as_node(&self) -> NodeType {
        NodeType::Leaf(*self)
    }

    fn insert(&mut self, key: i32) -> (r: Option<(i32, NodeType)>) {
        LeafNode::insert(self, key)
    }

    fn get_depth(&self) -> (r: usize) {
        1
    }
}

impl BtreeNode for InternalNode {
    open spec fn as_node(&self) -> NodeType {
        NodeType::Internal(*self)
    }

    fn insert(&mut self, key: i32) -> (r: Option<(i32, NodeType)>) {
        InternalNode::insert(self, key)
    }

    fn get_depth(&self) -> (r: usize) {
        if self.children.len() > 0 {
            self.children[0].get_depth() + 1
        } else {
            1
        }
    }
}

impl BPlusTree {
    /// The order: the most keys that a node may hold.
    pub closed spec fn spec_order(&self) -> nat {
        self.order as nat
    }

    /// The root, absent while the tree is empty.
    pub closed spec fn root(&self) -> Option<NodeType> {
        self.root_node
    }

    /// The keys held by the tree.
    pub open spec fn keys(&self) -> Multiset<i32> {
        match self.root() {
            None => Multiset::empty(),
            Some(r) => r.keys_of(),
        }
    }

    /// The number of levels: zero for an empty tree.
    pub open spec fn height(&self) -> nat {
        match self.root() {
            None => 0,
            Some(r) => r.height(),
        }
    }

    /// All leaves lie at the same depth.
    pub open spec fn leaves_level(&self) -> bool {
        match self.root() {
            None => true,
            Some(r) => r.leaves_at_depth(r.height()),
        }
    }

    /// No node holds more than `k` keys.
    pub open spec fn nodes_within(&self, k: nat) -> bool {
        match self.root() {
            None => true,
            Some(r) => r.keys_at_most(k),
        }
    }

    /// The tree is a search tree: leaf keys ascend, and each internal node's
    /// keys ascend and separate its children's keys.
    pub open spec fn is_search_tree(&self) -> bool {
        match self.root() {
            None => true,
            Some(r) => r.bounded(i32::MIN as int, i32::MAX as int),
        }
    }

    /// The tree's invariant: every node is well formed for the tree's order,
    /// all leaves are at the root's height, and the tree is a search tree.
    pub closed spec fn well_formed(&self) -> bool {
        match self.root_node {
            None => true,
            Some(r) => r.wf(self.order as nat, r.height()) && r.bounded(i32::MIN as int, i32::MAX as int),
        }
    }

    /// An empty tree of the given order.
    pub fn new(order: usize) -> (r: BPlusTree)
        ensures
            r.well_formed(),
            r.spec_order() == order,
            r.root() is None,
    {
        BPlusTree { root_node: None, order }
    }

    /// The order the tree was made with.
    pub fn get_order(&self) -> (r: usize)
        ensures
            r == self.spec_order(),
    {
        self.order
    }

    /// The root node, if the tree holds any key.
    pub fn get_root_node(&self) -> (r: Option<&NodeType>)
        ensures
            r is None <==> self.root() is None,
            r matches Some(n) ==> self.root() == Some(*n),
    {
        match &self.root_node {
            None => None,
            Some(node) => Some(node),
        }
    }

    /// Inserts `key`. The first key makes a leaf the root. Later keys go
    /// down from the root; where the root splits, a new internal root with
    /// the handed-up key takes the old root and its new sibling as children.
    pub fn insert(&mut self, key: i32)
        requires
            old(self).well_formed(),
        ensures
            final(self).well_formed(),
            final(self).spec_order() == old(self).spec_order(),
            final(self).keys() =~= old(self).keys().insert(key),
            final(self).leaves_level(),
            final(self).nodes_within(key_cap(final(self).spec_order())),
            final(self).is_search_tree(),
            old(self).height() == 0 ==> final(self).height() == 1,
            old(self).height() > 0 ==> final(self).height() == old(self).height()
                || final(self).height() == old(self).height() + 1,
            old(self).root() is None ==> (final(self).root() matches Some(NodeType::Leaf(l))
                && l.spec_keys() == seq![key] && l.spec_order() == old(self).spec_order()),
            old(self).root() matches Some(before) ==> exists|after: NodeType, up: Option<(i32, NodeType)>|
                {
                    &&& #[trigger] node_insert_shape(before, key, after, up)
                    &&& up is None ==> final(self).root() == Some(after)
                    &&& up is None ==> final(self).height() == old(self).height()
                    &&& up is Some ==> final(self).height() == old(self).height() + 1
                    &&& up matches Some((k, sibling)) ==> (final(self).root() matches Some(NodeType::Internal(top))
                        && top.spec_keys() == seq![k] && top.spec_children() == seq![after, sibling]
                        && top.spec_order() == old(self).spec_order())
                },
    {
        let ghost o = self.order as nat;
        match self.root_node.take() {
            None => {
                let mut leaf = LeafNode::new(self.order);
                leaf.keys.push(key);
                proof {
                    assert(leaf.keys@ =~= seq![key]);
                    assert(seq![key] =~= Seq::<i32>::empty().insert(0, key));
                }
                self.root_node = Some(NodeType::Leaf(leaf));
                proof {
                    NodeType::Leaf(leaf).lemma_wf_shape(o, 1);
                }
            },
            Some(mut root) => {
                let ghost d = root.height();
                let ghost before = root;
                proof {
                    root.lemma_wf_shape(o, d);
                }
                match root.insert(key) {
                    None => {
                        proof {
                            root.lemma_wf_shape(o, d);
                            assert(before.bounded(i32::MIN as int, i32::MAX as int));
                            assert(root.ordered_outcome(i32::MIN as int, i32::MAX as int, None));
                        }
                        self.root_node = Some(root);
                    },
                    Some((k, sibling)) => {
                        let mut top = InternalNode::new(self.order);
                        top.keys.push(k);
                        top.children.push(root);
                        top.children.push(sibling);
                        let ghost cs = top.children@;
                        proof {
                            assert(cs =~= seq![root] + seq![sibling]);
                            lemma_keys_of_concat(seq![root], seq![sibling]);
                            lemma_keys_of_single(root);
                            lemma_keys_of_single(sibling);
                            assert(cs[0] == root);
                            assert(cs[1] == sibling);
                            assert(all_wf(cs, o, d));
                            let lo = i32::MIN as int;
                            let hi = i32::MAX as int;
                            assert(before.bounded(lo, hi));
                            assert(root.ordered_outcome(lo, hi, Some((k, sibling))));
                            assert(top.keys@ =~= seq![k]);
                            assert(within(top.keys@, lo, hi));
                            assert(cs[0].bounded(lower(top.keys@, 0, lo), upper(top.keys@, 0, hi)));
                            assert(cs[1].bounded(lower(top.keys@, 1, lo), upper(top.keys@, 1, hi)));
                            assert(node_bounded(top.keys@, cs, lo, hi));
                        }
                        self.root_node = Some(NodeType::Internal(top));
                        proof {
                            NodeType::Internal(top).lemma_wf_shape(o, d + 1);
                        }
                    },
                }
            },
        }
    }

    /// The number of levels: zero for an empty tree, else the depth of the
    /// leaves below the root.
    pub fn get_tree_height(&self) -> (r: usize)
        requires
            self.height() <= usize::MAX,
        ensures
            r == self.height(),
    {
        match &self.root_node {
            None => 0,
            Some(node) => node.get_depth(),
        }
    }
}

} // verus!
