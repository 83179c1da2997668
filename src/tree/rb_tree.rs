use crate::tree::key_order::{compare, lemma_total_order, lt, total_order};
use crate::tree::rbtree_node::{entries, lookup, Color, Link, RBTreeNode, RotDir, RuleViolation};
use core::cmp::Ordering;
use vstd::prelude::*;

verus! {

/// One of the two child links of a node.
#[derive(PartialEq, Eq, Structural, Debug, Clone, Copy)]
pub enum Branch {
    Smaller,
    Larger,
}

impl Branch {
    /// The other branch.
    pub open spec fn other(self) -> Branch {
        match self {
            Branch::Smaller => Branch::Larger,
            Branch::Larger => Branch::Smaller,
        }
    }
}

/// What an insertion below a node asks of that node's parent.
#[derive(PartialEq, Eq, Structural, Debug, Clone, Copy)]
pub enum InsertState {
    /// The subtree is valid as it stands; the parent has nothing to do.
    Clean,
    /// The subtree root turned red; the parent checks itself against it.
    ColorChanged,
    /// The subtree root is red and so is its child on the given branch.
    Conflict(Branch),
    /// The parent rotates this subtree left.
    LeftRotate,
    /// The parent rotates this subtree right.
    RightRotate,
}

/// `k` is the greatest key of `m` below `key`.
pub open spec fn is_greatest_below<K: Ord, V>(m: Map<K, V>, key: K, k: K) -> bool {
    &&& m.dom().contains(k)
    &&& lt(k, key)
    &&& forall|x: K| #[trigger] m.dom().contains(x) && lt(x, key) ==> x == k || lt(x, k)
}

/// `k` is the least key of `m` above `key`.
pub open spec fn is_least_above<K: Ord, V>(m: Map<K, V>, key: K, k: K) -> bool {
    &&& m.dom().contains(k)
    &&& lt(key, k)
    &&& forall|x: K| #[trigger] m.dom().contains(x) && lt(key, x) ==> x == k || lt(k, x)
}

/// An ordered map from keys to values, kept as a red-black tree.
pub struct RBTree<K, V> {
    root: Link<K, V>,
}

impl<K, V> View for RBTree<K, V> {
    type V = Map<K, V>;

    /// The entries of the tree.
    closed spec fn view(&self) -> Map<K, V> {
        RBTreeNode::link_map(self.root)
    }
}

impl<K, V> RBTree<K, V> {
    /// The root is red.
    pub closed spec fn root_is_red(&self) -> bool {
        RBTreeNode::link_is_red(self.root)
    }

    /// No red node has a red child.
    pub closed spec fn no_red_red(&self) -> bool {
        RBTreeNode::link_no_red_red(self.root)
    }

    /// Every path down from a node to a missing child crosses as many black nodes.
    pub closed spec fn balanced(&self) -> bool {
        RBTreeNode::link_balanced(self.root)
    }

    /// The red-black rules hold: the root is black, no red node has a red
    /// child, and every path down from a node crosses as many black nodes.
    pub open spec fn is_red_black(&self) -> bool {
        !self.root_is_red() && self.no_red_red() && self.balanced()
    }

    /// The black nodes on the path down the smaller side.
    pub closed spec fn black_height(&self) -> nat {
        RBTreeNode::link_black_height(self.root)
    }

    /// The key of the root.
    pub closed spec fn root_key(&self) -> Option<K> {
        match self.root {
            None => None,
            Some(n) => Some(n.key),
        }
    }

    /// The number of nodes.
    pub closed spec fn size(&self) -> nat {
        RBTreeNode::link_size(self.root)
    }

    /// The entries, smaller subtree, node, larger subtree, from the root down.
    pub closed spec fn in_order(&self) -> Seq<(K, V)> {
        RBTreeNode::link_in_order(self.root)
    }

    /// The entries, node, smaller subtree, larger subtree, from the root down.
    pub closed spec fn pre_order(&self) -> Seq<(K, V)> {
        RBTreeNode::link_pre_order(self.root)
    }
}

impl<K: Ord, V> RBTree<K, V> {
    /// The node keyed `k` is red and has a red child.
    pub closed spec fn red_over_red_at(&self, k: K) -> bool {
        &&& RBTreeNode::link_node_at(self.root, k) matches Some(n)
        &&& n.key == k
        &&& n.color == Color::Red
        &&& (RBTreeNode::link_is_red(n.smaller) || RBTreeNode::link_is_red(n.larger))
    }

    /// The two subtrees of the node keyed `k` differ in black height.
    pub closed spec fn black_heights_differ_at(&self, k: K) -> bool {
        &&& RBTreeNode::link_node_at(self.root, k) matches Some(n)
        &&& n.key == k
        &&& RBTreeNode::link_black_height(n.smaller) != RBTreeNode::link_black_height(n.larger)
    }

    /// This tree with the value at `key` set to `v`, its shape and colors as
    /// they were.
    pub closed spec fn with_value(self, key: K, v: V) -> Self {
        RBTree { root: RBTreeNode::link_with_value(self.root, key, v) }
    }

    /// Search-tree order holds throughout: every key of a node's smaller
    /// subtree is below it, every key of its larger subtree above it.
    pub closed spec fn wf(&self) -> bool {
        RBTreeNode::link_is_bst(self.root)
    }

    /// An empty tree.
    pub fn new() -> (r: Self)
        ensures
            r@ == Map::<K, V>::empty(),
            r.wf(),
            r.is_red_black(),
            r.size() == 0,
    {
        RBTree { root: None }
    }

    /// Maps `key` to `value` and gives back the value it replaced, if any.
    /// An existing key keeps its place and color; a new key goes in as a red
    /// leaf and the tree is rebalanced, so a red-black tree stays one.
    pub fn insert(&mut self, key: K, value: V) -> (r: Option<V>)
        requires
            total_order::<K>(),
            old(self).wf(),
        ensures
            final(self).wf(),
            final(self)@ == old(self)@.insert(key, value),
            r == lookup(old(self)@, key),
            old(self).is_red_black() ==> final(self).is_red_black(),
            old(self)@.dom().contains(key) ==> *final(self) == old(self).with_value(key, value),
            final(self).size() <= old(self).size() + 1,
    {
        match self.root.take() {
            None => {
                let node = RBTreeNode::new_black(key, value);
                proof {
                    assert(node.as_map() =~= Map::<K, V>::empty().insert(key, value));
                }
                self.root = Some(Box::new(node));
                None
            },
            Some(mut root) => {
                let ghost r0 = *root;
                let (res, state) = root.insert_node_rb(Box::new(RBTreeNode::new(key, value)), true);
                let ghost r1 = *root;
                // The root has no parent to hand a report to: it settles the
                // rotations itself, and a red root with a red child (possible
                // only after removals) is fixed by painting the root black.
                let root = match state {
                    InsertState::Clean | InsertState::ColorChanged => root,
                    InsertState::Conflict(_) => {
                        let mut root = root;
                        root.color = Color::Black;
                        root
                    },
                    InsertState::LeftRotate => match root.left_rotate() {
                        Ok(mut top) => {
                            proof {
                                RBTreeNode::lemma_rotation_keeps_map(RotDir::Left, r1, *top);
                                if r0.is_rb() && r0.color == Color::Black {
                                    RBTreeNode::lemma_left_rotation_rb(r1, *top);
                                }
                            }
                            top.color = Color::Black;
                            top
                        },
                        Err((same, _)) => same,
                    },
                    InsertState::RightRotate => match root.right_rotate() {
                        Ok(mut top) => {
                            proof {
                                RBTreeNode::lemma_rotation_keeps_map(RotDir::Right, r1, *top);
                                if r0.is_rb() && r0.color == Color::Black {
                                    RBTreeNode::lemma_right_rotation_rb(r1, *top);
                                }
                            }
                            top.color = Color::Black;
                            top
                        },
                        Err((same, _)) => same,
                    },
                };
                self.root = Some(root);
                res
            },
        }
    }

    /// The root node, for read-only walks over the tree's shape.
    pub fn root(&self) -> (r: Option<&RBTreeNode<K, V>>)
        ensures
            match r {
                None => self@.dom().is_empty(),
                Some(n) => n.as_map() == self@ && n.is_bst() == self.wf(),
            },
    {
        match &self.root {
            None => {
                assert(self@.dom() =~= Set::empty());
                None
            },
            Some(n) => Some(&**n),
        }
    }

    /// Whether the tree holds `key`.
    pub fn contains(&self, key: &K) -> (r: bool)
        requires
            total_order::<K>(),
            self.wf(),
        ensures
            r == self@.dom().contains(*key),
    {
        self.find(key).is_some()
    }

    /// The value stored under `key`, if any.
    pub fn find(&self, key: &K) -> (r: Option<&V>)
        requires
            total_order::<K>(),
            self.wf(),
        ensures
            match r {
                Some(v) => self@.dom().contains(*key) && *v == self@[*key],
                None => !self@.dom().contains(*key),
            },
    {
        proof {
            lemma_total_order::<K>();
        }
        let mut curr = &self.root;
        loop
            invariant
                total_order::<K>(),
                RBTreeNode::link_is_bst(*curr),
                self@.dom().contains(*key) <==> RBTreeNode::link_map(*curr).dom().contains(*key),
                self@.dom().contains(*key) ==> self@[*key] == RBTreeNode::link_map(*curr)[*key],
            decreases RBTreeNode::link_height(*curr),
        {
            match curr {
                None => return None,
                Some(node) => {
                    proof {
                        RBTreeNode::lemma_lookup(**node, *key);
                    }
                    match compare(key, &node.key) {
                        Ordering::Equal => return Some(&node.value),
                        Ordering::Less => curr = &node.smaller,
                        Ordering::Greater => curr = &node.larger,
                    }
                },
            }
        }
    }

    /// A mutable borrow of the value stored under `key`, if any. What the
    /// borrow leaves there becomes the value at `key`; nothing else changes.
    pub fn find_mut(&mut self, key: &K) -> (r: Option<&mut V>)
        requires
            total_order::<K>(),
            old(self).wf(),
        ensures
            final(self).wf(),
            final(self).size() == old(self).size(),
            match r {
                Some(v) => {
                    &&& old(self)@.dom().contains(*key)
                    &&& *v == old(self)@[*key]
                    &&& final(self)@ == old(self)@.insert(*key, *final(v))
                    &&& *final(self) == old(self).with_value(*key, *final(v))
                    &&& final(self).is_red_black() == old(self).is_red_black()
                },
                None => !old(self)@.dom().contains(*key) && *final(self) == *old(self),
            },
    {
        let r = RBTreeNode::find_mut_link(&mut self.root, key);
        proof {
            if let Some(ref v) = r {
                RBTreeNode::lemma_with_value(old(self).root, *key, *final(*v));
            }
        }
        r
    }

    /// Removes `key` and gives back its value, if it was there. A node with
    /// two children takes over its in-order successor's entry. Colors are not
    /// restored afterwards, so the red-black rules may no longer hold.
    pub fn remove(&mut self, key: &K) -> (r: Option<V>)
        requires
            total_order::<K>(),
            old(self).wf(),
        ensures
            final(self).wf(),
            final(self)@ == old(self)@.remove(*key),
            r == lookup(old(self)@, *key),
            final(self).size() <= old(self).size(),
            !old(self)@.dom().contains(*key) ==> *final(self) == *old(self),
    {
        RBTreeNode::remove_link(&mut self.root, key)
    }

    /// The entry with the smallest key, if the tree is not empty.
    pub fn smallest(&self) -> (r: Option<(&K, &V)>)
        requires
            total_order::<K>(),
            self.wf(),
        ensures
            match r {
                None => self@.dom().is_empty(),
                Some((k, v)) => {
                    &&& self@.dom().contains(*k)
                    &&& *v == self@[*k]
                    &&& forall|x: K| #[trigger] self@.dom().contains(x) ==> x == *k || lt(*k, x)
                },
            },
    {
        proof {
            lemma_total_order::<K>();
        }
        match &self.root {
            None => {
                assert(self@.dom() =~= Set::empty());
                None
            },
            Some(root) => {
                let mut curr = root;
                loop
                    invariant
                        total_order::<K>(),
                        curr.is_bst(),
                        forall|x: K| #[trigger] curr.as_map().dom().contains(x) ==> self@.dom().contains(x)
                            && self@[x] == curr.as_map()[x],
                        forall|x: K| #[trigger] self@.dom().contains(x) ==> curr.as_map().dom().contains(x)
                            || lt(curr.key, x),
                    decreases curr.height(),
                {
                    proof {
                        RBTreeNode::lemma_lookup(**curr, curr.key);
                    }
                    match &curr.smaller {
                        None => {
                            proof {
                                lemma_total_order::<K>();
                                assert forall|x: K| #[trigger] self@.dom().contains(x) implies x == curr.key
                                    || lt(curr.key, x) by {
                                    RBTreeNode::lemma_lookup(**curr, x);
                                }
                            }
                            return Some((&curr.key, &curr.value));
                        },
                        Some(next) => {
                            proof {
                                lemma_total_order::<K>();
                                let c = **curr;
                                assert(RBTreeNode::link_map(c.smaller) == next.as_map());
                                RBTreeNode::lemma_children_submap(c);
                                RBTreeNode::lemma_lookup(**next, next.key);
                                assert(lt(next.key, c.key));
                                assert forall|x: K| #[trigger] self@.dom().contains(x) implies next.as_map().dom().contains(
                                    x,
                                ) || lt(next.key, x) by {
                                    RBTreeNode::lemma_lookup(c, x);
                                }
                            }
                            curr = next;
                        },
                    }
                }
            },
        }
    }

    /// The entry with the largest key, if the tree is not empty.
    pub fn largest(&self) -> (r: Option<(&K, &V)>)
        requires
            total_order::<K>(),
            self.wf(),
        ensures
            match r {
                None => self@.dom().is_empty(),
                Some((k, v)) => {
                    &&& self@.dom().contains(*k)
                    &&& *v == self@[*k]
                    &&& forall|x: K| #[trigger] self@.dom().contains(x) ==> x == *k || lt(x, *k)
                },
            },
    {
        match &self.root {
            None => {
                assert(self@.dom() =~= Set::empty());
                None
            },
            Some(root) => {
                let mut curr = root;
                loop
                    invariant
                        total_order::<K>(),
                        curr.is_bst(),
                        forall|x: K| #[trigger] curr.as_map().dom().contains(x) ==> self@.dom().contains(x)
                            && self@[x] == curr.as_map()[x],
                        forall|x: K| #[trigger] self@.dom().contains(x) ==> curr.as_map().dom().contains(x)
                            || lt(x, curr.key),
                    decreases curr.height(),
                {
                    proof {
                        lemma_total_order::<K>();
                        RBTreeNode::lemma_lookup(**curr, curr.key);
                    }
                    match &curr.larger {
                        None => {
                            proof {
                                assert forall|x: K| #[trigger] self@.dom().contains(x) implies x == curr.key
                                    || lt(x, curr.key) by {
                                    RBTreeNode::lemma_lookup(**curr, x);
                                }
                            }
                            return Some((&curr.key, &curr.value));
                        },
                        Some(next) => {
                            proof {
                                let c = **curr;
                                assert(RBTreeNode::link_map(c.larger) == next.as_map());
                                RBTreeNode::lemma_children_submap(c);
                                RBTreeNode::lemma_lookup(**next, next.key);
                                assert(lt(c.key, next.key));
                                assert forall|x: K| #[trigger] self@.dom().contains(x) implies next.as_map().dom().contains(
                                    x,
                                ) || lt(x, next.key) by {
                                    RBTreeNode::lemma_lookup(c, x);
                                }
                            }
                            curr = next;
                        },
                    }
                }
            },
        }
    }

    /// The entry with the greatest key below `key`; `key` itself need not be
    /// in the tree, and is never the answer.
    pub fn smaller(&self, key: &K) -> (r: Option<(&K, &V)>)
        requires
            total_order::<K>(),
            self.wf(),
        ensures
            match r {
                None => forall|x: K| #[trigger] self@.dom().contains(x) ==> !lt(x, *key),
                Some((k, v)) => is_greatest_below(self@, *key, *k) && *v == self@[*k],
            },
    {
        let mut candidate: Option<&Box<RBTreeNode<K, V>>> = None;
        let mut curr = &self.root;
        loop
            invariant
                total_order::<K>(),
                RBTreeNode::link_is_bst(*curr),
                forall|x: K| #[trigger]
                    RBTreeNode::link_map(*curr).dom().contains(x) ==> self@.dom().contains(x)
                        && self@[x] == RBTreeNode::link_map(*curr)[x],
                match candidate {
                    None => true,
                    Some(c) => {
                        &&& self@.dom().contains(c.key)
                        &&& self@[c.key] == c.value
                        &&& lt(c.key, *key)
                        &&& forall|y: K| #[trigger]
                            RBTreeNode::link_map(*curr).dom().contains(y) ==> lt(c.key, y)
                    },
                },
                forall|x: K| #[trigger]
                    self@.dom().contains(x) && lt(x, *key) ==> RBTreeNode::link_map(*curr).dom().contains(x)
                        || match candidate {
                        None => false,
                        Some(c) => x == c.key || lt(x, c.key),
                    },
            decreases RBTreeNode::link_height(*curr),
        {
            proof {
                lemma_total_order::<K>();
            }
            match curr {
                None => {
                    return match candidate {
                        None => None,
                        Some(c) => Some((&c.key, &c.value)),
                    };
                },
                Some(node) => {
                    proof {
                        assert(RBTreeNode::link_map(*curr) == node.as_map());
                        RBTreeNode::lemma_children_submap(**node);
                        RBTreeNode::lemma_lookup(**node, node.key);
                        assert(self@.dom().contains(node.key));
                        assert(self@[node.key] == node.value);
                        assert forall|x: K| #[trigger] node.as_map().dom().contains(x) implies x == node.key
                            || RBTreeNode::link_map(node.smaller).dom().contains(x)
                            || RBTreeNode::link_map(node.larger).dom().contains(x) by {
                            RBTreeNode::lemma_lookup(**node, x);
                        }
                    }
                    if let Ordering::Less = compare(&node.key, key) {
                        candidate = Some(node);
                        curr = &node.larger;
                    } else {
                        curr = &node.smaller;
                    }
                },
            }
        }
    }

    /// The entry with the least key above `key`; `key` itself need not be in
    /// the tree, and is never the answer.
    pub fn larger(&self, key: &K) -> (r: Option<(&K, &V)>)
        requires
            total_order::<K>(),
            self.wf(),
        ensures
            match r {
                None => forall|x: K| #[trigger] self@.dom().contains(x) ==> !lt(*key, x),
                Some((k, v)) => is_least_above(self@, *key, *k) && *v == self@[*k],
            },
    {
        let mut candidate: Option<&Box<RBTreeNode<K, V>>> = None;
        let mut curr = &self.root;
        loop
            invariant
                total_order::<K>(),
                RBTreeNode::link_is_bst(*curr),
                forall|x: K| #[trigger]
                    RBTreeNode::link_map(*curr).dom().contains(x) ==> self@.dom().contains(x)
                        && self@[x] == RBTreeNode::link_map(*curr)[x],
                match candidate {
                    None => true,
                    Some(c) => {
                        &&& self@.dom().contains(c.key)
                        &&& self@[c.key] == c.value
                        &&& lt(*key, c.key)
                        &&& forall|y: K| #[trigger]
                            RBTreeNode::link_map(*curr).dom().contains(y) ==> lt(y, c.key)
                    },
                },
                forall|x: K| #[trigger]
                    self@.dom().contains(x) && lt(*key, x) ==> RBTreeNode::link_map(*curr).dom().contains(x)
                        || match candidate {
                        None => false,
                        Some(c) => x == c.key || lt(c.key, x),
                    },
            decreases RBTreeNode::link_height(*curr),
        {
            proof {
                lemma_total_order::<K>();
            }
            match curr {
                None => {
                    return match candidate {
                        None => None,
                        Some(c) => Some((&c.key, &c.value)),
                    };
                },
                Some(node) => {
                    proof {
                        assert(RBTreeNode::link_map(*curr) == node.as_map());
                        RBTreeNode::lemma_children_submap(**node);
                        RBTreeNode::lemma_lookup(**node, node.key);
                        assert(self@.dom().contains(node.key));
                        assert(self@[node.key] == node.value);
                        assert forall|x: K| #[trigger] node.as_map().dom().contains(x) implies x == node.key
                            || RBTreeNode::link_map(node.smaller).dom().contains(x)
                            || RBTreeNode::link_map(node.larger).dom().contains(x) by {
                            RBTreeNode::lemma_lookup(**node, x);
                        }
                    }
                    if let Ordering::Greater = compare(&node.key, key) {
                        candidate = Some(node);
                        curr = &node.smaller;
                    } else {
                        curr = &node.larger;
                    }
                },
            }
        }
    }

    /// The entries in ascending key order.
    pub fn traverse_asc(&self) -> (r: Vec<(&K, &V)>)
        ensures
            entries(r@) == self.in_order(),
    {
        let mut out: Vec<(&K, &V)> = Vec::new();
        proof {
            assert(entries(out@) =~= Seq::empty());
        }
        RBTreeNode::collect_asc(&self.root, &mut out);
        proof {
            assert(Seq::<(K, V)>::empty() + self.in_order() =~= self.in_order());
        }
        out
    }

    /// The entries from the root down, each node before its smaller and then
    /// its larger subtree.
    pub fn traverse_top_down(&self) -> (r: Vec<(&K, &V)>)
        ensures
            entries(r@) == self.pre_order(),
    {
        let mut out: Vec<(&K, &V)> = Vec::new();
        proof {
            assert(entries(out@) =~= Seq::empty());
        }
        RBTreeNode::collect_top_down(&self.root, &mut out);
        proof {
            assert(Seq::<(K, V)>::empty() + self.pre_order() =~= self.pre_order());
        }
        out
    }

    /// Checks the red-black rules: gives the black height where they all hold,
    /// or the first broken rule found, with the key of the node where it broke.
    /// The root's color is checked first, then the subtrees bottom-up.
    pub fn check_rules(&self) -> (r: Result<usize, RuleViolation<'_, K>>)
        requires
            total_order::<K>(),
            self.wf(),
            self.size() < usize::MAX,
        ensures
            match r {
                Ok(h) => self.is_red_black() && h == self.black_height(),
                Err(RuleViolation::RedRoot(k)) => self.root_is_red() && self.root_key() == Some(*k),
                Err(RuleViolation::ConsecutiveReds(k)) => !self.no_red_red() && self.red_over_red_at(*k),
                Err(RuleViolation::BlackHeightMismatch(k)) => !self.balanced()
                    && self.black_heights_differ_at(*k),
            },
    {
        proof {
            RBTreeNode::lemma_height_bound(self.root);
        }
        if let Some(root) = &self.root {
            if root.color == Color::Red {
                return Err(RuleViolation::RedRoot(&root.key));
            }
        }
        RBTreeNode::check_link(&self.root)
    }
}

/// Inserting a key twice: the second insertion gives back the first value,
/// and afterwards the key is found with the second value.
pub proof fn lemma_insert_twice<K: Ord, V>(t: RBTree<K, V>, k: K, v1: V, v2: V)
    ensures
        lookup(t@.insert(k, v1), k) == Some(v1),
        lookup(t@.insert(k, v1).insert(k, v2), k) == Some(v2),
{
}

/// Ascending traversal lists keys in strictly increasing order, each with the
/// value the tree maps it to, and lists every key of the tree.
pub proof fn lemma_ascending_traversal<K: Ord, V>(t: RBTree<K, V>)
    requires
        total_order::<K>(),
        t.wf(),
    ensures
        forall|i: int, j: int|
            0 <= i < j < t.in_order().len() ==> lt(
                #[trigger] t.in_order()[i].0,
                #[trigger] t.in_order()[j].0,
            ),
        forall|i: int|
            0 <= i < t.in_order().len() ==> {
                &&& t@.dom().contains(#[trigger] t.in_order()[i].0)
                &&& t@[t.in_order()[i].0] == t.in_order()[i].1
            },
        forall|k: K| #[trigger]
            t@.dom().contains(k) ==> exists|i: int|
                0 <= i < t.in_order().len() && #[trigger] t.in_order()[i].0 == k,
{
    RBTreeNode::lemma_in_order(t.root);
    let s = t.in_order();
    assert forall|k: K| #[trigger] t@.dom().contains(k) implies exists|i: int|
        0 <= i < s.len() && #[trigger] s[i].0 == k by {
        let i = choose|i: int|
            0 <= i < RBTreeNode::link_in_order(t.root).len() && #[trigger] RBTreeNode::link_in_order(
                t.root,
            )[i].0 == k;
        assert(s[i].0 == k);
    }
}

/// In the ascending list of keys, the one before a key is its predecessor
/// (none before the first) and the one after it its successor (none after
/// the last).
pub proof fn lemma_neighbors_in_order<K: Ord, V>(t: RBTree<K, V>, i: int)
    requires
        total_order::<K>(),
        t.wf(),
        0 <= i < t.in_order().len(),
    ensures
        i > 0 ==> is_greatest_below(t@, t.in_order()[i].0, t.in_order()[i - 1].0),
        i == 0 ==> forall|x: K| #[trigger] t@.dom().contains(x) ==> !lt(x, t.in_order()[i].0),
        i + 1 < t.in_order().len() ==> is_least_above(
            t@,
            t.in_order()[i].0,
            t.in_order()[i + 1].0,
        ),
        i + 1 == t.in_order().len() ==> forall|x: K| #[trigger]
            t@.dom().contains(x) ==> !lt(t.in_order()[i].0, x),
{
    lemma_total_order::<K>();
    lemma_ascending_traversal(t);
    let s = t.in_order();
    assert forall|x: K| #[trigger] t@.dom().contains(x) && lt(x, s[i].0) implies i > 0 && (x == s[i
        - 1].0 || lt(x, s[i - 1].0)) by {
        let j = choose|j: int| 0 <= j < s.len() && #[trigger] s[j].0 == x;
        if j > i {
            assert(lt(s[i].0, s[j].0));
        }
        if j < i - 1 {
            assert(lt(s[j].0, s[i - 1].0));
        }
    }
    assert forall|x: K| #[trigger] t@.dom().contains(x) && lt(s[i].0, x) implies i + 1 < s.len()
        && (x == s[i + 1].0 || lt(s[i + 1].0, x)) by {
        let j = choose|j: int| 0 <= j < s.len() && #[trigger] s[j].0 == x;
        if j < i {
            assert(lt(s[j].0, s[i].0));
        }
        if j > i + 1 {
            assert(lt(s[i + 1].0, s[j].0));
        }
    }
    if i > 0 {
        assert(lt(s[i - 1].0, s[i].0));
    }
    if i + 1 < s.len() {
        assert(lt(s[i].0, s[i + 1].0));
    }
}

impl<K: Ord, V> Default for RBTree<K, V> {
    fn default() -> (r: Self)
        ensures
            r@ == Map::<K, V>::empty(),
            r.wf(),
            r.is_red_black(),
            r.size() == 0,
    {
        Self::new()
    }
}

} // verus!
