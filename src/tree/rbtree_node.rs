use crate::tree::key_order::{compare, lemma_total_order, lt, total_order};
use crate::tree::rb_tree::{Branch, InsertState};
use core::cmp::Ordering;
use vstd::prelude::*;

verus! {

/// The color tag of a node.
#[derive(PartialEq, Eq, Structural, Debug, Clone, Copy)]
pub enum Color {
    Red,
    Black,
}

/// The direction of a rotation: `Left` lifts the larger child, `Right` the smaller.
#[derive(PartialEq, Eq, Structural, Debug, Clone, Copy)]
pub enum RotDir {
    Right,
    Left,
}

/// The value that a map holds for a key, if any.
pub open spec fn lookup<K, V>(m: Map<K, V>, k: K) -> Option<V> {
    if m.dom().contains(k) {
        Some(m[k])
    } else {
        None
    }
}

/// What a list of borrowed entries holds.
pub open spec fn entries<K, V>(s: Seq<(&K, &V)>) -> Seq<(K, V)> {
    s.map_values(|p: (&K, &V)| (*p.0, *p.1))
}

/// A broken red-black rule, with the key of the node where it was found.
#[derive(PartialEq, Eq, Debug)]
pub enum RuleViolation<'a, K> {
    /// The root is red.
    RedRoot(&'a K),
    /// A red node has a red child.
    ConsecutiveReds(&'a K),
    /// The two subtrees of a node have different black heights.
    BlackHeightMismatch(&'a K),
}

/// A link to a subtree: empty, or the sole owner of one node.
pub type Link<K, V> = Option<Box<RBTreeNode<K, V>>>;

/// A node of the red-black tree; it owns its two subtrees.
pub struct RBTreeNode<K, V> {
    pub key: K,
    pub value: V,
    pub color: Color,
    pub smaller: Link<K, V>,
    pub larger: Link<K, V>,
}

impl<K, V> RBTreeNode<K, V> {
    /// The entries of the subtree under a link.
    pub open spec fn link_map(link: Link<K, V>) -> Map<K, V>
        decreases link,
    {
        match link {
            None => Map::empty(),
            Some(n) => n.as_map(),
        }
    }

    /// The entries of the subtree rooted here.
    pub open spec fn as_map(self) -> Map<K, V>
        decreases self,
    {
        Self::link_map(self.smaller).union_prefer_right(Self::link_map(self.larger)).insert(
            self.key,
            self.value,
        )
    }

    /// The root of the linked subtree is red.
    pub open spec fn link_is_red(link: Link<K, V>) -> bool {
        match link {
            None => false,
            Some(n) => n.color == Color::Red,
        }
    }

    /// Black nodes on the path that always takes the smaller child; on a
    /// balanced subtree every path from its root down has that many.
    pub open spec fn link_black_height(link: Link<K, V>) -> nat
        decreases link,
    {
        match link {
            None => 0,
            Some(n) => n.black_height(),
        }
    }

    pub open spec fn black_height(self) -> nat
        decreases self,
    {
        Self::link_black_height(self.smaller) + if self.color == Color::Black {
            1nat
        } else {
            0nat
        }
    }

    /// Every path from a node of the linked subtree down to a missing child
    /// crosses the same number of black nodes.
    pub open spec fn link_balanced(link: Link<K, V>) -> bool
        decreases link,
    {
        match link {
            None => true,
            Some(n) => n.is_balanced(),
        }
    }

    pub open spec fn is_balanced(self) -> bool
        decreases self,
    {
        &&& Self::link_black_height(self.smaller) == Self::link_black_height(self.larger)
        &&& Self::link_balanced(self.smaller)
        &&& Self::link_balanced(self.larger)
    }

    /// No red node of the linked subtree has a red child.
    pub open spec fn link_no_red_red(link: Link<K, V>) -> bool
        decreases link,
    {
        match link {
            None => true,
            Some(n) => n.no_red_red(),
        }
    }

    pub open spec fn no_red_red(self) -> bool
        decreases self,
    {
        &&& (self.color == Color::Red ==> !Self::link_is_red(self.smaller) && !Self::link_is_red(
            self.larger,
        ))
        &&& Self::link_no_red_red(self.smaller)
        &&& Self::link_no_red_red(self.larger)
    }

    /// The color rules of a red-black subtree: no red node with a red child,
    /// and one black height for all paths.
    pub open spec fn link_is_rb(link: Link<K, V>) -> bool {
        Self::link_balanced(link) && Self::link_no_red_red(link)
    }

    pub open spec fn is_rb(self) -> bool {
        self.is_balanced() && self.no_red_red()
    }

    /// The child on a branch.
    pub open spec fn child(self, branch: Branch) -> Link<K, V> {
        match branch {
            Branch::Smaller => self.smaller,
            Branch::Larger => self.larger,
        }
    }

    /// The number of nodes in the linked subtree.
    pub open spec fn link_size(link: Link<K, V>) -> nat
        decreases link,
    {
        match link {
            None => 0,
            Some(n) => n.size(),
        }
    }

    pub open spec fn size(self) -> nat
        decreases self,
    {
        Self::link_size(self.smaller) + Self::link_size(self.larger) + 1
    }

    /// The number of nodes on the longest path down from the linked node.
    pub open spec fn link_height(link: Link<K, V>) -> nat
        decreases link,
    {
        match link {
            None => 0,
            Some(n) => n.height(),
        }
    }

    pub open spec fn height(self) -> nat
        decreases self,
    {
        let hs = Self::link_height(self.smaller);
        let hl = Self::link_height(self.larger);
        1 + if hs >= hl {
            hs
        } else {
            hl
        }
    }

    /// The entries of the linked subtree, smaller subtree first, then the node,
    /// then the larger subtree.
    pub open spec fn link_in_order(link: Link<K, V>) -> Seq<(K, V)>
        decreases link,
    {
        match link {
            None => Seq::empty(),
            Some(n) => n.in_order(),
        }
    }

    pub open spec fn in_order(self) -> Seq<(K, V)>
        decreases self,
    {
        Self::link_in_order(self.smaller).push((self.key, self.value)) + Self::link_in_order(
            self.larger,
        )
    }

    /// The entries of the linked subtree, the node first, then its smaller
    /// subtree, then its larger subtree.
    pub open spec fn link_pre_order(link: Link<K, V>) -> Seq<(K, V)>
        decreases link,
    {
        match link {
            None => Seq::empty(),
            Some(n) => n.pre_order(),
        }
    }

    pub open spec fn pre_order(self) -> Seq<(K, V)>
        decreases self,
    {
        seq![(self.key, self.value)] + Self::link_pre_order(self.smaller) + Self::link_pre_order(
            self.larger,
        )
    }

    /// This node with the child on `branch` replaced by `link`.
    pub open spec fn with_child(self, branch: Branch, link: Link<K, V>) -> Self {
        match branch {
            Branch::Smaller => Self { smaller: link, ..self },
            Branch::Larger => Self { larger: link, ..self },
        }
    }

    /// The link with its root node, if any, recolored.
    pub open spec fn recolored(link: Link<K, V>, color: Color) -> Link<K, V> {
        match link {
            None => None,
            Some(n) => Some(Box::new(Self { color, ..*n })),
        }
    }

    /// What is left after an insertion below `old` that reported `state`.
    /// `Clean`: a valid subtree of the same color and black height (the root of
    /// the whole tree may grow by one black level). `ColorChanged`: a black node
    /// turned red over two black-rooted subtrees. `Conflict(b)`: a red node whose
    /// child on `b` is red too, all else valid. The rotations: a black node in
    /// the shape that the parent's rotation turns into a valid subtree.
    pub open spec fn insert_outcome(old: Self, new: Self, state: InsertState, is_root: bool) -> bool {
        match state {
            InsertState::Clean => {
                &&& new.is_rb()
                &&& new.color == old.color
                &&& (is_root || new.black_height() == old.black_height())
            },
            InsertState::ColorChanged => {
                &&& old.color == Color::Black
                &&& new.color == Color::Red
                &&& !Self::link_is_red(new.smaller)
                &&& !Self::link_is_red(new.larger)
                &&& new.is_rb()
                &&& new.black_height() == old.black_height()
            },
            InsertState::Conflict(b) => {
                &&& old.color == Color::Red
                &&& new.color == Color::Red
                &&& new.is_balanced()
                &&& new.black_height() == old.black_height()
                &&& Self::link_is_rb(new.smaller)
                &&& Self::link_is_rb(new.larger)
                &&& Self::link_is_red(new.child(b))
                &&& !Self::link_is_red(new.child(b.other()))
            },
            InsertState::LeftRotate => {
                &&& new.color == Color::Black
                &&& new.ready_for_left_rotation()
                &&& Self::link_black_height(new.smaller) + 1 == old.black_height()
            },
            InsertState::RightRotate => {
                &&& new.color == Color::Black
                &&& new.ready_for_right_rotation()
                &&& Self::link_black_height(new.larger) + 1 == old.black_height()
            },
        }
    }

    /// `new` is `old` rotated left: the larger child moves up and turns black,
    /// `old` moves down to its smaller side and turns red.
    pub open spec fn is_left_rotation(old: Self, new: Self) -> bool {
        match old.larger {
            None => false,
            Some(l) => match new.smaller {
                None => false,
                Some(s) => {
                    &&& new.key == l.key
                    &&& new.value == l.value
                    &&& new.color == Color::Black
                    &&& new.larger == l.larger
                    &&& s.key == old.key
                    &&& s.value == old.value
                    &&& s.color == Color::Red
                    &&& s.smaller == old.smaller
                    &&& s.larger == l.smaller
                },
            },
        }
    }

    /// `new` is `old` rotated right: the smaller child moves up and turns black,
    /// `old` moves down to its larger side and turns red.
    pub open spec fn is_right_rotation(old: Self, new: Self) -> bool {
        match old.smaller {
            None => false,
            Some(s) => match new.larger {
                None => false,
                Some(l) => {
                    &&& new.key == s.key
                    &&& new.value == s.value
                    &&& new.color == Color::Black
                    &&& new.smaller == s.smaller
                    &&& l.key == old.key
                    &&& l.value == old.value
                    &&& l.color == Color::Red
                    &&& l.larger == old.larger
                    &&& l.smaller == s.larger
                },
            },
        }
    }

    /// `new` is `old` rotated in the given direction.
    pub open spec fn is_rotation(direction: RotDir, old: Self, new: Self) -> bool {
        match direction {
            RotDir::Left => Self::is_left_rotation(old, new),
            RotDir::Right => Self::is_right_rotation(old, new),
        }
    }

    /// The shape in which a left rotation yields a valid red-black subtree: the
    /// larger child has a red larger child; every other subtree around them is
    /// valid, has a black root, and has the same black height.
    pub open spec fn ready_for_left_rotation(self) -> bool {
        match self.larger {
            None => false,
            Some(x) => {
                &&& Self::link_is_red(x.larger)
                &&& Self::link_is_rb(x.larger)
                &&& !Self::link_is_red(x.smaller)
                &&& Self::link_is_rb(x.smaller)
                &&& !Self::link_is_red(self.smaller)
                &&& Self::link_is_rb(self.smaller)
                &&& Self::link_black_height(x.larger) == Self::link_black_height(self.smaller)
                &&& Self::link_black_height(x.smaller) == Self::link_black_height(self.smaller)
            },
        }
    }

    /// The mirror image of `ready_for_left_rotation`.
    pub open spec fn ready_for_right_rotation(self) -> bool {
        match self.smaller {
            None => false,
            Some(x) => {
                &&& Self::link_is_red(x.smaller)
                &&& Self::link_is_rb(x.smaller)
                &&& !Self::link_is_red(x.larger)
                &&& Self::link_is_rb(x.larger)
                &&& !Self::link_is_red(self.larger)
                &&& Self::link_is_rb(self.larger)
                &&& Self::link_black_height(x.smaller) == Self::link_black_height(self.larger)
                &&& Self::link_black_height(x.larger) == Self::link_black_height(self.larger)
            },
        }
    }

    pub(crate) proof fn lemma_left_rotation_rb(old: Self, new: Self)
        requires
            Self::is_left_rotation(old, new),
            old.ready_for_left_rotation(),
        ensures
            new.is_rb(),
            new.color == Color::Black,
            new.black_height() == Self::link_black_height(old.smaller) + 1,
    {
        let s = new.smaller.unwrap();
        assert(s.is_rb());
    }

    pub(crate) proof fn lemma_right_rotation_rb(old: Self, new: Self)
        requires
            Self::is_right_rotation(old, new),
            old.ready_for_right_rotation(),
        ensures
            new.is_rb(),
            new.color == Color::Black,
            new.black_height() == Self::link_black_height(old.larger) + 1,
    {
        let l = new.larger.unwrap();
        assert(l.is_rb());
    }
}

impl<K, V> RBTreeNode<K, V> {
    /// A red node without children.
    pub fn new(key: K, value: V) -> (r: Self)
        ensures
            r.key == key,
            r.value == value,
            r.color == Color::Red,
            r.smaller is None,
            r.larger is None,
    {
        RBTreeNode { key, value, color: Color::Red, smaller: None, larger: None }
    }

    /// A black node without children, as a fresh root is made.
    pub fn new_black(key: K, value: V) -> (r: Self)
        ensures
            r.key == key,
            r.value == value,
            r.color == Color::Black,
            r.smaller is None,
            r.larger is None,
    {
        RBTreeNode { key, value, color: Color::Black, smaller: None, larger: None }
    }

    /// Appends the linked subtree's entries to `out` in ascending order.
    pub(crate) fn collect_asc<'a>(link: &'a Link<K, V>, out: &mut Vec<(&'a K, &'a V)>)
        ensures
            entries(final(out)@) == entries(old(out)@) + Self::link_in_order(*link),
        decreases *link,
    {
        match link {
            None => {
                assert(entries(old(out)@) + Seq::empty()
                    =~= entries(old(out)@));
            },
            Some(n) => {
                n.traverse_asc(out);
            },
        }
    }

    /// Appends this subtree's entries to `out` in ascending order.
    pub fn traverse_asc<'a>(&'a self, out: &mut Vec<(&'a K, &'a V)>)
        ensures
            entries(final(out)@) == entries(old(out)@) + self.in_order(),
        decreases *self,
    {
        let ghost start = entries(old(out)@);
        Self::collect_asc(&self.smaller, out);
        let ghost before = out@;
        out.push((&self.key, &self.value));
        assert(entries(out@) =~= entries(before).push((self.key, self.value)));
        assert(entries(out@) =~= start + Self::link_in_order(self.smaller).push((self.key, self.value)));
        Self::collect_asc(&self.larger, out);
        assert(entries(out@) =~= start + self.in_order());
    }

    /// Appends the linked subtree's entries to `out`, each node before its subtrees.
    pub(crate) fn collect_top_down<'a>(link: &'a Link<K, V>, out: &mut Vec<(&'a K, &'a V)>)
        ensures
            entries(final(out)@) == entries(old(out)@) + Self::link_pre_order(*link),
        decreases *link,
    {
        match link {
            None => {
                assert(entries(old(out)@) + Seq::empty()
                    =~= entries(old(out)@));
            },
            Some(n) => {
                let ghost start = entries(old(out)@);
                out.push((&n.key, &n.value));
                assert(entries(out@) =~= start + seq![(n.key, n.value)]);
                Self::collect_top_down(&n.smaller, out);
                Self::collect_top_down(&n.larger, out);
                assert(entries(out@) =~= start + n.pre_order());
            },
        }
    }
}

impl<K: Ord, V> RBTreeNode<K, V> {
    /// The node that a search for `k` in the linked subtree stops at, if any.
    pub open spec fn link_node_at(link: Link<K, V>, k: K) -> Option<Self>
        decreases link,
    {
        match link {
            None => None,
            Some(n) => if k == n.key {
                Some(*n)
            } else if lt(k, n.key) {
                Self::link_node_at(n.smaller, k)
            } else {
                Self::link_node_at(n.larger, k)
            },
        }
    }

    /// The linked subtree with the value at `key` set to `v`, all else as it was.
    pub open spec fn link_with_value(link: Link<K, V>, key: K, v: V) -> Link<K, V>
        decreases link,
    {
        match link {
            None => None,
            Some(n) => Some(Box::new(n.with_value(key, v))),
        }
    }

    pub open spec fn with_value(self, key: K, v: V) -> Self
        decreases self,
    {
        if key == self.key {
            Self { value: v, ..self }
        } else if lt(key, self.key) {
            Self { smaller: Self::link_with_value(self.smaller, key, v), ..self }
        } else {
            Self { larger: Self::link_with_value(self.larger, key, v), ..self }
        }
    }

    /// Search-tree order: smaller keys to the smaller side, larger to the larger.
    pub open spec fn link_is_bst(link: Link<K, V>) -> bool
        decreases link,
    {
        match link {
            None => true,
            Some(n) => n.is_bst(),
        }
    }

    pub open spec fn is_bst(self) -> bool
        decreases self,
    {
        &&& forall|k: K| #[trigger]
            Self::link_map(self.smaller).dom().contains(k) ==> lt(k, self.key)
        &&& forall|k: K| #[trigger]
            Self::link_map(self.larger).dom().contains(k) ==> lt(self.key, k)
        &&& Self::link_is_bst(self.smaller)
        &&& Self::link_is_bst(self.larger)
    }

    /// Rotates left: the larger child becomes the subtree root, colored black,
    /// and this node, colored red, becomes its smaller child. Without a larger
    /// child the node comes back unchanged with an error.
    pub fn left_rotate(mut self: Box<Self>) -> (r: Result<Box<Self>, (Box<Self>, &'static str)>)
        ensures
            match r {
                Ok(n) => Self::is_left_rotation(*self, *n),
                Err((n, _)) => self.larger is None && n == self,
            },
    {
        if self.larger.is_some() {
            let mut larger = self.larger.take().unwrap();
            larger.color = Color::Black;
            self.color = Color::Red;
            self.larger = larger.smaller.take();
            larger.smaller = Some(self);
            Ok(larger)
        } else {
            Err((self, "cannot left rotate - larger subnode is nil"))
        }
    }

    /// Rotates right: the smaller child becomes the subtree root, colored black,
    /// and this node, colored red, becomes its larger child. Without a smaller
    /// child the node comes back unchanged with an error.
    pub fn right_rotate(mut self: Box<Self>) -> (r: Result<Box<Self>, (Box<Self>, &'static str)>)
        ensures
            match r {
                Ok(n) => Self::is_right_rotation(*self, *n),
                Err((n, _)) => self.smaller is None && n == self,
            },
    {
        if self.smaller.is_some() {
            let mut smaller = self.smaller.take().unwrap();
            smaller.color = Color::Black;
            self.color = Color::Red;
            self.smaller = smaller.larger.take();
            smaller.larger = Some(self);
            Ok(smaller)
        } else {
            Err((self, "cannot right rotate - smaller subnode is nil"))
        }
    }

    /// Rotates the child on `branch` in `direction`. Fails, leaving the node
    /// unchanged, where that child or the grandchild that would move up is absent.
    pub fn rotate_child(&mut self, direction: RotDir, branch: Branch) -> (r: Result<(), &'static str>)
        ensures
            r is Ok <==> match old(self).child(branch) {
                None => false,
                Some(c) => match direction {
                    RotDir::Left => c.larger is Some,
                    RotDir::Right => c.smaller is Some,
                },
            },
            r is Err ==> *final(self) == *old(self),
            r is Ok ==> {
                &&& final(self).key == old(self).key
                &&& final(self).value == old(self).value
                &&& final(self).color == old(self).color
                &&& final(self).child(branch) is Some
                &&& Self::is_rotation(
                    direction,
                    *old(self).child(branch).unwrap(),
                    *final(self).child(branch).unwrap(),
                )
                &&& branch == Branch::Smaller ==> final(self).larger == old(self).larger
                &&& branch == Branch::Larger ==> final(self).smaller == old(self).smaller
            },
    {
        let child = match branch {
            Branch::Smaller => self.smaller.take(),
            Branch::Larger => self.larger.take(),
        };
        match child {
            None => Err("no child found to rotate"),
            Some(node) => {
                let res = match direction {
                    RotDir::Left => node.left_rotate(),
                    RotDir::Right => node.right_rotate(),
                };
                let (link, out) = match res {
                    Ok(new_child) => (Some(new_child), Ok(())),
                    Err((old_child, msg)) => (Some(old_child), Err(msg)),
                };
                match branch {
                    Branch::Smaller => self.smaller = link,
                    Branch::Larger => self.larger = link,
                }
                out
            },
        }
    }

    /// Takes the child on `branch` out, leaving that link empty.
    fn take_child(&mut self, branch: Branch) -> (r: Link<K, V>)
        ensures
            r == old(self).child(branch),
            *final(self) == old(self).with_child(branch, None),
    {
        match branch {
            Branch::Smaller => self.smaller.take(),
            Branch::Larger => self.larger.take(),
        }
    }

    /// Sets the child on `branch`.
    fn put_child(&mut self, branch: Branch, link: Link<K, V>)
        ensures
            *final(self) == old(self).with_child(branch, link),
    {
        match branch {
            Branch::Smaller => self.smaller = link,
            Branch::Larger => self.larger = link,
        }
    }

    /// Whether the child on `branch` is red.
    fn child_is_red(&self, branch: Branch) -> (r: bool)
        ensures
            r == Self::link_is_red(self.child(branch)),
    {
        let link = match branch {
            Branch::Smaller => &self.smaller,
            Branch::Larger => &self.larger,
        };
        match link {
            Some(c) => c.color == Color::Red,
            None => false,
        }
    }

    /// Recolors the child on `branch`, if there is one.
    fn set_child_color(&mut self, branch: Branch, color: Color)
        ensures
            *final(self) == old(self).with_child(branch, Self::recolored(old(self).child(branch), color)),
    {
        let link = self.take_child(branch);
        let link = match link {
            Some(mut c) => {
                c.color = color;
                Some(c)
            },
            None => None,
        };
        self.put_child(branch, link);
    }

    /// Inserts a new red leaf below this node, or swaps in its value where the
    /// key is already here, and reports what the parent must still do: see
    /// `insert_outcome` for what each report leaves behind.
    #[verifier::spinoff_prover]
    #[verifier::rlimit(60)]
    pub fn insert_node_rb(&mut self, node: Box<Self>, is_root: bool) -> (r: (Option<V>, InsertState))
        requires
            total_order::<K>(),
            old(self).is_bst(),
            node.smaller is None,
            node.larger is None,
            node.color == Color::Red,
        ensures
            final(self).is_bst(),
            final(self).as_map() == old(self).as_map().insert(node.key, node.value),
            r.0 == lookup(old(self).as_map(), node.key),
            final(self).key == old(self).key,
            final(self).size() <= old(self).size() + 1,
            old(self).as_map().dom().contains(node.key) ==> r.1 == InsertState::Clean && *final(self)
                == old(self).with_value(node.key, node.value),
            is_root ==> r.1 != InsertState::ColorChanged,
            r.1 == InsertState::LeftRotate ==> final(self).larger is Some,
            r.1 == InsertState::RightRotate ==> final(self).smaller is Some,
            forall|b: Branch| r.1 == InsertState::Conflict(b) ==> #[trigger] final(self).child(b) is Some,
            old(self).is_rb() && (is_root ==> old(self).color == Color::Black) ==> Self::insert_outcome(
                *old(self),
                *final(self),
                r.1,
                is_root,
            ),
        decreases *old(self),
    {
        proof {
            lemma_total_order::<K>();
        }
        let ghost s0 = *self;
        let ghost k = node.key;
        let ghost v = node.value;
        let ghost leaf0 = *node;
        let ghost valid = s0.is_rb() && (is_root ==> s0.color == Color::Black);
        let branch = match compare(&node.key, &self.key) {
            Ordering::Equal => {
                let leaf = *node;
                let mut old_value = leaf.value;
                std::mem::swap(&mut self.value, &mut old_value);
                proof {
                    assert forall|x: K|
                        (#[trigger] self.as_map().dom().contains(x) <==> s0.as_map().insert(
                            k,
                            v,
                        ).dom().contains(x)) && (self.as_map().dom().contains(x) ==> self.as_map()[x]
                            == s0.as_map().insert(k, v)[x]) by {
                        Self::lemma_lookup(s0, x);
                        Self::lemma_lookup(*self, x);
                    }
                    assert(self.as_map() =~= s0.as_map().insert(k, v));
                }
                return (Some(old_value), InsertState::Clean);
            },
            Ordering::Less => Branch::Smaller,
            Ordering::Greater => Branch::Larger,
        };
        let uncle = match branch {
            Branch::Smaller => Branch::Larger,
            Branch::Larger => Branch::Smaller,
        };
        match self.take_child(branch) {
            None => {
                let red = self.color == Color::Red;
                self.put_child(branch, Some(node));
                proof {
                    assert(leaf0.as_map() =~= Map::<K, V>::empty().insert(k, v));
                    Self::lemma_insert_below(s0, *self, branch, k, v);
                    assert(Self::link_black_height(Some(Box::new(leaf0))) == 0);
                    assert(leaf0.is_balanced());
                    assert(leaf0.no_red_red());
                    assert(Self::link_is_rb(Some(node)));
                    if valid {
                        if red {
                            assert(Self::insert_outcome(s0, *self, InsertState::Conflict(branch), is_root));
                        } else {
                            assert(Self::insert_outcome(s0, *self, InsertState::Clean, is_root));
                        }
                    }
                }
                (None, if red {
                    InsertState::Conflict(branch)
                } else {
                    InsertState::Clean
                })
            },
            Some(mut c) => {
                let ghost c0 = *c;
                let (res, state) = c.insert_node_rb(node, false);
                let ghost c1 = *c;
                self.put_child(branch, Some(c));
                proof {
                    Self::lemma_insert_below(s0, *self, branch, k, v);
                }
                let ghost s1 = *self;
                let next = match state {
                    InsertState::Clean => {
                        proof {
                            if valid {
                                assert(Self::insert_outcome(s0, *self, InsertState::Clean, is_root));
                            }
                        }
                        InsertState::Clean
                    },
                    InsertState::ColorChanged => {
                        if self.color == Color::Red {
                            proof {
                                if valid {
                                    assert(Self::insert_outcome(s0, *self, InsertState::Conflict(branch), is_root));
                                }
                            }
                            InsertState::Conflict(branch)
                        } else {
                            proof {
                                if valid {
                                    assert(Self::insert_outcome(s0, *self, InsertState::Clean, is_root));
                                }
                            }
                            InsertState::Clean
                        }
                    },
                    InsertState::Conflict(b) => {
                        // A red child with a red child of its own: a red uncle
                        // takes a recoloring, a black or missing one a rotation.
                        if self.child_is_red(uncle) {
                            if !is_root {
                                self.color = Color::Red;
                            }
                            self.set_child_color(Branch::Smaller, Color::Black);
                            self.set_child_color(Branch::Larger, Color::Black);
                            proof {
                                Self::lemma_recolored(s1.smaller, Color::Black);
                                Self::lemma_recolored(s1.larger, Color::Black);
                                assert(self.size() == s1.size());
                                if valid {
                                    assert(c0.color == Color::Red);
                                    assert(s0.color == Color::Black);
                                    Self::lemma_rb_children(s0);
                                    Self::lemma_rb_link(s1.child(uncle));
                                    Self::lemma_blacken(s1.smaller);
                                    Self::lemma_blacken(s1.larger);
                                    if is_root {
                                        assert(Self::insert_outcome(s0, *self, InsertState::Clean, is_root));
                                    } else {
                                        assert(Self::insert_outcome(s0, *self, InsertState::ColorChanged, is_root));
                                    }
                                }
                            }
                            if is_root {
                                InsertState::Clean
                            } else {
                                InsertState::ColorChanged
                            }
                        } else {
                            if b != branch {
                                // The red grandchild is on the inner side: lift it
                                // first, so that the parent's rotation of this node
                                // finishes the fix.
                                let direction = match b {
                                    Branch::Smaller => RotDir::Right,
                                    Branch::Larger => RotDir::Left,
                                };
                                assert(c1.child(b) is Some);
                                let rotated = self.rotate_child(direction, branch);
                                proof {
                                    assert(rotated is Ok);
                                    let c2 = *self.child(branch).unwrap();
                                    Self::lemma_rotation_keeps_map(direction, c1, c2);
                                    Self::lemma_replace_child(s1, *self, branch);
                                }
                            }
                            proof {
                                if valid {
                                    if branch == Branch::Smaller {
                                        assert(Self::insert_outcome(s0, *self, InsertState::RightRotate, is_root));
                                    } else {
                                        assert(Self::insert_outcome(s0, *self, InsertState::LeftRotate, is_root));
                                    }
                                }
                            }
                            match branch {
                                Branch::Smaller => InsertState::RightRotate,
                                Branch::Larger => InsertState::LeftRotate,
                            }
                        }
                    },
                    InsertState::LeftRotate => {
                        let rotated = self.rotate_child(RotDir::Left, branch);
                        proof {
                            assert(rotated is Ok);
                            let c2 = *self.child(branch).unwrap();
                            Self::lemma_rotation_keeps_map(RotDir::Left, c1, c2);
                            Self::lemma_replace_child(s1, *self, branch);
                            if valid {
                                Self::lemma_left_rotation_rb(c1, c2);
                                assert(Self::insert_outcome(s0, *self, InsertState::Clean, is_root));
                            }
                        }
                        InsertState::Clean
                    },
                    InsertState::RightRotate => {
                        let rotated = self.rotate_child(RotDir::Right, branch);
                        proof {
                            assert(rotated is Ok);
                            let c2 = *self.child(branch).unwrap();
                            Self::lemma_rotation_keeps_map(RotDir::Right, c1, c2);
                            Self::lemma_replace_child(s1, *self, branch);
                            if valid {
                                Self::lemma_right_rotation_rb(c1, c2);
                                assert(Self::insert_outcome(s0, *self, InsertState::Clean, is_root));
                            }
                        }
                        InsertState::Clean
                    },
                };
                (res, next)
            },
        }
    }

    /// The children of a valid subtree are valid.
    pub(crate) proof fn lemma_rb_children(n: Self)
        requires
            n.is_rb(),
        ensures
            Self::link_is_rb(n.smaller),
            Self::link_is_rb(n.larger),
    {
    }

    /// A valid subtree under a link: its root and the root's children are valid.
    pub(crate) proof fn lemma_rb_link(link: Link<K, V>)
        requires
            link is Some,
            Self::link_is_rb(link),
        ensures
            link.unwrap().is_rb(),
            Self::link_is_rb(link.unwrap().smaller),
            Self::link_is_rb(link.unwrap().larger),
    {
        Self::lemma_rb_children(*link.unwrap());
    }

    /// Blackening the root of a subtree whose children are valid gives a valid
    /// subtree one black level higher than a red root would be.
    pub(crate) proof fn lemma_blacken(link: Link<K, V>)
        requires
            link is Some,
            Self::link_balanced(link),
            Self::link_is_rb(link.unwrap().smaller),
            Self::link_is_rb(link.unwrap().larger),
        ensures
            Self::link_is_rb(Self::recolored(link, Color::Black)),
            !Self::link_is_red(Self::recolored(link, Color::Black)),
            Self::link_black_height(Self::recolored(link, Color::Black))
                == Self::link_black_height(link.unwrap().smaller) + 1,
    {
        let n = link.unwrap();
        let b = Self { color: Color::Black, ..*n };
        assert(Self::recolored(link, Color::Black) == Some(Box::new(b)));
        assert(b.is_balanced());
        assert(b.no_red_red());
    }

    /// Recoloring a link's root keeps its entries and its order.
    pub(crate) proof fn lemma_recolored(link: Link<K, V>, color: Color)
        ensures
            Self::link_map(Self::recolored(link, color)) == Self::link_map(link),
            Self::link_is_bst(Self::recolored(link, color)) == Self::link_is_bst(link),
            Self::link_size(Self::recolored(link, color)) == Self::link_size(link),
    {
    }

    /// Replacing a child by one with the same entries keeps the node's entries.
    pub(crate) proof fn lemma_replace_child(old: Self, new: Self, branch: Branch)
        requires
            old.is_bst(),
            new == old.with_child(branch, new.child(branch)),
            Self::link_is_bst(new.child(branch)),
            Self::link_map(new.child(branch)) == Self::link_map(old.child(branch)),
        ensures
            new.is_bst(),
            new.as_map() == old.as_map(),
            Self::link_size(new.child(branch)) == Self::link_size(old.child(branch)) ==> new.size()
                == old.size(),
    {
    }

    /// Inserting below the side that the key's order points to inserts into the node.
    pub(crate) proof fn lemma_insert_below(old: Self, new: Self, branch: Branch, k: K, v: V)
        requires
            total_order::<K>(),
            old.is_bst(),
            new == old.with_child(branch, new.child(branch)),
            Self::link_is_bst(new.child(branch)),
            Self::link_map(new.child(branch)) == Self::link_map(old.child(branch)).insert(k, v),
            branch == Branch::Smaller ==> lt(k, old.key),
            branch == Branch::Larger ==> lt(old.key, k),
        ensures
            new.is_bst(),
            new.as_map() == old.as_map().insert(k, v),
            Self::link_size(new.child(branch)) <= Self::link_size(old.child(branch)) + 1 ==> new.size()
                <= old.size() + 1,
            lookup(Self::link_map(old.child(branch)), k) == lookup(old.as_map(), k),
    {
        lemma_total_order::<K>();
        assert(new.is_bst());
        Self::lemma_lookup(old, k);
        assert forall|x: K|
            (#[trigger] new.as_map().dom().contains(x) <==> old.as_map().insert(k, v).dom().contains(x))
                && (new.as_map().dom().contains(x) ==> new.as_map()[x] == old.as_map().insert(
                k,
                v,
            )[x]) by {
            Self::lemma_lookup(old, x);
            Self::lemma_lookup(new, x);
        }
        assert(new.as_map() =~= old.as_map().insert(k, v));
    }

    /// Plain search-tree insertion of a leaf, with no rebalancing: the leaf is
    /// attached where the search for its key ends, or its value replaces the
    /// value of an equal key.
    pub fn insert_node_rec(&mut self, node: Box<Self>) -> (r: Option<V>)
        requires
            total_order::<K>(),
            old(self).is_bst(),
            node.smaller is None,
            node.larger is None,
        ensures
            final(self).is_bst(),
            final(self).as_map() == old(self).as_map().insert(node.key, node.value),
            final(self).size() <= old(self).size() + 1,
            r == lookup(old(self).as_map(), node.key),
        decreases *old(self),
    {
        proof {
            lemma_total_order::<K>();
        }
        let ghost s0 = *self;
        let ghost k = node.key;
        let ghost v = node.value;
        let ghost leaf0 = *node;
        let branch = match compare(&node.key, &self.key) {
            Ordering::Equal => {
                let leaf = *node;
                let mut old_value = leaf.value;
                std::mem::swap(&mut self.value, &mut old_value);
                proof {
                    assert forall|x: K|
                        (#[trigger] self.as_map().dom().contains(x) <==> s0.as_map().insert(
                            k,
                            v,
                        ).dom().contains(x)) && (self.as_map().dom().contains(x) ==> self.as_map()[x]
                            == s0.as_map().insert(k, v)[x]) by {
                        Self::lemma_lookup(s0, x);
                        Self::lemma_lookup(*self, x);
                    }
                    assert(self.as_map() =~= s0.as_map().insert(k, v));
                }
                return Some(old_value);
            },
            Ordering::Less => Branch::Smaller,
            Ordering::Greater => Branch::Larger,
        };
        let res = match self.take_child(branch) {
            None => {
                self.put_child(branch, Some(node));
                proof {
                    assert(leaf0.as_map() =~= Map::<K, V>::empty().insert(k, v));
                }
                None
            },
            Some(mut c) => {
                let res = c.insert_node_rec(node);
                self.put_child(branch, Some(c));
                res
            },
        };
        proof {
            Self::lemma_insert_below(s0, *self, branch, k, v);
        }
        res
    }

    /// Removes `key` from the subtrees below this node; the node's own key is
    /// left alone (its removal is the parent's business), and gives `None`.
    pub fn remove(&mut self, key: &K) -> (r: Option<V>)
        requires
            total_order::<K>(),
            old(self).is_bst(),
        ensures
            final(self).is_bst(),
            final(self).key == old(self).key,
            final(self).value == old(self).value,
            final(self).size() <= old(self).size(),
            *key == old(self).key ==> r is None && *final(self) == *old(self),
            *key != old(self).key ==> {
                &&& final(self).as_map() == old(self).as_map().remove(*key)
                &&& r == lookup(old(self).as_map(), *key)
            },
            !old(self).as_map().dom().contains(*key) ==> *final(self) == *old(self),
        decreases *old(self),
    {
        proof {
            lemma_total_order::<K>();
        }
        let ghost s0 = *self;
        let branch = match compare(key, &self.key) {
            Ordering::Equal => {
                return None;
            },
            Ordering::Less => Branch::Smaller,
            Ordering::Greater => Branch::Larger,
        };
        let mut link = self.take_child(branch);
        let r = Self::remove_link(&mut link, key);
        self.put_child(branch, link);
        proof {
            Self::lemma_lookup(s0, *key);
            assert forall|x: K|
                (#[trigger] self.as_map().dom().contains(x) <==> s0.as_map().remove(
                    *key,
                ).dom().contains(x)) && (self.as_map().dom().contains(x) ==> self.as_map()[x]
                    == s0.as_map().remove(*key)[x]) by {
                Self::lemma_lookup(s0, x);
                Self::lemma_lookup(*self, x);
            }
            assert(self.as_map() =~= s0.as_map().remove(*key));
        }
        r
    }

    /// Removes `key` from the linked subtree. A node with two children takes
    /// the key and value of its in-order successor, whose own node is removed
    /// from the larger subtree. No colors are restored.
    pub(crate) fn remove_link(link: &mut Link<K, V>, key: &K) -> (r: Option<V>)
        requires
            total_order::<K>(),
            Self::link_is_bst(*old(link)),
        ensures
            Self::link_is_bst(*final(link)),
            Self::link_map(*final(link)) == Self::link_map(*old(link)).remove(*key),
            Self::link_size(*final(link)) <= Self::link_size(*old(link)),
            r == lookup(Self::link_map(*old(link)), *key),
            !Self::link_map(*old(link)).dom().contains(*key) ==> *final(link) == *old(link),
        decreases *old(link),
    {
        proof {
            lemma_total_order::<K>();
        }
        match link.take() {
            None => {
                assert(Self::link_map(*link) =~= Self::link_map(*old(link)).remove(*key));
                None
            },
            Some(node) => {
                let ghost n0 = *node;
                proof {
                    Self::lemma_lookup(n0, *key);
                }
                let mut node = node;
                match compare(key, &node.key) {
                    Ordering::Less => {
                        let r = node.remove(key);
                        *link = Some(node);
                        r
                    },
                    Ordering::Greater => {
                        let r = node.remove(key);
                        *link = Some(node);
                        r
                    },
                    Ordering::Equal => {
                        let n = *node;
                        let RBTreeNode { key: k0, value, color, smaller, larger } = n;
                        if smaller.is_none() {
                            *link = larger;
                        } else if larger.is_none() {
                            *link = smaller;
                        } else {
                            let mut larger = larger;
                            let (next_key, next_value) = Self::remove_smallest(&mut larger);
                            let ghost l0 = *n0.larger.unwrap();
                            proof {
                                assert(Self::link_map(n0.larger).dom().contains(next_key));
                                assert(lt(k0, next_key));
                                assert forall|x: K| #[trigger] Self::link_map(smaller).dom().contains(x) implies lt(
                                    x,
                                    next_key,
                                ) by {
                                    assert(lt(x, k0));
                                }
                            }
                            *link = Some(
                                Box::new(
                                    RBTreeNode { key: next_key, value: next_value, color, smaller, larger },
                                ),
                            );
                        }
                        proof {
                            assert forall|x: K|
                                (#[trigger] Self::link_map(*link).dom().contains(x) <==> n0.as_map().remove(
                                    *key,
                                ).dom().contains(x)) && (Self::link_map(*link).dom().contains(x)
                                    ==> Self::link_map(*link)[x] == n0.as_map().remove(*key)[x]) by {
                                Self::lemma_lookup(n0, x);
                                if let Some(m) = *link {
                                    if n0.smaller is Some && n0.larger is Some {
                                        Self::lemma_lookup(*m, x);
                                    }
                                }
                            }
                            assert(Self::link_map(*link) =~= n0.as_map().remove(*key));
                        }
                        Some(value)
                    },
                }
            },
        }
    }

    /// Takes the entry with the smallest key out of a non-empty linked subtree.
    pub(crate) fn remove_smallest(link: &mut Link<K, V>) -> (r: (K, V))
        requires
            total_order::<K>(),
            *old(link) is Some,
            Self::link_is_bst(*old(link)),
        ensures
            Self::link_is_bst(*final(link)),
            Self::link_map(*old(link)).dom().contains(r.0),
            Self::link_map(*old(link))[r.0] == r.1,
            Self::link_map(*final(link)) == Self::link_map(*old(link)).remove(r.0),
            Self::link_size(*final(link)) < Self::link_size(*old(link)),
            forall|k: K| #[trigger]
                Self::link_map(*old(link)).dom().contains(k) ==> k == r.0 || lt(r.0, k),
        decreases *old(link),
    {
        proof {
            lemma_total_order::<K>();
        }
        let mut node = link.take().unwrap();
        let ghost n0 = *node;
        if node.smaller.is_none() {
            let n = *node;
            let RBTreeNode { key, value, color, smaller, larger } = n;
            *link = larger;
            proof {
                Self::lemma_lookup(n0, key);
                assert forall|x: K|
                    (#[trigger] Self::link_map(*link).dom().contains(x) <==> n0.as_map().remove(
                        key,
                    ).dom().contains(x)) && (Self::link_map(*link).dom().contains(x)
                        ==> Self::link_map(*link)[x] == n0.as_map().remove(key)[x]) by {
                    Self::lemma_lookup(n0, x);
                }
                assert(Self::link_map(*link) =~= n0.as_map().remove(key));
                assert forall|k: K| #[trigger] n0.as_map().dom().contains(k) implies k == key || lt(key, k) by {
                    Self::lemma_lookup(n0, k);
                }
            }
            (key, value)
        } else {
            let r = Self::remove_smallest(&mut node.smaller);
            proof {
                Self::lemma_lookup(n0, r.0);
                assert forall|x: K|
                    (#[trigger] node.as_map().dom().contains(x) <==> n0.as_map().remove(
                        r.0,
                    ).dom().contains(x)) && (node.as_map().dom().contains(x)
                        ==> node.as_map()[x] == n0.as_map().remove(r.0)[x]) by {
                    Self::lemma_lookup(n0, x);
                    Self::lemma_lookup(*node, x);
                }
                assert(node.as_map() =~= n0.as_map().remove(r.0));
                assert forall|k: K| #[trigger] n0.as_map().dom().contains(k) implies k == r.0 || lt(r.0, k) by {
                    Self::lemma_lookup(n0, k);
                    if k == n0.key || lt(n0.key, k) {
                        assert(lt(r.0, n0.key));
                    }
                }
            }
            *link = Some(node);
            r
        }
    }

    /// A mutable borrow of the value stored under `key` in the linked subtree.
    /// Whatever the borrow leaves there ends up at that key, and nothing else moves.
    pub(crate) fn find_mut_link<'a>(link: &'a mut Link<K, V>, key: &K) -> (r: Option<&'a mut V>)
        requires
            total_order::<K>(),
            Self::link_is_bst(*old(link)),
        ensures
            match r {
                None => {
                    &&& !Self::link_map(*old(link)).dom().contains(*key)
                    &&& *final(link) == *old(link)
                },
                Some(v) => {
                    &&& Self::link_map(*old(link)).dom().contains(*key)
                    &&& *v == Self::link_map(*old(link))[*key]
                    &&& *final(link) == Self::link_with_value(*old(link), *key, *final(v))
                },
            },
        decreases *old(link),
    {
        proof {
            lemma_total_order::<K>();
        }
        match link {
            None => None,
            Some(node) => {
                proof {
                    Self::lemma_lookup(**node, *key);
                }
                match compare(key, &node.key) {
                    Ordering::Equal => Some(&mut node.value),
                    Ordering::Less => Self::find_mut_link(&mut node.smaller, key),
                    Ordering::Greater => Self::find_mut_link(&mut node.larger, key),
                }
            },
        }
    }

    /// Setting the value at a key that the subtree holds keeps its order, its
    /// colors and heights, and stores the value at that key.
    pub(crate) proof fn lemma_with_value(link: Link<K, V>, key: K, v: V)
        requires
            total_order::<K>(),
            Self::link_is_bst(link),
            Self::link_map(link).dom().contains(key),
        ensures
            Self::link_is_bst(Self::link_with_value(link, key, v)),
            Self::link_map(Self::link_with_value(link, key, v)) == Self::link_map(link).insert(key, v),
            Self::link_is_rb(Self::link_with_value(link, key, v)) == Self::link_is_rb(link),
            Self::link_black_height(Self::link_with_value(link, key, v)) == Self::link_black_height(link),
            Self::link_is_red(Self::link_with_value(link, key, v)) == Self::link_is_red(link),
            Self::link_height(Self::link_with_value(link, key, v)) == Self::link_height(link),
            Self::link_size(Self::link_with_value(link, key, v)) == Self::link_size(link),
        decreases link,
    {
        lemma_total_order::<K>();
        let n = *link.unwrap();
        let w = n.with_value(key, v);
        assert(Self::link_with_value(link, key, v) == Some(Box::new(w)));
        Self::lemma_lookup(n, key);
        if key == n.key {
        } else if lt(key, n.key) {
            Self::lemma_with_value(n.smaller, key, v);
        } else {
            Self::lemma_with_value(n.larger, key, v);
        }
        assert(w.is_bst());
        assert forall|x: K|
            (#[trigger] w.as_map().dom().contains(x) <==> n.as_map().insert(key, v).dom().contains(x))
                && (w.as_map().dom().contains(x) ==> w.as_map()[x] == n.as_map().insert(key, v)[x]) by {
            Self::lemma_lookup(n, x);
            Self::lemma_lookup(w, x);
        }
        assert(w.as_map() =~= n.as_map().insert(key, v));
    }

    /// Checks the color rules on the linked subtree bottom-up and gives its black
    /// height, or the first broken rule met with the key of the node where it broke.
    pub(crate) fn check_link<'a>(link: &'a Link<K, V>) -> (r: Result<usize, RuleViolation<'a, K>>)
        requires
            total_order::<K>(),
            Self::link_is_bst(*link),
            Self::link_height(*link) < usize::MAX,
        ensures
            match r {
                Ok(h) => Self::link_is_rb(*link) && h == Self::link_black_height(*link),
                Err(RuleViolation::ConsecutiveReds(k)) => {
                    &&& !Self::link_no_red_red(*link)
                    &&& Self::link_node_at(*link, *k) matches Some(n)
                    &&& n.key == *k
                    &&& n.color == Color::Red
                    &&& (Self::link_is_red(n.smaller) || Self::link_is_red(n.larger))
                },
                Err(RuleViolation::BlackHeightMismatch(k)) => {
                    &&& !Self::link_balanced(*link)
                    &&& Self::link_node_at(*link, *k) matches Some(n)
                    &&& n.key == *k
                    &&& Self::link_black_height(n.smaller) != Self::link_black_height(n.larger)
                },
                Err(RuleViolation::RedRoot(_)) => false,
            },
        decreases *link,
    {
        match link {
            None => Ok(0),
            Some(n) => {
                proof {
                    lemma_total_order::<K>();
                    Self::lemma_black_height_bound(n.smaller);
                    Self::lemma_children_submap(**n);
                }
                let hs = match Self::check_link(&n.smaller) {
                    Ok(h) => h,
                    Err(e) => {
                        proof {
                            Self::lemma_node_at_in_map(n.smaller, e);
                        }
                        return Err(e);
                    },
                };
                let hl = match Self::check_link(&n.larger) {
                    Ok(h) => h,
                    Err(e) => {
                        proof {
                            Self::lemma_node_at_in_map(n.larger, e);
                        }
                        return Err(e);
                    },
                };
                if n.color == Color::Red {
                    let red_below = match (&n.smaller, &n.larger) {
                        (Some(c), _) if c.color == Color::Red => true,
                        (_, Some(c)) if c.color == Color::Red => true,
                        _ => false,
                    };
                    if red_below {
                        return Err(RuleViolation::ConsecutiveReds(&n.key));
                    }
                }
                if hs != hl {
                    return Err(RuleViolation::BlackHeightMismatch(&n.key));
                }
                if n.color == Color::Black {
                    Ok(hs + 1)
                } else {
                    Ok(hs)
                }
            },
        }
    }

    /// A search that stops at a node stops at a key of the subtree.
    pub(crate) proof fn lemma_node_at_in_map(link: Link<K, V>, e: RuleViolation<'_, K>)
        requires
            total_order::<K>(),
            Self::link_is_bst(link),
        ensures
            match e {
                RuleViolation::ConsecutiveReds(k) => Self::link_node_at(link, *k) is Some
                    ==> Self::link_map(link).dom().contains(*k),
                RuleViolation::BlackHeightMismatch(k) => Self::link_node_at(link, *k) is Some
                    ==> Self::link_map(link).dom().contains(*k),
                RuleViolation::RedRoot(_) => true,
            },
    {
        match e {
            RuleViolation::ConsecutiveReds(k) => Self::lemma_node_at_key(link, *k),
            RuleViolation::BlackHeightMismatch(k) => Self::lemma_node_at_key(link, *k),
            RuleViolation::RedRoot(_) => {},
        }
    }

    /// A search for `k` that stops at a node stops at a node keyed `k`, which
    /// is then a key of the subtree.
    pub(crate) proof fn lemma_node_at_key(link: Link<K, V>, k: K)
        requires
            total_order::<K>(),
            Self::link_is_bst(link),
        ensures
            Self::link_node_at(link, k) is Some ==> Self::link_map(link).dom().contains(k),
        decreases link,
    {
        if let Some(n) = link {
            Self::lemma_children_submap(*n);
            if k != n.key {
                if lt(k, n.key) {
                    Self::lemma_node_at_key(n.smaller, k);
                } else {
                    Self::lemma_node_at_key(n.larger, k);
                }
            }
        }
    }

    /// The height never exceeds the number of nodes.
    pub(crate) proof fn lemma_height_bound(link: Link<K, V>)
        ensures
            Self::link_height(link) <= Self::link_size(link),
        decreases link,
    {
        if let Some(n) = link {
            Self::lemma_height_bound(n.smaller);
            Self::lemma_height_bound(n.larger);
        }
    }

    /// A black height never exceeds the height.
    pub(crate) proof fn lemma_black_height_bound(link: Link<K, V>)
        ensures
            Self::link_black_height(link) <= Self::link_height(link),
        decreases link,
    {
        if let Some(n) = link {
            Self::lemma_black_height_bound(n.smaller);
        }
    }

    /// The in-order entries of a search tree: keys strictly ascending, each one
    /// an entry of the subtree, and every entry of the subtree among them.
    pub(crate) proof fn lemma_in_order(link: Link<K, V>)
        requires
            total_order::<K>(),
            Self::link_is_bst(link),
        ensures
            forall|i: int, j: int|
                0 <= i < j < Self::link_in_order(link).len() ==> lt(
                    #[trigger] Self::link_in_order(link)[i].0,
                    #[trigger] Self::link_in_order(link)[j].0,
                ),
            forall|i: int|
                0 <= i < Self::link_in_order(link).len() ==> {
                    &&& Self::link_map(link).dom().contains(#[trigger] Self::link_in_order(link)[i].0)
                    &&& Self::link_map(link)[Self::link_in_order(link)[i].0] == Self::link_in_order(
                        link,
                    )[i].1
                },
            forall|k: K| #[trigger]
                Self::link_map(link).dom().contains(k) ==> exists|i: int|
                    0 <= i < Self::link_in_order(link).len() && #[trigger] Self::link_in_order(
                        link,
                    )[i].0 == k,
        decreases link,
    {
        lemma_total_order::<K>();
        if let Some(n) = link {
            Self::lemma_in_order(n.smaller);
            Self::lemma_in_order(n.larger);
            let a = Self::link_in_order(n.smaller);
            let b = Self::link_in_order(n.larger);
            let s = Self::link_in_order(link);
            assert(s == a.push((n.key, n.value)) + b);
            assert forall|i: int| 0 <= i < s.len() implies {
                &&& Self::link_map(link).dom().contains(#[trigger] s[i].0)
                &&& Self::link_map(link)[s[i].0] == s[i].1
                &&& (i < a.len() ==> lt(s[i].0, n.key))
                &&& (i > a.len() ==> lt(n.key, s[i].0))
            } by {
                Self::lemma_lookup(*n, s[i].0);
                if i < a.len() {
                    assert(s[i] == a[i]);
                } else if i > a.len() {
                    assert(s[i] == b[i - a.len() - 1]);
                }
            }
            assert forall|i: int, j: int| 0 <= i < j < s.len() implies lt(
                #[trigger] s[i].0,
                #[trigger] s[j].0,
            ) by {
                if i < a.len() && j < a.len() {
                    assert(s[i] == a[i] && s[j] == a[j]);
                } else if i > a.len() && j > a.len() {
                    assert(s[i] == b[i - a.len() - 1] && s[j] == b[j - a.len() - 1]);
                } else if i < a.len() && j > a.len() {
                    assert(lt(s[i].0, n.key));
                    assert(lt(n.key, s[j].0));
                }
            }
            assert forall|k: K| #[trigger] Self::link_map(link).dom().contains(k) implies exists|i: int|
                0 <= i < s.len() && #[trigger] s[i].0 == k by {
                Self::lemma_lookup(*n, k);
                if k == n.key {
                    assert(s[a.len() as int].0 == k);
                } else if lt(k, n.key) {
                    let i = choose|i: int| 0 <= i < a.len() && #[trigger] a[i].0 == k;
                    assert(s[i] == a[i]);
                } else {
                    let i = choose|i: int| 0 <= i < b.len() && #[trigger] b[i].0 == k;
                    assert(s[i + a.len() + 1] == b[i]);
                }
            }
        }
    }

    /// The entries of each child are entries of the node, on their side of its key.
    pub(crate) proof fn lemma_children_submap(n: Self)
        requires
            total_order::<K>(),
            n.is_bst(),
        ensures
            forall|x: K| #[trigger]
                Self::link_map(n.smaller).dom().contains(x) ==> {
                    &&& n.as_map().dom().contains(x)
                    &&& n.as_map()[x] == Self::link_map(n.smaller)[x]
                    &&& lt(x, n.key)
                },
            forall|x: K| #[trigger]
                Self::link_map(n.larger).dom().contains(x) ==> {
                    &&& n.as_map().dom().contains(x)
                    &&& n.as_map()[x] == Self::link_map(n.larger)[x]
                    &&& lt(n.key, x)
                },
    {
        lemma_total_order::<K>();
        assert forall|x: K| #[trigger] Self::link_map(n.smaller).dom().contains(x) implies {
            &&& n.as_map().dom().contains(x)
            &&& n.as_map()[x] == Self::link_map(n.smaller)[x]
            &&& lt(x, n.key)
        } by {
            Self::lemma_lookup(n, x);
        }
        assert forall|x: K| #[trigger] Self::link_map(n.larger).dom().contains(x) implies {
            &&& n.as_map().dom().contains(x)
            &&& n.as_map()[x] == Self::link_map(n.larger)[x]
            &&& lt(n.key, x)
        } by {
            Self::lemma_lookup(n, x);
        }
    }

    /// In a search tree a key is found at the node, or on the side its order points to.
    pub(crate) proof fn lemma_lookup(n: Self, x: K)
        requires
            total_order::<K>(),
            n.is_bst(),
        ensures
            n.as_map().dom().contains(x) <==> (x == n.key || (lt(x, n.key) && Self::link_map(
                n.smaller,
            ).dom().contains(x)) || (lt(n.key, x) && Self::link_map(n.larger).dom().contains(x))),
            n.as_map().dom().contains(x) ==> n.as_map()[x] == if x == n.key {
                n.value
            } else if lt(x, n.key) {
                Self::link_map(n.smaller)[x]
            } else {
                Self::link_map(n.larger)[x]
            },
    {
        lemma_total_order::<K>();
        if Self::link_map(n.smaller).dom().contains(x) {
            assert(lt(x, n.key));
        }
        if Self::link_map(n.larger).dom().contains(x) {
            assert(lt(n.key, x));
        }
    }

    /// A rotation keeps the entries and the search-tree order.
    pub(crate) proof fn lemma_rotation_keeps_map(direction: RotDir, old: Self, new: Self)
        requires
            total_order::<K>(),
            old.is_bst(),
            Self::is_rotation(direction, old, new),
        ensures
            new.is_bst(),
            new.as_map() == old.as_map(),
            new.size() == old.size(),
    {
        lemma_total_order::<K>();
        match direction {
            RotDir::Left => {
                let l = old.larger.unwrap();
                let s = new.smaller.unwrap();
                assert(s.size() == Self::link_size(old.smaller) + Self::link_size(l.smaller) + 1);
                assert(l.size() == Self::link_size(l.smaller) + Self::link_size(l.larger) + 1);
                assert(l.is_bst());
                assert(Self::link_map(old.larger).dom().contains(l.key));
                assert(lt(old.key, l.key));
                assert forall|k: K| #[trigger] Self::link_map(s.larger).dom().contains(k) implies lt(
                    old.key,
                    k,
                ) by {
                    assert(Self::link_map(old.larger).dom().contains(k));
                }
                assert(s.is_bst());
                assert forall|x: K| #[trigger] Self::link_map(new.smaller).dom().contains(x) implies lt(
                    x,
                    new.key,
                ) by {
                    Self::lemma_lookup(*s, x);
                }
                assert(new.is_bst());
                assert forall|x: K|
                    (#[trigger] new.as_map().dom().contains(x) <==> old.as_map().dom().contains(x))
                        && (new.as_map().dom().contains(x) ==> new.as_map()[x] == old.as_map()[x]) by {
                    Self::lemma_lookup(old, x);
                    Self::lemma_lookup(*l, x);
                    Self::lemma_lookup(new, x);
                    Self::lemma_lookup(*s, x);
                }
                assert(new.as_map() =~= old.as_map());
            },
            RotDir::Right => {
                let s = old.smaller.unwrap();
                let l = new.larger.unwrap();
                assert(l.size() == Self::link_size(s.larger) + Self::link_size(old.larger) + 1);
                assert(s.size() == Self::link_size(s.smaller) + Self::link_size(s.larger) + 1);
                assert(s.is_bst());
                assert(Self::link_map(old.smaller).dom().contains(s.key));
                assert(lt(s.key, old.key));
                assert forall|k: K| #[trigger] Self::link_map(l.smaller).dom().contains(k) implies lt(
                    k,
                    old.key,
                ) by {
                    assert(Self::link_map(old.smaller).dom().contains(k));
                }
                assert(l.is_bst());
                assert forall|x: K| #[trigger] Self::link_map(new.larger).dom().contains(x) implies lt(
                    new.key,
                    x,
                ) by {
                    Self::lemma_lookup(*l, x);
                }
                assert(new.is_bst());
                assert forall|x: K|
                    (#[trigger] new.as_map().dom().contains(x) <==> old.as_map().dom().contains(x))
                        && (new.as_map().dom().contains(x) ==> new.as_map()[x] == old.as_map()[x]) by {
                    Self::lemma_lookup(old, x);
                    Self::lemma_lookup(*l, x);
                    Self::lemma_lookup(new, x);
                    Self::lemma_lookup(*s, x);
                }
                assert(new.as_map() =~= old.as_map());
            },
        }
    }
}

} // verus!
