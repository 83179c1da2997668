use vstd::prelude::*;
use vstd::std_specs::cmp::PartialEqSpec;

verus! {

type Link<T> = Option<Box<Entry<T>>>;

struct Entry<T> {
    value: T,
    next: Link<T>,
}

/// The values held from a link on, front first.
closed spec fn link_seq<T>(link: Link<T>) -> Seq<T>
    decreases link,
{
    match link {
        None => Seq::empty(),
        Some(e) => seq![e.value] + link_seq(e.next),
    }
}

/// A singly-linked stack: values are pushed to and popped from the front.
pub struct LinkedList<T> {
    list: Link<T>,
}

impl<T> View for LinkedList<T> {
    type V = Seq<T>;

    /// The values, front first.
    closed spec fn view(&self) -> Seq<T> {
        link_seq(self.list)
    }
}

impl<T> Default for LinkedList<T> {
    fn default() -> (r: Self)
        ensures
            r@ == Seq::<T>::empty(),
    {
        Self::new()
    }
}

impl<T> Drop for LinkedList<T> {
    /// Frees the entries one at a time, so a long list does not recurse deeply.
    fn drop(&mut self)
        opens_invariants none
        no_unwind
    {
        let mut curr: Link<T> = None;
        std::mem::swap(&mut curr, &mut self.list);
        loop
            decreases link_seq(curr).len(),
        {
            match curr {
                None => return,
                Some(node) => {
                    let e = *node;
                    curr = e.next;
                },
            }
        }
    }
}

impl<T> LinkedList<T> {
    /// An empty list.
    pub fn new() -> (r: Self)
        ensures
            r@ == Seq::<T>::empty(),
    {
        LinkedList { list: None }
    }

    /// Puts `value` at the front.
    pub fn push(&mut self, value: T)
        ensures
            final(self)@ == seq![value] + old(self)@,
    {
        let new_node = Some(Box::new(Entry { value, next: self.list.take() }));
        self.list = new_node;
    }

    /// Takes the front value off, if there is one.
    pub fn pop(&mut self) -> (r: Option<T>)
        ensures
            old(self)@.len() == 0 ==> r is None && final(self)@ == old(self)@,
            old(self)@.len() > 0 ==> r == Some(old(self)@[0]) && final(self)@ == old(self)@.drop_first(),
    {
        match self.list.take() {
            None => None,
            Some(node) => {
                let e = *node;
                proof {
                    assert(link_seq(e.next) =~= old(self)@.drop_first());
                }
                self.list = e.next;
                Some(e.value)
            },
        }
    }

    /// The front value, if there is one.
    pub fn peek(&self) -> (r: Option<&T>)
        ensures
            match r {
                None => self@.len() == 0,
                Some(v) => self@.len() > 0 && *v == self@[0],
            },
    {
        match &self.list {
            None => None,
            Some(node) => Some(&node.value),
        }
    }

    /// A mutable borrow of the front value, if there is one; what the borrow
    /// leaves there becomes the front value.
    pub fn peek_mut(&mut self) -> (r: Option<&mut T>)
        ensures
            match r {
                None => old(self)@.len() == 0 && *final(self) == *old(self),
                Some(v) => {
                    &&& old(self)@.len() > 0
                    &&& *v == old(self)@[0]
                    &&& final(self)@ == old(self)@.update(0, *final(v))
                },
            },
    {
        match &mut self.list {
            None => None,
            Some(node) => {
                proof {
                    assert(old(self)@[0] == node.value);
                }
                Some(&mut node.value)
            },
        }
    }

    /// A cursor over the values, front first.
    pub fn iter(&self) -> (r: Iter<'_, T>)
        ensures
            r@ == self@,
    {
        let next = match &self.list {
            None => None,
            Some(node) => Some(&**node),
        };
        Iter { next }
    }

    /// A cursor that hands out mutable borrows of the values, front first.
    pub fn iter_mut(&mut self) -> (r: IterMut<'_, T>)
        ensures
            r@ == old(self)@,
    {
        let next = match &mut self.list {
            None => None,
            Some(node) => Some(&mut **node),
        };
        IterMut { next }
    }

    /// Turns the list into a cursor that hands out its values, front first.
    pub fn into_iter(self) -> (r: IntoIter<T>)
        ensures
            r@ == self@,
    {
        IntoIter(self)
    }
}

impl<T: PartialEq> LinkedList<T> {
    /// Whether some value of the list equals `value`.
    pub fn contains(&mut self, value: &T) -> (r: bool)
        ensures
            *final(self) == *old(self),
            T::obeys_eq_spec() ==> (r <==> exists|i: int|
                0 <= i < old(self)@.len() && #[trigger] old(self)@[i].eq_spec(value)),
    {
        let mut curr = &self.list;
        assert(link_seq(*curr) == self@);
        loop
            invariant
                self@ == link_seq(self.list),
                T::obeys_eq_spec() ==> ((exists|i: int|
                    0 <= i < self@.len() && #[trigger] self@[i].eq_spec(value)) <==> (exists|i: int|
                    0 <= i < link_seq(*curr).len() && #[trigger] link_seq(*curr)[i].eq_spec(value))),
            decreases link_seq(*curr).len(),
        {
            match curr {
                None => return false,
                Some(node) => {
                    let ghost rest = link_seq(node.next);
                    proof {
                        assert(link_seq(*curr) == seq![node.value] + rest);
                        if T::obeys_eq_spec() {
                            assert forall|i: int| 0 <= i < rest.len() implies #[trigger] rest[i].eq_spec(
                                value,
                            ) == link_seq(*curr)[i + 1].eq_spec(value) by {}
                            assert((exists|i: int|
                                0 <= i < link_seq(*curr).len() && #[trigger] link_seq(*curr)[i].eq_spec(value))
                                ==> node.value.eq_spec(value) || (exists|i: int|
                                0 <= i < rest.len() && #[trigger] rest[i].eq_spec(value))) by {
                                if exists|i: int|
                                    0 <= i < link_seq(*curr).len() && #[trigger] link_seq(*curr)[i].eq_spec(value) {
                                    let i = choose|i: int|
                                        0 <= i < link_seq(*curr).len() && #[trigger] link_seq(*curr)[i].eq_spec(
                                            value,
                                        );
                                    if i > 0 {
                                        assert(rest[i - 1].eq_spec(value));
                                    }
                                }
                            }
                            if node.value.eq_spec(value) {
                                assert(link_seq(*curr)[0].eq_spec(value));
                            }
                        }
                    }
                    if node.value == *value {
                        return true;
                    } else {
                        curr = &node.next;
                    }
                },
            }
        }
    }
}

/// A cursor that owns a list and hands out its values, front first.
pub struct IntoIter<T>(LinkedList<T>);

impl<T> View for IntoIter<T> {
    type V = Seq<T>;

    /// The values not handed out yet.
    closed spec fn view(&self) -> Seq<T> {
        self.0@
    }
}

impl<T> IntoIter<T> {
    /// The next value, if any is left.
    pub fn next(&mut self) -> (r: Option<T>)
        ensures
            old(self)@.len() == 0 ==> r is None && final(self)@ == old(self)@,
            old(self)@.len() > 0 ==> r == Some(old(self)@[0]) && final(self)@ == old(self)@.drop_first(),
    {
        self.0.pop()
    }
}

/// A cursor that borrows a list and hands out references to its values.
pub struct Iter<'a, T> {
    next: Option<&'a Entry<T>>,
}

impl<'a, T> View for Iter<'a, T> {
    type V = Seq<T>;

    /// The values not handed out yet.
    closed spec fn view(&self) -> Seq<T> {
        match self.next {
            None => Seq::empty(),
            Some(e) => seq![e.value] + link_seq(e.next),
        }
    }
}

impl<'a, T> Iter<'a, T> {
    /// A reference to the next value, if any is left.
    pub fn next(&mut self) -> (r: Option<&'a T>)
        ensures
            old(self)@.len() == 0 ==> r is None && final(self)@ == old(self)@,
            old(self)@.len() > 0 ==> r is Some && *r.unwrap() == old(self)@[0] && final(self)@
                == old(self)@.drop_first(),
    {
        match self.next {
            None => None,
            Some(node) => {
                self.next = match &node.next {
                    None => None,
                    Some(after) => Some(&**after),
                };
                proof {
                    assert(self@ =~= old(self)@.drop_first());
                }
                Some(&node.value)
            },
        }
    }
}

/// A cursor that borrows a list mutably and hands out mutable borrows of its
/// values.
pub struct IterMut<'a, T> {
    next: Option<&'a mut Entry<T>>,
}

impl<'a, T> View for IterMut<'a, T> {
    type V = Seq<T>;

    /// The values not handed out yet.
    closed spec fn view(&self) -> Seq<T> {
        match self.next {
            None => Seq::empty(),
            Some(e) => seq![e.value] + link_seq(e.next),
        }
    }
}

impl<'a, T> IterMut<'a, T> {
    /// A mutable borrow of the next value, if any is left.
    pub fn next(&mut self) -> (r: Option<&'a mut T>)
        ensures
            old(self)@.len() == 0 ==> r is None && final(self)@ == old(self)@,
            old(self)@.len() > 0 ==> r is Some && *r.unwrap() == old(self)@[0] && final(self)@
                == old(self)@.drop_first(),
    {
        match self.next.take() {
            None => None,
            Some(node) => {
                let Entry { value, next } = node;
                self.next = match next {
                    None => None,
                    Some(after) => Some(&mut **after),
                };
                proof {
                    assert(self@ =~= old(self)@.drop_first());
                }
                Some(value)
            },
        }
    }
}

} // verus!
