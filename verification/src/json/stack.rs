//! The position of a parser in the logical structure of a document.

use vstd::prelude::*;
use crate::json::key::str_eq;

verus! {

/// StackElements compose a Stack.
/// For example, Key("foo"), Key("bar"), Index(3) and Key("x") are the
/// StackElements compositing the stack that represents foo.bar[3].x
#[derive(PartialEq, Clone, Debug)]
pub enum StackElement<'l> {
    Index(u32),
    Key(&'l str),
}

/// The mathematical value of a [`StackElement`].
pub enum StackElementView {
    Index(u32),
    Key(Seq<char>),
}

impl<'l> View for StackElement<'l> {
    type V = StackElementView;

    open spec fn view(&self) -> StackElementView {
        match self {
            StackElement::Index(i) => StackElementView::Index(*i),
            StackElement::Key(k) => StackElementView::Key(k@),
        }
    }
}

impl<'l> StackElement<'l> {
    /// Whether two elements are the same index or the same key.
    pub fn same(&self, other: &StackElement) -> (r: bool)
        ensures
            r == (self@ == other@),
    {
        match (self, other) {
            (StackElement::Index(a), StackElement::Index(b)) => *a == *b,
            (StackElement::Key(a), StackElement::Key(b)) => str_eq(a, b),
            (_, _) => false,
        }
    }
}

/// The views of a slice of elements, in order.
pub open spec fn path_of(elements: Seq<StackElement>) -> Seq<StackElementView> {
    Seq::new(elements.len(), |i: int| elements[i]@)
}

// Each key owns its text: an element is pushed and popped as a whole.
enum InternalStackElement {
    InternalIndex(u32),
    InternalKey(String),
}

impl View for InternalStackElement {
    type V = StackElementView;

    closed spec fn view(&self) -> StackElementView {
        match self {
            InternalStackElement::InternalIndex(i) => StackElementView::Index(*i),
            InternalStackElement::InternalKey(k) => StackElementView::Key(k@),
        }
    }
}

/// A Stack represents the current position of the parser in the logical
/// structure of the JSON stream.
/// For example foo.bar[3].x
pub struct Stack {
    stack: Vec<InternalStackElement>,
}

impl View for Stack {
    type V = Seq<StackElementView>;

    /// The elements from the outermost, at index 0, to the innermost.
    closed spec fn view(&self) -> Seq<StackElementView> {
        Seq::new(self.stack@.len(), |i: int| self.stack@[i]@)
    }
}

/// The index after `i`; after the last one the count starts again at zero.
pub open spec fn next_index(i: u32) -> u32 {
    if i == u32::MAX {
        0
    } else {
        (i + 1) as u32
    }
}

impl Stack {
    pub fn new() -> (r: Stack)
        ensures
            r@ == Seq::<StackElementView>::empty(),
    {
        let r = Stack { stack: Vec::new() };
        assert(r@ =~= Seq::<StackElementView>::empty());
        r
    }

    /// Returns The number of elements in the Stack.
    pub fn len(&self) -> (r: usize)
        ensures
            r == self@.len(),
    {
        self.stack.len()
    }

    /// Returns true if the stack is empty.
    pub fn is_empty(&self) -> (r: bool)
        ensures
            r == (self@.len() == 0),
    {
        self.stack.len() == 0
    }

    /// Provides access to the StackElement at a given index.
    /// lower indices are at the bottom of the stack while higher indices are
    /// at the top.
    pub fn get<'l>(&'l self, idx: usize) -> (r: StackElement<'l>)
        requires
            idx < self@.len(),
        ensures
            r@ == self@[idx as int],
    {
        match &self.stack[idx] {
            InternalStackElement::InternalIndex(i) => StackElement::Index(*i),
            InternalStackElement::InternalKey(k) => StackElement::Key(k.as_str()),
        }
    }

    // Whether the `rhs.len()` elements from `offset` on are those of `rhs`.
    fn matches_at(&self, offset: usize, rhs: &[StackElement]) -> (r: bool)
        requires
            offset + rhs@.len() <= self@.len(),
        ensures
            r == (self@.subrange(offset as int, offset + rhs@.len()) == path_of(rhs@)),
    {
        let ghost window = self@.subrange(offset as int, offset + rhs@.len());
        let n = self.stack.len();
        let mut i: usize = 0;
        while i < rhs.len()
            invariant
                i <= rhs@.len(),
                offset + rhs@.len() <= self@.len(),
                self@.len() == n,
                window == self@.subrange(offset as int, offset + rhs@.len()),
                forall|j: int| 0 <= j < i ==> window[j] == rhs@[j]@,
            decreases rhs.len() - i,
        {
            let e = self.get(i + offset);
            if !e.same(&rhs[i]) {
                assert(window[i as int] != path_of(rhs@)[i as int]);
                return false;
            }
            i += 1;
        }
        assert(window =~= path_of(rhs@));
        true
    }

    /// Compares this stack with an array of StackElements.
    pub fn is_equal_to(&self, rhs: &[StackElement]) -> (r: bool)
        ensures
            r == (self@ == path_of(rhs@)),
    {
        if self.stack.len() != rhs.len() {
            assert(self@.len() != path_of(rhs@).len());
            return false;
        }
        assert(self@.subrange(0, rhs@.len() as int) =~= self@);
        self.matches_at(0, rhs)
    }

    /// Returns true if the bottom-most elements of this stack are the same as
    /// the ones passed as parameter.
    pub fn starts_with(&self, rhs: &[StackElement]) -> (r: bool)
        ensures
            r == (rhs@.len() <= self@.len() && self@.subrange(0, rhs@.len() as int) == path_of(
                rhs@,
            )),
    {
        if self.stack.len() < rhs.len() {
            return false;
        }
        self.matches_at(0, rhs)
    }

    /// Returns true if the top-most elements of this stack are the same as
    /// the ones passed as parameter.
    pub fn ends_with(&self, rhs: &[StackElement]) -> (r: bool)
        ensures
            r == (rhs@.len() <= self@.len() && self@.subrange(
                self@.len() - rhs@.len(),
                self@.len() as int,
            ) == path_of(rhs@)),
    {
        if self.stack.len() < rhs.len() {
            return false;
        }
        let offset = self.stack.len() - rhs.len();
        self.matches_at(offset, rhs)
    }

    /// Returns the top-most element (if any).
    pub fn top<'l>(&'l self) -> (r: Option<StackElement<'l>>)
        ensures
            self@.len() == 0 ==> r is None,
            self@.len() > 0 ==> r is Some && r->0@ == self@.last(),
    {
        let n = self.stack.len();
        if n == 0 {
            None
        } else {
            Some(self.get(n - 1))
        }
    }
}

/// What the parser does to its stack. These are methods of the stack that
/// a reader of events has no use for, so they stand in a trait of their own.
pub trait SemiPubMethods {
    /// The elements of the stack, from the outermost to the innermost.
    spec fn path(&self) -> Seq<StackElementView>;

    /// Enters the field of this name.
    fn push_key(&mut self, key: String)
        ensures
            final(self).path() == old(self).path().push(StackElementView::Key(key@)),
    ;

    /// Enters the element at this position of an array.
    fn push_index(&mut self, index: u32)
        ensures
            final(self).path() == old(self).path().push(StackElementView::Index(index)),
    ;

    /// Leaves the innermost element.
    fn pop(&mut self)
        requires
            old(self).path().len() > 0,
        ensures
            final(self).path() == old(self).path().drop_last(),
    ;

    /// Whether the innermost element is a position in an array.
    fn last_is_index(&self) -> (r: bool)
        ensures
            r == (self.path().len() > 0 && self.path().last() is Index),
    ;

    /// Moves on to the next element of the innermost array.
    fn bump_index(&mut self)
        requires
            old(self).path().len() > 0,
            old(self).path().last() is Index,
        ensures
            final(self).path() == old(self).path().drop_last().push(
                StackElementView::Index(next_index(old(self).path().last()->Index_0)),
            ),
    ;
}

impl SemiPubMethods for Stack {
    open spec fn path(&self) -> Seq<StackElementView> {
        self@
    }

    fn push_key(&mut self, key: String) {
        let ghost k = key@;
        self.stack.push(InternalStackElement::InternalKey(key));
        assert(self@ =~= old(self)@.push(StackElementView::Key(k)));
    }

    fn push_index(&mut self, index: u32) {
        self.stack.push(InternalStackElement::InternalIndex(index));
        assert(self@ =~= old(self)@.push(StackElementView::Index(index)));
    }

    fn pop(&mut self) {
        self.stack.pop();
        assert(self@ =~= old(self)@.drop_last());
    }

    fn last_is_index(&self) -> (r: bool) {
        let n = self.stack.len();
        if n == 0 {
            return false;
        }
        match &self.stack[n - 1] {
            InternalStackElement::InternalIndex(_) => true,
            InternalStackElement::InternalKey(_) => false,
        }
    }

    fn bump_index(&mut self) {
        let n = self.stack.len();
        let idx = match &self.stack[n - 1] {
            InternalStackElement::InternalIndex(i) => i.wrapping_add(1),
            InternalStackElement::InternalKey(_) => 0,
        };
        self.stack.set(n - 1, InternalStackElement::InternalIndex(idx));
        assert(self@ =~= old(self)@.drop_last().push(
            StackElementView::Index(next_index(old(self)@.last()->Index_0)),
        ));
    }
}

} // verus!
