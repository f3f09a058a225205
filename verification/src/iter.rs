//! A windowed walk over a sequence: each item together with its
//! predecessor and successor, when they exist.

use vstd::prelude::*;

verus! {

/// The neighbourhood triple at position `i` of `s`: the item before (when
/// there is one), the item itself, and the item after (when there is one).
pub open spec fn spec_triple<T>(s: Seq<T>, i: int) -> (Option<T>, T, Option<T>) {
    (
        if i > 0 {
            Some(s[i - 1])
        } else {
            None
        },
        s[i],
        if i + 1 < s.len() {
            Some(s[i + 1])
        } else {
            None
        },
    )
}

/// A cursor over a vector that hands out each item together with its
/// neighbours, in order, front to back.
pub struct ContextIter<T> {
    items: Vec<T>,
    pos: usize,
}

/// Anything that can be walked with one-item context on each side.
pub trait IterExt: Sized {
    /// The item type handed out.
    type Item;

    /// Wraps the collection in a context cursor positioned at the front.
    fn context_iter(self) -> ContextIter<Self::Item>;
}

impl<T> IterExt for Vec<T> {
    type Item = T;

    fn context_iter(self) -> (r: ContextIter<T>) {
        ContextIter { items: self, pos: 0 }
    }
}

impl<T: Copy> ContextIter<T> {
    /// The neighbourhood triple at the cursor, advancing the cursor; `None`
    /// once every item has been handed out.
    pub fn next(&mut self) -> (r: Option<(Option<T>, T, Option<T>)>)
        ensures
            old(self).pos_spec() < old(self).items_spec().len() ==> r == Some(
                spec_triple(old(self).items_spec(), old(self).pos_spec() as int),
            ) && final(self).pos_spec() == old(self).pos_spec() + 1,
            old(self).pos_spec() >= old(self).items_spec().len() ==> r is None && *final(self)
                == *old(self),
            final(self).items_spec() == old(self).items_spec(),
    {
        if self.pos < self.items.len() {
            let i = self.pos;
            let before: Option<T> = if i > 0 {
                Some(self.items[i - 1])
            } else {
                None
            };
            let after: Option<T> = if i + 1 < self.items.len() {
                Some(self.items[i + 1])
            } else {
                None
            };
            self.pos = i + 1;
            Some((before, self.items[i], after))
        } else {
            None
        }
    }

    /// Walks the whole collection and collects every neighbourhood triple:
    /// triple `i` holds item `i - 1` (when `i > 0`), item `i`, and item
    /// `i + 1` (when it exists).
    pub fn collect_triples(self) -> (r: Vec<(Option<T>, T, Option<T>)>)
        requires
            self.pos_spec() == 0,
        ensures
            r@.len() == self.items_spec().len(),
            forall|i: int|
                0 <= i < r@.len() ==> r@[i] == spec_triple(self.items_spec(), i),
    {
        let mut cursor = self;
        let ghost items = cursor.items_spec();
        let mut out: Vec<(Option<T>, T, Option<T>)> = Vec::new();
        loop
            invariant
                cursor.items_spec() == items,
                items == self.items_spec(),
                0 <= cursor.pos_spec() <= items.len(),
                out@.len() == cursor.pos_spec(),
                forall|i: int| 0 <= i < out@.len() ==> out@[i] == spec_triple(items, i),
            decreases items.len() - cursor.pos_spec(),
        {
            match cursor.next() {
                Some(t) => {
                    out.push(t);
                },
                None => {
                    return out;
                },
            }
        }
    }
}

impl<T> ContextIter<T> {
    /// The items being walked.
    pub closed spec fn items_spec(self) -> Seq<T> {
        self.items@
    }

    /// How many items have been handed out.
    pub closed spec fn pos_spec(self) -> nat {
        self.pos as nat
    }
}

} // verus!
