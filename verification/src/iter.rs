//! Iterators over sorted items: forward, with a way back to the start, and
//! with a way to a key.

use crate::page::{Entry, Index};
use vstd::prelude::*;

verus! {

/// An iterator that walks forward over a fixed sequence of items.
pub trait ForwardIter {
    type Key: View;

    type Value;

    /// Whether the iterator is in a consistent state.
    spec fn wf(&self) -> bool;

    /// All the items that the iterator walks over, from its start.
    spec fn items(&self) -> Seq<(<Self::Key as View>::V, Self::Value)>;

    /// The number of items that lie behind the iterator.
    spec fn cursor(&self) -> nat;

    /// What the latest call of `next` returned; nothing before the first call
    /// and after a rewind or a seek.
    spec fn latest(&self) -> Option<(<Self::Key as View>::V, Self::Value)>;

    /// The iterator never stands behind the end of its items.
    proof fn lemma_cursor_in_range(&self)
        requires
            self.wf(),
        ensures
            self.cursor() <= self.items().len(),
    ;

    /// Returns what the latest call of `next` returned, without advancing.
    fn last(&self) -> (r: Option<&(Self::Key, Self::Value)>)
        requires
            self.wf(),
        ensures
            match r {
                Some(item) => self.latest() == Some((item.0@, item.1)),
                None => self.latest() is None,
            },
    ;

    /// Advances by one item and returns it, or returns nothing at the end.
    fn next(&mut self) -> (r: Option<&(Self::Key, Self::Value)>)
        requires
            old(self).wf(),
        ensures
            final(self).wf(),
            final(self).items() == old(self).items(),
            match r {
                Some(item) => {
                    &&& old(self).cursor() < old(self).items().len()
                    &&& (item.0@, item.1) == old(self).items()[old(self).cursor() as int]
                    &&& final(self).cursor() == old(self).cursor() + 1
                    &&& final(self).latest() == Some((item.0@, item.1))
                },
                None => {
                    &&& old(self).cursor() == old(self).items().len()
                    &&& final(self).cursor() == old(self).cursor()
                    &&& final(self).latest() is None
                },
            },
    ;

    /// Advances by `n` items, or to the end where fewer are left, and returns
    /// none of them.
    fn skip(&mut self, n: usize)
        requires
            old(self).wf(),
        ensures
            final(self).wf(),
            final(self).items() == old(self).items(),
            final(self).latest() == old(self).latest(),
            final(self).cursor() == if old(self).cursor() + n <= old(self).items().len() {
                old(self).cursor() + n
            } else {
                old(self).items().len() as int
            },
    ;

    /// Advances to the end.
    fn skip_all(&mut self)
        requires
            old(self).wf(),
        ensures
            final(self).wf(),
            final(self).items() == old(self).items(),
            final(self).latest() == old(self).latest(),
            final(self).cursor() == old(self).items().len(),
    ;
}

/// An iterator that can go to a key.
pub trait SeekableIter: ForwardIter {
    /// Whether the key of the item at place `i` stands before `target`.
    spec fn precedes(&self, i: int, target: Seq<u8>) -> bool;

    /// Goes to the first item whose key does not stand before `target`: the
    /// next call of `next` returns it.
    fn seek(&mut self, target: &[u8])
        requires
            old(self).wf(),
        ensures
            final(self).wf(),
            final(self).items() == old(self).items(),
            final(self).latest() is None,
            final(self).cursor() <= final(self).items().len(),
            forall|i: int|
                0 <= i < final(self).cursor() ==> #[trigger] old(self).precedes(i, target@),
            forall|i: int|
                final(self).cursor() <= i < final(self).items().len() ==> !#[trigger] old(
                    self,
                ).precedes(i, target@),
    ;
}

/// An iterator that can go back to its start.
pub trait RewindableIter: ForwardIter {
    /// Goes back to the first item.
    fn rewind(&mut self)
        requires
            old(self).wf(),
        ensures
            final(self).wf(),
            final(self).items() == old(self).items(),
            final(self).latest() is None,
            final(self).cursor() == 0,
    ;
}

/// Walks `iter` to its end and returns the items that it passes. They are the
/// items from the cursor on, in their order.
pub fn drain<'a, I>(iter: &mut I) -> (r: Vec<(&'a [u8], Index)>) where
    I: ForwardIter<Key = &'a [u8], Value = Index>,

    requires
        old(iter).wf(),
    ensures
        final(iter).wf(),
        final(iter).items() == old(iter).items(),
        final(iter).cursor() == old(iter).items().len(),
        final(iter).latest() is None,
        old(iter).cursor() <= old(iter).items().len(),
        entries_of(r@) == old(iter).items().skip(old(iter).cursor() as int),
{
    let ghost items = iter.items();
    let ghost from = iter.cursor() as int;
    proof {
        iter.lemma_cursor_in_range();
    }
    let mut out: Vec<(&'a [u8], Index)> = Vec::new();
    loop
        invariant
            iter.wf(),
            iter.items() == items,
            from <= iter.cursor() <= items.len(),
            out@.len() == iter.cursor() - from,
            forall|j: int|
                0 <= j < out@.len() ==> ((#[trigger] out@[j]).0@, out@[j].1) == items[from + j],
        ensures
            iter.wf(),
            iter.items() == items,
            iter.cursor() == items.len(),
            iter.latest() is None,
            out@.len() == items.len() - from,
            forall|j: int|
                0 <= j < out@.len() ==> ((#[trigger] out@[j]).0@, out@[j].1) == items[from + j],
        decreases items.len() - iter.cursor(),
    {
        let item: (&'a [u8], Index) = match iter.next() {
            Some(item) => (item.0, item.1),
            None => {
                break ;
            },
        };
        out.push(item);
    }
    assert(entries_of(out@) =~= items.skip(from));
    out
}

/// Entries that borrow their keys, as values.
pub open spec fn entries_of(items: Seq<(&[u8], Index)>) -> Seq<Entry> {
    Seq::new(items.len(), |i: int| (items[i].0@, items[i].1))
}

/// An iterator over entries that lie in a slice.
#[derive(Debug)]
pub struct SliceIter<'a> {
    data: &'a [(&'a [u8], Index)],
    next: usize,
    last: Option<(&'a [u8], Index)>,
}

impl<'a> SliceIter<'a> {
    /// An iterator at the start of `data`.
    pub fn new(data: &'a [(&'a [u8], Index)]) -> (r: SliceIter<'a>)
        ensures
            r.wf(),
            r.items() == entries_of(data@),
            r.cursor() == 0,
            r.latest() is None,
    {
        SliceIter { data, next: 0, last: None }
    }
}

impl<'a> ForwardIter for SliceIter<'a> {
    type Key = &'a [u8];

    type Value = Index;

    closed spec fn wf(&self) -> bool {
        self.next <= self.data@.len()
    }

    closed spec fn items(&self) -> Seq<Entry> {
        entries_of(self.data@)
    }

    closed spec fn cursor(&self) -> nat {
        self.next as nat
    }

    closed spec fn latest(&self) -> Option<Entry> {
        match self.last {
            Some(kv) => Some((kv.0@, kv.1)),
            None => None,
        }
    }

    proof fn lemma_cursor_in_range(&self) {
    }

    fn last(&self) -> (r: Option<&(&'a [u8], Index)>) {
        self.last.as_ref()
    }

    fn next(&mut self) -> (r: Option<&(&'a [u8], Index)>) {
        if self.next < self.data.len() {
            self.last = Some(self.data[self.next]);
            self.next = self.next + 1;
        } else {
            self.last = None;
        }
        self.last.as_ref()
    }

    fn skip(&mut self, n: usize) {
        let len = self.data.len();
        if n > len - self.next {
            self.next = len;
        } else {
            self.next = self.next + n;
        }
    }

    fn skip_all(&mut self) {
        self.next = self.data.len();
    }
}

impl<'a> RewindableIter for SliceIter<'a> {
    fn rewind(&mut self) {
        self.next = 0;
        self.last = None;
    }
}

} // verus!
