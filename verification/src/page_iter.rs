//! The iterator over the entries of a sorted page.

use crate::iter::{ForwardIter, RewindableIter, SeekableIter};
use crate::key::key_lt;
use crate::page::{entry_view, lemma_target_splits, Entry, Index, SortedPageRef};
use vstd::prelude::*;

verus! {

/// An iterator over the entries of a sorted page.
#[derive(Debug)]
pub struct SortedPageIter<'a> {
    page: SortedPageRef<'a>,
    next: usize,
    last: Option<(&'a [u8], Index)>,
}

impl<'a> SortedPageIter<'a> {
    /// The page that the iterator walks over.
    pub closed spec fn page(&self) -> SortedPageRef<'a> {
        self.page
    }

    /// An iterator at the start of `page`.
    pub fn new(page: SortedPageRef<'a>) -> (r: SortedPageIter<'a>)
        ensures
            r.wf(),
            r.page() == page,
            r.items() == page.entries(),
            r.cursor() == 0,
            r.latest() is None,
    {
        SortedPageIter { page, next: 0, last: None }
    }
}

impl<'a> ForwardIter for SortedPageIter<'a> {
    type Key = &'a [u8];

    type Value = Index;

    closed spec fn wf(&self) -> bool {
        self.next <= self.page.entries().len()
    }

    closed spec fn items(&self) -> Seq<Entry> {
        self.page.entries()
    }

    closed spec fn cursor(&self) -> nat {
        self.next as nat
    }

    closed spec fn latest(&self) -> Option<Entry> {
        entry_view(self.last)
    }

    proof fn lemma_cursor_in_range(&self) {
    }

    fn last(&self) -> (r: Option<&(&'a [u8], Index)>) {
        self.last.as_ref()
    }

    fn next(&mut self) -> (r: Option<&(&'a [u8], Index)>) {
        self.last = self.page.get(self.next);
        if self.last.is_some() {
            self.next = self.next + 1;
        }
        self.last.as_ref()
    }

    fn skip(&mut self, n: usize) {
        let len = self.page.len();
        if n > len - self.next {
            self.next = len;
        } else {
            self.next = self.next + n;
        }
    }

    fn skip_all(&mut self) {
        self.next = self.page.len();
    }
}

impl<'a> SeekableIter for SortedPageIter<'a> {
    open spec fn precedes(&self, i: int, target: Seq<u8>) -> bool {
        key_lt(self.items()[i].0, target)
    }

    fn seek(&mut self, target: &[u8]) {
        let len = self.page.len();
        proof {
            lemma_target_splits(self.page.entries(), target@);
        }
        self.next =
        match self.page.search(target) {
            Ok(i) => i,
            Err(i) => i,
        };
        self.last = None;
    }
}

impl<'a> RewindableIter for SortedPageIter<'a> {
    fn rewind(&mut self) {
        self.next = 0;
        self.last = None;
    }
}

} // verus!
