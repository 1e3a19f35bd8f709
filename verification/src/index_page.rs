//! Index pages: the inner nodes of the tree. An index page is a sorted page
//! whose entries lead from a key to the child that holds the keys from that
//! key on.

use crate::builder::{encoded_len, BuildError, SortedPageBuilder};
use crate::iter::{ForwardIter, RewindableIter, SeekableIter};
use crate::key::{key_le, key_lt, lemma_key_lt_total};
use crate::page::{
    below, covered, entry_at, entry_view, lemma_search_hit,
    lemma_target_splits, sorted, Entry, Index, PageBuf, PageKind, PageRef, SortedPageRef,
};
use crate::page_iter::SortedPageIter;
use vstd::prelude::*;

verus! {

/// A builder to create index pages.
#[derive(Clone, Copy, Debug)]
pub struct IndexPageBuilder(SortedPageBuilder);

impl Default for IndexPageBuilder {
    fn default() -> (r: IndexPageBuilder)
        ensures
            r.sorted_builder().spec_kind() == PageKind::Index,
            !r.sorted_builder().spec_is_data(),
    {
        IndexPageBuilder(SortedPageBuilder::new(PageKind::Index, false))
    }
}

impl IndexPageBuilder {
    /// The builder of sorted pages underneath: one of index pages that hold
    /// no data.
    pub closed spec fn sorted_builder(self) -> SortedPageBuilder {
        self.0
    }

    #[verifier::type_invariant]
    spec fn inv(self) -> bool {
        self.0.spec_kind() == PageKind::Index && !self.0.spec_is_data()
    }

    /// Builds an index page with the entries of `iter`, all of them, from its
    /// start. The keys have to ascend strictly, and the page must not take
    /// more bytes than an offset can address: 2^32 - 1.
    pub fn build_from_iter<'a, I>(self, iter: &mut I) -> (r: Result<PageBuf, BuildError>) where
        I: RewindableIter<Key = &'a [u8], Value = Index>,

        requires
            old(iter).wf(),
        ensures
            final(iter).wf(),
            final(iter).items() == old(iter).items(),
            final(iter).cursor() == old(iter).items().len(),
            final(iter).latest() == if r is Ok {
                entry_at(old(iter).items(), old(iter).items().len() - 1)
            } else {
                None
            },
            match r {
                Ok(page) => {
                    &&& sorted(old(iter).items())
                    &&& encoded_len(old(iter).items()) <= 0xffff_ffff
                    &&& page.wf()
                    &&& page.entries() == old(iter).items()
                    &&& page.bytes().len() == encoded_len(old(iter).items())
                    &&& page.spec_kind() == PageKind::Index
                    &&& !page.spec_is_data()
                },
                Err(BuildError::Unordered) => !sorted(old(iter).items()),
                Err(BuildError::TooLarge) => sorted(old(iter).items()) && encoded_len(
                    old(iter).items(),
                ) > 0xffff_ffff,
            },
    {
        proof {
            use_type_invariant(&self);
        }
        self.0.build_from_iter(iter)
    }
}

/// The entry that covers `target` in sorted entries: the one with the
/// greatest key that is `target` or stands before it.
pub open spec fn covering(entries: Seq<Entry>, target: Seq<u8>) -> Option<Entry> {
    entry_at(entries, covered(entries, target) - 1)
}

/// The entry that follows the one that covers `target`.
pub open spec fn following(entries: Seq<Entry>, target: Seq<u8>) -> Option<Entry> {
    entry_at(entries, covered(entries, target) as int)
}

/// An immutable reference to an index page.
#[derive(Clone, Copy, Debug)]
pub struct IndexPageRef<'a>(SortedPageRef<'a>);

impl<'a> IndexPageRef<'a> {
    /// The sorted page underneath.
    pub closed spec fn sorted_page(self) -> SortedPageRef<'a> {
        self.0
    }

    /// Whether this is a well-formed page of the index kind. Every index page
    /// that the library hands out is.
    pub open spec fn wf(self) -> bool {
        &&& self.sorted_page().wf()
        &&& self.sorted_page().page().spec_kind() == PageKind::Index
        &&& !self.sorted_page().page().spec_is_data()
    }

    #[verifier::type_invariant]
    spec fn inv(self) -> bool {
        self.wf()
    }

    /// The entries of the page, in the ascending order of their keys.
    pub open spec fn entries(self) -> Seq<Entry> {
        self.sorted_page().entries()
    }

    /// Looks at `base` as an index page. `base` has to be of the index kind
    /// and must not hold data.
    pub fn new(base: PageRef<'a>) -> (r: IndexPageRef<'a>)
        requires
            base.spec_kind() == PageKind::Index,
            !base.spec_is_data(),
        ensures
            r.wf(),
            r.sorted_page().page() == base,
            r.entries() == base.entries(),
    {
        IndexPageRef(SortedPageRef::new(base))
    }

    /// The sorted page underneath.
    pub fn as_sorted(&self) -> (r: SortedPageRef<'a>)
        ensures
            r == self.sorted_page(),
            r.wf(),
            r.entries() == self.entries(),
            sorted(self.entries()),
    {
        proof {
            use_type_invariant(self);
        }
        self.0
    }

    /// Returns the entry that contains `target`: the one with the greatest
    /// key that is `target` or stands before it. There is none where `target`
    /// stands before every key.
    pub fn find(&self, target: &[u8]) -> (r: Option<(&'a [u8], Index)>)
        ensures
            entry_view(r) == covering(self.entries(), target@),
    {
        self.0.seek_back(target)
    }

    /// Returns the two entries that enclose `target`: the one that contains
    /// `target` and the one that follows it.
    pub fn find_range(&self, target: &[u8]) -> (r: (
        Option<(&'a [u8], Index)>,
        Option<(&'a [u8], Index)>,
    ))
        ensures
            entry_view(r.0) == covering(self.entries(), target@),
            entry_view(r.1) == following(self.entries(), target@),
    {
        match self.0.search(target) {
            Ok(i) => (
                self.0.get(i),
                match i.checked_add(1) {
                    Some(i) => self.0.get(i),
                    None => None,
                },
            ),
            Err(i) => (
                match i.checked_sub(1) {
                    Some(i) => self.0.get(i),
                    None => None,
                },
                self.0.get(i),
            ),
        }
    }

    /// An iterator over the entries, at the start.
    pub fn iter(&self) -> (r: IndexPageIter<'a>)
        ensures
            r.wf(),
            r.items() == self.entries(),
            r.cursor() == 0,
            r.latest() is None,
    {
        IndexPageIter::new(*self)
    }

    /// Splits the page at its middle. Returns the key of the middle entry and
    /// an iterator over the entries from that one on, or nothing where the
    /// page holds fewer than two entries: both halves have to hold one.
    pub fn split(&self) -> (r: Option<(&'a [u8], IndexPageSplitIter<'a>)>)
        ensures
            r is None <==> self.entries().len() < 2,
            r matches Some(pair) ==> {
                let middle = (self.entries().len() / 2) as int;
                &&& pair.0@ == self.entries()[middle].0
                &&& middle == below(self.entries(), pair.0@)
                &&& pair.1.wf()
                &&& pair.1.items() == self.entries().skip(middle)
                &&& pair.1.cursor() == 0
                &&& pair.1.latest() is None
            },
    {
        let len = self.0.len();
        if let Some((sep, _)) = self.0.get(len / 2) {
            proof {
                lemma_search_hit(self.entries(), (len / 2) as int);
            }
            let rank = match self.0.search(sep) {
                Ok(i) => i,
                Err(i) => i,
            };
            if rank > 0 {
                let iter = IndexPageSplitIter::new(self.iter(), rank);
                return Some((sep, iter));
            }
        }
        None
    }
}

impl<'a> core::ops::Deref for IndexPageRef<'a> {
    type Target = SortedPageRef<'a>;

    fn deref(&self) -> (r: &SortedPageRef<'a>)
        ensures
            *r == self.sorted_page(),
            r.wf(),
    {
        proof {
            use_type_invariant(self);
        }
        &self.0
    }
}

/// An iterator over the entries of an index page.
#[derive(Debug)]
pub struct IndexPageIter<'a>(SortedPageIter<'a>);

impl<'a> IndexPageIter<'a> {
    /// An iterator at the start of `page`.
    pub fn new(page: IndexPageRef<'a>) -> (r: IndexPageIter<'a>)
        ensures
            r.wf(),
            r.items() == page.entries(),
            r.cursor() == 0,
            r.latest() is None,
    {
        IndexPageIter(SortedPageIter::new(page.as_sorted()))
    }
}

impl<'a> ForwardIter for IndexPageIter<'a> {
    type Key = &'a [u8];

    type Value = Index;

    closed spec fn wf(&self) -> bool {
        self.0.wf()
    }

    closed spec fn items(&self) -> Seq<Entry> {
        self.0.items()
    }

    closed spec fn cursor(&self) -> nat {
        self.0.cursor()
    }

    closed spec fn latest(&self) -> Option<Entry> {
        self.0.latest()
    }

    proof fn lemma_cursor_in_range(&self) {
        self.0.lemma_cursor_in_range();
    }

    fn last(&self) -> (r: Option<&(&'a [u8], Index)>) {
        self.0.last()
    }

    fn next(&mut self) -> (r: Option<&(&'a [u8], Index)>) {
        self.0.next()
    }

    fn skip(&mut self, n: usize) {
        self.0.skip(n);
    }

    fn skip_all(&mut self) {
        self.0.skip_all();
    }
}

impl<'a> SeekableIter for IndexPageIter<'a> {
    open spec fn precedes(&self, i: int, target: Seq<u8>) -> bool {
        key_lt(self.items()[i].0, target)
    }

    fn seek(&mut self, target: &[u8]) {
        self.0.seek(target);
        proof {
            assert forall|i: int| 0 <= i < self.cursor() implies #[trigger] old(self).precedes(
                i,
                target@,
            ) by {
                assert(old(self).0.precedes(i, target@));
            }
            assert forall|i: int| self.cursor() <= i < self.items().len() implies !#[trigger] old(
                self,
            ).precedes(i, target@) by {
                assert(!old(self).0.precedes(i, target@));
            }
        }
    }
}

impl<'a> RewindableIter for IndexPageIter<'a> {
    fn rewind(&mut self) {
        self.0.rewind();
    }
}

/// An iterator over the entries of an index page from some entry on: it
/// leaves out the first ones, also after a rewind.
#[derive(Debug)]
pub struct IndexPageSplitIter<'a> {
    base: IndexPageIter<'a>,
    skip: usize,
}

impl<'a> IndexPageSplitIter<'a> {
    /// The number of entries that the iterator leaves out.
    pub closed spec fn start(&self) -> nat {
        if self.skip <= self.base.items().len() {
            self.skip as nat
        } else {
            self.base.items().len()
        }
    }

    /// An iterator over the entries of `base` that leaves out the next `skip`
    /// ones, or all where fewer are left.
    pub fn new(base: IndexPageIter<'a>, skip: usize) -> (r: IndexPageSplitIter<'a>)
        requires
            base.wf(),
        ensures
            r.wf(),
            r.latest() == base.latest(),
            skip <= base.items().len() ==> r.items() == base.items().skip(skip as int),
            skip > base.items().len() ==> r.items() == Seq::<Entry>::empty(),
            r.cursor() == if base.cursor() + skip <= base.items().len() {
                base.cursor()
            } else if skip <= base.items().len() {
                (base.items().len() - skip) as nat
            } else {
                0
            },
    {
        let mut base = base;
        proof {
            base.lemma_cursor_in_range();
        }
        let ghost all = base.items();
        base.skip(skip);
        let r = IndexPageSplitIter { base, skip };
        proof {
            if skip > all.len() {
                assert(r.items() =~= Seq::<Entry>::empty());
            }
        }
        r
    }
}

impl<'a> ForwardIter for IndexPageSplitIter<'a> {
    type Key = &'a [u8];

    type Value = Index;

    closed spec fn wf(&self) -> bool {
        self.base.wf() && self.start() <= self.base.cursor() <= self.base.items().len()
    }

    closed spec fn items(&self) -> Seq<Entry> {
        self.base.items().skip(self.start() as int)
    }

    closed spec fn cursor(&self) -> nat {
        (self.base.cursor() - self.start()) as nat
    }

    closed spec fn latest(&self) -> Option<Entry> {
        self.base.latest()
    }

    proof fn lemma_cursor_in_range(&self) {
    }

    fn last(&self) -> (r: Option<&(&'a [u8], Index)>) {
        self.base.last()
    }

    fn next(&mut self) -> (r: Option<&(&'a [u8], Index)>) {
        self.base.next()
    }

    fn skip(&mut self, n: usize) {
        self.base.skip(n)
    }

    fn skip_all(&mut self) {
        self.base.skip_all()
    }
}

impl<'a> RewindableIter for IndexPageSplitIter<'a> {
    fn rewind(&mut self) {
        self.base.rewind();
        self.base.skip(self.skip);
    }
}

/// Lookups find what was built. In sorted entries the lookup of the key of an
/// entry gives that entry; the lookup of a key between two neighbours, or
/// behind the last entry, gives the entry before it; and the lookup of a key
/// before the first entry gives nothing.
pub proof fn lemma_find_round_trip(entries: Seq<Entry>, i: int, target: Seq<u8>)
    requires
        sorted(entries),
        0 <= i < entries.len(),
    ensures
        covering(entries, entries[i].0) == Some(entries[i]),
        key_lt(entries[i].0, target) && (i + 1 < entries.len() ==> key_lt(
            target,
            entries[i + 1].0,
        )) ==> covering(entries, target) == Some(entries[i]),
        key_lt(target, entries[0].0) ==> covering(entries, target) is None,
{
    lemma_search_hit(entries, i);
    lemma_target_splits(entries, target);
    let c = covered(entries, target) as int;
    if key_lt(entries[i].0, target) && (i + 1 < entries.len() ==> key_lt(target, entries[i + 1].0)) {
        lemma_key_lt_total(entries[i].0, target);
        if c <= i {
            assert(key_lt(target, entries[i].0));
        }
        if c > i + 1 {
            assert(key_le(entries[i + 1].0, target));
            lemma_key_lt_total(entries[i + 1].0, target);
        }
    }
    if key_lt(target, entries[0].0) {
        lemma_key_lt_total(entries[0].0, target);
        if c > 0 {
            assert(key_le(entries[0].0, target));
        }
    }
}

/// A lookup in an empty page gives nothing.
pub proof fn lemma_find_in_empty(entries: Seq<Entry>, target: Seq<u8>)
    requires
        entries.len() == 0,
    ensures
        covering(entries, target) is None,
        following(entries, target) is None,
{
}

/// The two entries that enclose a key lie on both sides of it. In sorted
/// entries the key of the left one, if there is one, is `target` or stands
/// before it; `target` stands before the key of the right one, if there is
/// one; the right one follows the left one at once; there is a left one
/// unless `target` stands before every key; and where `target` is a key, it
/// is the key of the left one.
pub proof fn lemma_range_encloses(entries: Seq<Entry>, target: Seq<u8>)
    requires
        sorted(entries),
    ensures
        covering(entries, target) matches Some(left) ==> key_le(left.0, target),
        following(entries, target) matches Some(right) ==> key_lt(target, right.0),
        covering(entries, target) is None ==> forall|j: int|
            0 <= j < entries.len() ==> key_lt(target, (#[trigger] entries[j]).0),
        following(entries, target) is None ==> forall|j: int|
            0 <= j < entries.len() ==> key_le((#[trigger] entries[j]).0, target),
        covering(entries, target) is None && following(entries, target) is None ==> entries.len()
            == 0,
        forall|j: int|
            0 <= j < entries.len() && (#[trigger] entries[j]).0 == target ==> covering(
                entries,
                target,
            ) == Some(entries[j]),
{
    lemma_target_splits(entries, target);
    let c = covered(entries, target) as int;
    assert forall|j: int| 0 <= j < entries.len() && (#[trigger] entries[j]).0
        == target implies covering(entries, target) == Some(entries[j]) by {
        lemma_search_hit(entries, j);
    }
}

/// A split leaves entries on both sides. In sorted entries, two or more, the
/// key of the middle entry is a key of the page with as many entries before
/// it as its place says: at least one, and fewer than all.
pub proof fn lemma_split_is_proper(entries: Seq<Entry>)
    requires
        sorted(entries),
        entries.len() >= 2,
    ensures
        ({
            let middle = (entries.len() / 2) as int;
            &&& 1 <= middle < entries.len()
            &&& below(entries, entries[middle].0) == middle
            &&& entries.skip(middle).len() >= 1
            &&& entries.take(middle).len() >= 1
            &&& entries.take(middle) + entries.skip(middle) == entries
        }),
{
    let middle = (entries.len() / 2) as int;
    lemma_search_hit(entries, middle);
    assert(entries.take(middle) + entries.skip(middle) =~= entries);
}

} // verus!
