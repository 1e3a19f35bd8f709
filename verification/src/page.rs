//! The layout of a sorted page: a region of bytes that holds entries in the
//! ascending order of their keys, and is never changed once it is built.
//!
//! A page starts with a header of six bytes: the kind of the page, a flag that
//! tells whether it holds data, and the number of entries. An array of slots
//! follows, one for each entry, with the offset of its record. A record is the
//! length of the key, the key, and the id and the epoch of the child that the
//! key leads to. All integers are little-endian; a slot and a length take four
//! bytes, an id and an epoch eight.

use crate::key::{key_le, key_lt, lemma_key_lt_total, lemma_key_lt_transitive, rank_keys};
use crate::wide::Rank;
use vstd::prelude::*;
use vstd::slice::slice_subrange;

verus! {

/// The place of a child of the tree: the id of its page and its epoch.
#[derive(Clone, Copy, Debug, PartialEq, Eq, Structural, Hash)]
pub struct Index {
    pub id: u64,
    pub epoch: u64,
}

impl Index {
    pub fn new(id: u64, epoch: u64) -> (r: Index)
        ensures
            r == (Index { id, epoch }),
    {
        Index { id, epoch }
    }
}

/// The kind of a page.
#[derive(Clone, Copy, Debug, PartialEq, Eq, Structural, Hash)]
pub enum PageKind {
    Data,
    Index,
}

/// An entry of a sorted page, as a value: its key and the child it leads to.
pub type Entry = (Seq<u8>, Index);

/// The integer that the four bytes at `at` hold.
pub open spec fn le_u32(b: Seq<u8>, at: int) -> nat {
    (b[at] as nat) + 0x100 * (b[at + 1] as nat) + 0x1_0000 * (b[at + 2] as nat) + 0x100_0000 * (b[at
        + 3] as nat)
}

/// The integer that the eight bytes at `at` hold.
pub open spec fn le_u64(b: Seq<u8>, at: int) -> nat {
    le_u32(b, at) + 0x1_0000_0000 * le_u32(b, at + 4)
}

/// The four bytes of `x`.
pub open spec fn u32_bytes(x: u32) -> Seq<u8> {
    seq![
        (x % 0x100) as u8,
        ((x / 0x100) % 0x100) as u8,
        ((x / 0x1_0000) % 0x100) as u8,
        (x / 0x100_0000) as u8,
    ]
}

/// The eight bytes of `x`.
pub open spec fn u64_bytes(x: u64) -> Seq<u8> {
    u32_bytes((x % 0x1_0000_0000) as u32) + u32_bytes((x / 0x1_0000_0000) as u32)
}

/// The number of entries that the header of the page gives.
pub open spec fn entry_count(b: Seq<u8>) -> nat {
    le_u32(b, 2)
}

/// The offset of the record of the entry `i`.
pub open spec fn slot(b: Seq<u8>, i: int) -> int {
    le_u32(b, 6 + 4 * i) as int
}

/// The length of the key of the entry `i`.
pub open spec fn key_len(b: Seq<u8>, i: int) -> int {
    le_u32(b, slot(b, i)) as int
}

/// The key of the entry `i`.
pub open spec fn key_at(b: Seq<u8>, i: int) -> Seq<u8> {
    b.subrange(slot(b, i) + 4, slot(b, i) + 4 + key_len(b, i))
}

/// The child that the entry `i` leads to.
pub open spec fn index_at(b: Seq<u8>, i: int) -> Index {
    Index {
        id: le_u64(b, slot(b, i) + 4 + key_len(b, i)) as u64,
        epoch: le_u64(b, slot(b, i) + 12 + key_len(b, i)) as u64,
    }
}

/// Whether the record of the entry `i` lies behind the slots and within the
/// page.
pub open spec fn record_fits(b: Seq<u8>, i: int) -> bool {
    &&& 6 + 4 * entry_count(b) <= slot(b, i)
    &&& slot(b, i) + 4 <= b.len()
    &&& slot(b, i) + 20 + key_len(b, i) <= b.len()
}

/// The entries of the page.
pub open spec fn page_entries(b: Seq<u8>) -> Seq<Entry> {
    Seq::new(entry_count(b), |i: int| (key_at(b, i), index_at(b, i)))
}

/// Whether the keys of the entries ascend strictly.
pub open spec fn sorted(entries: Seq<Entry>) -> bool {
    forall|i: int, j: int|
        #![trigger entries[i], entries[j]]
        0 <= i < j < entries.len() ==> key_lt(entries[i].0, entries[j].0)
}

/// Whether the bytes are a sorted page.
pub open spec fn well_formed(b: Seq<u8>) -> bool {
    &&& 6 <= b.len() <= 0xffff_ffff
    &&& b[0] <= 1
    &&& b[1] <= 1
    &&& 6 + 4 * entry_count(b) <= b.len()
    &&& forall|i: int| 0 <= i < entry_count(b) ==> #[trigger] record_fits(b, i)
    &&& sorted(page_entries(b))
}

/// The entry at the place `i`, if there is one.
pub open spec fn entry_at(entries: Seq<Entry>, i: int) -> Option<Entry> {
    if 0 <= i < entries.len() {
        Some(entries[i])
    } else {
        None
    }
}

/// An entry that borrows its key from a page, as a value.
pub open spec fn entry_view(item: Option<(&[u8], Index)>) -> Option<Entry> {
    match item {
        Some(kv) => Some((kv.0@, kv.1)),
        None => None,
    }
}

/// The number of entries whose key meets `pred`.
pub open spec fn count_keys(entries: Seq<Entry>, pred: spec_fn(Seq<u8>) -> bool) -> nat
    decreases entries.len(),
{
    if entries.len() == 0 {
        0
    } else {
        count_keys(entries.drop_last(), pred) + if pred(entries.last().0) {
            1nat
        } else {
            0nat
        }
    }
}

/// The number of entries whose key stands before `target`.
pub open spec fn below(entries: Seq<Entry>, target: Seq<u8>) -> nat {
    count_keys(entries, |k: Seq<u8>| key_lt(k, target))
}

/// The number of entries whose key is `target` or stands before it.
pub open spec fn covered(entries: Seq<Entry>, target: Seq<u8>) -> nat {
    count_keys(entries, |k: Seq<u8>| key_le(k, target))
}

/// Where the first `i` keys meet `pred` and the others do not, `i` keys meet
/// it.
pub proof fn lemma_count_keys(entries: Seq<Entry>, pred: spec_fn(Seq<u8>) -> bool, i: int)
    requires
        0 <= i <= entries.len(),
        forall|j: int| 0 <= j < i ==> pred(#[trigger] entries[j].0),
        forall|j: int| i <= j < entries.len() ==> !pred(#[trigger] entries[j].0),
    ensures
        count_keys(entries, pred) == i,
    decreases entries.len(),
{
    if entries.len() > 0 {
        let rest = entries.drop_last();
        let last = entries.len() - 1;
        assert(forall|j: int| 0 <= j < rest.len() ==> rest[j] == entries[j]);
        if i == entries.len() {
            assert(pred(entries[last].0));
            lemma_count_keys(rest, pred, i - 1);
        } else {
            assert(!pred(entries[last].0));
            lemma_count_keys(rest, pred, i);
        }
    }
}

/// The bytes of an integer hold that integer.
pub proof fn lemma_u32_bytes(b: Seq<u8>, at: int, x: u32)
    requires
        0 <= at,
        at + 4 <= b.len(),
        b.subrange(at, at + 4) == u32_bytes(x),
    ensures
        le_u32(b, at) == x,
{
    let s = b.subrange(at, at + 4);
    assert(s[0] == b[at] && s[1] == b[at + 1] && s[2] == b[at + 2] && s[3] == b[at + 3]);
}

/// The bytes of an integer hold that integer.
pub proof fn lemma_u64_bytes(b: Seq<u8>, at: int, x: u64)
    requires
        0 <= at,
        at + 8 <= b.len(),
        b.subrange(at, at + 8) == u64_bytes(x),
    ensures
        le_u64(b, at) == x,
{
    let s = b.subrange(at, at + 8);
    let lo = (x % 0x1_0000_0000) as u32;
    let hi = (x / 0x1_0000_0000) as u32;
    assert(b.subrange(at, at + 4) =~= s.subrange(0, 4));
    assert(b.subrange(at + 4, at + 8) =~= s.subrange(4, 8));
    assert(s.subrange(0, 4) =~= u32_bytes(lo));
    assert(s.subrange(4, 8) =~= u32_bytes(hi));
    lemma_u32_bytes(b, at, lo);
    lemma_u32_bytes(b, at + 4, hi);
}

/// Reads the integer that the four bytes at `at` hold.
pub fn read_u32(bytes: &[u8], at: usize) -> (r: u32)
    requires
        at + 4 <= bytes@.len(),
    ensures
        r == le_u32(bytes@, at as int),
{
    let b0 = bytes[at] as u32;
    let b1 = bytes[at + 1] as u32;
    let b2 = bytes[at + 2] as u32;
    let b3 = bytes[at + 3] as u32;
    b0 + 0x100 * b1 + 0x1_0000 * b2 + 0x100_0000 * b3
}

/// Reads the integer that the eight bytes at `at` hold.
pub fn read_u64(bytes: &[u8], at: usize) -> (r: u64)
    requires
        at + 8 <= bytes@.len(),
    ensures
        r == le_u64(bytes@, at as int),
{
    let len = bytes.len();
    assert(at + 8 <= len);
    let lo = read_u32(bytes, at) as u64;
    let hi = read_u32(bytes, at + 4) as u64;
    lo + 0x1_0000_0000 * hi
}

/// Appends the four bytes of `x`.
pub fn push_u32(out: &mut Vec<u8>, x: u32)
    ensures
        final(out)@ == old(out)@ + u32_bytes(x),
{
    out.push((x % 0x100) as u8);
    out.push(((x / 0x100) % 0x100) as u8);
    out.push(((x / 0x1_0000) % 0x100) as u8);
    out.push((x / 0x100_0000) as u8);
    assert(out@ =~= old(out)@ + u32_bytes(x));
}

/// Appends the eight bytes of `x`.
pub fn push_u64(out: &mut Vec<u8>, x: u64)
    ensures
        final(out)@ == old(out)@ + u64_bytes(x),
{
    push_u32(out, (x % 0x1_0000_0000) as u32);
    push_u32(out, (x / 0x1_0000_0000) as u32);
    assert(out@ =~= old(out)@ + u64_bytes(x));
}

/// A sorted page that someone else owns.
#[derive(Clone, Copy, Debug)]
pub struct PageRef<'a> {
    bytes: &'a [u8],
}

impl<'a> PageRef<'a> {
    /// The bytes of the page.
    pub closed spec fn bytes(self) -> Seq<u8> {
        self.bytes@
    }

    /// Whether the bytes are a sorted page. Every page that the library hands
    /// out is one.
    pub open spec fn wf(self) -> bool {
        well_formed(self.bytes())
    }

    #[verifier::type_invariant]
    spec fn inv(self) -> bool {
        self.wf()
    }

    /// The entries of the page, in the ascending order of their keys.
    pub open spec fn entries(self) -> Seq<Entry> {
        page_entries(self.bytes())
    }

    /// The kind that the header gives.
    pub open spec fn spec_kind(self) -> PageKind {
        if self.bytes()[0] == 1 {
            PageKind::Index
        } else {
            PageKind::Data
        }
    }

    /// The flag of the header that tells whether the page holds data.
    pub open spec fn spec_is_data(self) -> bool {
        self.bytes()[1] == 1
    }

    /// States that the page is well formed.
    pub fn valid(&self)
        ensures
            self.wf(),
    {
        proof {
            use_type_invariant(self);
        }
    }

    /// Takes `bytes` for a page, if they are one: the header, the slots and
    /// the records lie within the bytes, and the keys ascend strictly.
    pub fn parse(bytes: &'a [u8]) -> (r: Option<PageRef<'a>>)
        ensures
            r is Some <==> well_formed(bytes@),
            r matches Some(page) ==> page.bytes() == bytes@,
    {
        let len = bytes.len();
        if len < 6 || len > 0xffff_ffff {
            return None;
        }
        if bytes[0] > 1 || bytes[1] > 1 {
            return None;
        }
        let n = read_u32(bytes, 2) as usize;
        if n > (len - 6) / 4 {
            return None;
        }
        let start = 6 + 4 * n;
        let ghost entries = page_entries(bytes@);
        let mut prev: &[u8] = slice_subrange(bytes, 0, 0);
        let mut i: usize = 0;
        while i < n
            invariant
                i <= n,
                n == entry_count(bytes@),
                len == bytes@.len(),
                6 <= len <= 0xffff_ffff,
                start == 6 + 4 * n,
                start <= len,
                entries == page_entries(bytes@),
                forall|j: int| 0 <= j < i ==> #[trigger] record_fits(bytes@, j),
                sorted(entries.take(i as int)),
                i > 0 ==> prev@ == key_at(bytes@, i - 1),
            decreases n - i,
        {
            let at = read_u32(bytes, 6 + 4 * i) as usize;
            if at < start || at > len || len - at < 20 {
                assert(!record_fits(bytes@, i as int));
                return None;
            }
            let key_len = read_u32(bytes, at) as usize;
            if key_len > len - at - 20 {
                assert(!record_fits(bytes@, i as int));
                return None;
            }
            let key = slice_subrange(bytes, at + 4, at + 4 + key_len);
            if i > 0 {
                match rank_keys(prev, key) {
                    Rank::Less => {},
                    _ => {
                        assert(!key_lt(entries[i - 1].0, entries[i as int].0));
                        return None;
                    },
                }
            }
            proof {
                let now = entries.take(i + 1);
                assert forall|x: int, y: int|
                    #![trigger now[x], now[y]]
                    0 <= x < y < now.len() implies key_lt(now[x].0, now[y].0) by {
                    if y == i {
                        if x < i - 1 {
                            assert(key_lt(entries.take(i as int)[x].0, entries.take(i as int)[i - 1].0));
                            lemma_key_lt_transitive(now[x].0, entries[i - 1].0, now[y].0);
                        }
                    } else {
                        assert(key_lt(entries.take(i as int)[x].0, entries.take(i as int)[y].0));
                    }
                }
            }
            prev = key;
            i += 1;
        }
        proof {
            assert(entries.take(n as int) =~= entries);
        }
        Some(PageRef { bytes })
    }

    /// The bytes of the page.
    pub fn as_bytes(&self) -> (r: &'a [u8])
        ensures
            r@ == self.bytes(),
            well_formed(r@),
    {
        self.valid();
        self.bytes
    }

    /// The kind of the page.
    pub fn kind(&self) -> (r: PageKind)
        ensures
            r == self.spec_kind(),
    {
        self.valid();
        if self.bytes[0] == 1 {
            PageKind::Index
        } else {
            PageKind::Data
        }
    }

    /// Whether the page holds data.
    pub fn is_data(&self) -> (r: bool)
        ensures
            r == self.spec_is_data(),
    {
        self.valid();
        self.bytes[1] == 1
    }
}

/// A sorted page, with the operations that find an entry.
#[derive(Clone, Copy, Debug)]
pub struct SortedPageRef<'a> {
    page: PageRef<'a>,
}

impl<'a> SortedPageRef<'a> {
    /// The page underneath.
    pub closed spec fn page(self) -> PageRef<'a> {
        self.page
    }

    /// Whether the page underneath is well formed. Every page that the
    /// library hands out is.
    pub open spec fn wf(self) -> bool {
        self.page().wf()
    }

    /// The entries of the page, in the ascending order of their keys.
    pub open spec fn entries(self) -> Seq<Entry> {
        self.page().entries()
    }

    /// Looks at `page` as a sorted page.
    pub fn new(page: PageRef<'a>) -> (r: SortedPageRef<'a>)
        ensures
            r.page() == page,
            r.wf(),
    {
        page.valid();
        SortedPageRef { page }
    }

    /// The page underneath.
    pub fn base(&self) -> (r: PageRef<'a>)
        ensures
            r == self.page(),
            r.wf(),
    {
        self.page.valid();
        self.page
    }

    /// The number of entries.
    pub fn len(&self) -> (r: usize)
        ensures
            r == self.entries().len(),
            self.wf(),
            sorted(self.entries()),
    {
        let bytes = self.page.as_bytes();
        read_u32(bytes, 2) as usize
    }

    /// The entry at the place `i`, if there is one.
    pub fn get(&self, i: usize) -> (r: Option<(&'a [u8], Index)>)
        ensures
            entry_view(r) == entry_at(self.entries(), i as int),
    {
        let bytes = self.page.as_bytes();
        let n = read_u32(bytes, 2) as usize;
        if i >= n {
            return None;
        }
        assert(record_fits(bytes@, i as int));
        let at = read_u32(bytes, 6 + 4 * i) as usize;
        let key_len = read_u32(bytes, at) as usize;
        let key = slice_subrange(bytes, at + 4, at + 4 + key_len);
        let id = read_u64(bytes, at + 4 + key_len);
        let epoch = read_u64(bytes, at + 12 + key_len);
        Some((key, Index { id, epoch }))
    }

    /// Searches for `target` by bisection. Returns `Ok` with the place of the
    /// entry whose key is `target`, or `Err` with the place where `target`
    /// would be inserted: the number of entries whose key stands before it.
    pub fn search(&self, target: &[u8]) -> (r: Result<usize, usize>)
        ensures
            match r {
                Ok(i) => {
                    &&& i < self.entries().len()
                    &&& self.entries()[i as int].0 == target@
                    &&& i == below(self.entries(), target@)
                    &&& i + 1 == covered(self.entries(), target@)
                },
                Err(i) => {
                    &&& i <= self.entries().len()
                    &&& forall|j: int|
                        0 <= j < self.entries().len() ==> (#[trigger] self.entries()[j]).0
                            != target@
                    &&& i == below(self.entries(), target@)
                    &&& i == covered(self.entries(), target@)
                },
            },
    {
        let n = self.len();
        let ghost entries = self.entries();
        let ghost t = target@;
        let mut lo: usize = 0;
        let mut hi: usize = n;
        while lo < hi
            invariant
                lo <= hi <= n,
                n == entries.len(),
                entries == self.entries(),
                t == target@,
                sorted(entries),
                forall|j: int| 0 <= j < lo ==> key_lt((#[trigger] entries[j]).0, t),
                forall|j: int| hi <= j < n ==> key_lt(t, (#[trigger] entries[j]).0),
            decreases hi - lo,
        {
            let mid = lo + (hi - lo) / 2;
            let key = match self.get(mid) {
                Some(kv) => kv.0,
                None => {
                    proof {
                        assert(false);
                    }
                    vstd::pervasive::unreached()
                },
            };
            match rank_keys(key, target) {
                Rank::Less => {
                    proof {
                        assert forall|j: int| 0 <= j < mid + 1 implies key_lt(
                            (#[trigger] entries[j]).0,
                            t,
                        ) by {
                            if j < mid {
                                assert(key_lt(entries[j].0, entries[mid as int].0));
                                lemma_key_lt_transitive(entries[j].0, entries[mid as int].0, t);
                            }
                        }
                    }
                    lo = mid + 1;
                },
                Rank::Greater => {
                    proof {
                        assert forall|j: int| mid <= j < n implies key_lt(
                            t,
                            (#[trigger] entries[j]).0,
                        ) by {
                            if j > mid {
                                assert(key_lt(entries[mid as int].0, entries[j].0));
                                lemma_key_lt_transitive(t, entries[mid as int].0, entries[j].0);
                            }
                        }
                    }
                    hi = mid;
                },
                Rank::Equal => {
                    proof {
                        lemma_search_hit(entries, mid as int);
                    }
                    return Ok(mid);
                },
            }
        }
        proof {
            lemma_search_miss(entries, t, lo as int);
        }
        Err(lo)
    }

    /// Returns the entry with the greatest key that is `target` or stands
    /// before it, or nothing where `target` stands before every key.
    pub fn seek_back(&self, target: &[u8]) -> (r: Option<(&'a [u8], Index)>)
        ensures
            covered(self.entries(), target@) <= self.entries().len(),
            entry_view(r) == entry_at(self.entries(), covered(self.entries(), target@) - 1),
    {
        match self.search(target) {
            Ok(i) => self.get(i),
            Err(i) => if i == 0 {
                None
            } else {
                self.get(i - 1)
            },
        }
    }
}

/// Where every key before a key that meets `pred` meets it too, the keys that
/// meet `pred` are the first ones.
pub proof fn lemma_count_splits(entries: Seq<Entry>, pred: spec_fn(Seq<u8>) -> bool)
    requires
        forall|i: int, j: int|
            #![trigger entries[i], entries[j]]
            0 <= i < j < entries.len() && pred(entries[j].0) ==> pred(entries[i].0),
    ensures
        count_keys(entries, pred) <= entries.len(),
        forall|j: int| 0 <= j < count_keys(entries, pred) ==> pred((#[trigger] entries[j]).0),
        forall|j: int|
            count_keys(entries, pred) <= j < entries.len() ==> !pred((#[trigger] entries[j]).0),
    decreases entries.len(),
{
    if entries.len() > 0 {
        let rest = entries.drop_last();
        let last = entries.len() - 1;
        assert forall|i: int, j: int|
            #![trigger rest[i], rest[j]]
            0 <= i < j < rest.len() && pred(rest[j].0) implies pred(rest[i].0) by {
            assert(rest[i] == entries[i] && rest[j] == entries[j]);
        }
        lemma_count_splits(rest, pred);
        let c = count_keys(rest, pred);
        assert(forall|j: int| 0 <= j < rest.len() ==> rest[j] == entries[j]);
        if pred(entries[last].0) {
            if c < last {
                assert(!pred(rest[c as int].0));
                assert(pred(entries[c as int].0));
            }
        }
    }
}

/// In a sorted page the keys before `target` are the first ones, and so are
/// the keys at or before `target`.
pub proof fn lemma_target_splits(entries: Seq<Entry>, target: Seq<u8>)
    requires
        sorted(entries),
    ensures
        below(entries, target) <= covered(entries, target) <= entries.len(),
        covered(entries, target) <= below(entries, target) + 1,
        forall|j: int| 0 <= j < below(entries, target) ==> key_lt((#[trigger] entries[j]).0, target),
        forall|j: int|
            below(entries, target) <= j < entries.len() ==> !key_lt(
                (#[trigger] entries[j]).0,
                target,
            ),
        forall|j: int|
            0 <= j < covered(entries, target) ==> key_le((#[trigger] entries[j]).0, target),
        forall|j: int|
            covered(entries, target) <= j < entries.len() ==> key_lt(
                target,
                (#[trigger] entries[j]).0,
            ),
{
    let lt = |k: Seq<u8>| key_lt(k, target);
    let le = |k: Seq<u8>| key_le(k, target);
    assert forall|i: int, j: int|
        #![trigger entries[i], entries[j]]
        0 <= i < j < entries.len() implies (lt(entries[j].0) ==> lt(entries[i].0)) && (le(
        entries[j].0,
    ) ==> le(entries[i].0)) by {
        assert(key_lt(entries[i].0, entries[j].0));
        if key_lt(entries[j].0, target) {
            lemma_key_lt_transitive(entries[i].0, entries[j].0, target);
        }
    }
    lemma_count_splits(entries, lt);
    lemma_count_splits(entries, le);
    let b = below(entries, target) as int;
    let c = covered(entries, target) as int;
    assert forall|j: int| c <= j < entries.len() implies key_lt(
        target,
        (#[trigger] entries[j]).0,
    ) by {
        assert(!le(entries[j].0));
        lemma_key_lt_total(entries[j].0, target);
    }
    if c < b {
        assert(lt(entries[c].0));
        assert(!le(entries[c].0));
    }
    if c > b + 1 {
        assert(le(entries[b].0) && !lt(entries[b].0));
        assert(le(entries[b + 1].0) && !lt(entries[b + 1].0));
        assert(key_lt(entries[b].0, entries[b + 1].0));
        lemma_key_lt_total(entries[b].0, entries[b + 1].0);
    }
}

/// In a sorted page the entry at the place `i` has `i` entries before it, and
/// `i + 1` entries lie at or before its key.
pub proof fn lemma_search_hit(entries: Seq<Entry>, i: int)
    requires
        sorted(entries),
        0 <= i < entries.len(),
    ensures
        below(entries, entries[i].0) == i,
        covered(entries, entries[i].0) == i + 1,
{
    let t = entries[i].0;
    assert forall|j: int| 0 <= j < entries.len() implies (j < i ==> key_lt(
        (#[trigger] entries[j]).0,
        t,
    )) && (j >= i ==> !key_lt(entries[j].0, t)) && (j <= i ==> key_le(entries[j].0, t)) && (j > i
        ==> !key_le(entries[j].0, t)) by {
        lemma_key_lt_total(entries[j].0, t);
        if j < i {
            assert(key_lt(entries[j].0, entries[i].0));
        } else if j > i {
            assert(key_lt(entries[i].0, entries[j].0));
        }
    }
    lemma_count_keys(entries, |k: Seq<u8>| key_lt(k, t), i);
    lemma_count_keys(entries, |k: Seq<u8>| key_le(k, t), i + 1);
}

/// Where the first `i` keys stand before `target` and `target` stands before
/// the others, `target` is no key, and `i` keys lie before it.
pub proof fn lemma_search_miss(entries: Seq<Entry>, target: Seq<u8>, i: int)
    requires
        0 <= i <= entries.len(),
        forall|j: int| 0 <= j < i ==> key_lt((#[trigger] entries[j]).0, target),
        forall|j: int| i <= j < entries.len() ==> key_lt(target, (#[trigger] entries[j]).0),
    ensures
        below(entries, target) == i,
        covered(entries, target) == i,
        forall|j: int| 0 <= j < entries.len() ==> (#[trigger] entries[j]).0 != target,
{
    assert forall|j: int| 0 <= j < entries.len() implies (j < i ==> key_lt(
        (#[trigger] entries[j]).0,
        target,
    ) && key_le(entries[j].0, target)) && (j >= i ==> !key_lt(entries[j].0, target) && !key_le(
        entries[j].0,
        target,
    )) && entries[j].0 != target by {
        lemma_key_lt_total(entries[j].0, target);
    }
    lemma_count_keys(entries, |k: Seq<u8>| key_lt(k, target), i);
    lemma_count_keys(entries, |k: Seq<u8>| key_le(k, target), i);
}

/// A sorted page that owns its bytes.
#[derive(Debug)]
pub struct PageBuf {
    bytes: Vec<u8>,
}

impl PageBuf {
    /// The bytes of the page.
    pub closed spec fn bytes(self) -> Seq<u8> {
        self.bytes@
    }

    /// Whether the bytes are a sorted page. Every page that the library hands
    /// out is one.
    pub open spec fn wf(self) -> bool {
        well_formed(self.bytes())
    }

    #[verifier::type_invariant]
    spec fn inv(self) -> bool {
        self.wf()
    }

    /// The entries of the page, in the ascending order of their keys.
    pub open spec fn entries(self) -> Seq<Entry> {
        page_entries(self.bytes())
    }

    /// The kind that the header gives.
    pub open spec fn spec_kind(self) -> PageKind {
        if self.bytes()[0] == 1 {
            PageKind::Index
        } else {
            PageKind::Data
        }
    }

    /// The flag of the header that tells whether the page holds data.
    pub open spec fn spec_is_data(self) -> bool {
        self.bytes()[1] == 1
    }

    /// Takes over bytes that are a sorted page.
    pub(crate) fn assemble(bytes: Vec<u8>) -> (r: PageBuf)
        requires
            well_formed(bytes@),
        ensures
            r.bytes() == bytes@,
            r.wf(),
    {
        PageBuf { bytes }
    }

    /// Lends the page.
    pub fn as_ref(&self) -> (r: PageRef<'_>)
        ensures
            r.bytes() == self.bytes(),
            r.wf(),
            self.wf(),
    {
        proof {
            use_type_invariant(self);
        }
        PageRef { bytes: self.bytes.as_slice() }
    }

    /// The bytes of the page.
    pub fn as_bytes(&self) -> (r: &[u8])
        ensures
            r@ == self.bytes(),
            well_formed(r@),
    {
        proof {
            use_type_invariant(self);
        }
        self.bytes.as_slice()
    }

    /// Gives up the page for its bytes.
    pub fn into_bytes(self) -> (r: Vec<u8>)
        ensures
            r@ == self.bytes(),
            well_formed(r@),
    {
        proof {
            use_type_invariant(&self);
        }
        self.bytes
    }
}

} // verus!
