//! The builder of sorted pages. It walks over the entries twice, first to
//! measure them and then to write them.

use crate::iter::RewindableIter;
use crate::key::{key_lt, lemma_key_lt_transitive, rank_keys};
use crate::page::{
    entry_at, entry_count, index_at, key_at, key_len, le_u32, le_u64, lemma_u32_bytes, lemma_u64_bytes,
    page_entries, push_u32, push_u64, record_fits, slot, sorted, u32_bytes, u64_bytes,
    well_formed, Entry, Index, PageBuf, PageKind,
};
use crate::wide::Rank;
use vstd::prelude::*;

verus! {

/// Why a page was not built.
#[derive(Clone, Copy, Debug, PartialEq, Eq, Structural)]
pub enum BuildError {
    /// The keys do not ascend strictly.
    Unordered,
    /// The page would take more bytes than an offset can address.
    TooLarge,
}

/// The bytes that the records of the entries take.
pub open spec fn payload_len(entries: Seq<Entry>) -> nat
    decreases entries.len(),
{
    if entries.len() == 0 {
        0
    } else {
        payload_len(entries.drop_last()) + 20 + entries.last().0.len()
    }
}

/// The bytes that a page with the entries takes.
pub open spec fn encoded_len(entries: Seq<Entry>) -> nat {
    6 + 4 * entries.len() + payload_len(entries)
}

/// The record of an entry.
pub open spec fn record_bytes(entry: Entry) -> Seq<u8> {
    u32_bytes(entry.0.len() as u32) + entry.0 + u64_bytes(entry.1.id) + u64_bytes(entry.1.epoch)
}

/// Whether the record of `entry` stands at `at`.
pub open spec fn holds_record(b: Seq<u8>, at: int, entry: Entry) -> bool {
    &&& 0 <= at
    &&& at + 20 + entry.0.len() <= b.len()
    &&& b.subrange(at, at + 20 + entry.0.len()) == record_bytes(entry)
}

/// Whether the record of the entry `j` stands where the records before it
/// end.
pub open spec fn record_placed(b: Seq<u8>, entries: Seq<Entry>, j: int) -> bool {
    holds_record(b, payload_len(entries.take(j)) as int, entries[j])
}

/// One more entry takes the bytes of its record.
pub proof fn lemma_payload_len_step(entries: Seq<Entry>, i: int)
    requires
        0 <= i < entries.len(),
    ensures
        payload_len(entries.take(i + 1)) == payload_len(entries.take(i)) + 20 + entries[i].0.len(),
{
    assert(entries.take(i + 1).drop_last() =~= entries.take(i));
}

/// The first entries take no more bytes than all of them.
pub proof fn lemma_payload_len_grows(entries: Seq<Entry>, i: int)
    requires
        0 <= i <= entries.len(),
    ensures
        payload_len(entries.take(i)) <= payload_len(entries),
    decreases entries.len() - i,
{
    if i == entries.len() {
        assert(entries.take(i) =~= entries);
    } else {
        lemma_payload_len_step(entries, i);
        lemma_payload_len_grows(entries, i + 1);
    }
}

/// What a record holds can be read back from it.
pub proof fn lemma_holds_record(b: Seq<u8>, at: int, entry: Entry)
    requires
        holds_record(b, at, entry),
        entry.0.len() <= 0xffff_ffff,
    ensures
        le_u32(b, at) == entry.0.len(),
        b.subrange(at + 4, at + 4 + entry.0.len()) == entry.0,
        le_u64(b, at + 4 + entry.0.len()) == entry.1.id,
        le_u64(b, at + 12 + entry.0.len()) == entry.1.epoch,
{
    let k = entry.0.len() as int;
    let r = b.subrange(at, at + 20 + k);
    assert(b.subrange(at, at + 4) =~= r.subrange(0, 4));
    assert(r.subrange(0, 4) =~= u32_bytes(k as u32));
    lemma_u32_bytes(b, at, k as u32);
    assert(b.subrange(at + 4, at + 4 + k) =~= r.subrange(4, 4 + k));
    assert(r.subrange(4, 4 + k) =~= entry.0);
    assert(b.subrange(at + 4 + k, at + 12 + k) =~= r.subrange(4 + k, 12 + k));
    assert(r.subrange(4 + k, 12 + k) =~= u64_bytes(entry.1.id));
    lemma_u64_bytes(b, at + 4 + k, entry.1.id);
    assert(b.subrange(at + 12 + k, at + 20 + k) =~= r.subrange(12 + k, 20 + k));
    assert(r.subrange(12 + k, 20 + k) =~= u64_bytes(entry.1.epoch));
    lemma_u64_bytes(b, at + 12 + k, entry.1.epoch);
}

/// A header with its slots, followed by the records that the slots point to,
/// is a page that holds the entries.
pub proof fn lemma_assembled(head: Seq<u8>, body: Seq<u8>, items: Seq<Entry>)
    requires
        encoded_len(items) <= 0xffff_ffff,
        sorted(items),
        head.len() == 6 + 4 * items.len(),
        head[0] <= 1,
        head[1] <= 1,
        le_u32(head, 2) == items.len(),
        forall|j: int|
            0 <= j < items.len() ==> #[trigger] slot(head, j) == head.len() + payload_len(
                items.take(j),
            ),
        body.len() == payload_len(items),
        forall|j: int| 0 <= j < items.len() ==> #[trigger] record_placed(body, items, j),
    ensures
        well_formed(head + body),
        page_entries(head + body) == items,
        (head + body)[0] == head[0],
        (head + body)[1] == head[1],
{
    let b = head + body;
    let h = head.len() as int;
    assert(entry_count(b) == items.len());
    assert forall|j: int| 0 <= j < items.len() implies #[trigger] record_fits(b, j) && key_at(b, j)
        == items[j].0 && index_at(b, j) == items[j].1 by {
        let p = payload_len(items.take(j)) as int;
        let k = items[j].0.len() as int;
        lemma_payload_len_step(items, j);
        lemma_payload_len_grows(items, j + 1);
        assert(slot(head, j) == h + p);
        assert(slot(b, j) == slot(head, j));
        assert(record_placed(body, items, j));
        assert(b.subrange(h + p, h + p + 20 + k) =~= body.subrange(p, p + 20 + k));
        lemma_holds_record(b, h + p, items[j]);
        assert(key_len(b, j) == k);
    }
    assert forall|j: int| 0 <= j < items.len() implies page_entries(b)[j] == items[j] by {
        assert(record_fits(b, j));
    }
    assert(page_entries(b) =~= items);
}

/// Appends bytes.
fn push_bytes(out: &mut Vec<u8>, bytes: &[u8])
    ensures
        final(out)@ == old(out)@ + bytes@,
{
    let mut i: usize = 0;
    while i < bytes.len()
        invariant
            i <= bytes@.len(),
            out@ =~= old(out)@ + bytes@.take(i as int),
        decreases bytes@.len() - i,
    {
        out.push(bytes[i]);
        i += 1;
    }
    assert(bytes@.take(bytes@.len() as int) =~= bytes@);
}

/// A builder of sorted pages.
#[derive(Clone, Copy, Debug)]
pub struct SortedPageBuilder {
    kind: PageKind,
    is_data: bool,
}

impl SortedPageBuilder {
    /// The kind that the builder gives its pages.
    pub closed spec fn spec_kind(self) -> PageKind {
        self.kind
    }

    /// Whether the builder marks its pages as data.
    pub closed spec fn spec_is_data(self) -> bool {
        self.is_data
    }

    /// A builder of pages of the kind `kind`.
    pub fn new(kind: PageKind, is_data: bool) -> (r: SortedPageBuilder)
        ensures
            r.spec_kind() == kind,
            r.spec_is_data() == is_data,
    {
        SortedPageBuilder { kind, is_data }
    }

    /// Builds a page with the entries of `iter`, all of them, from its start.
    /// The keys have to ascend strictly, and the page must not take more
    /// bytes than an offset can address: 2^32 - 1.
    pub fn build_from_iter<'a, I>(self, iter: &mut I) -> (r: Result<PageBuf, BuildError>) where
        I: RewindableIter<Key = &'a [u8], Value = Index>,

        requires
            old(iter).wf(),
        ensures
            final(iter).wf(),
            final(iter).items() == old(iter).items(),
            final(iter).cursor() == old(iter).items().len(),
            final(iter).latest() == if r is Ok {
                entry_at(old(iter).items(), old(iter).items().len() - 1)
            } else {
                None
            },
            match r {
                Ok(page) => {
                    &&& sorted(old(iter).items())
                    &&& encoded_len(old(iter).items()) <= 0xffff_ffff
                    &&& page.wf()
                    &&& page.entries() == old(iter).items()
                    &&& page.bytes().len() == encoded_len(old(iter).items())
                    &&& page.spec_kind() == self.spec_kind()
                    &&& page.spec_is_data() == self.spec_is_data()
                },
                Err(BuildError::Unordered) => !sorted(old(iter).items()),
                Err(BuildError::TooLarge) => sorted(old(iter).items()) && encoded_len(
                    old(iter).items(),
                ) > 0xffff_ffff,
            },
    {
        let ghost items = iter.items();
        iter.rewind();
        let mut count: usize = 0;
        let mut size: u64 = 6;
        let mut fits = true;
        let mut ordered = true;
        let mut prev: Option<&'a [u8]> = None;
        proof {
            assert(items.take(0).len() == 0);
        }
        loop
            invariant
                iter.wf(),
                iter.items() == items,
                iter.cursor() <= items.len(),
                ordered == sorted(items.take(iter.cursor() as int)),
                fits ==> count == iter.cursor() && size == encoded_len(
                    items.take(iter.cursor() as int),
                ) && size <= 0xffff_ffff,
                !fits ==> encoded_len(items.take(iter.cursor() as int)) > 0xffff_ffff,
                iter.cursor() == 0 ==> prev is None,
                iter.cursor() > 0 ==> prev is Some && prev->0@ == items[iter.cursor() - 1].0,
            ensures
                iter.wf(),
                iter.items() == items,
                iter.cursor() == items.len(),
                iter.latest() is None,
                ordered == sorted(items),
                fits ==> count == items.len() && encoded_len(items) <= 0xffff_ffff,
                !fits ==> encoded_len(items) > 0xffff_ffff,
            decreases items.len() - iter.cursor(),
        {
            let ghost at = iter.cursor() as int;
            let key: &'a [u8] = match iter.next() {
                Some(item) => item.0,
                None => {
                    proof {
                        assert(items.take(at) =~= items);
                    }
                    break ;
                },
            };
            proof {
                lemma_payload_len_step(items, at);
                let was = items.take(at);
                let now = items.take(at + 1);
                if sorted(now) {
                    assert forall|x: int, y: int|
                        #![trigger was[x], was[y]]
                        0 <= x < y < was.len() implies key_lt(was[x].0, was[y].0) by {
                        assert(key_lt(now[x].0, now[y].0));
                    }
                }
            }
            if ordered {
                match prev {
                    Some(before) => {
                        match rank_keys(before, key) {
                            Rank::Less => {
                                proof {
                                    let was = items.take(at);
                                    let now = items.take(at + 1);
                                    assert forall|x: int, y: int|
                                        #![trigger now[x], now[y]]
                                        0 <= x < y < now.len() implies key_lt(
                                        now[x].0,
                                        now[y].0,
                                    ) by {
                                        if y == at {
                                            if x < at - 1 {
                                                assert(key_lt(was[x].0, was[at - 1].0));
                                                lemma_key_lt_transitive(
                                                    now[x].0,
                                                    items[at - 1].0,
                                                    now[y].0,
                                                );
                                            }
                                        } else {
                                            assert(key_lt(was[x].0, was[y].0));
                                        }
                                    }
                                }
                            },
                            _ => {
                                proof {
                                    let now = items.take(at + 1);
                                    assert(!key_lt(now[at - 1].0, now[at].0));
                                }
                                ordered = false;
                            },
                        }
                    },
                    None => {
                        proof {
                            assert(sorted(items.take(at + 1)));
                        }
                    },
                }
            }
            if fits {
                let key_len = key.len();
                if key_len > 0xffff_ffff || size + 24 + key_len as u64 > 0xffff_ffff {
                    fits = false;
                } else {
                    size = size + 24 + key_len as u64;
                    count = count + 1;
                }
            } else {
                proof {
                    lemma_payload_len_step(items, at);
                }
            }
            prev = Some(key);
        }
        if !ordered {
            return Err(BuildError::Unordered);
        }
        if !fits {
            return Err(BuildError::TooLarge);
        }
        iter.rewind();
        let mut head: Vec<u8> = Vec::new();
        let mut body: Vec<u8> = Vec::new();
        head.push(
            match self.kind {
                PageKind::Data => 0u8,
                PageKind::Index => 1u8,
            },
        );
        head.push(
            if self.is_data {
                1u8
            } else {
                0u8
            },
        );
        push_u32(&mut head, count as u32);
        let start: usize = 6 + 4 * count;
        proof {
            assert(head@.subrange(2, 6) =~= u32_bytes(count as u32));
            lemma_u32_bytes(head@, 2, count as u32);
            assert(items.take(0).len() == 0);
        }
        let ghost first = head@[0];
        let ghost second = head@[1];
        let mut i: usize = 0;
        while i < count
            invariant
                iter.wf(),
                iter.items() == items,
                iter.cursor() == i,
                count == items.len(),
                i <= count,
                encoded_len(items) <= 0xffff_ffff,
                start == 6 + 4 * count,
                iter.latest() == entry_at(items, i - 1),
                head@.len() == 6 + 4 * i,
                head@[0] == first,
                head@[1] == second,
                le_u32(head@, 2) == count,
                forall|j: int|
                    0 <= j < i ==> #[trigger] slot(head@, j) == start + payload_len(items.take(j)),
                body@.len() == payload_len(items.take(i as int)),
                forall|j: int| 0 <= j < i ==> #[trigger] record_placed(body@, items, j),
            decreases count - i,
        {
            let (key, index): (&'a [u8], Index) = match iter.next() {
                Some(item) => (item.0, item.1),
                None => {
                    proof {
                        assert(false);
                    }
                    vstd::pervasive::unreached()
                },
            };
            proof {
                lemma_payload_len_step(items, i as int);
                lemma_payload_len_grows(items, i as int);
                lemma_payload_len_grows(items, i + 1);
            }
            let at: usize = start + body.len();
            let ghost head_before = head@;
            let ghost body_before = body@;
            push_u32(&mut head, at as u32);
            push_u32(&mut body, key.len() as u32);
            push_bytes(&mut body, key);
            push_u64(&mut body, index.id);
            push_u64(&mut body, index.epoch);
            proof {
                let entry = items[i as int];
                assert(head@.subrange(6 + 4 * i, 10 + 4 * i) =~= u32_bytes(at as u32));
                lemma_u32_bytes(head@, 6 + 4 * i, at as u32);
                assert forall|j: int| 0 <= j < i + 1 implies #[trigger] slot(head@, j) == start
                    + payload_len(items.take(j)) by {
                    if j < i {
                        assert(slot(head_before, j) == start + payload_len(items.take(j)));
                        assert(slot(head@, j) == slot(head_before, j));
                    }
                }
                assert(body@ =~= body_before + record_bytes(entry));
                assert forall|j: int| 0 <= j < i + 1 implies #[trigger] record_placed(
                    body@,
                    items,
                    j,
                ) by {
                    let p = payload_len(items.take(j)) as int;
                    let k = items[j].0.len() as int;
                    if j < i {
                        assert(record_placed(body_before, items, j));
                        assert(body@.subrange(p, p + 20 + k) =~= body_before.subrange(
                            p,
                            p + 20 + k,
                        ));
                    } else {
                        assert(body@.subrange(p, p + 20 + k) =~= record_bytes(entry));
                    }
                }
            }
            i += 1;
        }
        proof {
            assert(items.take(count as int) =~= items);
            lemma_assembled(head@, body@, items);
        }
        head.append(&mut body);
        Ok(PageBuf::assemble(head))
    }
}

} // verus!
