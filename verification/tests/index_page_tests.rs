use photondb::builder::{BuildError, SortedPageBuilder};
use photondb::index_page::{IndexPageBuilder, IndexPageIter, IndexPageRef, IndexPageSplitIter};
use photondb::iter::{drain, ForwardIter, RewindableIter, SeekableIter, SliceIter};
use photondb::key::rank_keys;
use photondb::page::{read_u32, read_u64, Index, PageBuf, PageKind, PageRef, SortedPageRef};
use photondb::page_iter::SortedPageIter;
use photondb::wide::Rank;

fn idx(n: u64) -> Index {
    Index::new(n, n + 100)
}

fn build(keys: &[&[u8]]) -> PageBuf {
    let entries: Vec<(&[u8], Index)> =
        keys.iter().enumerate().map(|(i, k)| (*k, idx(i as u64))).collect();
    let mut iter = SliceIter::new(&entries);
    IndexPageBuilder::default().build_from_iter(&mut iter).unwrap()
}

fn index_page(buf: &PageBuf) -> IndexPageRef<'_> {
    let base = buf.as_ref();
    assert_eq!(base.kind(), PageKind::Index);
    assert!(!base.is_data());
    IndexPageRef::new(base)
}

fn rest<'a, I: ForwardIter<Key = &'a [u8], Value = Index>>(iter: &mut I) -> Vec<(Vec<u8>, Index)> {
    let mut out = Vec::new();
    while let Some((k, v)) = iter.next() {
        out.push((k.to_vec(), *v));
    }
    out
}

fn expect(keys: &[&[u8]], from: usize) -> Vec<(Vec<u8>, Index)> {
    keys.iter().enumerate().skip(from).map(|(i, k)| (k.to_vec(), idx(i as u64))).collect()
}

const AMZ: [&[u8]; 3] = [b"a", b"m", b"z"];
const ABCD: [&[u8]; 4] = [b"a", b"b", b"c", b"d"];

#[test]
fn index_page_lookup() {
    let buf = build(&AMZ);
    let page = index_page(&buf);
    assert_eq!(page.find(b"k"), Some((&b"a"[..], idx(0))));
    assert_eq!(page.find(b"z"), Some((&b"z"[..], idx(2))));
    assert_eq!(page.find(b""), None);
}

#[test]
fn index_page_split() {
    let buf = build(&ABCD);
    let page = index_page(&buf);
    let (sep, mut iter) = page.split().unwrap();
    assert_eq!(sep, b"c");
    assert_eq!(rest(&mut iter), expect(&ABCD, 2));
    iter.rewind();
    assert_eq!(rest(&mut iter), expect(&ABCD, 2));
}

#[test]
fn find_round_trips() {
    let keys: [&[u8]; 6] = [b"", b"a", b"ab", b"b", b"ba", b"\xff\xff"];
    let buf = build(&keys);
    let page = index_page(&buf);
    for (i, k) in keys.iter().enumerate() {
        assert_eq!(page.find(k), Some((*k, idx(i as u64))));
    }
    assert_eq!(page.find(b"\x00"), Some((&b""[..], idx(0))));
    assert_eq!(page.find(b"aa"), Some((&b"a"[..], idx(1))));
    assert_eq!(page.find(b"abc"), Some((&b"ab"[..], idx(2))));
    assert_eq!(page.find(b"az"), Some((&b"ab"[..], idx(2))));
    assert_eq!(page.find(b"b\x00"), Some((&b"b"[..], idx(3))));
    assert_eq!(page.find(b"zzz"), Some((&b"ba"[..], idx(4))));
    assert_eq!(page.find(b"\xff\xff\x00"), Some((&b"\xff\xff"[..], idx(5))));
}

#[test]
fn find_before_the_first_key_gives_nothing() {
    let buf = build(&[b"b", b"c"]);
    let page = index_page(&buf);
    assert_eq!(page.find(b"a"), None);
    assert_eq!(page.find(b""), None);
    assert_eq!(page.find(b"azzzz"), None);
}

#[test]
fn find_in_an_empty_page_gives_nothing() {
    let buf = build(&[]);
    let page = index_page(&buf);
    assert_eq!(page.find(b"a"), None);
    assert_eq!(page.find_range(b"a"), (None, None));
    assert!(page.split().is_none());
    assert_eq!(rest(&mut page.iter()), vec![]);
}

#[test]
fn find_range_encloses_the_target() {
    let buf = build(&AMZ);
    let page = index_page(&buf);
    let a = Some((&b"a"[..], idx(0)));
    let m = Some((&b"m"[..], idx(1)));
    let z = Some((&b"z"[..], idx(2)));
    // exact hits
    assert_eq!(page.find_range(b"a"), (a, m));
    assert_eq!(page.find_range(b"m"), (m, z));
    assert_eq!(page.find_range(b"z"), (z, None));
    // misses
    assert_eq!(page.find_range(b""), (None, a));
    assert_eq!(page.find_range(b"k"), (a, m));
    assert_eq!(page.find_range(b"n"), (m, z));
    assert_eq!(page.find_range(b"zz"), (z, None));
}

#[test]
fn find_range_sides_lie_around_the_target() {
    let keys: [&[u8]; 5] = [b"b", b"d", b"f", b"h", b"j"];
    let buf = build(&keys);
    let page = index_page(&buf);
    for t in [&b"a"[..], b"b", b"c", b"d", b"e", b"f", b"g", b"h", b"i", b"j", b"k"] {
        let (left, right) = page.find_range(t);
        assert!(left.is_some() || right.is_some());
        if let Some((k, _)) = left {
            assert_ne!(rank_keys(k, t), Rank::Greater);
        }
        if let Some((k, _)) = right {
            assert_eq!(rank_keys(k, t), Rank::Greater);
        }
        if keys.contains(&t) {
            assert_eq!(left.unwrap().0, t);
        }
        assert_eq!(left, page.find(t));
    }
}

#[test]
fn split_needs_two_entries() {
    assert!(index_page(&build(&[])).split().is_none());
    assert!(index_page(&build(&[b"a"])).split().is_none());
    let buf = build(&[b"a", b"b"]);
    let (sep, mut iter) = index_page(&buf).split().unwrap();
    assert_eq!(sep, b"b");
    assert_eq!(rest(&mut iter), vec![(b"b".to_vec(), idx(1))]);
}

#[test]
fn split_takes_the_upper_half() {
    let keys: [&[u8]; 5] = [b"a", b"b", b"c", b"d", b"e"];
    let buf = build(&keys);
    let page = index_page(&buf);
    let (sep, mut iter) = page.split().unwrap();
    assert_eq!(sep, b"c");
    assert_eq!(iter.last(), None);
    assert_eq!(rest(&mut iter), expect(&keys, 2));
    assert_eq!(iter.next(), None);
    iter.rewind();
    assert_eq!(iter.next(), Some(&(&b"c"[..], idx(2))));
    iter.rewind();
    iter.skip(1);
    assert_eq!(rest(&mut iter), expect(&keys, 3));
    iter.rewind();
    iter.skip_all();
    assert_eq!(iter.next(), None);
}

#[test]
fn split_halves_can_be_built_again() {
    let keys: [&[u8]; 5] = [b"a", b"b", b"c", b"d", b"e"];
    let buf = build(&keys);
    let page = index_page(&buf);
    let (_, mut iter) = page.split().unwrap();
    match iter.next() {
        Some(first) => assert_eq!(first.0, b"c"),
        None => panic!("the upper half is empty"),
    }
    let right = IndexPageBuilder::default().build_from_iter(&mut iter).unwrap();
    let right = index_page(&right);
    assert_eq!(rest(&mut right.iter()), expect(&keys, 2));
    assert_eq!(right.find(b"a"), None);
    assert_eq!(right.find(b"d"), Some((&b"d"[..], idx(3))));
}

#[test]
fn split_iter_over_a_part() {
    let buf = build(&ABCD);
    let page = index_page(&buf);
    let mut none = IndexPageSplitIter::new(page.iter(), 9);
    assert_eq!(rest(&mut none), vec![]);
    none.rewind();
    assert_eq!(rest(&mut none), vec![]);
    let mut all = IndexPageSplitIter::new(IndexPageIter::new(page), 0);
    assert_eq!(rest(&mut all), expect(&ABCD, 0));
    let mut last = IndexPageSplitIter::new(page.iter(), 3);
    assert_eq!(rest(&mut last), expect(&ABCD, 3));
}

#[test]
fn iter_yields_all_entries_in_order() {
    let buf = build(&ABCD);
    let page = index_page(&buf);
    let mut iter = page.iter();
    assert_eq!(rest(&mut iter), expect(&ABCD, 0));
    assert_eq!(iter.next(), None);
    iter.rewind();
    assert_eq!(rest(&mut iter), expect(&ABCD, 0));
}

#[test]
fn iter_last_repeats_next() {
    let buf = build(&AMZ);
    let page = index_page(&buf);
    let mut iter = page.iter();
    assert_eq!(iter.last(), None);
    for i in 0..3 {
        let got = iter.next().copied();
        assert_eq!(got, Some((AMZ[i], idx(i as u64))));
        assert_eq!(iter.last().copied(), got);
        assert_eq!(iter.last().copied(), got);
    }
    assert_eq!(iter.next(), None);
    assert_eq!(iter.last(), None);
    iter.rewind();
    assert_eq!(iter.last(), None);
}

#[test]
fn iter_skip_leaves_the_tail() {
    let buf = build(&ABCD);
    let page = index_page(&buf);
    for k in 0..7 {
        let mut iter = page.iter();
        iter.skip(k);
        assert_eq!(rest(&mut iter), expect(&ABCD, k));
    }
    let mut iter = page.iter();
    iter.skip(1);
    iter.skip(2);
    assert_eq!(rest(&mut iter), expect(&ABCD, 3));
    let mut iter = page.iter();
    iter.skip(usize::MAX);
    assert_eq!(iter.next(), None);
    let mut iter = page.iter();
    iter.skip_all();
    assert_eq!(iter.next(), None);
}

#[test]
fn iter_skip_keeps_last() {
    let buf = build(&ABCD);
    let page = index_page(&buf);
    let mut iter = page.iter();
    iter.next();
    iter.skip(2);
    assert_eq!(iter.last(), Some(&(&b"a"[..], idx(0))));
    iter.skip_all();
    assert_eq!(iter.last(), Some(&(&b"a"[..], idx(0))));
}

#[test]
fn iter_seek_goes_to_the_first_key_not_before_the_target() {
    let buf = build(&AMZ);
    let page = index_page(&buf);
    let mut iter = page.iter();
    iter.seek(b"m");
    assert_eq!(iter.last(), None);
    assert_eq!(rest(&mut iter), expect(&AMZ, 1));
    iter.seek(b"b");
    assert_eq!(rest(&mut iter), expect(&AMZ, 1));
    iter.seek(b"");
    assert_eq!(rest(&mut iter), expect(&AMZ, 0));
    iter.seek(b"zz");
    assert_eq!(rest(&mut iter), expect(&AMZ, 3));
    iter.seek(b"z");
    assert_eq!(rest(&mut iter), expect(&AMZ, 2));
}

#[test]
fn drain_returns_the_tail() {
    let buf = build(&ABCD);
    let page = index_page(&buf);
    let mut iter = page.iter();
    iter.skip(1);
    let got = drain(&mut iter);
    assert_eq!(got, vec![(&b"b"[..], idx(1)), (&b"c"[..], idx(2)), (&b"d"[..], idx(3))]);
    assert_eq!(drain(&mut iter), vec![]);
    iter.rewind();
    assert_eq!(drain(&mut iter).len(), 4);
}

#[test]
fn slice_iter_walks_the_slice() {
    let entries: Vec<(&[u8], Index)> = vec![(b"x", idx(1)), (b"y", idx(2))];
    let mut iter = SliceIter::new(&entries);
    assert_eq!(iter.last(), None);
    assert_eq!(iter.next(), Some(&(&b"x"[..], idx(1))));
    assert_eq!(iter.last(), Some(&(&b"x"[..], idx(1))));
    assert_eq!(iter.next(), Some(&(&b"y"[..], idx(2))));
    assert_eq!(iter.next(), None);
    assert_eq!(iter.last(), None);
    iter.rewind();
    iter.skip(1);
    assert_eq!(iter.next(), Some(&(&b"y"[..], idx(2))));
    iter.rewind();
    iter.skip_all();
    assert_eq!(iter.next(), None);
}

#[test]
fn sorted_page_operations() {
    let buf = build(&AMZ);
    let page = SortedPageRef::new(buf.as_ref());
    assert_eq!(page.len(), 3);
    assert_eq!(page.get(0), Some((&b"a"[..], idx(0))));
    assert_eq!(page.get(2), Some((&b"z"[..], idx(2))));
    assert_eq!(page.get(3), None);
    assert_eq!(page.get(usize::MAX), None);
    assert_eq!(page.search(b"a"), Ok(0));
    assert_eq!(page.search(b"m"), Ok(1));
    assert_eq!(page.search(b"z"), Ok(2));
    assert_eq!(page.search(b""), Err(0));
    assert_eq!(page.search(b"b"), Err(1));
    assert_eq!(page.search(b"n"), Err(2));
    assert_eq!(page.search(b"za"), Err(3));
    assert_eq!(page.seek_back(b"l"), Some((&b"a"[..], idx(0))));
    assert_eq!(page.seek_back(b"m"), Some((&b"m"[..], idx(1))));
    assert_eq!(page.seek_back(b"A"), None);
    let mut iter = SortedPageIter::new(page);
    assert_eq!(rest(&mut iter), expect(&AMZ, 0));
    assert_eq!(index_page(&buf).as_sorted().len(), 3);
    // An index page can be used as the sorted page that it is.
    assert_eq!(index_page(&buf).len(), 3);
    assert_eq!(index_page(&buf).search(b"m"), Ok(1));
}

#[test]
fn search_in_a_large_page() {
    let keys: Vec<Vec<u8>> = (0..1000u32).map(|i| (2 * i).to_be_bytes().to_vec()).collect();
    let refs: Vec<&[u8]> = keys.iter().map(|k| k.as_slice()).collect();
    let buf = build(&refs);
    let page = index_page(&buf);
    let sorted = page.as_sorted();
    for i in 0..1000u32 {
        assert_eq!(sorted.search(&(2 * i).to_be_bytes()), Ok(i as usize));
        assert_eq!(sorted.search(&(2 * i + 1).to_be_bytes()), Err(i as usize + 1));
        assert_eq!(page.find(&(2 * i + 1).to_be_bytes()).unwrap().1, idx(i as u64));
    }
    let (sep, mut iter) = page.split().unwrap();
    assert_eq!(sep, &1000u32.to_be_bytes()[..]);
    assert_eq!(rest(&mut iter).len(), 500);
}

#[test]
fn page_layout_is_little_endian() {
    let entries: Vec<(&[u8], Index)> = vec![(b"a", Index::new(7, 0x0102_0304_0506_0708))];
    let mut iter = SliceIter::new(&entries);
    let buf = IndexPageBuilder::default().build_from_iter(&mut iter).unwrap();
    let expected: Vec<u8> = vec![
        1, 0, // kind, is_data
        1, 0, 0, 0, // count
        10, 0, 0, 0, // slot
        1, 0, 0, 0, // key length
        b'a', // key
        7, 0, 0, 0, 0, 0, 0, 0, // id
        8, 7, 6, 5, 4, 3, 2, 1, // epoch
    ];
    assert_eq!(buf.as_bytes(), &expected[..]);
    assert_eq!(read_u32(&expected, 6), 10);
    assert_eq!(read_u64(&expected, 23), 0x0102_0304_0506_0708);
    assert_eq!(buf.into_bytes(), expected);
}

#[test]
fn page_layout_of_two_entries() {
    let buf = build(&[b"", b"xy"]);
    let bytes = buf.as_bytes();
    assert_eq!(bytes.len(), 6 + 8 + 20 + 22);
    assert_eq!(&bytes[..6], &[1, 0, 2, 0, 0, 0]);
    assert_eq!(read_u32(bytes, 6), 14);
    assert_eq!(read_u32(bytes, 10), 34);
    assert_eq!(read_u32(bytes, 14), 0);
    assert_eq!(read_u32(bytes, 34), 2);
    assert_eq!(&bytes[38..40], b"xy");
    assert_eq!(read_u64(bytes, 40), 1);
    assert_eq!(read_u64(bytes, 48), 101);
}

#[test]
fn builder_sets_kind_and_flag() {
    let entries: Vec<(&[u8], Index)> = vec![(b"k", idx(1))];
    let mut iter = SliceIter::new(&entries);
    let buf = SortedPageBuilder::new(PageKind::Data, true).build_from_iter(&mut iter).unwrap();
    assert_eq!(buf.as_ref().kind(), PageKind::Data);
    assert!(buf.as_ref().is_data());
    assert_eq!(&buf.as_bytes()[..2], &[0, 1]);
    let buf = build(&[b"k"]);
    assert_eq!(buf.as_ref().kind(), PageKind::Index);
    assert!(!buf.as_ref().is_data());
}

#[test]
fn builder_starts_from_the_first_entry() {
    let entries: Vec<(&[u8], Index)> = vec![(b"a", idx(0)), (b"b", idx(1)), (b"c", idx(2))];
    let mut iter = SliceIter::new(&entries);
    iter.skip(2);
    let buf = IndexPageBuilder::default().build_from_iter(&mut iter).unwrap();
    assert_eq!(iter.next(), None);
    assert_eq!(rest(&mut index_page(&buf).iter()).len(), 3);
}

#[test]
fn builder_refuses_keys_out_of_order() {
    for keys in [&[&b"b"[..], b"a"][..], &[b"a", b"a"], &[b"a", b"c", b"b"], &[b"ab", b"a"]] {
        let entries: Vec<(&[u8], Index)> = keys.iter().map(|k| (*k, idx(0))).collect();
        let mut iter = SliceIter::new(&entries);
        let r = IndexPageBuilder::default().build_from_iter(&mut iter);
        assert_eq!(r.err(), Some(BuildError::Unordered));
    }
}

#[test]
fn builder_refuses_a_page_beyond_four_gibibytes() {
    // 250 keys of about 20 MiB each, all of them parts of one buffer; the
    // first byte of each key is its place.
    let mut buf = vec![0u8; 20 << 20];
    for i in 0..250 {
        buf[i] = i as u8;
    }
    let entries: Vec<(&[u8], Index)> = (0..250).map(|i| (&buf[i..], idx(0))).collect();
    let mut iter = SliceIter::new(&entries);
    let r = IndexPageBuilder::default().build_from_iter(&mut iter);
    assert_eq!(r.err(), Some(BuildError::TooLarge));
    assert_eq!(iter.next(), None);
    // Out of order and too large: the order is named.
    let entries: Vec<(&[u8], Index)> = (0..251).map(|i| (&buf[i..], idx(0))).collect();
    let mut iter = SliceIter::new(&entries);
    let r = IndexPageBuilder::default().build_from_iter(&mut iter);
    assert_eq!(r.err(), Some(BuildError::Unordered));
}

#[test]
fn parse_accepts_a_built_page() {
    let buf = build(&AMZ);
    let bytes = buf.as_bytes().to_vec();
    let page = PageRef::parse(&bytes).unwrap();
    assert_eq!(page.as_bytes(), &bytes[..]);
    assert_eq!(page.kind(), PageKind::Index);
    let page = IndexPageRef::new(page);
    assert_eq!(page.find(b"n"), Some((&b"m"[..], idx(1))));
    assert!(PageRef::parse(&[1, 0, 0, 0, 0, 0]).is_some());
    assert!(PageRef::parse(&[0, 1, 0, 0, 0, 0]).is_some());
}

#[test]
fn parse_refuses_broken_pages() {
    let good = build(&AMZ).into_bytes();
    assert!(PageRef::parse(&good).is_some());
    // too short for a header
    assert!(PageRef::parse(&[]).is_none());
    assert!(PageRef::parse(&good[..5]).is_none());
    // cut off
    assert!(PageRef::parse(&good[..good.len() - 1]).is_none());
    assert!(PageRef::parse(&good[..7]).is_none());
    // unknown kind, unknown flag
    let mut bad = good.clone();
    bad[0] = 2;
    assert!(PageRef::parse(&bad).is_none());
    let mut bad = good.clone();
    bad[1] = 2;
    assert!(PageRef::parse(&bad).is_none());
    // more entries than slots
    let mut bad = good.clone();
    bad[2] = 200;
    assert!(PageRef::parse(&bad).is_none());
    // a slot that points into the slots
    let mut bad = good.clone();
    bad[6] = 6;
    assert!(PageRef::parse(&bad).is_none());
    // a slot that points behind the page
    let mut bad = good.clone();
    bad[9] = 1;
    assert!(PageRef::parse(&bad).is_none());
    // a key that runs over the end
    let mut bad = good.clone();
    let last = read_u32(&good, 14) as usize;
    bad[last] = 2;
    assert!(PageRef::parse(&bad).is_none());
    // keys out of order
    let mut bad = good.clone();
    let first = read_u32(&good, 6) as usize;
    bad[first + 4] = b'n';
    assert!(PageRef::parse(&bad).is_none());
    // equal keys
    let mut bad = good.clone();
    bad[first + 4] = b'm';
    assert!(PageRef::parse(&bad).is_none());
}

#[test]
fn keys_are_ordered_byte_by_byte() {
    assert_eq!(rank_keys(b"", b""), Rank::Equal);
    assert_eq!(rank_keys(b"", b"\x00"), Rank::Less);
    assert_eq!(rank_keys(b"a", b"ab"), Rank::Less);
    assert_eq!(rank_keys(b"ab", b"a"), Rank::Greater);
    assert_eq!(rank_keys(b"ab", b"b"), Rank::Less);
    assert_eq!(rank_keys(b"\x7f", b"\x80"), Rank::Less);
    assert_eq!(rank_keys(b"\xff", b"\x00\xff"), Rank::Greater);
    assert_eq!(rank_keys(b"abc", b"abc"), Rank::Equal);
}
