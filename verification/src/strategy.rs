//! The choice of the next file to reclaim. A strategy collects one summary for
//! each candidate file and then picks the file whose reclamation pays best.
//! Scores are exact ratios: two candidates are never confused by rounding.

use crate::fraction::{lemma_ratio_order, lemma_ratio_sign, ratio, Fraction};
use crate::wide::{lemma_value_push, limb_weight, limbs_value, Rank, Wide};
use std::collections::HashMap;
use vstd::prelude::*;

verus! {

broadcast use vstd::std_specs::hash::group_hash_axioms;

/// The file picked by a reclaiming strategy.
#[derive(Clone, Copy, Debug, PartialEq, Eq, Structural, PartialOrd, Ord, Hash)]
pub enum PickedFile {
    PageFile(u32),
    MapFile(u32),
}

impl PickedFile {
    /// The order of picked files: every page file stands before every map
    /// file, and files of one kind are ordered by their ids.
    pub open spec fn precedes(self, other: PickedFile) -> bool {
        match (self, other) {
            (PickedFile::PageFile(a), PickedFile::PageFile(b)) => a < b,
            (PickedFile::PageFile(_), PickedFile::MapFile(_)) => true,
            (PickedFile::MapFile(_), PickedFile::PageFile(_)) => false,
            (PickedFile::MapFile(a), PickedFile::MapFile(b)) => a < b,
        }
    }

    /// How `self` stands to `other` in the order of picked files.
    pub fn rank(&self, other: &PickedFile) -> (r: Rank)
        ensures
            r is Less <==> self.precedes(*other),
            r is Equal <==> *self == *other,
            r is Greater <==> other.precedes(*self),
    {
        match (*self, *other) {
            (PickedFile::PageFile(a), PickedFile::PageFile(b)) => rank_u64(a as u64, b as u64),
            (PickedFile::PageFile(_), PickedFile::MapFile(_)) => Rank::Less,
            (PickedFile::MapFile(_), PickedFile::PageFile(_)) => Rank::Greater,
            (PickedFile::MapFile(a), PickedFile::MapFile(b)) => rank_u64(a as u64, b as u64),
        }
    }
}

/// How one integer stands to another.
pub fn rank_u64(a: u64, b: u64) -> (r: Rank)
    ensures
        r is Less <==> a < b,
        r is Equal <==> a == b,
        r is Greater <==> a > b,
{
    if a < b {
        Rank::Less
    } else if a == b {
        Rank::Equal
    } else {
        Rank::Greater
    }
}

/// The smoothed share `part / (whole + 1/10)`. The tenth keeps the share
/// defined for an empty whole.
pub open spec fn smoothed_share(part: nat, whole: nat) -> real {
    (part as real) / ((whole as real) + 1real / 10real)
}

/// The smoothed share is the ratio `10 part / (10 whole + 1)`.
pub proof fn lemma_smoothed_share(part: nat, whole: nat)
    by (nonlinear_arith)
    ensures
        smoothed_share(part, whole) == ratio(10 * (part as int), 10 * (whole as int) + 1),
        1real - smoothed_share(part, whole) == ratio(
            10 * (whole as int) + 1 - 10 * (part as int),
            10 * (whole as int) + 1,
        ),
{
}

/// What the page store knows of one page file.
#[derive(Clone, Copy, Debug, PartialEq, Eq, Structural)]
pub struct FileInfo {
    pub file_id: u32,
    /// The bytes that the file occupies.
    pub file_size: usize,
    /// The bytes of the pages that are still active.
    pub effective_size: usize,
    /// The number of pages that are still active.
    pub num_active_pages: usize,
    /// The number of pages that were ever written to the file.
    pub total_pages: usize,
    /// The epoch of the latest update of the file.
    pub up2: u32,
}

impl FileInfo {
    pub fn get_file_id(&self) -> (r: u32)
        ensures
            r == self.file_id,
    {
        self.file_id
    }

    /// The bytes that the file occupies.
    pub fn file_size(&self) -> (r: usize)
        ensures
            r == self.file_size,
    {
        self.file_size
    }

    /// The bytes of the pages that are still active.
    pub fn effective_size(&self) -> (r: usize)
        ensures
            r == self.effective_size,
    {
        self.effective_size
    }

    /// The number of pages that are still active.
    pub fn num_active_pages(&self) -> (r: usize)
        ensures
            r == self.num_active_pages,
    {
        self.num_active_pages
    }

    /// The number of pages that were ever written to the file.
    pub fn total_pages(&self) -> (r: usize)
        ensures
            r == self.total_pages,
    {
        self.total_pages
    }

    /// The epoch of the latest update of the file.
    pub fn up2(&self) -> (r: u32)
        ensures
            r == self.up2,
    {
        self.up2
    }

    /// Whether no page of the file is active.
    pub fn is_empty(&self) -> (r: bool)
        ensures
            r == (self.num_active_pages == 0),
    {
        self.num_active_pages == 0
    }

    /// The share of the file that active pages occupy.
    pub fn effective_rate(&self) -> (r: Fraction)
        ensures
            r.wf(),
            r.value() == smoothed_share(self.effective_size as nat, self.file_size as nat),
    {
        FileSummary::from_page_file(self).effective_rate()
    }

    /// One minus the share of the pages that are active.
    pub fn empty_pages_rate(&self) -> (r: Fraction)
        ensures
            r.wf(),
            r.value() == 1real - smoothed_share(
                self.num_active_pages as nat,
                self.total_pages as nat,
            ),
            r.value() != 0real,
    {
        FileSummary::from_page_file(self).empty_pages_rate()
    }
}

/// The layout of a map file: its size and the page files that it holds.
#[derive(Debug)]
pub struct MapFileMeta {
    pub file_size: usize,
    pub page_files: Vec<u32>,
}

impl MapFileMeta {
    /// The bytes that the map file occupies.
    pub fn file_size(&self) -> (r: usize)
        ensures
            r == self.file_size,
    {
        self.file_size
    }

    /// The ids of the page files that the map file holds.
    pub fn page_files(&self) -> (r: &Vec<u32>)
        ensures
            r@ == self.page_files@,
    {
        &self.page_files
    }
}

/// What the page store knows of one map file.
#[derive(Debug)]
pub struct MapFileInfo {
    pub file_id: u32,
    /// The epoch of the latest update of the file.
    pub up2: u32,
    pub meta: MapFileMeta,
}

impl MapFileInfo {
    pub fn file_id(&self) -> (r: u32)
        ensures
            r == self.file_id,
    {
        self.file_id
    }

    /// The epoch of the latest update of the file.
    pub fn up2(&self) -> (r: u32)
        ensures
            r == self.up2,
    {
        self.up2
    }

    /// The layout of the file.
    pub fn meta(&self) -> (r: &MapFileMeta)
        ensures
            *r == self.meta,
    {
        &self.meta
    }
}

/// The sum of `field` over the page files `ids`, each looked up in `infos`.
pub open spec fn component_total(
    infos: Map<u32, FileInfo>,
    ids: Seq<u32>,
    field: spec_fn(FileInfo) -> nat,
) -> nat
    decreases ids.len(),
{
    if ids.len() == 0 {
        0
    } else {
        component_total(infos, ids.drop_last(), field) + field(infos[ids.last()])
    }
}

/// The sum over the first components is not above the sum over all.
pub proof fn lemma_component_total_grows(
    infos: Map<u32, FileInfo>,
    ids: Seq<u32>,
    field: spec_fn(FileInfo) -> nat,
    k: int,
)
    requires
        0 <= k <= ids.len(),
    ensures
        component_total(infos, ids.take(k), field) <= component_total(infos, ids, field),
    decreases ids.len(),
{
    if k == ids.len() {
        assert(ids.take(k) =~= ids);
    } else {
        lemma_component_total_grows(infos, ids.drop_last(), field, k);
        assert(ids.drop_last().take(k) =~= ids.take(k));
    }
}

/// The measures of one file by which a strategy judges it.
#[derive(Clone, Copy, Debug, PartialEq, Eq, Structural)]
pub struct FileSummary {
    /// The bytes that the file occupies.
    pub file_size: usize,
    /// The number of pages that are still active.
    pub num_active_pages: usize,
    /// The bytes of the pages that are still active.
    pub effective_size: usize,
    /// The number of pages that were ever written to the file.
    pub total_pages: usize,
    /// The epoch of the latest update of the file.
    pub up2: u32,
}

impl FileSummary {
    /// The summary of a page file, taken from its info as it stands.
    pub open spec fn of_page_file(info: FileInfo) -> FileSummary {
        FileSummary {
            file_size: info.file_size,
            num_active_pages: info.num_active_pages,
            effective_size: info.effective_size,
            total_pages: info.total_pages,
            up2: info.up2,
        }
    }

    /// Whether a map file can be summarized: each of its page files is known,
    /// and the sums over them fit a machine word.
    pub open spec fn map_file_fits(infos: Map<u32, FileInfo>, info: MapFileInfo) -> bool {
        let ids = info.meta.page_files@;
        &&& forall|i: int| 0 <= i < ids.len() ==> infos.contains_key(#[trigger] ids[i])
        &&& component_total(infos, ids, |f: FileInfo| f.num_active_pages as nat) <= usize::MAX
        &&& component_total(infos, ids, |f: FileInfo| f.effective_size as nat) <= usize::MAX
        &&& component_total(infos, ids, |f: FileInfo| f.total_pages as nat) <= usize::MAX
    }

    /// The summary of a map file: its own size and epoch, and the sums of the
    /// pages and sizes of the page files that it holds.
    pub open spec fn of_map_file(infos: Map<u32, FileInfo>, info: MapFileInfo) -> FileSummary {
        let ids = info.meta.page_files@;
        FileSummary {
            file_size: info.meta.file_size,
            num_active_pages: component_total(
                infos,
                ids,
                |f: FileInfo| f.num_active_pages as nat,
            ) as usize,
            effective_size: component_total(
                infos,
                ids,
                |f: FileInfo| f.effective_size as nat,
            ) as usize,
            total_pages: component_total(infos, ids, |f: FileInfo| f.total_pages as nat) as usize,
            up2: info.up2,
        }
    }

    /// Summarizes a page file.
    pub fn from_page_file(info: &FileInfo) -> (r: FileSummary)
        ensures
            r == FileSummary::of_page_file(*info),
    {
        FileSummary {
            file_size: info.file_size,
            num_active_pages: info.num_active_pages,
            effective_size: info.effective_size,
            total_pages: info.total_pages,
            up2: info.up2,
        }
    }

    /// Summarizes a map file from the infos of the page files that it holds.
    pub fn from_map_file(file_infos: &HashMap<u32, FileInfo>, info: &MapFileInfo) -> (r:
        FileSummary)
        requires
            FileSummary::map_file_fits(file_infos@, *info),
        ensures
            r == FileSummary::of_map_file(file_infos@, *info),
    {
        let ids = &info.meta.page_files;
        let ghost active = |f: FileInfo| f.num_active_pages as nat;
        let ghost size = |f: FileInfo| f.effective_size as nat;
        let ghost pages = |f: FileInfo| f.total_pages as nat;
        let mut num_active_pages: usize = 0;
        let mut effective_size: usize = 0;
        let mut total_pages: usize = 0;
        let mut i: usize = 0;
        while i < ids.len()
            invariant
                i <= ids@.len(),
                ids@ == info.meta.page_files@,
                FileSummary::map_file_fits(file_infos@, *info),
                active == |f: FileInfo| f.num_active_pages as nat,
                size == |f: FileInfo| f.effective_size as nat,
                pages == |f: FileInfo| f.total_pages as nat,
                num_active_pages == component_total(file_infos@, ids@.take(i as int), active),
                effective_size == component_total(file_infos@, ids@.take(i as int), size),
                total_pages == component_total(file_infos@, ids@.take(i as int), pages),
            decreases ids@.len() - i,
        {
            let id = ids[i];
            proof {
                assert(file_infos@.contains_key(ids@[i as int]));
                assert(ids@.take(i + 1).drop_last() =~= ids@.take(i as int));
                lemma_component_total_grows(file_infos@, ids@, active, i + 1);
                lemma_component_total_grows(file_infos@, ids@, size, i + 1);
                lemma_component_total_grows(file_infos@, ids@, pages, i + 1);
            }
            if let Some(partial) = file_infos.get(&id) {
                num_active_pages = num_active_pages + partial.num_active_pages;
                effective_size = effective_size + partial.effective_size;
                total_pages = total_pages + partial.total_pages;
            }
            i += 1;
        }
        proof {
            assert(ids@.take(ids@.len() as int) =~= ids@);
        }
        FileSummary {
            file_size: info.meta.file_size,
            num_active_pages,
            effective_size,
            total_pages,
            up2: info.up2,
        }
    }

    /// The share of the file that active pages occupy, as a real number.
    pub open spec fn effective_rate_value(self) -> real {
        smoothed_share(self.effective_size as nat, self.file_size as nat)
    }

    /// One minus the share of the pages that are active, as a real number.
    pub open spec fn empty_pages_rate_value(self) -> real {
        1real - smoothed_share(self.num_active_pages as nat, self.total_pages as nat)
    }

    /// The share of the file that active pages occupy.
    pub fn effective_rate(&self) -> (r: Fraction)
        ensures
            r.wf(),
            r.value() == self.effective_rate_value(),
    {
        proof {
            lemma_smoothed_share(self.effective_size as nat, self.file_size as nat);
        }
        Fraction::from_u128(
            false,
            10 * (self.effective_size as u128),
            10 * (self.file_size as u128) + 1,
        )
    }

    /// One minus the share of the pages that are active. It is never zero.
    pub fn empty_pages_rate(&self) -> (r: Fraction)
        ensures
            r.wf(),
            r.value() == self.empty_pages_rate_value(),
            r.value() != 0real,
    {
        let whole: u128 = 10 * (self.total_pages as u128) + 1;
        let part: u128 = 10 * (self.num_active_pages as u128);
        proof {
            lemma_smoothed_share(self.num_active_pages as nat, self.total_pages as nat);
            lemma_ratio_sign(whole - part, whole as int);
        }
        if part > whole {
            Fraction::from_u128(true, part - whole, whole)
        } else {
            Fraction::from_u128(false, whole - part, whole)
        }
    }
}

/// The lowest score there is: the most negative finite double,
/// -(2^1024 - 2^971). A file that has no free space, or that was updated in
/// the current epoch, gets it.
pub open spec fn floor_score() -> real {
    ratio(-(0xffff_ffff_ffff_f800 * limb_weight(15)), 1)
}

/// The score of a file at the epoch `now`: how fast its active bytes decline
/// for each unit of work that rewriting it costs, negated, so that the higher
/// score marks the better file to reclaim.
pub open spec fn decline_rate_value(s: FileSummary, now: u32) -> real {
    if s.num_active_pages == 0 {
        0real
    } else if s.file_size == s.effective_size || s.up2 == now {
        floor_score()
    } else {
        let packed = (s.effective_size as real) / ((s.file_size - s.effective_size) as real);
        -(packed * packed) / ((s.num_active_pages as real) * ((now - s.up2) as real))
    }
}

/// The score formula as one ratio of integers.
pub proof fn lemma_decline_ratio(e: int, d: int, a: int, t: int)
    by (nonlinear_arith)
    requires
        d != 0,
        a > 0,
        t > 0,
    ensures
        (d * d) * a * t > 0,
        -(((e as real) / (d as real)) * ((e as real) / (d as real))) / ((a as real) * (t as real))
            == ratio(-(e * e), (d * d) * a * t),
        -(((e as real) / (d as real)) * ((e as real) / (d as real))) / ((a as real) * ((-t) as real))
            == ratio(e * e, (d * d) * a * t),
{
}

/// The lowest score as a ratio.
pub fn floor_fraction() -> (r: Fraction)
    ensures
        r.wf(),
        r.value() == floor_score(),
{
    let mut limbs: Vec<u64> = Vec::new();
    let mut i: usize = 0;
    while i < 15
        invariant
            i <= 15,
            limbs@.len() == i,
            limbs_value(limbs@) == 0,
        decreases 15 - i,
    {
        proof {
            lemma_value_push(limbs@, 0);
        }
        limbs.push(0);
        i += 1;
    }
    proof {
        lemma_value_push(limbs@, 0xffff_ffff_ffff_f800);
    }
    limbs.push(0xffff_ffff_ffff_f800);
    Fraction::new(true, Wide::from_limbs(limbs), Wide::from_u64(1))
}

/// Scores a file at the epoch `now`.
pub fn decline_rate(summary: &FileSummary, now: u32) -> (r: Fraction)
    ensures
        r.wf(),
        r.value() == decline_rate_value(*summary, now),
{
    if summary.num_active_pages == 0 {
        return Fraction::from_u64(0);
    }
    if summary.file_size == summary.effective_size || summary.up2 == now {
        return floor_fraction();
    }
    let size: u64 = summary.effective_size as u64;
    let pages: u64 = summary.num_active_pages as u64;
    let free: u64 = if summary.file_size > summary.effective_size {
        (summary.file_size - summary.effective_size) as u64
    } else {
        (summary.effective_size - summary.file_size) as u64
    };
    let age: u32 = if now > summary.up2 {
        now - summary.up2
    } else {
        summary.up2 - now
    };
    let num = Wide::from_u64(size).times_word(size);
    let den = Wide::from_u64(free).times_word(free).times_word(pages).times_word(age as u64);
    proof {
        let d = summary.file_size - summary.effective_size;
        lemma_decline_ratio(size as int, d, pages as int, age as int);
        assert(free * free == d * d) by (nonlinear_arith)
            requires
                free == d || free == -d,
        ;
        if now <= summary.up2 {
            assert((now - summary.up2) as real == (-(age as int)) as real);
        }
    }
    Fraction::new(now > summary.up2, num, den)
}

/// The cost of cleaning a file whose share of empty pages is `empty_rate`:
/// `(1 / empty_rate) (1 - empty_rate)`.
pub open spec fn write_amplification_value(empty_rate: real) -> real {
    (1real / empty_rate) * (1real - empty_rate)
}

/// The cost of cleaning a file whose share of empty pages is `empty_rate`.
/// With no empty page the cost has no bound, and there is no result.
pub fn write_amplification(empty_rate: &Fraction) -> (r: Option<Fraction>)
    ensures
        r is None <==> empty_rate.value() == 0real,
        r matches Some(w) ==> w.wf() && w.value() == write_amplification_value(empty_rate.value()),
{
    if empty_rate.is_zero() {
        return None;
    }
    let one = Fraction::from_u64(1);
    let rest = one.minus(empty_rate);
    Some(empty_rate.inverse().times(&rest))
}

/// The sum of the shares of empty pages over the files that are not empty.
pub open spec fn empty_rate_total(infos: Seq<FileInfo>) -> real
    decreases infos.len(),
{
    if infos.len() == 0 {
        0real
    } else {
        let rest = empty_rate_total(infos.drop_last());
        if infos.last().num_active_pages == 0 {
            rest
        } else {
            rest + FileSummary::of_page_file(infos.last()).empty_pages_rate_value()
        }
    }
}

/// The cost of cleaning over a set of files: the cost at the sum of the shares
/// of empty pages of the files that are not empty. Where that sum is zero the
/// cost has no bound, and there is no result.
pub fn total_write_amplification(file_infos: &Vec<FileInfo>) -> (r: Option<Fraction>)
    ensures
        r is None <==> empty_rate_total(file_infos@) == 0real,
        r matches Some(w) ==> w.wf() && w.value() == write_amplification_value(
            empty_rate_total(file_infos@),
        ),
{
    let mut sum = Fraction::from_u64(0);
    let mut i: usize = 0;
    while i < file_infos.len()
        invariant
            i <= file_infos@.len(),
            sum.wf(),
            sum.value() == empty_rate_total(file_infos@.take(i as int)),
        decreases file_infos@.len() - i,
    {
        proof {
            assert(file_infos@.take(i + 1).drop_last() =~= file_infos@.take(i as int));
        }
        if !file_infos[i].is_empty() {
            let rate = file_infos[i].empty_pages_rate();
            sum = sum.plus(&rate);
        }
        i += 1;
    }
    proof {
        assert(file_infos@.take(file_infos@.len() as int) =~= file_infos@);
    }
    write_amplification(&sum)
}

/// What a strategy holds of one candidate, as real numbers.
pub struct ScoreView {
    pub score: real,
    pub effective_rate: real,
    pub write_amplify: real,
    pub active_size: usize,
    pub file_id: PickedFile,
}

/// The order of candidates: by score, then by effective rate, then by write
/// amplification, then by active size, and at last by file.
pub open spec fn ranks_below(a: ScoreView, b: ScoreView) -> bool {
    if a.score != b.score {
        a.score < b.score
    } else if a.effective_rate != b.effective_rate {
        a.effective_rate < b.effective_rate
    } else if a.write_amplify != b.write_amplify {
        a.write_amplify < b.write_amplify
    } else if a.active_size != b.active_size {
        a.active_size < b.active_size
    } else {
        a.file_id.precedes(b.file_id)
    }
}

/// What a strategy holds of the file `file_id` with the summary `s`.
pub open spec fn score_of(file_id: PickedFile, s: FileSummary, now: u32) -> ScoreView {
    ScoreView {
        score: decline_rate_value(s, now),
        effective_rate: s.effective_rate_value(),
        write_amplify: write_amplification_value(s.empty_pages_rate_value()),
        active_size: s.effective_size,
        file_id,
    }
}

/// The place of the best candidate: the first one that no other outranks.
pub open spec fn best_index(s: Seq<ScoreView>) -> int
    decreases s.len(),
{
    if s.len() <= 1 {
        0
    } else {
        let before = best_index(s.drop_last());
        if ranks_below(s[before], s.last()) {
            s.len() - 1
        } else {
            before
        }
    }
}

/// The record of one candidate file.
#[derive(Debug)]
pub struct FileScore {
    score: Fraction,
    effective_rate: Fraction,
    write_amplify: Fraction,
    active_size: usize,
    file_id: PickedFile,
}

impl View for FileScore {
    type V = ScoreView;

    closed spec fn view(&self) -> ScoreView {
        ScoreView {
            score: self.score.value(),
            effective_rate: self.effective_rate.value(),
            write_amplify: self.write_amplify.value(),
            active_size: self.active_size,
            file_id: self.file_id,
        }
    }
}

impl FileScore {
    /// Scores the file `file_id` at the epoch `now`.
    pub fn new(file_id: PickedFile, summary: &FileSummary, now: u32) -> (r: FileScore)
        ensures
            r@ == score_of(file_id, *summary, now),
    {
        let score = decline_rate(summary, now);
        let effective_rate = summary.effective_rate();
        let empty_rate = summary.empty_pages_rate();
        let write_amplify = match write_amplification(&empty_rate) {
            Some(w) => w,
            None => {
                proof {
                    assert(false);
                }
                vstd::pervasive::unreached()
            },
        };
        FileScore {
            score,
            effective_rate,
            write_amplify,
            active_size: summary.effective_size,
            file_id,
        }
    }

    /// The file that the record is about.
    pub fn file_id(&self) -> (r: PickedFile)
        ensures
            r == self@.file_id,
    {
        self.file_id
    }

    /// The bytes that reclaiming the file would rewrite.
    pub fn active_size(&self) -> (r: usize)
        ensures
            r == self@.active_size,
    {
        self.active_size
    }

    /// The score of the file.
    pub fn score(&self) -> (r: &Fraction)
        ensures
            r.value() == self@.score,
    {
        &self.score
    }

    /// The share of the file that active pages occupy.
    pub fn effective_rate(&self) -> (r: &Fraction)
        ensures
            r.value() == self@.effective_rate,
    {
        &self.effective_rate
    }

    /// The cost of cleaning the file.
    pub fn write_amplify(&self) -> (r: &Fraction)
        ensures
            r.value() == self@.write_amplify,
    {
        &self.write_amplify
    }

    /// How `self` stands to `other` in the order of candidates.
    pub fn rank(&self, other: &FileScore) -> (r: Rank)
        ensures
            r is Less <==> ranks_below(self@, other@),
            r is Equal <==> self@ == other@,
            r is Greater <==> ranks_below(other@, self@),
    {
        match self.score.rank(&other.score) {
            Rank::Equal => {},
            r => {
                return r;
            },
        }
        match self.effective_rate.rank(&other.effective_rate) {
            Rank::Equal => {},
            r => {
                return r;
            },
        }
        match self.write_amplify.rank(&other.write_amplify) {
            Rank::Equal => {},
            r => {
                return r;
            },
        }
        if self.active_size != other.active_size {
            return if self.active_size < other.active_size {
                Rank::Less
            } else {
                Rank::Greater
            };
        }
        self.file_id.rank(&other.file_id)
    }
}

/// A way to pick the files to reclaim. A round collects every candidate file
/// once and then asks for the pick.
pub trait ReclaimPickStrategy: Send + Sync {
    /// The number of candidates that the strategy holds.
    spec fn pending(&self) -> nat;

    /// Whether the strategy can still account for a file of `file_size` bytes.
    spec fn has_room(&self, file_size: usize) -> bool;

    /// Collects a page file and computes its reclamation score.
    fn collect_page_file(&mut self, file_info: &FileInfo)
        requires
            old(self).has_room(file_info.file_size),
        ensures
            final(self).pending() == old(self).pending() + 1,
    ;

    /// Collects a map file and computes its reclamation score.
    /// `virtual_infos` holds the infos of the page files that it is made of.
    fn collect_map_file(
        &mut self,
        virtual_infos: &HashMap<u32, FileInfo>,
        file_info: &MapFileInfo,
    )
        requires
            FileSummary::map_file_fits(virtual_infos@, *file_info),
            old(self).has_room(file_info.meta.file_size),
        ensures
            final(self).pending() == old(self).pending() + 1,
    ;

    /// Returns the file that suits reclaiming best under the strategy, with
    /// the bytes that reclaiming it rewrites, and drops it from the
    /// candidates. With fewer than two candidates there is no pick.
    fn apply(&mut self) -> (r: Option<(PickedFile, usize)>)
        ensures
            r is None <==> old(self).pending() < 2,
            r is None ==> final(self).pending() == old(self).pending(),
            r is Some ==> final(self).pending() == old(self).pending() - 1,
    ;
}

/// A maker of strategies, one for each round.
pub trait StrategyBuilder: Send + Sync {
    type Strategy: ReclaimPickStrategy;

    /// A fresh strategy for a round at the epoch `now`.
    fn build(&self, now: u32) -> (r: Self::Strategy)
        ensures
            r.pending() == 0,
    ;
}

/// The strategy that reclaims first the file whose active bytes decline most
/// slowly for the work that rewriting it costs.
#[derive(Debug)]
pub struct MinDeclineRateStrategy {
    now: u32,
    used: usize,
    scores: Vec<FileScore>,
}

impl MinDeclineRateStrategy {
    /// The epoch that the strategy scores files at.
    pub closed spec fn spec_now(&self) -> u32 {
        self.now
    }

    /// The bytes of all files collected so far.
    pub closed spec fn spec_used(&self) -> nat {
        self.used as nat
    }

    /// The candidates that the strategy holds, in the order of their arrival.
    pub closed spec fn candidates(&self) -> Seq<ScoreView> {
        self.scores@.map_values(|s: FileScore| s@)
    }

    /// A strategy for the epoch `now`, with no candidates yet.
    pub fn new(now: u32) -> (r: MinDeclineRateStrategy)
        ensures
            r.spec_now() == now,
            r.spec_used() == 0,
            r.candidates() == Seq::<ScoreView>::empty(),
    {
        let r = MinDeclineRateStrategy { now, used: 0, scores: Vec::new() };
        assert(r.candidates() =~= Seq::<ScoreView>::empty());
        r
    }

    /// The epoch that the strategy scores files at.
    pub fn now(&self) -> (r: u32)
        ensures
            r == self.spec_now(),
    {
        self.now
    }

    /// The bytes of all files collected so far.
    pub fn used(&self) -> (r: usize)
        ensures
            r == self.spec_used(),
    {
        self.used
    }

    /// The number of candidates that the strategy holds.
    pub fn len(&self) -> (r: usize)
        ensures
            r == self.candidates().len(),
    {
        self.scores.len()
    }

    /// Adds the file `file_id` with the summary `summary` to the candidates.
    pub fn collect(&mut self, file_id: PickedFile, summary: &FileSummary)
        requires
            old(self).spec_used() + summary.file_size <= usize::MAX,
        ensures
            final(self).spec_now() == old(self).spec_now(),
            final(self).spec_used() == old(self).spec_used() + summary.file_size,
            final(self).candidates() == old(self).candidates().push(
                score_of(file_id, *summary, old(self).spec_now()),
            ),
    {
        let record = FileScore::new(file_id, summary, self.now);
        self.used = self.used + summary.file_size;
        self.scores.push(record);
        assert(self.candidates() =~= old(self).candidates().push(
            score_of(file_id, *summary, old(self).spec_now()),
        ));
    }

}

impl ReclaimPickStrategy for MinDeclineRateStrategy {
    open spec fn pending(&self) -> nat {
        self.candidates().len()
    }

    open spec fn has_room(&self, file_size: usize) -> bool {
        self.spec_used() + file_size <= usize::MAX
    }

    /// Adds a page file to the candidates.
    fn collect_page_file(&mut self, file_info: &FileInfo)
        ensures
            final(self).spec_now() == old(self).spec_now(),
            final(self).spec_used() == old(self).spec_used() + file_info.file_size,
            final(self).candidates() == old(self).candidates().push(
                score_of(
                    PickedFile::PageFile(file_info.file_id),
                    FileSummary::of_page_file(*file_info),
                    old(self).spec_now(),
                ),
            ),
    {
        let file_id = file_info.get_file_id();
        let summary = FileSummary::from_page_file(file_info);
        self.collect(PickedFile::PageFile(file_id), &summary);
    }

    /// Adds a map file to the candidates. `virtual_infos` holds the infos of
    /// the page files that it is made of.
    fn collect_map_file(
        &mut self,
        virtual_infos: &HashMap<u32, FileInfo>,
        file_info: &MapFileInfo,
    )
        ensures
            final(self).spec_now() == old(self).spec_now(),
            final(self).spec_used() == old(self).spec_used() + file_info.meta.file_size,
            final(self).candidates() == old(self).candidates().push(
                score_of(
                    PickedFile::MapFile(file_info.file_id),
                    FileSummary::of_map_file(virtual_infos@, *file_info),
                    old(self).spec_now(),
                ),
            ),
    {
        let file_id = file_info.file_id;
        let summary = FileSummary::from_map_file(virtual_infos, file_info);
        self.collect(PickedFile::MapFile(file_id), &summary);
    }

    /// Picks the best candidate and the bytes that reclaiming it rewrites, and
    /// takes it out of the candidates. With fewer than two candidates nothing
    /// is picked: one file alone has nothing to be better than.
    fn apply(&mut self) -> (r: Option<(PickedFile, usize)>)
        ensures
            final(self).spec_now() == old(self).spec_now(),
            final(self).spec_used() == old(self).spec_used(),
            old(self).candidates().len() < 2 ==> r is None && final(self).candidates() == old(
                self,
            ).candidates(),
            old(self).candidates().len() >= 2 ==> {
                let all = old(self).candidates();
                let best = best_index(all);
                &&& 0 <= best < all.len()
                &&& r == Some((all[best].file_id, all[best].active_size))
                &&& final(self).candidates() == all.remove(best)
            },
    {
        let n = self.scores.len();
        if n < 2 {
            return None;
        }
        let ghost all = self.candidates();
        let mut best: usize = 0;
        let mut i: usize = 1;
        proof {
            assert(all.take(1).len() == 1);
        }
        while i < n
            invariant
                1 <= i <= n,
                n == self.scores@.len(),
                all == self.candidates(),
                all.len() == n,
                best < i,
                best == best_index(all.take(i as int)),
            decreases n - i,
        {
            proof {
                assert(all.take(i + 1).drop_last() =~= all.take(i as int));
                assert(all[best as int] == self.scores@[best as int]@);
                assert(all[i as int] == self.scores@[i as int]@);
            }
            match self.scores[best].rank(&self.scores[i]) {
                Rank::Less => {
                    best = i;
                },
                _ => {},
            }
            i += 1;
        }
        proof {
            assert(all.take(n as int) =~= all);
            assert(all[best as int] == self.scores@[best as int]@);
        }
        let picked = self.scores.remove(best);
        assert(self.candidates() =~= all.remove(best as int));
        Some((picked.file_id, picked.active_size))
    }
}

/// The maker of `MinDeclineRateStrategy`.
#[derive(Clone, Copy, Debug)]
pub struct MinDeclineRateStrategyBuilder;

impl StrategyBuilder for MinDeclineRateStrategyBuilder {
    type Strategy = MinDeclineRateStrategy;

    fn build(&self, now: u32) -> (r: MinDeclineRateStrategy)
        ensures
            r.spec_now() == now,
            r.spec_used() == 0,
            r.candidates() == Seq::<ScoreView>::empty(),
    {
        MinDeclineRateStrategy::new(now)
    }
}

/// The weight of a limb is positive and grows with its place.
pub proof fn lemma_limb_weight_grows(n: nat)
    ensures
        limb_weight(n) >= 1,
        limb_weight(n + 1) >= limb_weight(n),
    decreases n,
{
    if n > 0 {
        lemma_limb_weight_grows((n - 1) as nat);
    }
}

/// The degenerate scores. A file without active pages scores zero, the
/// highest score of all at an epoch not before its update. Any other file
/// that was updated in the current epoch, or that has no free space, scores
/// the floor.
pub proof fn lemma_score_degenerate(s: FileSummary, now: u32)
    ensures
        s.num_active_pages == 0 ==> decline_rate_value(s, now) == 0real,
        s.num_active_pages != 0 && s.up2 == now ==> decline_rate_value(s, now) == floor_score(),
        s.num_active_pages != 0 && s.effective_size == s.file_size ==> decline_rate_value(s, now)
            == floor_score(),
        now >= s.up2 ==> decline_rate_value(s, now) <= 0real,
        floor_score() < 0real,
{
    lemma_limb_weight_grows(15);
    let w = limb_weight(15);
    assert(0xffff_ffff_ffff_f800 * w > 0) by (nonlinear_arith)
        requires
            w >= 1,
    ;
    lemma_ratio_sign(-(0xffff_ffff_ffff_f800 * w), 1);
    if s.num_active_pages != 0 && s.file_size != s.effective_size && now > s.up2 {
        let e = s.effective_size as int;
        let d = s.file_size - s.effective_size;
        let a = s.num_active_pages as int;
        let t = now - s.up2;
        lemma_decline_ratio(e, d, a, t);
        lemma_ratio_sign(-(e * e), (d * d) * a * t);
        assert(e * e >= 0) by (nonlinear_arith);
    }
}

/// A file with active pages and free space, at an epoch after its update,
/// scores above the floor.
pub proof fn lemma_score_above_floor(s: FileSummary, now: u32)
    requires
        s.num_active_pages > 0,
        s.file_size != s.effective_size,
        now > s.up2,
    ensures
        floor_score() < decline_rate_value(s, now),
{
    let e = s.effective_size as int;
    let d = s.file_size - s.effective_size;
    let a = s.num_active_pages as int;
    let t = now - s.up2;
    let w = limb_weight(15);
    let den = (d * d) * a * t;
    lemma_decline_ratio(e, d, a, t);
    lemma_ratio_order(-(0xffff_ffff_ffff_f800 * w), 1, -(e * e), den);
    lemma_limb_weight_grows(0);
    lemma_limb_weight_grows(1);
    lemma_limb_weight_grows(2);
    lemma_limb_weight_grows(3);
    lemma_limb_weight_grows(4);
    lemma_limb_weight_grows(5);
    lemma_limb_weight_grows(6);
    lemma_limb_weight_grows(7);
    lemma_limb_weight_grows(8);
    lemma_limb_weight_grows(9);
    lemma_limb_weight_grows(10);
    lemma_limb_weight_grows(11);
    lemma_limb_weight_grows(12);
    lemma_limb_weight_grows(13);
    lemma_limb_weight_grows(14);
    assert(limb_weight(1) == 0x1_0000_0000_0000_0000 * limb_weight(0));
    assert(limb_weight(2) == 0x1_0000_0000_0000_0000 * limb_weight(1));
    assert(w >= 0x1_0000_0000_0000_0000_0000_0000_0000_0000);
    assert(e * e < 0x1_0000_0000_0000_0000_0000_0000_0000_0000) by (nonlinear_arith)
        requires
            0 <= e < 0x1_0000_0000_0000_0000,
    ;
    assert((0xffff_ffff_ffff_f800 * w) * den > (e * e) * 1) by (nonlinear_arith)
        requires
            w > e * e,
            e * e >= 0,
            den >= 1,
    ;
    assert((-(0xffff_ffff_ffff_f800 * w)) * den == -((0xffff_ffff_ffff_f800 * w) * den))
        by (nonlinear_arith);
    assert((-(e * e)) * 1 == -((e * e) * 1)) by (nonlinear_arith);
}

/// The score falls as the active bytes grow. For a file with active pages, at
/// an epoch after its update, more active bytes in the same file give a
/// strictly lower score, down to the floor when no free space is left.
pub proof fn lemma_score_falls_with_size(s: FileSummary, larger: usize, now: u32)
    requires
        s.num_active_pages > 0,
        now > s.up2,
        s.effective_size < larger <= s.file_size,
    ensures
        decline_rate_value(FileSummary { effective_size: larger, ..s }, now) < decline_rate_value(
            s,
            now,
        ),
{
    if larger == s.file_size {
        lemma_score_above_floor(s, now);
    } else {
        let e1 = s.effective_size as int;
        let e2 = larger as int;
        let d1 = s.file_size - s.effective_size;
        let d2 = s.file_size - larger;
        let a = s.num_active_pages as int;
        let t = now - s.up2;
        lemma_decline_ratio(e1, d1, a, t);
        lemma_decline_ratio(e2, d2, a, t);
        lemma_ratio_order(-(e2 * e2), (d2 * d2) * a * t, -(e1 * e1), (d1 * d1) * a * t);
        let x = e1 * d2;
        let y = e2 * d1;
        assert(0 <= x < y) by (nonlinear_arith)
            requires
                x == e1 * d2,
                y == e2 * d1,
                0 <= e1 < e2,
                0 < d2 < d1,
        ;
        assert(x * x < y * y) by (nonlinear_arith)
            requires
                0 <= x < y,
        ;
        let k = a * t;
        assert(k > 0) by (nonlinear_arith)
            requires
                k == a * t,
                a > 0,
                t > 0,
        ;
        assert((x * x) * k < (y * y) * k) by (nonlinear_arith)
            requires
                x * x < y * y,
                k > 0,
        ;
        assert((-(e2 * e2)) * ((d1 * d1) * a * t) == -((y * y) * k)) by (nonlinear_arith)
            requires
                y == e2 * d1,
                k == a * t,
        ;
        assert((-(e1 * e1)) * ((d2 * d2) * a * t) == -((x * x) * k)) by (nonlinear_arith)
            requires
                x == e1 * d2,
                k == a * t,
        ;
    }
}

/// The score rises with the age of the file. For a file with active pages,
/// active bytes and free space, a later epoch gives a strictly higher score.
pub proof fn lemma_score_rises_with_age(s: FileSummary, now: u32, later: u32)
    requires
        s.num_active_pages > 0,
        s.effective_size > 0,
        s.file_size > s.effective_size,
        s.up2 < now < later,
    ensures
        decline_rate_value(s, now) < decline_rate_value(s, later),
{
    let e = s.effective_size as int;
    let d = s.file_size - s.effective_size;
    let a = s.num_active_pages as int;
    let t1 = now - s.up2;
    let t2 = later - s.up2;
    lemma_decline_ratio(e, d, a, t1);
    lemma_decline_ratio(e, d, a, t2);
    lemma_ratio_order(-(e * e), (d * d) * a * t1, -(e * e), (d * d) * a * t2);
    let k = (e * e) * ((d * d) * a);
    assert(k > 0) by (nonlinear_arith)
        requires
            k == (e * e) * ((d * d) * a),
            e > 0,
            d > 0,
            a > 0,
    ;
    assert(k * t1 < k * t2) by (nonlinear_arith)
        requires
            k > 0,
            t1 < t2,
    ;
    assert((-(e * e)) * ((d * d) * a * t2) == -(k * t2)) by (nonlinear_arith)
        requires
            k == (e * e) * ((d * d) * a),
    ;
    assert((-(e * e)) * ((d * d) * a * t1) == -(k * t1)) by (nonlinear_arith)
        requires
            k == (e * e) * ((d * d) * a),
    ;
}

/// The order of candidates is transitive.
pub proof fn lemma_ranks_transitive(a: ScoreView, b: ScoreView, c: ScoreView)
    requires
        ranks_below(a, b),
        ranks_below(b, c),
    ensures
        ranks_below(a, c),
{
}

/// The order of candidates is total: of two different candidates one ranks
/// below the other, and none ranks below itself.
pub proof fn lemma_ranks_total(a: ScoreView, b: ScoreView)
    ensures
        ranks_below(a, b) || a == b || ranks_below(b, a),
        !(ranks_below(a, b) && ranks_below(b, a)),
        !ranks_below(a, a),
{
}

/// The candidate at `best_index` is one of the candidates, and no candidate
/// outranks it.
pub proof fn lemma_best_is_maximal(s: Seq<ScoreView>)
    requires
        s.len() > 0,
    ensures
        0 <= best_index(s) < s.len(),
        forall|j: int| 0 <= j < s.len() ==> !ranks_below(s[best_index(s)], #[trigger] s[j]),
    decreases s.len(),
{
    if s.len() > 1 {
        let before = s.drop_last();
        lemma_best_is_maximal(before);
        let b = best_index(before);
        if ranks_below(s[b], s.last()) {
            assert forall|j: int| 0 <= j < s.len() implies !ranks_below(
                s[best_index(s)],
                #[trigger] s[j],
            ) by {
                if j < s.len() - 1 {
                    assert(before[j] == s[j]);
                    if ranks_below(s.last(), s[j]) {
                        lemma_ranks_transitive(s[b], s.last(), s[j]);
                    }
                }
            }
        } else {
            assert forall|j: int| 0 <= j < s.len() implies !ranks_below(
                s[best_index(s)],
                #[trigger] s[j],
            ) by {
                if j < s.len() - 1 {
                    assert(before[j] == s[j]);
                }
            }
        }
    }
}

/// The pick does not depend on the order in which the candidates arrived: two
/// sequences that hold the same candidates have the same best candidate.
pub proof fn lemma_pick_ignores_order(first: Seq<ScoreView>, second: Seq<ScoreView>)
    requires
        first.len() > 0,
        first.to_multiset() == second.to_multiset(),
    ensures
        second.len() > 0,
        first[best_index(first)] == second[best_index(second)],
{
    first.to_multiset_ensures();
    second.to_multiset_ensures();
    lemma_best_is_maximal(first);
    lemma_best_is_maximal(second);
    let a = first[best_index(first)];
    let b = second[best_index(second)];
    assert(first.contains(a));
    assert(second.contains(b));
    assert(first.to_multiset().count(a) > 0);
    assert(second.to_multiset().count(b) > 0);
    assert(second.contains(a));
    assert(first.contains(b));
    let i = choose|i: int| 0 <= i < second.len() && second[i] == a;
    let j = choose|j: int| 0 <= j < first.len() && first[j] == b;
    assert(!ranks_below(b, second[i]));
    assert(!ranks_below(a, first[j]));
    lemma_ranks_total(a, b);
}

} // verus!
