//! Putting formatted regions back: the order in which regions are replaced, the
//! replacement itself, and the proof that replacing from the end of the document
//! towards its start touches nothing but the regions.
use crate::injections::{region_views, InjectedRegion, InjectionOpts, RegionView};
use crate::range::Range;
use vstd::prelude::*;
use vstd::slice::slice_subrange;

verus! {

/// `buffer` with the bytes of `[start, end)` replaced by `replacement`.
pub open spec fn spliced(buffer: Seq<u8>, start: int, end: int, replacement: Seq<u8>) -> Seq<u8> {
    buffer.take(start) + replacement + buffer.skip(end)
}

/// Replaces the bytes of `[start, end)` by `replacement`.
pub fn splice(buffer: &mut Vec<u8>, start: usize, end: usize, replacement: &[u8])
    requires
        start <= end <= old(buffer).len(),
    ensures
        final(buffer)@ == spliced(old(buffer)@, start as int, end as int, replacement@),
{
    let mut out: Vec<u8> = Vec::new();
    out.extend_from_slice(slice_subrange(buffer.as_slice(), 0, start));
    out.extend_from_slice(replacement);
    out.extend_from_slice(slice_subrange(buffer.as_slice(), end, buffer.len()));
    proof {
        assert(buffer@.subrange(0, start as int) == buffer@.take(start as int));
        assert(buffer@.subrange(end as int, buffer@.len() as int) == buffer@.skip(end as int));
        assert(out@ =~= spliced(buffer@, start as int, end as int, replacement@));
    }
    *buffer = out;
}

/// The spans of `regions`.
pub open spec fn region_ranges(regions: Seq<InjectedRegion>) -> Seq<Range> {
    Seq::new(regions.len(), |i: int| regions[i].range)
}

/// The regions can be replaced one after the other, from the first of the list to the
/// last: each lies in a document of `len` bytes, and each ends where the one before it
/// in the list begins, or before. Then no two of them share a byte.
pub open spec fn spliceable(ranges: Seq<Range>, len: int) -> bool {
    &&& forall|i: int| 0 <= i < ranges.len() ==> (#[trigger] ranges[i]).fits(len)
    &&& forall|i: int, j: int|
        0 <= i < j < ranges.len() ==> (#[trigger] ranges[j]).end_byte <= (
        #[trigger] ranges[i]).start_byte
}

/// Regions that can be replaced one after the other are disjoint, two by two.
pub proof fn spliceable_regions_are_disjoint(ranges: Seq<Range>, len: int, i: int, j: int)
    requires
        spliceable(ranges, len),
        0 <= i < ranges.len(),
        0 <= j < ranges.len(),
        i != j,
    ensures
        ranges[i].disjoint(ranges[j]),
{
    if i < j {
        assert(ranges[j].end_byte <= ranges[i].start_byte);
    } else {
        assert(ranges[i].end_byte <= ranges[j].start_byte);
    }
}

/// Tells whether `regions` can be replaced one after the other in a document of `len`
/// bytes.
pub fn regions_spliceable(regions: &[InjectedRegion], len: usize) -> (ok: bool)
    ensures
        ok == spliceable(region_ranges(regions@), len as int),
{
    let ghost ranges = region_ranges(regions@);
    let mut i: usize = 0;
    while i < regions.len()
        invariant
            i <= regions.len(),
            ranges == region_ranges(regions@),
            spliceable(ranges.take(i as int), len as int),
        decreases regions.len() - i,
    {
        let range = &regions[i].range;
        proof {
            assert(ranges[i as int] == regions@[i as int].range);
        }
        if !(range.start_byte <= range.end_byte && range.end_byte <= len) {
            proof {
                assert(!ranges[i as int].fits(len as int));
            }
            return false;
        }
        if i > 0 {
            proof {
                assert(ranges[i as int - 1] == regions@[i as int - 1].range);
            }
            if range.end_byte > regions[i - 1].range.start_byte {
                return false;
            }
        }
        proof {
            let seen = ranges.take(i as int);
            let more = ranges.take(i as int + 1);
            assert forall|k: int| 0 <= k < more.len() implies (#[trigger] more[k]).fits(
                len as int,
            ) by {
                if k < i {
                    assert(more[k] == seen[k]);
                }
            }
            assert forall|a: int, b: int| 0 <= a < b < more.len() implies (#[trigger] more[b]).end_byte
                <= (#[trigger] more[a]).start_byte by {
                if b < i {
                    assert(more[a] == seen[a] && more[b] == seen[b]);
                } else if a < i - 1 {
                    assert(seen[i as int - 1].end_byte <= seen[a].start_byte);
                    assert(seen[i as int - 1].fits(len as int));
                    assert(more[a] == seen[a]);
                }
            }
        }
        i += 1;
    }
    proof {
        assert(ranges.take(regions.len() as int) == ranges);
    }
    true
}

/// `buffer` after the first `upto` of `ranges` have been replaced, each by the result
/// at its place, one after the other.
pub open spec fn splice_all_upto(
    buffer: Seq<u8>,
    ranges: Seq<Range>,
    results: Seq<Seq<u8>>,
    upto: int,
) -> Seq<u8>
    decreases upto,
{
    if upto <= 0 {
        buffer
    } else {
        spliced(
            splice_all_upto(buffer, ranges, results, upto - 1),
            ranges[upto - 1].start_byte as int,
            ranges[upto - 1].end_byte as int,
            results[upto - 1],
        )
    }
}

/// `buffer` after all of `ranges` have been replaced, one after the other.
pub open spec fn splice_all_of(buffer: Seq<u8>, ranges: Seq<Range>, results: Seq<Seq<u8>>) -> Seq<u8> {
    splice_all_upto(buffer, ranges, results, ranges.len() as int)
}

/// Where the part of the document begins that the first `upto` replacements have
/// changed: at the start of the last of them, or at the end of the document.
pub open spec fn boundary(ranges: Seq<Range>, len: int, upto: int) -> int {
    if upto <= 0 {
        len
    } else {
        ranges[upto - 1].start_byte as int
    }
}

/// The document from `boundary` on, with each of the first `upto` regions replaced by
/// its result and the bytes between the regions as they were.
pub open spec fn assembled(
    buffer: Seq<u8>,
    ranges: Seq<Range>,
    results: Seq<Seq<u8>>,
    upto: int,
) -> Seq<u8>
    decreases upto,
{
    if upto <= 0 {
        Seq::empty()
    } else {
        results[upto - 1] + buffer.subrange(
            ranges[upto - 1].end_byte as int,
            boundary(ranges, buffer.len() as int, upto - 1),
        ) + assembled(buffer, ranges, results, upto - 1)
    }
}

/// Replacing from the end towards the start is replacing all at once. After the first
/// `upto` replacements the document is its untouched beginning, up to the start of the
/// last region replaced, followed by the results in the place of their regions with
/// the bytes between the regions unchanged.
pub proof fn splice_replaces_each_region(
    buffer: Seq<u8>,
    ranges: Seq<Range>,
    results: Seq<Seq<u8>>,
    upto: int,
)
    requires
        spliceable(ranges, buffer.len() as int),
        0 <= upto <= ranges.len(),
    ensures
        splice_all_upto(buffer, ranges, results, upto) == buffer.take(
            boundary(ranges, buffer.len() as int, upto),
        ) + assembled(buffer, ranges, results, upto),
        0 <= boundary(ranges, buffer.len() as int, upto) <= buffer.len(),
    decreases upto,
{
    if upto <= 0 {
        assert(buffer.take(buffer.len() as int) + Seq::<u8>::empty() == buffer);
    } else {
        splice_replaces_each_region(buffer, ranges, results, upto - 1);
        let before = splice_all_upto(buffer, ranges, results, upto - 1);
        let edge = boundary(ranges, buffer.len() as int, upto - 1);
        let tail = assembled(buffer, ranges, results, upto - 1);
        let range = ranges[upto - 1];
        assert(range.fits(buffer.len() as int));
        if upto > 1 {
            assert(ranges[upto - 1].end_byte <= ranges[upto - 2].start_byte);
        }
        assert(range.end_byte <= edge);
        assert(before == buffer.take(edge) + tail);
        assert(before.take(range.start_byte as int) =~= buffer.take(range.start_byte as int));
        assert(before.skip(range.end_byte as int) =~= buffer.subrange(range.end_byte as int, edge)
            + tail);
        assert(spliced(before, range.start_byte as int, range.end_byte as int, results[upto - 1])
            =~= buffer.take(range.start_byte as int) + (results[upto - 1] + buffer.subrange(
            range.end_byte as int,
            edge,
        ) + tail));
    }
}

/// Regions that come back unchanged leave the document unchanged: where each result is
/// the bytes of its region, the document after all replacements is the document before.
pub proof fn splice_of_unchanged_regions(buffer: Seq<u8>, ranges: Seq<Range>, results: Seq<Seq<u8>>)
    requires
        spliceable(ranges, buffer.len() as int),
        results.len() == ranges.len(),
        forall|i: int|
            0 <= i < ranges.len() ==> #[trigger] results[i] == buffer.subrange(
                ranges[i].start_byte as int,
                ranges[i].end_byte as int,
            ),
    ensures
        splice_all_of(buffer, ranges, results) == buffer,
{
    lemma_assembled_unchanged(buffer, ranges, results, ranges.len() as int);
    splice_replaces_each_region(buffer, ranges, results, ranges.len() as int);
    let edge = boundary(ranges, buffer.len() as int, ranges.len() as int);
    assert(buffer.take(edge) + buffer.skip(edge) =~= buffer);
}

proof fn lemma_assembled_unchanged(
    buffer: Seq<u8>,
    ranges: Seq<Range>,
    results: Seq<Seq<u8>>,
    upto: int,
)
    requires
        spliceable(ranges, buffer.len() as int),
        results.len() == ranges.len(),
        0 <= upto <= ranges.len(),
        forall|i: int|
            0 <= i < ranges.len() ==> #[trigger] results[i] == buffer.subrange(
                ranges[i].start_byte as int,
                ranges[i].end_byte as int,
            ),
    ensures
        assembled(buffer, ranges, results, upto) == buffer.skip(
            boundary(ranges, buffer.len() as int, upto),
        ),
    decreases upto,
{
    if upto <= 0 {
        assert(buffer.skip(buffer.len() as int) =~= Seq::<u8>::empty());
    } else {
        lemma_assembled_unchanged(buffer, ranges, results, upto - 1);
        let edge = boundary(ranges, buffer.len() as int, upto - 1);
        let range = ranges[upto - 1];
        assert(range.fits(buffer.len() as int));
        if upto > 1 {
            assert(ranges[upto - 1].end_byte <= ranges[upto - 2].start_byte);
            assert(ranges[upto - 2].fits(buffer.len() as int));
        }
        assert(results[upto - 1] == buffer.subrange(range.start_byte as int, range.end_byte as int));
        assert(buffer.subrange(range.start_byte as int, range.end_byte as int) + buffer.subrange(
            range.end_byte as int,
            edge,
        ) + buffer.skip(edge) =~= buffer.skip(range.start_byte as int));
    }
}

/// The bytes of each of `results`.
pub open spec fn byte_views(results: Seq<Vec<u8>>) -> Seq<Seq<u8>> {
    Seq::new(results.len(), |i: int| results[i]@)
}

/// Replaces each of `regions` by the result at its place, going through them in their
/// order. The regions must be replaceable one after the other: sorted from the end of
/// the document to its start, and disjoint.
pub fn splice_all(buffer: &mut Vec<u8>, regions: &[InjectedRegion], results: &[Vec<u8>])
    requires
        spliceable(region_ranges(regions@), old(buffer).len() as int),
        results.len() == regions.len(),
    ensures
        final(buffer)@ == splice_all_of(
            old(buffer)@,
            region_ranges(regions@),
            byte_views(results@),
        ),
{
    let ghost ranges = region_ranges(regions@);
    let ghost replacements = byte_views(results@);
    let ghost start = buffer@;
    let mut i: usize = 0;
    while i < regions.len()
        invariant
            i <= regions.len(),
            results.len() == regions.len(),
            ranges == region_ranges(regions@),
            replacements == byte_views(results@),
            start == old(buffer)@,
            spliceable(ranges, start.len() as int),
            buffer@ == splice_all_upto(start, ranges, replacements, i as int),
        decreases regions.len() - i,
    {
        let range = &regions[i].range;
        proof {
            splice_replaces_each_region(start, ranges, replacements, i as int);
            assert(ranges[i as int] == *range);
            assert(range.fits(start.len() as int));
            if i > 0 {
                assert(ranges[i as int].end_byte <= ranges[i as int - 1].start_byte);
            }
            assert(replacements[i as int] == results@[i as int]@);
        }
        splice(buffer, range.start_byte, range.end_byte, results[i].as_slice());
        i += 1;
    }
}

/// Where a region that starts at `start` belongs in the sorted `sorted`: behind every
/// region that starts at `start` or later, looking from `from` on.
pub open spec fn sort_slot(sorted: Seq<RegionView>, start: usize, from: int) -> int
    decreases sorted.len() - from,
{
    if from < 0 || from >= sorted.len() {
        sorted.len() as int
    } else if sorted[from].range.start_byte >= start {
        sort_slot(sorted, start, from + 1)
    } else {
        from
    }
}

/// The first `upto` of `regions` sorted by descending start, regions of one start in
/// the order of the list.
pub open spec fn sorted_regions_upto(regions: Seq<RegionView>, upto: int) -> Seq<RegionView>
    decreases upto,
{
    if upto <= 0 {
        Seq::empty()
    } else {
        let before = sorted_regions_upto(regions, upto - 1);
        let slot = sort_slot(before, regions[upto - 1].range.start_byte, 0);
        if 0 <= slot <= before.len() {
            before.insert(slot, regions[upto - 1])
        } else {
            before
        }
    }
}

/// `regions` sorted by descending start, regions of one start in the order of the list.
pub open spec fn sorted_regions_of(regions: Seq<RegionView>) -> Seq<RegionView> {
    sorted_regions_upto(regions, regions.len() as int)
}

/// Each region starts no earlier than every later one.
pub open spec fn descending(regions: Seq<RegionView>) -> bool {
    forall|i: int, j: int|
        0 <= i < j < regions.len() ==> (#[trigger] regions[i]).range.start_byte >= (
        #[trigger] regions[j]).range.start_byte
}

/// A copy of `region`.
pub fn clone_region(region: &InjectedRegion) -> (copy: InjectedRegion)
    ensures
        copy@ == region@,
        copy.range == region.range,
{
    InjectedRegion {
        range: region.range,
        lang: region.lang.clone(),
        opts: InjectionOpts {
            escape_chars: crate::escape::clone_strings(region.opts.escape_chars.as_slice()),
        },
    }
}

/// Sorts regions for replacement: by descending start, so that the regions nearest
/// the end of the document come first. Regions of one start keep their order.
pub fn sort_regions(regions: &[InjectedRegion]) -> (sorted: Vec<InjectedRegion>)
    ensures
        region_views(sorted@) == sorted_regions_of(region_views(regions@)),
        descending(region_views(sorted@)),
        sorted.len() == regions.len(),
{
    let ghost all = region_views(regions@);
    let mut sorted: Vec<InjectedRegion> = Vec::new();
    let mut i: usize = 0;
    proof {
        assert(region_views(sorted@) =~= Seq::<RegionView>::empty());
    }
    while i < regions.len()
        invariant
            i <= regions.len(),
            all == region_views(regions@),
            sorted.len() == i,
            region_views(sorted@) == sorted_regions_upto(all, i as int),
            descending(region_views(sorted@)),
        decreases regions.len() - i,
    {
        let region = &regions[i];
        let ghost before = region_views(sorted@);
        let mut j: usize = 0;
        while j < sorted.len() && sorted[j].range.start_byte >= region.range.start_byte
            invariant
                j <= sorted.len(),
                before == region_views(sorted@),
                sort_slot(before, region.range.start_byte, 0) == sort_slot(
                    before,
                    region.range.start_byte,
                    j as int,
                ),
                forall|k: int|
                    0 <= k < j ==> (#[trigger] before[k]).range.start_byte
                        >= region.range.start_byte,
            decreases sorted.len() - j,
        {
            proof {
                assert(before[j as int] == sorted@[j as int]@);
            }
            j += 1;
        }
        proof {
            if j < sorted.len() {
                assert(before[j as int] == sorted@[j as int]@);
            }
            assert(all[i as int] == region@);
        }
        let copy = clone_region(region);
        sorted.insert(j, copy);
        proof {
            let after = region_views(sorted@);
            assert(after =~= before.insert(j as int, region@));
            assert forall|a: int, b: int| 0 <= a < b < after.len() implies (#[trigger] after[a]).range.start_byte
                >= (#[trigger] after[b]).range.start_byte by {
                if b < j {
                    assert(after[a] == before[a] && after[b] == before[b]);
                } else if b == j {
                    assert(after[a] == before[a]);
                } else if a == j {
                    assert(after[b] == before[b - 1]);
                    assert(before[j as int].range.start_byte >= before[b - 1].range.start_byte
                        || b - 1 == j);
                } else if a < j {
                    assert(after[a] == before[a] && after[b] == before[b - 1]);
                } else {
                    assert(after[a] == before[a - 1] && after[b] == before[b - 1]);
                }
            }
        }
        i += 1;
    }
    sorted
}

} // verus!
