//! Frame Indexer: scan the frame-data segment for chunk tags and build an
//! offset-ordered frame table with delta-computed sizes.
//!
//! The scan may be partitioned across disjoint offset ranges and executed
//! concurrently; the partial results are merged back in ascending-offset
//! order before any sizing arithmetic runs. That ordering is a correctness
//! requirement, proved here by `lemma_scan_split` and
//! `lemma_concat_contiguous`, not a performance nicety.

use vstd::prelude::*;
use crate::bytes::copy_range;
use crate::frame::{max_frame_size, max_size_of, Frame, FrameType};
use crate::opt::EngineError;
use crate::splitter::{
    find_marker, idx1_marker, idx1_marker_bytes, marker_at, movi_marker, movi_marker_bytes,
    no_marker_in,
};
use rayon::iter::{IntoParallelRefIterator, ParallelIterator};

verus! {

/// A video chunk tag ("00dc") stands at position `i` of `data`.
pub open spec fn video_tag_at(data: Seq<u8>, i: int) -> bool {
    &&& 0 <= i
    &&& i + 4 <= data.len()
    &&& data[i] == 0x30u8
    &&& data[i + 1] == 0x30u8
    &&& data[i + 2] == 0x64u8
    &&& data[i + 3] == 0x63u8
}

/// An audio chunk tag ("01wb") stands at position `i` of `data`.
pub open spec fn audio_tag_at(data: Seq<u8>, i: int) -> bool {
    &&& 0 <= i
    &&& i + 4 <= data.len()
    &&& data[i] == 0x30u8
    &&& data[i + 1] == 0x31u8
    &&& data[i + 2] == 0x77u8
    &&& data[i + 3] == 0x62u8
}

/// The kind of frame that a tag at position `i` starts, if any. Audio tags
/// count only when audio inclusion is enabled.
pub open spec fn tag_kind_at(data: Seq<u8>, i: int, include_audio: bool) -> Option<FrameType> {
    if video_tag_at(data, i) {
        Some(FrameType::Video)
    } else if include_audio && audio_tag_at(data, i) {
        Some(FrameType::Audio)
    } else {
        None
    }
}

/// The unsized frame a tag match at position `i` becomes: the size is a
/// placeholder until the whole table is ordered.
pub open spec fn match_frame(i: int, kind: FrameType) -> Frame {
    Frame { offset: i as usize, size: 0, prev_size: 0, frame_type: kind }
}

/// All tag matches whose position lies in `[lo, hi)`, in ascending-offset
/// order, as unsized frames.
pub open spec fn scan_matches(data: Seq<u8>, lo: int, hi: int, include_audio: bool) -> Seq<Frame>
    decreases hi - lo,
{
    if lo >= hi {
        Seq::empty()
    } else {
        let rest = scan_matches(data, lo + 1, hi, include_audio);
        match tag_kind_at(data, lo, include_audio) {
            Some(kind) => seq![match_frame(lo, kind)] + rest,
            None => rest,
        }
    }
}

/// Scanning a range equals scanning its two halves and concatenating in
/// order: the merge of partitioned scan results is exactly the sequential
/// scan, whatever partition was used.
pub proof fn lemma_scan_split(data: Seq<u8>, lo: int, mid: int, hi: int, include_audio: bool)
    requires
        lo <= mid <= hi,
    ensures
        scan_matches(data, lo, hi, include_audio) == scan_matches(data, lo, mid, include_audio)
            + scan_matches(data, mid, hi, include_audio),
    decreases mid - lo,
{
    if lo >= mid {
        assert(scan_matches(data, lo, mid, include_audio) =~= Seq::empty());
        assert(scan_matches(data, lo, hi, include_audio) =~= scan_matches(data, lo, mid,
            include_audio) + scan_matches(data, mid, hi, include_audio));
    } else {
        lemma_scan_split(data, lo + 1, mid, hi, include_audio);
        assert(scan_matches(data, lo, hi, include_audio) =~= scan_matches(data, lo, mid,
            include_audio) + scan_matches(data, mid, hi, include_audio));
    }
}

/// Every match of a scan lies in the scanned range, carries the kind of the
/// tag at its offset and a placeholder size, and offsets ascend strictly.
pub proof fn lemma_scan_props(data: Seq<u8>, lo: int, hi: int, include_audio: bool)
    requires
        0 <= lo,
        hi <= usize::MAX,
    ensures
        forall|k: int|
            0 <= k < scan_matches(data, lo, hi, include_audio).len() ==> {
                let f = #[trigger] scan_matches(data, lo, hi, include_audio)[k];
                &&& lo <= f.offset < hi
                &&& f.offset + 4 <= data.len()
                &&& tag_kind_at(data, f.offset as int, include_audio) == Some(f.frame_type)
                &&& f.size == 0
                &&& f.prev_size == 0
            },
        forall|i: int, j: int|
            0 <= i < j < scan_matches(data, lo, hi, include_audio).len()
                ==> (#[trigger] scan_matches(data, lo, hi, include_audio)[i]).offset < (
            #[trigger] scan_matches(data, lo, hi, include_audio)[j]).offset,
    decreases hi - lo,
{
    if lo < hi {
        lemma_scan_props(data, lo + 1, hi, include_audio);
        let rest = scan_matches(data, lo + 1, hi, include_audio);
        match tag_kind_at(data, lo, include_audio) {
            Some(kind) => {
                let whole = scan_matches(data, lo, hi, include_audio);
                assert(whole == seq![match_frame(lo, kind)] + rest);
                assert(forall|k: int| 1 <= k < whole.len() ==> whole[k] == rest[k - 1]);
                assert(whole[0] == match_frame(lo, kind));
                assert forall|i: int, j: int| 0 <= i < j < whole.len() implies (
                #[trigger] whole[i]).offset < (#[trigger] whole[j]).offset by {
                    assert(whole[j] == rest[j - 1]);
                    if i > 0 {
                        assert(whole[i] == rest[i - 1]);
                    }
                }
            },
            None => {},
        }
    }
}

/// Scan one offset range of the segment sequentially.
pub fn scan_range(data: &[u8], lo: usize, hi: usize, include_audio: bool) -> (r: Vec<Frame>)
    requires
        lo <= hi <= data@.len(),
    ensures
        r@ == scan_matches(data@, lo as int, hi as int, include_audio),
{
    let len = data.len();
    let mut out: Vec<Frame> = Vec::new();
    let mut p: usize = lo;
    while p < hi
        invariant
            lo <= p <= hi <= len == data@.len(),
            out@ == scan_matches(data@, lo as int, p as int, include_audio),
        decreases hi - p,
    {
        proof {
            lemma_scan_split(data@, lo as int, p as int, p + 1, include_audio);
            assert(scan_matches(data@, p + 1, p + 1, include_audio) =~= Seq::<Frame>::empty());
        }
        if len - p >= 4 {
            if data[p] == 0x30 && data[p + 1] == 0x30 && data[p + 2] == 0x64 && data[p + 3]
                == 0x63 {
                out.push(Frame { offset: p, size: 0, prev_size: 0, frame_type: FrameType::Video });
                assert(out@ =~= scan_matches(data@, lo as int, p + 1, include_audio));
            } else if include_audio && data[p] == 0x30 && data[p + 1] == 0x31 && data[p + 2]
                == 0x77 && data[p + 3] == 0x62 {
                out.push(Frame { offset: p, size: 0, prev_size: 0, frame_type: FrameType::Audio });
                assert(out@ =~= scan_matches(data@, lo as int, p + 1, include_audio));
            } else {
                assert(tag_kind_at(data@, p as int, include_audio) is None);
                assert(out@ =~= scan_matches(data@, lo as int, p + 1, include_audio));
            }
        } else {
            assert(tag_kind_at(data@, p as int, include_audio) is None);
            assert(out@ =~= scan_matches(data@, lo as int, p + 1, include_audio));
        }
        p = p + 1;
    }
    out
}

/// The concatenation, in range order, of the scans of a list of ranges.
pub open spec fn concat_scans(data: Seq<u8>, ranges: Seq<(usize, usize)>, include_audio: bool)
    -> Seq<Frame>
    decreases ranges.len(),
{
    if ranges.len() == 0 {
        Seq::empty()
    } else {
        scan_matches(data, ranges[0].0 as int, ranges[0].1 as int, include_audio) + concat_scans(
            data,
            ranges.drop_first(),
            include_audio,
        )
    }
}

/// The ranges tile `[lo, hi)` without gap or overlap, in order.
pub open spec fn contiguous_cover(ranges: Seq<(usize, usize)>, lo: int, hi: int) -> bool {
    &&& forall|k: int| 0 <= k < ranges.len() ==> (#[trigger] ranges[k]).0 <= ranges[k].1
    &&& (if ranges.len() == 0 {
        lo == hi
    } else {
        &&& ranges[0].0 == lo
        &&& ranges[ranges.len() - 1].1 == hi
        &&& forall|k: int| 0 <= k && k + 1 < ranges.len() ==> (#[trigger] ranges[k]).1 == (
        #[trigger] ranges[k + 1]).0
    })
}

/// Merging the scans of ranges that tile `[lo, hi)`, in range order, gives
/// exactly the sequential scan of `[lo, hi)`: partitioned workers may finish
/// in any order, the ordered merge restores the single-scan result.
pub proof fn lemma_concat_contiguous(
    data: Seq<u8>,
    ranges: Seq<(usize, usize)>,
    lo: int,
    hi: int,
    include_audio: bool,
)
    requires
        contiguous_cover(ranges, lo, hi),
    ensures
        concat_scans(data, ranges, include_audio) == scan_matches(data, lo, hi, include_audio),
    decreases ranges.len(),
{
    if ranges.len() == 0 {
        assert(concat_scans(data, ranges, include_audio) =~= scan_matches(data, lo, hi,
            include_audio));
    } else {
        let mid = ranges[0].1 as int;
        assert(contiguous_cover(ranges.drop_first(), mid, hi)) by {
            assert(forall|k: int| 0 <= k < ranges.len() - 1 ==> #[trigger] ranges.drop_first()[k]
                == ranges[k + 1]);
        }
        lemma_cover_bounds(ranges.drop_first(), mid, hi);
        lemma_concat_contiguous(data, ranges.drop_first(), mid, hi, include_audio);
        lemma_scan_split(data, lo, mid, hi, include_audio);
    }
}

/// Every range of a contiguous cover of `[lo, hi)` lies inside `[lo, hi)`.
#[verifier::rlimit(50)]
pub proof fn lemma_cover_bounds(ranges: Seq<(usize, usize)>, lo: int, hi: int)
    requires
        contiguous_cover(ranges, lo, hi),
    ensures
        lo <= hi,
        forall|k: int| 0 <= k < ranges.len() ==> lo <= (#[trigger] ranges[k]).0 && ranges[k].1
            <= hi,
    decreases ranges.len(),
{
    if ranges.len() > 0 {
        let tail = ranges.drop_first();
        let mid = ranges[0].1 as int;
        assert(contiguous_cover(tail, mid, hi)) by {
            assert forall|k: int| 0 <= k < tail.len() implies (#[trigger] tail[k]).0
                <= tail[k].1 by {
                assert(tail[k] == ranges[k + 1]);
            }
            if tail.len() > 0 {
                assert(tail[0] == ranges[1]);
                assert(tail[tail.len() - 1] == ranges[ranges.len() - 1]);
                assert forall|k: int| 0 <= k && k + 1 < tail.len() implies (#[trigger] tail[k]).1
                    == tail[k + 1].0 by {
                    assert(tail[k] == ranges[k + 1]);
                    assert(tail[k + 1] == ranges[k + 2]);
                }
            }
        }
        lemma_cover_bounds(tail, mid, hi);
        assert forall|k: int| 0 <= k < ranges.len() implies lo <= (#[trigger] ranges[k]).0
            && ranges[k].1 <= hi by {
            if k > 0 {
                assert(tail[k - 1] == ranges[k]);
            }
        }
    }
}

/// Cut `[0, len)` into contiguous ranges of at most `chunk` bytes, in order.
fn make_ranges(len: usize, chunk: usize) -> (r: Vec<(usize, usize)>)
    requires
        chunk >= 1,
    ensures
        contiguous_cover(r@, 0, len as int),
{
    let mut out: Vec<(usize, usize)> = Vec::new();
    let mut start: usize = 0;
    while start < len
        invariant
            chunk >= 1,
            0 <= start <= len,
            contiguous_cover(out@, 0, start as int),
        decreases len - start,
    {
        let end = if len - start < chunk {
            len
        } else {
            start + chunk
        };
        out.push((start, end));
        start = end;
    }
    out
}

/// Scan the whole segment, partitioned across worker threads.
///
/// Relies on rayon: `par_iter` over the range list followed by
/// `flat_map_iter` and `collect` into a `Vec` yields the per-range results
/// concatenated in range order, however the workers were scheduled —
/// rayon's collect reduces the splits' partial vectors left-before-right
/// (its extend machinery appends the right half after the left). Each
/// per-range result is what the verified `scan_range` returns.
#[verifier::external_body]
fn par_scan_ranges(data: &[u8], ranges: &Vec<(usize, usize)>, include_audio: bool) -> (r: Vec<
    Frame,
>)
    requires
        forall|k: int| 0 <= k < ranges@.len()
            ==> (#[trigger] ranges@[k]).0 <= ranges@[k].1 <= data@.len(),
    ensures
        r@ == concat_scans(data@, ranges@, include_audio),
{
    ranges.par_iter().flat_map_iter(|r| scan_range(data, r.0, r.1, include_audio)).collect()
}

/// The table `raw` (ordered, unsized matches) with sizes filled in: each
/// frame's size is the distance to the next offset, the last frame's size is
/// the distance to the end of the segment, and each frame records the size
/// of its predecessor.
pub open spec fn sized_table(raw: Seq<Frame>, seg_len: int) -> Seq<Frame> {
    Seq::new(
        raw.len(),
        |i: int|
            Frame {
                offset: raw[i].offset,
                size: (if i + 1 < raw.len() {
                    raw[i + 1].offset - raw[i].offset
                } else {
                    seg_len - raw[i].offset
                }) as usize,
                prev_size: (if i == 0 {
                    0
                } else {
                    raw[i].offset - raw[i - 1].offset
                }) as usize,
                frame_type: raw[i].frame_type,
            },
    )
}

/// The frame table of a segment: every tag match, in ascending-offset order,
/// with delta-computed sizes.
pub open spec fn frame_table_spec(data: Seq<u8>, include_audio: bool) -> Seq<Frame> {
    sized_table(scan_matches(data, 0, data.len() as int, include_audio), data.len() as int)
}

/// Scan a frame-data segment and build its frame table. The scan runs
/// partitioned across worker threads; the merged match list is in strictly
/// ascending offset order, and sizing runs only on the merged list.
#[verifier::rlimit(50)]
pub fn build_frame_table(data: &[u8], include_audio: bool) -> (r: Vec<Frame>)
    ensures
        r@ == frame_table_spec(data@, include_audio),
{
    let len = data.len();
    let chunk: usize = 1048576;
    let ranges = make_ranges(len, chunk);
    proof {
        lemma_cover_bounds(ranges@, 0, len as int);
    }
    let raw = par_scan_ranges(data, &ranges, include_audio);
    proof {
        lemma_concat_contiguous(data@, ranges@, 0, len as int, include_audio);
        lemma_scan_props(data@, 0, len as int, include_audio);
    }
    let n = raw.len();
    let mut out: Vec<Frame> = Vec::new();
    let mut i: usize = 0;
    while i < n
        invariant
            n == raw@.len(),
            raw@ == scan_matches(data@, 0, len as int, include_audio),
            len == data@.len(),
            0 <= i <= n,
            forall|k: int|
                0 <= k < n ==> {
                    let f = #[trigger] raw@[k];
                    &&& 0 <= f.offset
                    &&& f.offset + 4 <= len
                },
            forall|k: int, l: int|
                0 <= k < l < n ==> (#[trigger] raw@[k]).offset < (#[trigger] raw@[l]).offset,
            out@.len() == i,
            forall|k: int| 0 <= k < i ==> out@[k] == sized_table(raw@, len as int)[k],
        decreases n - i,
    {
        let f = raw[i];
        let size = if i + 1 < n {
            raw[i + 1].offset - f.offset
        } else {
            len - f.offset
        };
        let prev_size = if i == 0 {
            0
        } else {
            f.offset - raw[i - 1].offset
        };
        out.push(Frame { offset: f.offset, size, prev_size, frame_type: f.frame_type });
        i = i + 1;
    }
    assert(out@ =~= sized_table(raw@, len as int));
    out
}

/// The frames tile the segment: each frame's byte range ends where the next
/// one begins, the last ends at the segment's end, and every range lies
/// inside the segment.
pub open spec fn tiles(frames: Seq<Frame>, seg_len: int) -> bool {
    let n = frames.len() as int;
    &&& forall|i: int| 0 <= i < n ==> (#[trigger] frames[i]).offset + frames[i].size <= seg_len
    &&& forall|i: int| 0 <= i && i + 1 < n ==> (#[trigger] frames[i]).offset + frames[i].size
        == (#[trigger] frames[i + 1]).offset
    &&& (n > 0 ==> frames[n - 1].offset + frames[n - 1].size == seg_len)
}

/// The invariant of a raw frame table over a segment of `seg_len` bytes:
/// consecutive frames tile the segment from the first offset to its end, and
/// each frame records its predecessor's size.
pub open spec fn table_wf(frames: Seq<Frame>, seg_len: int) -> bool {
    let n = frames.len() as int;
    &&& tiles(frames, seg_len)
    &&& forall|i: int| 1 <= i < n ==> (#[trigger] frames[i]).prev_size == (#[trigger] frames[
        i - 1
    ]).size
    &&& (n > 0 ==> frames[0].prev_size == 0)
}

/// The frame table the indexer builds satisfies the table invariant.
#[verifier::rlimit(100)]
pub proof fn lemma_table_wf(data: Seq<u8>, include_audio: bool)
    requires
        data.len() <= usize::MAX,
    ensures
        table_wf(frame_table_spec(data, include_audio), data.len() as int),
{
    lemma_scan_props(data, 0, data.len() as int, include_audio);
}

/// The frames, each moved `base` bytes to the right.
pub open spec fn shift_frames(frames: Seq<Frame>, base: int) -> Seq<Frame> {
    frames.map_values(
        |f: Frame|
            Frame {
                offset: (f.offset + base) as usize,
                size: f.size,
                prev_size: f.prev_size,
                frame_type: f.frame_type,
            },
    )
}

/// `mp` and `ip` are the first "movi" and the first "idx1" positions of the
/// container, and the "movi" list starts no later than the index chunk.
pub open spec fn markers_located(data: Seq<u8>, mp: int, ip: int) -> bool {
    &&& marker_at(data, movi_marker(), mp)
    &&& no_marker_in(data, movi_marker(), 0, mp)
    &&& marker_at(data, idx1_marker(), ip)
    &&& no_marker_in(data, idx1_marker(), 0, ip)
    &&& mp <= ip
}

/// The frames of `table`, each moved `base` bytes to the right.
fn shift_table(table: &[Frame], base: usize) -> (r: Vec<Frame>)
    requires
        forall|k: int| 0 <= k < table@.len() ==> (#[trigger] table@[k]).offset + base
            <= usize::MAX,
    ensures
        r@ == shift_frames(table@, base as int),
{
    let n = table.len();
    let mut out: Vec<Frame> = Vec::new();
    let mut i: usize = 0;
    while i < n
        invariant
            n == table@.len(),
            forall|k: int| 0 <= k < n ==> (#[trigger] table@[k]).offset + base <= usize::MAX,
            0 <= i <= n,
            out@.len() == i,
            forall|k: int| 0 <= k < i ==> out@[k] == shift_frames(table@, base as int)[k],
        decreases n - i,
    {
        let f = table[i];
        out.push(
            Frame {
                offset: f.offset + base,
                size: f.size,
                prev_size: f.prev_size,
                frame_type: f.frame_type,
            },
        );
        i = i + 1;
    }
    assert(out@ =~= shift_frames(table@, base as int));
    out
}

/// The frame table and largest frame size of the bytes `[mp, ip)` of a
/// container, with offsets shifted to absolute container positions.
#[verifier::rlimit(100)]
fn extract_between(data: &[u8], mp: usize, ip: usize) -> (r: (Vec<Frame>, usize))
    requires
        mp <= ip <= data@.len(),
    ensures
        r.0@ == shift_frames(frame_table_spec(data@.subrange(mp as int, ip as int), false),
            mp as int),
        r.1 == max_frame_size(r.0@),
{
    let seg = copy_range(data, mp, ip);
    let table = build_frame_table(seg.as_slice(), false);
    proof {
        lemma_table_wf(seg@, false);
        assert forall|k: int| 0 <= k < table@.len() implies (#[trigger] table@[k]).offset + mp
            <= usize::MAX by {
            assert(table@[k].offset + table@[k].size <= seg@.len());
        }
    }
    let out = shift_table(table.as_slice(), mp);
    let max = max_size_of(out.as_slice());
    (out, max)
}

/// Analyse a whole container: locate the "movi" and "idx1" markers, scan the
/// video-chunk tags between them, and return the frame table (offsets are
/// absolute container positions) together with the largest frame size.
///
/// Missing or misordered markers are a `MarkerNotFound` failure: unlike the
/// splitter, this analysis has no degraded reading to fall back to.
#[verifier::rlimit(100)]
pub fn extract_frame_data(data: &[u8]) -> (r: Result<(Vec<Frame>, usize), EngineError>)
    ensures
        match r {
            Result::Ok(table) => exists|mp: int, ip: int|
                {
                    &&& #[trigger] markers_located(data@, mp, ip)
                    &&& table.0@ == shift_frames(frame_table_spec(data@.subrange(mp, ip), false),
                        mp)
                    &&& table.1 == max_frame_size(table.0@)
                },
            Result::Err(e) => {
                &&& e == EngineError::MarkerNotFound
                &&& !exists|mp: int, ip: int| #[trigger] markers_located(data@, mp, ip)
            },
        },
{
    let movi = movi_marker_bytes();
    let idx1 = idx1_marker_bytes();
    let movi_pos = find_marker(data, movi.as_slice(), 0);
    let idx1_pos = find_marker(data, idx1.as_slice(), 0);
    match (movi_pos, idx1_pos) {
        (Some(mp), Some(ip)) => {
            if mp <= ip {
                let out = extract_between(data, mp, ip);
                proof {
                    assert(markers_located(data@, mp as int, ip as int));
                }
                Ok(out)
            } else {
                proof {
                    lemma_markers_unique(data@, mp as int, ip as int);
                }
                Err(EngineError::MarkerNotFound)
            }
        },
        _ => {
            proof {
                assert forall|mp: int, ip: int| !#[trigger] markers_located(data@, mp, ip) by {
                    if markers_located(data@, mp, ip) {
                        if movi_pos is None {
                            assert(!marker_at(data@, movi_marker(), mp));
                        } else {
                            assert(!marker_at(data@, idx1_marker(), ip));
                        }
                    }
                }
            }
            Err(EngineError::MarkerNotFound)
        },
    }
}

/// First-occurrence positions are unique: a located marker pair agrees with
/// whatever first occurrences were found.
proof fn lemma_markers_unique(data: Seq<u8>, mp: int, ip: int)
    requires
        marker_at(data, movi_marker(), mp),
        no_marker_in(data, movi_marker(), 0, mp),
        marker_at(data, idx1_marker(), ip),
        no_marker_in(data, idx1_marker(), 0, ip),
        ip < mp,
    ensures
        !exists|mp2: int, ip2: int| #[trigger] markers_located(data, mp2, ip2),
{
    assert forall|mp2: int, ip2: int| !#[trigger] markers_located(data, mp2, ip2) by {
        if markers_located(data, mp2, ip2) {
            assert(mp2 == mp) by {
                if mp2 < mp {
                    assert(!marker_at(data, movi_marker(), mp2));
                } else if mp < mp2 {
                    assert(!marker_at(data, movi_marker(), mp));
                }
            }
            assert(ip2 == ip) by {
                if ip2 < ip {
                    assert(!marker_at(data, idx1_marker(), ip2));
                } else if ip < ip2 {
                    assert(!marker_at(data, idx1_marker(), ip));
                }
            }
        }
    }
}

} // verus!
