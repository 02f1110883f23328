//! Routing a blob to where its tier stores it.

use crate::buf::{bytes_as_slice, bytes_contents, bytes_len};
use crate::buffer::{ActiveSegment, ActiveView};
use crate::error::Error;
use crate::types::{SegmentId, SizeTier};
use bytes::Bytes;
use vstd::prelude::*;
use vstd::slice::slice_subrange;

verus! {

/// Where a part of a blob is stored.
#[derive(Clone, Copy, Debug, PartialEq, Eq, Structural)]
pub struct ChunkRef {
    /// The segment.
    pub segment_id: SegmentId,
    /// Offset of the part.
    pub offset: u64,
    /// Length of the part.
    pub length: u32,
}

/// What became of a blob.
#[derive(Debug)]
pub enum Routed {
    /// The blob is empty: nothing is stored.
    Nothing,
    /// The blob is stored with the object's metadata.
    Inline(Bytes),
    /// The blob is stored in these chunks.
    Chunks(Vec<ChunkRef>),
}

/// The mathematical view of [`Routed`].
#[verifier::ext_equal]
pub enum RoutedView {
    Nothing,
    Inline(Seq<u8>),
    Chunks(Seq<ChunkRef>),
}

impl View for Routed {
    type V = RoutedView;

    open spec fn view(&self) -> RoutedView {
        match *self {
            Routed::Nothing => RoutedView::Nothing,
            Routed::Inline(data) => RoutedView::Inline(bytes_contents(data)),
            Routed::Chunks(refs) => RoutedView::Chunks(refs@),
        }
    }
}

/// The view of the result of routing.
pub open spec fn routed_view(r: Result<Routed, Error>) -> Result<RoutedView, Error> {
    match r {
        Ok(routed) => Ok(routed@),
        Err(e) => Err(e),
    }
}

/// Appends the parts of `data` from `at` on, of `size` bytes each, to the
/// segment. Stops when the segment is full.
pub open spec fn append_parts(a: ActiveView, data: Seq<u8>, size: int, at: int, now: u64) -> (
    ActiveView,
    Result<Seq<ChunkRef>, Error>,
)
    decreases data.len() - at,
{
    if size <= 0 || at < 0 || at >= data.len() {
        (a, Ok(Seq::empty()))
    } else if a.full() {
        (a, Err(Error::SegmentFull { segment_id: a.id, current_size: a.data.len() as u64 }))
    } else {
        let end = if at + size <= data.len() {
            at + size
        } else {
            data.len() as int
        };
        let part = data.subrange(at, end);
        let (after, rest) = append_parts(a.appended(part, now), data, size, end, now);
        (
            after,
            match rest {
                Ok(refs) => Ok(
                    seq![ChunkRef { segment_id: a.id, offset: at as u64, length: (end - at) as u32 }]
                        + refs,
                ),
                Err(e) => Err(e),
            },
        )
    }
}

/// What becomes of a blob of the given tier. An inline blob goes to the
/// metadata, a small or standard one to the segment in one chunk, and a larger
/// one in parts of `split_size` bytes.
pub open spec fn route(a: ActiveView, tier: SizeTier, split_size: int, data: Seq<u8>, now: u64) -> (
    ActiveView,
    Result<RoutedView, Error>,
) {
    if data.len() == 0 {
        (a, Ok(RoutedView::Nothing))
    } else {
        match tier {
            SizeTier::Inline => (a, Ok(RoutedView::Inline(data))),
            SizeTier::Small | SizeTier::Standard => if a.full() {
                (
                    a,
                    Err(
                        Error::SegmentFull {
                            segment_id: a.id,
                            current_size: a.data.len() as u64,
                        },
                    ),
                )
            } else {
                (
                    a.appended(data, now),
                    Ok(
                        RoutedView::Chunks(
                            seq![
                                ChunkRef {
                                    segment_id: a.id,
                                    offset: a.data.len() as u64,
                                    length: data.len() as u32,
                                },
                            ],
                        ),
                    ),
                )
            },
            SizeTier::Multi => {
                let (after, r) = append_parts(a, data, split_size, 0, now);
                (
                    after,
                    match r {
                        Ok(refs) => Ok(RoutedView::Chunks(refs)),
                        Err(e) => Err(e),
                    },
                )
            },
        }
    }
}

/// Routes a blob to where its tier stores it.
pub fn route_write(
    active: &mut ActiveSegment,
    tier: SizeTier,
    split_size: u64,
    data: Bytes,
    now: u64,
) -> (r: Result<Routed, Error>)
    requires
        old(active).wf(),
        split_size > 0,
        2 * (old(active)@.data.len() + bytes_contents(data).len()) <= isize::MAX,
    ensures
        final(active).wf(),
        (final(active)@, routed_view(r)) == route(
            old(active)@,
            tier,
            split_size as int,
            bytes_contents(data),
            now,
        ),
        bytes_contents(data).len() == 0 ==> final(active)@ == old(active)@,
        bytes_contents(data).len() > 0 && (tier is Small || tier is Standard) && r is Ok ==> {
            &&& r->Ok_0 is Chunks
            &&& r->Ok_0->Chunks_0@.len() == 1
            &&& r->Ok_0->Chunks_0@[0].segment_id == old(active)@.id
            &&& r->Ok_0->Chunks_0@[0].offset == old(active)@.data.len()
            &&& bytes_contents(data).len() <= u32::MAX ==> final(active)@.data.subrange(
                r->Ok_0->Chunks_0@[0].offset as int,
                r->Ok_0->Chunks_0@[0].offset + r->Ok_0->Chunks_0@[0].length,
            ) == bytes_contents(data)
        },
        tier is Inline && bytes_contents(data).len() > 0 ==> final(active)@ == old(active)@,
{
    let len: usize = bytes_len(&data);
    if len == 0 {
        return Ok(Routed::Nothing);
    }
    match tier {
        SizeTier::Inline => Ok(Routed::Inline(data)),
        SizeTier::Small | SizeTier::Standard => {
            let segment_id = active.id();
            match active.append(bytes_as_slice(&data), now) {
                Ok((offset, length)) => {
                    let mut refs: Vec<ChunkRef> = Vec::new();
                    refs.push(ChunkRef { segment_id, offset, length: length as u32 });
                    assert(refs@ =~= seq![refs@[0]]);
                    Ok(Routed::Chunks(refs))
                },
                Err(e) => Err(e),
            }
        },
        SizeTier::Multi => {
            let bytes = bytes_as_slice(&data);
            let ghost all = bytes_contents(data);
            let ghost end = append_parts(active@, all, split_size as int, 0, now);
            let ghost start_len = active@.data.len();
            let mut refs: Vec<ChunkRef> = Vec::new();
            let mut at: usize = 0;
            assert(end.1 matches Ok(rest) ==> rest =~= refs@ + rest);
            while at < len
                invariant
                    at <= len == all.len(),
                    split_size > 0,
                    bytes@ == all,
                    active.wf(),
                    active@.data.len() == start_len + at,
                    2 * (start_len + len) <= isize::MAX,
                    end == ({
                        let (after, rest) = append_parts(
                            active@,
                            all,
                            split_size as int,
                            at as int,
                            now,
                        );
                        (
                            after,
                            match rest {
                                Ok(rest) => Ok(refs@ + rest),
                                Err(e) => Err(e),
                            },
                        )
                    }),
                    end == append_parts(old(active)@, all, split_size as int, 0, now),
                    all == bytes_contents(data),
                    len > 0,
                    tier == SizeTier::Multi,
                decreases len - at,
            {
                let ghost before = active@;
                let ghost were = refs@;
                let room: usize = len - at;
                let to: usize = if split_size <= room as u64 {
                    at + split_size as usize
                } else {
                    len
                };
                let segment_id = active.id();
                match active.append(slice_subrange(bytes, at, to), now) {
                    Ok(_) => {},
                    Err(e) => {
                        return Err(e);
                    },
                }
                let chunk = ChunkRef { segment_id, offset: at as u64, length: (to - at) as u32 };
                refs.push(chunk);
                proof {
                    let (_, rest) = append_parts(
                        active@,
                        all,
                        split_size as int,
                        to as int,
                        now,
                    );
                    if let Ok(rest) = rest {
                        assert(were + (seq![chunk] + rest) =~= refs@ + rest);
                    }
                }
                at = to;
            }
            assert(refs@ + Seq::<ChunkRef>::empty() =~= refs@);
            Ok(Routed::Chunks(refs))
        },
    }
}

/// The chunks of a blob follow each other and together have its length, and the
/// segment gets the blob's bytes behind its own. A chunk's offset is counted in
/// the blob: in a segment that was empty it is also where the chunk stands, and
/// the blob can be put together from there.
pub proof fn law_chunks_cover_blob(a: ActiveView, data: Seq<u8>, size: int, at: int, now: u64)
    requires
        0 < size <= u32::MAX,
        0 <= at <= data.len() <= u64::MAX,
        append_parts(a, data, size, at, now).1 is Ok,
    ensures
        ({
            let refs = append_parts(a, data, size, at, now).1->Ok_0;
            &&& forall|i: int|
                0 <= i < refs.len() ==> (#[trigger] refs[i]).offset == at + i * size
            &&& forall|i: int| 0 <= i < refs.len() - 1 ==> (#[trigger] refs[i]).length == size
            &&& at < data.len() ==> refs.len() > 0 && refs.last().offset + refs.last().length
                == data.len()
            &&& append_parts(a, data, size, at, now).0.data == a.data + data.skip(at)
        }),
    decreases data.len() - at,
{
    let (after, r) = append_parts(a, data, size, at, now);
    let refs = r->Ok_0;
    if at < data.len() {
        let end = if at + size <= data.len() {
            at + size
        } else {
            data.len() as int
        };
        let part = data.subrange(at, end);
        law_chunks_cover_blob(a.appended(part, now), data, size, end, now);
        let rest = append_parts(a.appended(part, now), data, size, end, now).1->Ok_0;
        assert(refs.len() == rest.len() + 1);
        assert forall|i: int| 0 <= i < refs.len() implies (#[trigger] refs[i]).offset == at + i
            * size by {
            if i > 0 {
                assert(refs[i] == rest[i - 1]);
                assert(end + (i - 1) * size == at + i * size) by (nonlinear_arith)
                    requires
                        end == at + size,
                ;
            }
        }
        assert forall|i: int| 0 <= i < refs.len() - 1 implies (#[trigger] refs[i]).length == size by {
            if i > 0 {
                assert(refs[i] == rest[i - 1]);
            }
        }
        if end < data.len() {
            assert(refs.last() == rest.last());
        }
        assert(part + data.skip(end) =~= data.skip(at));
        assert(after.data =~= a.data + data.skip(at));
    } else {
        assert(data.skip(at) =~= Seq::empty());
        assert(after.data =~= a.data + data.skip(at));
    }
}

/// A chunk holds these bytes of a segment: it is in the segment, and reading it
/// there gives them.
pub open spec fn chunk_reads(a: ActiveView, c: ChunkRef, bytes: Seq<u8>) -> bool {
    &&& c.segment_id == a.id
    &&& c.offset + c.length <= a.data.len()
    &&& a.data.subrange(c.offset as int, c.offset + c.length) == bytes
}

/// A blob of the small or the standard tier goes to the segment in one chunk,
/// and reading the chunk gives the blob. The chunk stands behind what the
/// segment held, which stays where it is. The blob is refused, and nothing
/// changes, just when the segment has reached its target size.
pub proof fn law_routed_blob_is_read_back(
    a: ActiveView,
    tier: SizeTier,
    split_size: int,
    data: Seq<u8>,
    now: u64,
)
    requires
        tier is Small || tier is Standard,
        0 < data.len() <= u32::MAX,
        a.data.len() + data.len() <= u64::MAX,
    ensures
        ({
            let (after, r) = route(a, tier, split_size, data, now);
            &&& r is Ok <==> a.data.len() < a.target_size
            &&& r matches Ok(routed) ==> {
                &&& routed is Chunks
                &&& routed->Chunks_0.len() == 1
                &&& routed->Chunks_0[0].offset == a.data.len()
                &&& routed->Chunks_0[0].length == data.len()
                &&& chunk_reads(after, routed->Chunks_0[0], data)
                &&& after.data.len() == a.data.len() + data.len()
                &&& after.data.take(a.data.len() as int) == a.data
                &&& after.id == a.id && after.tier == a.tier && after.target_size == a.target_size
                &&& after.last_append_ms == now
            }
            &&& r is Err ==> after == a && r->Err_0 == (Error::SegmentFull {
                segment_id: a.id,
                current_size: a.data.len() as u64,
            })
        }),
{
    let after = route(a, tier, split_size, data, now).0;
    if a.data.len() < a.target_size {
        assert(after.data.subrange(a.data.len() as int, after.data.len() as int) =~= data);
        assert(after.data.take(a.data.len() as int) =~= a.data);
    }
}

/// A chunk that was given out stays readable: whatever is routed to the segment
/// afterwards, its bytes are those that it held.
pub proof fn law_later_blobs_keep_chunks(
    a: ActiveView,
    tier: SizeTier,
    split_size: int,
    data: Seq<u8>,
    now: u64,
    c: ChunkRef,
    bytes: Seq<u8>,
)
    requires
        chunk_reads(a, c, bytes),
    ensures
        chunk_reads(route(a, tier, split_size, data, now).0, c, bytes),
{
    let after = route(a, tier, split_size, data, now).0;
    if data.len() > 0 && tier is Multi {
        lemma_parts_extend(a, data, split_size, 0, now);
    }
    assert(after.data.subrange(c.offset as int, c.offset + c.length) =~= a.data.subrange(
        c.offset as int,
        c.offset + c.length,
    ));
}

/// Blobs of the inline tier, and empty ones, leave the segment as it is: the
/// first are given back whole, for the metadata, and of the others nothing is
/// stored.
pub proof fn law_inline_and_empty_blobs_stay_out(
    a: ActiveView,
    tier: SizeTier,
    split_size: int,
    data: Seq<u8>,
    now: u64,
)
    ensures
        data.len() == 0 || tier is Inline ==> route(a, tier, split_size, data, now).0 == a,
        data.len() == 0 ==> route(a, tier, split_size, data, now).1 == Ok::<RoutedView, Error>(
            RoutedView::Nothing,
        ),
        data.len() > 0 && tier is Inline ==> (route(a, tier, split_size, data, now).1 matches Ok(
            RoutedView::Inline(kept),
        ) && kept == data),
        data.len() > 0 && tier !is Inline && split_size > 0 ==> (route(
            a,
            tier,
            split_size,
            data,
            now,
        ).1 matches Ok(routed) ==> routed is Chunks && routed->Chunks_0.len() > 0),
{
}

/// What appending parts does to the segment: they stand behind its own data, as
/// far as they were taken.
proof fn lemma_parts_extend(a: ActiveView, data: Seq<u8>, size: int, at: int, now: u64)
    ensures
        ({
            let after = append_parts(a, data, size, at, now).0;
            &&& after.id == a.id && after.tier == a.tier && after.target_size == a.target_size
            &&& after.data.len() >= a.data.len()
            &&& after.data.take(a.data.len() as int) == a.data
        }),
    decreases data.len() - at,
{
    let after = append_parts(a, data, size, at, now).0;
    if size <= 0 || at < 0 || at >= data.len() || a.full() {
        assert(after.data.take(a.data.len() as int) =~= a.data);
    } else {
        let end = if at + size <= data.len() {
            at + size
        } else {
            data.len() as int
        };
        let next = a.appended(data.subrange(at, end), now);
        lemma_parts_extend(next, data, size, end, now);
        assert(after.data.take(a.data.len() as int) =~= after.data.take(
            next.data.len() as int,
        ).take(a.data.len() as int));
        assert(next.data.take(a.data.len() as int) =~= a.data);
    }
}

/// A blob that spans several chunks is cut at multiples of the split size. Each
/// chunk holds at most that many bytes, they follow each other without a gap,
/// and the bytes of each are those of the blob at the chunk's offset. They stand
/// in the segment in the same order, behind what it held.
pub proof fn law_split_blob_is_stored_in_order(
    a: ActiveView,
    split_size: int,
    data: Seq<u8>,
    now: u64,
    i: int,
)
    requires
        0 < split_size <= u32::MAX,
        0 < data.len(),
        a.data.len() + data.len() <= u64::MAX,
        route(a, SizeTier::Multi, split_size, data, now).1 is Ok,
        0 <= i < route(a, SizeTier::Multi, split_size, data, now).1->Ok_0->Chunks_0.len(),
    ensures
        ({
            let (after, r) = route(a, SizeTier::Multi, split_size, data, now);
            let refs = r->Ok_0->Chunks_0;
            let c = refs[i];
            &&& c.segment_id == a.id
            &&& c.offset == i * split_size
            &&& 0 < c.length <= split_size
            &&& c.offset + c.length == (if i + 1 < refs.len() {
                refs[i + 1].offset as int
            } else {
                data.len() as int
            })
            &&& after.data.subrange(
                a.data.len() + c.offset,
                a.data.len() + c.offset + c.length,
            ) == data.subrange(c.offset as int, c.offset + c.length)
            &&& after.data.len() == a.data.len() + data.len()
            &&& after.id == a.id && after.tier == a.tier && after.target_size == a.target_size
        }),
{
    let (after, r) = route(a, SizeTier::Multi, split_size, data, now);
    let refs = r->Ok_0->Chunks_0;
    law_chunks_cover_blob(a, data, split_size, 0, now);
    lemma_parts_extend(a, data, split_size, 0, now);
    lemma_part_refs(a, data, split_size, 0, now, i);
    assert(data.skip(0) =~= data);
    let c = refs[i];
    assert(i * split_size + split_size == (i + 1) * split_size) by (nonlinear_arith);
    assert(i * split_size >= 0) by (nonlinear_arith)
        requires
            i >= 0,
            split_size > 0,
    ;
    if i + 1 < refs.len() {
        assert(refs[i].length == split_size);
        assert(refs[i + 1].offset == (i + 1) * split_size);
        let n = refs.len() - 1;
        assert(refs.last() == refs[n]);
        assert((i + 1) * split_size <= n * split_size) by (nonlinear_arith)
            requires
                i + 1 <= n,
                split_size > 0,
        ;
    } else {
        assert(refs.last() == refs[i]);
    }
    assert(after.data.subrange(a.data.len() + c.offset, a.data.len() + c.offset + c.length)
        =~= data.subrange(c.offset as int, c.offset + c.length));
}

/// The segment of each chunk, and how long it is.
proof fn lemma_part_refs(a: ActiveView, data: Seq<u8>, size: int, at: int, now: u64, i: int)
    requires
        0 < size <= u32::MAX,
        0 <= at <= data.len() <= u64::MAX,
        append_parts(a, data, size, at, now).1 is Ok,
        0 <= i < append_parts(a, data, size, at, now).1->Ok_0.len(),
    ensures
        append_parts(a, data, size, at, now).1->Ok_0[i].segment_id == a.id,
        0 < append_parts(a, data, size, at, now).1->Ok_0[i].length <= size,
    decreases data.len() - at,
{
    if at < data.len() && i > 0 {
        let end = if at + size <= data.len() {
            at + size
        } else {
            data.len() as int
        };
        let next = a.appended(data.subrange(at, end), now);
        let refs = append_parts(a, data, size, at, now).1->Ok_0;
        let rest = append_parts(next, data, size, end, now).1->Ok_0;
        lemma_part_refs(next, data, size, end, now, i - 1);
        assert(refs[i] == rest[i - 1]);
    }
}

/// A blob that spans several chunks is stored whole just when the segment has
/// room for its last chunk to start. Else the segment took the chunks before the
/// first that it refused, and is full.
pub proof fn law_split_blob_stops_at_full_segment(
    a: ActiveView,
    split_size: int,
    data: Seq<u8>,
    now: u64,
)
    requires
        split_size > 0,
        0 < data.len(),
        a.data.len() + data.len() <= u64::MAX,
    ensures
        ({
            let (after, r) = route(a, SizeTier::Multi, split_size, data, now);
            let last = (data.len() - 1) / split_size * split_size;
            &&& r is Ok <==> a.data.len() + last < a.target_size
            &&& r is Err ==> {
                &&& r->Err_0 == (Error::SegmentFull {
                    segment_id: a.id,
                    current_size: after.data.len() as u64,
                })
                &&& after.data.len() >= a.target_size
                &&& after.data.len() - a.data.len() <= last
                &&& after.data == a.data + data.take(after.data.len() - a.data.len())
            }
        }),
{
    lemma_parts_stop(a, data, split_size, 0, now);
    let after = append_parts(a, data, split_size, 0, now).0;
    if append_parts(a, data, split_size, 0, now).1 is Err {
        assert(data.subrange(0, after.data.len() - a.data.len()) =~= data.take(
            after.data.len() - a.data.len(),
        ));
    }
}

proof fn lemma_parts_stop(a: ActiveView, data: Seq<u8>, size: int, at: int, now: u64)
    requires
        size > 0,
        0 <= at < data.len(),
        a.data.len() + data.len() <= u64::MAX + at,
    ensures
        ({
            let (after, r) = append_parts(a, data, size, at, now);
            let last = (data.len() - 1 - at) / size * size;
            &&& 0 <= last
            &&& r is Ok <==> a.data.len() + last < a.target_size
            &&& r is Err ==> {
                &&& r->Err_0 == (Error::SegmentFull {
                    segment_id: a.id,
                    current_size: after.data.len() as u64,
                })
                &&& after.data.len() >= a.target_size
                &&& 0 <= after.data.len() - a.data.len() <= last < data.len() - at
                &&& after.data == a.data + data.subrange(
                    at,
                    at + after.data.len() - a.data.len(),
                )
            }
        }),
    decreases data.len() - at,
{
    let n = data.len() - 1 - at;
    assert(0 <= n / size * size <= n) by (nonlinear_arith)
        requires
            n >= 0,
            size > 0,
    ;
    let (after, r) = append_parts(a, data, size, at, now);
    if a.full() {
        assert(after.data =~= a.data + data.subrange(at, at));
    } else if at + size < data.len() {
        let end = at + size;
        let part = data.subrange(at, end);
        let next = a.appended(part, now);
        lemma_parts_stop(next, data, size, end, now);
        assert(n / size * size == (n - size) / size * size + size) by (nonlinear_arith)
            requires
                n >= size,
                size > 0,
        ;
        if r is Err {
            assert(after.data =~= a.data + data.subrange(at, at + after.data.len() - a.data.len()));
        }
    } else {
        assert(n / size == 0) by (nonlinear_arith)
            requires
                0 <= n < size,
        ;
        let end = data.len() as int;
        assert(append_parts(a.appended(data.subrange(at, end), now), data, size, end, now).1 is Ok);
    }
}

} // verus!
