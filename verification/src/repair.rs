//! Verification of sealed segment files, and their repair from parity.
//!
//! The header holds a checksum of the data and the parity section. A file that
//! matches it is healthy and left alone. Else the damaged shards of each
//! stripe are found by the hash table of the parity section; up to `m` of them
//! are rebuilt. What lies behind the last complete stripe has no parity and
//! cannot be repaired: a file that does not match the checksum after its
//! stripes were repaired stays corrupt.

use crate::buf::{bytes_as_slice, bytes_clone, bytes_contents, bytes_copy};
use crate::checksum::{
    blake3_digest, blake3_of, hasher_finalize, hasher_input, hasher_new, hasher_update,
};
use crate::codec::{Decoder, Encoder};
use crate::encoding::{bytes_equal, copy_range, push_range, push_zeros};
use crate::error::Error;
use crate::header::{parse_header, HeaderView, SegmentHeader, SEGMENT_HEADER_SIZE_V1};
use crate::parity_section::{
    lemma_data_shard_range, lemma_parity_shard_range, parse_section, ParitySection, ParityView,
    PARITY_SECTION_HEADER_SIZE,
};
use crate::repair_laws::lemma_repair_starts_within;
use crate::verify_laws::{is_healthy, law_healthy_file_is_left_alone};
use crate::types::SegmentId;
use bytes::Bytes;
use vstd::prelude::*;
use vstd::slice::slice_subrange;

verus! {

/// Length of the part of a file that is read for its header.
pub const HEADER_PREFIX: usize = 128;

/// The identifier that stands for a file whose header cannot be read.
pub open spec fn unknown_segment() -> SegmentId {
    SegmentId { bits: 0 }
}

/// The first bytes of a file, filled up with zeros.
pub open spec fn padded(prefix: Seq<u8>) -> Seq<u8> {
    prefix + Seq::new((HEADER_PREFIX - prefix.len()) as nat, |i: int| 0u8)
}

/// The header of a file with the given first bytes and length; the identifier
/// of the damaged segment when it has none, or when it says that the data or
/// the parity section goes past the end of the file.
pub open spec fn checked_header(prefix: Seq<u8>, file_len: nat) -> Result<HeaderView, SegmentId> {
    if prefix.len() < SEGMENT_HEADER_SIZE_V1 {
        Err(unknown_segment())
    } else {
        match parse_header(padded(prefix)) {
            None => Err(unknown_segment()),
            Some(h) => if h.data_end() > file_len || (h.parity_size > 0 && h.parity_offset
                + h.parity_size > file_len) {
                Err(h.segment_id)
            } else {
                Ok(h)
            },
        }
    }
}

impl HeaderView {
    /// The data section: from the end of the header to where the data ends.
    pub open spec fn data_range(self) -> (int, int) {
        (
            self.on_disk_size(),
            if self.data_end() < self.on_disk_size() {
                self.on_disk_size()
            } else {
                self.data_end() as int
            },
        )
    }

    /// The data of a file: empty when it would end before the header does.
    pub open spec fn data_of(self, file: Seq<u8>) -> Seq<u8> {
        if self.data_end() <= self.on_disk_size() {
            Seq::empty()
        } else {
            file.subrange(self.on_disk_size() as int, self.data_end() as int)
        }
    }

    /// The ranges of a file that its checksum covers, in order.
    pub open spec fn hashed_ranges(self) -> Seq<(int, int)> {
        if self.parity_size > 0 {
            seq![self.data_range(), (self.parity_offset as int, self.parity_offset + self.parity_size)]
        } else {
            seq![self.data_range()]
        }
    }
}

/// The check of a file's checksum, fed piece by piece.
pub struct SegmentVerifier {
    header: SegmentHeader,
    hasher: blake3::Hasher,
}

impl SegmentVerifier {
    /// The file's header.
    pub closed spec fn header(&self) -> HeaderView {
        self.header@
    }

    /// The bytes that were fed.
    pub closed spec fn input(&self) -> Seq<u8> {
        hasher_input(self.hasher)
    }

    /// Starts the check of a file, given its first bytes and its length.
    pub fn begin(prefix: &[u8], file_len: u64) -> (r: Result<Self, Error>)
        requires
            prefix@.len() <= HEADER_PREFIX,
        ensures
            match checked_header(prefix@, file_len as nat) {
                Ok(h) => {
                    &&& r is Ok
                    &&& r->Ok_0.header() == h
                    &&& r->Ok_0.input() == Seq::<u8>::empty()
                },
                Err(id) => r is Err && r->Err_0 == Error::SegmentCorrupt(id),
            },
    {
        let n: usize = prefix.len();
        if n < SEGMENT_HEADER_SIZE_V1 {
            return Err(Error::SegmentCorrupt(SegmentId { bits: 0 }));
        }
        let mut buf: Vec<u8> = Vec::new();
        push_range(&mut buf, prefix, 0, n);
        push_zeros(&mut buf, HEADER_PREFIX - n);
        assert(buf@ =~= padded(prefix@));
        let header = match SegmentHeader::from_bytes(buf.as_slice()) {
            Some(header) => header,
            None => {
                return Err(Error::SegmentCorrupt(SegmentId { bits: 0 }));
            },
        };
        if header.data_end() > file_len || (header.parity_size > 0 && header.parity_offset as u128
            + header.parity_size as u128 > file_len as u128) {
            return Err(Error::SegmentCorrupt(header.segment_id));
        }
        Ok(SegmentVerifier { header, hasher: hasher_new() })
    }

    /// The ranges of the file that are to be fed, in order.
    pub fn ranges(&self) -> (ranges: Vec<(u64, u64)>)
        requires
            self.header().parity_offset + self.header().parity_size <= u64::MAX,
        ensures
            Seq::new(ranges@.len(), |i: int| (ranges@[i].0 as int, ranges@[i].1 as int))
                == self.header().hashed_ranges(),
    {
        let from: u64 = self.header.serialized_size() as u64;
        let end: u64 = self.header.data_end();
        let to: u64 = if end < from {
            from
        } else {
            end
        };
        let mut ranges: Vec<(u64, u64)> = Vec::new();
        ranges.push((from, to));
        if self.header.parity_size > 0 {
            let at: u64 = self.header.parity_offset;
            ranges.push((at, at + self.header.parity_size));
        }
        assert(Seq::new(ranges@.len(), |i: int| (ranges@[i].0 as int, ranges@[i].1 as int))
            =~= self.header().hashed_ranges());
        ranges
    }

    /// Takes the next bytes of the ranges.
    pub fn feed(&mut self, chunk: &[u8])
        requires
            old(self).input().len() + chunk@.len() <= u64::MAX,
        ensures
            final(self).header() == old(self).header(),
            final(self).input() == old(self).input() + chunk@,
    {
        hasher_update(&mut self.hasher, chunk);
    }

    /// Whether the file is healthy, once all ranges were fed. Fails when it is
    /// damaged and has no parity section.
    pub fn finish(&self) -> (r: Result<bool, Error>)
        ensures
            ({
                let h = self.header();
                if blake3_digest(self.input()) == h.checksum {
                    r == Ok::<bool, Error>(true)
                } else if h.parity_offset == 0 || h.parity_size == 0 {
                    r == Err::<bool, Error>(Error::SegmentCorrupt(h.segment_id))
                } else {
                    r == Ok::<bool, Error>(false)
                }
            }),
    {
        let hash = hasher_finalize(&self.hasher);
        if bytes_equal(hash.bytes.as_slice(), self.header.checksum.as_slice()) {
            return Ok(true);
        }
        if self.header.parity_offset == 0 || self.header.parity_size == 0 {
            return Err(Error::SegmentCorrupt(self.header.segment_id));
        }
        Ok(false)
    }

    /// The file's header.
    pub fn segment_header(&self) -> (h: &SegmentHeader)
        ensures
            h@ == self.header(),
    {
        &self.header
    }
}

/// Bytes to be written at an offset of a file.
#[derive(Debug)]
pub struct RangeWrite {
    /// Where they are written.
    pub offset: usize,
    /// The bytes.
    pub bytes: Bytes,
}

/// The mathematical view of [`RangeWrite`].
#[verifier::ext_equal]
pub struct RangeView {
    pub offset: int,
    pub bytes: Seq<u8>,
}

impl View for RangeWrite {
    type V = RangeView;

    open spec fn view(&self) -> RangeView {
        RangeView { offset: self.offset as int, bytes: bytes_contents(self.bytes) }
    }
}

/// The views of a list of writes.
pub open spec fn writes_view(writes: Seq<RangeWrite>) -> Seq<RangeView> {
    writes.map_values(|w: RangeWrite| w@)
}

/// What a repair did: the writes to perform, and how it ended. Writes that
/// precede a failure are performed too.
#[derive(Debug)]
pub struct RepairReport {
    /// The writes, in order.
    pub writes: Vec<RangeWrite>,
    /// The number of repaired stripes, or why the repair failed.
    pub result: Result<usize, Error>,
}

/// Which shards of a stripe are damaged.
pub open spec fn damage(p: ParityView, data: Seq<u8>, stripe: int) -> Seq<bool> {
    Seq::new(p.k + p.m, |idx: int| !p.intact(data, stripe, idx))
}

/// How many are set.
pub open spec fn count_set(flags: Seq<bool>) -> nat
    decreases flags.len(),
{
    if flags.len() == 0 {
        0
    } else {
        count_set(flags.drop_last()) + if flags.last() {
            1nat
        } else {
            0
        }
    }
}

/// What a decoder is given: the shards of a stripe that are not damaged.
pub open spec fn survivors(p: ParityView, data: Seq<u8>, stripe: int) -> Seq<Option<Seq<u8>>> {
    Seq::new(
        p.k + p.m,
        |idx: int|
            if p.intact(data, stripe, idx) {
                Some(p.shard(data, stripe, idx))
            } else {
                None
            },
    )
}

/// The views of a decoder's input.
pub open spec fn available_view(available: Seq<Option<Bytes>>) -> Seq<Option<Seq<u8>>> {
    available.map_values(
        |b: Option<Bytes>|
            match b {
                Some(b) => Some(bytes_contents(b)),
                None => None,
            },
    )
}

/// The recovered data shards are those that the hash table expects.
pub open spec fn recovery_holds(p: ParityView, stripe: int, recovered: Seq<Bytes>) -> bool {
    &&& recovered.len() == p.k
    &&& forall|d: int|
        0 <= d < p.k ==> blake3_digest(bytes_contents(#[trigger] recovered[d])) == p.shard_hash(
            stripe,
            d,
        )
}

/// Of the damaged parity shards of the stripe all are among the encoded ones.
pub open spec fn parity_covers(p: ParityView, data: Seq<u8>, stripe: int, parity: Seq<Bytes>) -> bool {
    forall|d: int|
        0 <= d < p.m && !(#[trigger] p.intact(data, stripe, p.k + d)) ==> d < parity.len()
}

/// The writes of the first `n` data shards of a stripe: the damaged ones.
pub open spec fn data_writes(
    p: ParityView,
    data_at: int,
    data: Seq<u8>,
    stripe: int,
    recovered: Seq<Bytes>,
    n: int,
) -> Seq<RangeView>
    decreases n,
{
    if n <= 0 {
        Seq::empty()
    } else {
        let rest = data_writes(p, data_at, data, stripe, recovered, n - 1);
        if p.intact(data, stripe, n - 1) {
            rest
        } else {
            rest.push(
                RangeView {
                    offset: data_at + p.data_shard_at(stripe, n - 1),
                    bytes: bytes_contents(recovered[n - 1]),
                },
            )
        }
    }
}

/// The writes of the first `n` parity shards of a stripe: the damaged ones.
pub open spec fn parity_writes(
    p: ParityView,
    section_at: int,
    data: Seq<u8>,
    stripe: int,
    parity: Seq<Bytes>,
    n: int,
) -> Seq<RangeView>
    decreases n,
{
    if n <= 0 {
        Seq::empty()
    } else {
        let rest = parity_writes(p, section_at, data, stripe, parity, n - 1);
        if p.intact(data, stripe, p.k + n - 1) {
            rest
        } else {
            rest.push(
                RangeView {
                    offset: section_at + PARITY_SECTION_HEADER_SIZE + p.parity_shard_at(
                        stripe,
                        n - 1,
                    ),
                    bytes: bytes_contents(parity[n - 1]),
                },
            )
        }
    }
}

/// A stripe has a damaged shard.
pub open spec fn is_damaged(p: ParityView, data: Seq<u8>, stripe: int) -> bool {
    exists|idx: int| 0 <= idx < p.k + p.m && !(#[trigger] p.intact(data, stripe, idx))
}

/// Number of damaged stripes among the first `n`.
pub open spec fn damaged_stripes(p: ParityView, data: Seq<u8>, n: int) -> nat
    decreases n,
{
    if n <= 0 {
        0
    } else {
        damaged_stripes(p, data, n - 1) + if is_damaged(p, data, n - 1) {
            1nat
        } else {
            0
        }
    }
}

/// What the codec answered for a stripe: to the survivors of a damaged one, and
/// to its recovered data shards when a parity shard is lost.
pub struct StripeAnswer {
    /// The decoder's answer.
    pub decoded: Result<Vec<Bytes>, String>,
    /// The encoder's answer.
    pub encoded: Result<Vec<Bytes>, String>,
}

/// A parity shard of the stripe is damaged.
pub open spec fn parity_lost(p: ParityView, data: Seq<u8>, stripe: int) -> bool {
    exists|d: int| 0 <= d < p.m && !(#[trigger] p.intact(data, stripe, p.k + d))
}

/// What comes of a decoder's answer: the writes of the damaged data shards, or
/// why the stripe cannot be repaired.
pub open spec fn after_decode(
    id: SegmentId,
    p: ParityView,
    data_at: int,
    data: Seq<u8>,
    stripe: int,
    decoded: Result<Vec<Bytes>, String>,
) -> (Seq<RangeView>, Result<(), Error>) {
    match decoded {
        Err(why) => (
            Seq::empty(),
            Err(Error::DecodeFailed { segment_id: id, stripe: stripe as usize, why }),
        ),
        Ok(recovered) => if recovery_holds(p, stripe, recovered@) {
            (data_writes(p, data_at, data, stripe, recovered@, p.k as int), Ok(()))
        } else {
            (Seq::empty(), Err(Error::SegmentCorrupt(id)))
        },
    }
}

/// What comes of an encoder's answer: the writes of the damaged parity shards,
/// or why the stripe cannot be repaired.
pub open spec fn after_encode(
    id: SegmentId,
    p: ParityView,
    section_at: int,
    data: Seq<u8>,
    stripe: int,
    encoded: Result<Vec<Bytes>, String>,
) -> (Seq<RangeView>, Result<(), Error>) {
    match encoded {
        Err(why) => (
            Seq::empty(),
            Err(Error::EncodeFailed { segment_id: id, stripe: stripe as usize, why }),
        ),
        Ok(parity) => if parity_covers(p, data, stripe, parity@) {
            (parity_writes(p, section_at, data, stripe, parity@, p.m as int), Ok(()))
        } else {
            (Seq::empty(), Err(Error::SegmentCorrupt(id)))
        },
    }
}

/// The writes that the repair of a stripe makes, and how it ends. A stripe with
/// more than `m` damaged shards cannot be repaired.
pub open spec fn stripe_outcome(
    id: SegmentId,
    p: ParityView,
    data_at: int,
    section_at: int,
    data: Seq<u8>,
    stripe: int,
    answer: StripeAnswer,
) -> (Seq<RangeView>, Result<(), Error>) {
    if !is_damaged(p, data, stripe) {
        (Seq::empty(), Ok(()))
    } else if count_set(damage(p, data, stripe)) > p.m {
        (Seq::empty(), Err(Error::SegmentCorrupt(id)))
    } else {
        let first = after_decode(id, p, data_at, data, stripe, answer.decoded);
        if first.1 is Err || !parity_lost(p, data, stripe) {
            first
        } else {
            let second = after_encode(id, p, section_at, data, stripe, answer.encoded);
            (first.0 + second.0, second.1)
        }
    }
}

/// The decoder answered this to the survivors of the stripe.
pub open spec fn decoder_answered<D: Decoder>(
    decoder: &D,
    p: ParityView,
    data: Seq<u8>,
    stripe: int,
    decoded: Result<Vec<Bytes>, String>,
) -> bool {
    exists|available: Vec<Option<Bytes>>|
        available_view(available@) == survivors(p, data, stripe) && #[trigger] call_ensures(
            D::decode,
            (decoder, &available, p.k as u8, p.m as u8),
            decoded,
        )
}

/// The codec gave this answer to what it was asked for the stripe. It is asked
/// for damaged stripes that can be repaired only.
pub open spec fn codec_answered<D: Decoder, E: Encoder>(
    decoder: &D,
    encoder: &E,
    p: ParityView,
    data: Seq<u8>,
    stripe: int,
    answer: StripeAnswer,
) -> bool {
    is_damaged(p, data, stripe) && count_set(damage(p, data, stripe)) <= p.m ==> {
        &&& decoder_answered(decoder, p, data, stripe, answer.decoded)
        &&& answer.decoded matches Ok(recovered) ==> recovery_holds(p, stripe, recovered@)
            && parity_lost(p, data, stripe) ==> call_ensures(
            E::encode,
            (encoder, &recovered, p.m as u8),
            answer.encoded,
        )
    }
}

/// The writes that the repair of the first stripes makes, and how it ends: with
/// the number of damaged ones, or with the first stripe that cannot be repaired.
pub open spec fn repair_outcome(
    id: SegmentId,
    p: ParityView,
    data_at: int,
    section_at: int,
    data: Seq<u8>,
    answers: Seq<StripeAnswer>,
) -> (Seq<RangeView>, Result<nat, Error>)
    decreases answers.len(),
{
    if answers.len() == 0 {
        (Seq::empty(), Ok(0))
    } else {
        let stripe = answers.len() - 1;
        let before = repair_outcome(id, p, data_at, section_at, data, answers.drop_last());
        match before.1 {
            Err(_) => before,
            Ok(n) => {
                let step = stripe_outcome(
                    id,
                    p,
                    data_at,
                    section_at,
                    data,
                    stripe,
                    answers.last(),
                );
                (
                    before.0 + step.0,
                    match step.1 {
                        Err(e) => Err(e),
                        Ok(()) => Ok(
                            n + if is_damaged(p, data, stripe) {
                                1nat
                            } else {
                                0
                            },
                        ),
                    },
                )
            },
        }
    }
}

/// The codec gave these answers, and with them the repair of the file ended in
/// this way. `healed` says whether the file matches its checksum after the
/// writes: it is repaired only then.
pub open spec fn repair_ended<D: Decoder, E: Encoder>(
    decoder: &D,
    encoder: &E,
    id: SegmentId,
    p: ParityView,
    data_at: int,
    section_at: int,
    data: Seq<u8>,
    answers: Seq<StripeAnswer>,
    writes: Seq<RangeView>,
    healed: bool,
    result: Result<usize, Error>,
) -> bool {
    let end = repair_outcome(id, p, data_at, section_at, data, answers);
    &&& answers.len() <= p.stripe_count
    &&& end.1 is Ok ==> answers.len() == p.stripe_count
    &&& forall|i: int|
        0 <= i < answers.len() ==> codec_answered(
            decoder,
            encoder,
            p,
            data,
            i,
            #[trigger] answers[i],
        )
    &&& writes == end.0
    &&& match end.1 {
        Err(e) => result == Err::<usize, Error>(e),
        Ok(n) => if n == 0 || !healed {
            result == Err::<usize, Error>(Error::SegmentCorrupt(id))
        } else {
            result matches Ok(count) && count == n
        },
    }
}

/// Finds the damaged shards of a stripe.
pub fn find_damage<'a>(section: &ParitySection<'a>, data: &[u8], stripe: usize) -> (flags: Vec<bool>)
    requires
        section@.wf(),
        section@.k + section@.m <= usize::MAX,
        stripe < section@.stripe_count,
        (stripe + 1) * section@.stripe_len() <= data@.len(),
    ensures
        flags@ == damage(section@, data@, stripe as int),
{
    let per: usize = section.k + section.m;
    let mut flags: Vec<bool> = Vec::new();
    let mut idx: usize = 0;
    while idx < per
        invariant
            idx <= per,
            per == section@.k + section@.m,
            per <= usize::MAX,
            section@.wf(),
            stripe < section@.stripe_count,
            (stripe + 1) * section@.stripe_len() <= data@.len(),
            flags@ =~= damage(section@, data@, stripe as int).take(idx as int),
        decreases per - idx,
    {
        flags.push(!section.shard_intact(data, stripe, idx));
        idx = idx + 1;
    }
    assert(damage(section@, data@, stripe as int).take(per as int) =~= damage(
        section@,
        data@,
        stripe as int,
    ));
    flags
}

/// Counts how many are set.
pub fn count_damage(flags: &Vec<bool>) -> (n: usize)
    ensures
        n == count_set(flags@),
        n <= flags@.len(),
        n == 0 <==> forall|i: int| 0 <= i < flags@.len() ==> !(#[trigger] flags@[i]),
{
    let len: usize = flags.len();
    let mut n: usize = 0;
    let mut i: usize = 0;
    while i < len
        invariant
            i <= len == flags@.len(),
            n <= i,
            n == count_set(flags@.take(i as int)),
            n == 0 <==> forall|j: int| 0 <= j < i ==> !(#[trigger] flags@[j]),
        decreases len - i,
    {
        assert(flags@.take(i + 1).drop_last() =~= flags@.take(i as int));
        if flags[i] {
            n = n + 1;
        }
        i = i + 1;
    }
    assert(flags@.take(len as int) =~= flags@);
    n
}

/// Collects what a decoder is given: the shards that are not damaged.
pub fn collect_survivors<'a>(
    section: &ParitySection<'a>,
    data: &[u8],
    stripe: usize,
    flags: &Vec<bool>,
) -> (available: Vec<Option<Bytes>>)
    requires
        section@.wf(),
        section@.k + section@.m <= usize::MAX,
        stripe < section@.stripe_count,
        (stripe + 1) * section@.stripe_len() <= data@.len(),
        flags@ == damage(section@, data@, stripe as int),
    ensures
        available_view(available@) == survivors(section@, data@, stripe as int),
{
    let ghost want = survivors(section@, data@, stripe as int);
    let per: usize = section.k + section.m;
    let mut available: Vec<Option<Bytes>> = Vec::new();
    let mut idx: usize = 0;
    while idx < per
        invariant
            idx <= per,
            per == section@.k + section@.m,
            per <= usize::MAX,
            section@.wf(),
            stripe < section@.stripe_count,
            (stripe + 1) * section@.stripe_len() <= data@.len(),
            flags@ == damage(section@, data@, stripe as int),
            want == survivors(section@, data@, stripe as int),
            available_view(available@) == want.take(idx as int),
        decreases per - idx,
    {
        let ghost were = available@;
        let item: Option<Bytes> = if flags[idx] {
            None
        } else if idx < section.k {
            Some(bytes_copy(section.data_shard(data, stripe, idx)))
        } else {
            Some(bytes_copy(section.parity_shard(stripe, idx - section.k)))
        };
        available.push(item);
        proof {
            assert(available_view(available@) =~= available_view(were).push(want[idx as int]));
            assert(want.take(idx + 1) =~= want.take(idx as int).push(want[idx as int]));
        }
        idx = idx + 1;
    }
    assert(want.take(per as int) =~= want);
    available
}

/// Whether the recovered data shards are those that the hash table expects.
pub fn check_recovery<'a>(section: &ParitySection<'a>, stripe: usize, recovered: &Vec<Bytes>) -> (ok:
    bool)
    requires
        section@.wf(),
        section@.k + section@.m <= usize::MAX,
        stripe < section@.stripe_count,
    ensures
        ok == recovery_holds(section@, stripe as int, recovered@),
{
    if recovered.len() != section.k {
        return false;
    }
    let k: usize = section.k;
    let mut d: usize = 0;
    while d < k
        invariant
            d <= k == section@.k == recovered@.len(),
            section@.wf(),
            section@.k + section@.m <= usize::MAX,
            stripe < section@.stripe_count,
            forall|i: int|
                0 <= i < d ==> blake3_digest(bytes_contents(#[trigger] recovered@[i]))
                    == section@.shard_hash(stripe as int, i),
        decreases k - d,
    {
        let hash = blake3_of(bytes_as_slice(&recovered[d]));
        if !bytes_equal(hash.bytes.as_slice(), section.shard_hash(stripe, d)) {
            assert(blake3_digest(bytes_contents(recovered@[d as int])) != section@.shard_hash(
                stripe as int,
                d as int,
            ));
            return false;
        }
        d = d + 1;
    }
    true
}

/// Whether all damaged parity shards of the stripe are among the encoded ones.
pub fn check_parity<'a>(
    section: &ParitySection<'a>,
    data: &[u8],
    stripe: usize,
    flags: &Vec<bool>,
    parity: &Vec<Bytes>,
) -> (ok: bool)
    requires
        section@.k + section@.m <= usize::MAX,
        flags@ == damage(section@, data@, stripe as int),
    ensures
        ok == parity_covers(section@, data@, stripe as int, parity@),
{
    let k: usize = section.k;
    let m: usize = section.m;
    let mut d: usize = 0;
    while d < m
        invariant
            d <= m == section@.m,
            k == section@.k,
            k + m <= usize::MAX,
            flags@ == damage(section@, data@, stripe as int),
            forall|i: int|
                0 <= i < d && !(#[trigger] section@.intact(data@, stripe as int, section@.k + i))
                    ==> i < parity@.len(),
        decreases m - d,
    {
        if flags[k + d] && d >= parity.len() {
            assert(!section@.intact(data@, stripe as int, section@.k + d as int));
            return false;
        }
        d = d + 1;
    }
    true
}

/// Adds the writes of the damaged data shards of a stripe.
pub fn push_data_writes<'a>(
    writes: &mut Vec<RangeWrite>,
    section: &ParitySection<'a>,
    data_at: usize,
    data: &[u8],
    stripe: usize,
    flags: &Vec<bool>,
    recovered: &Vec<Bytes>,
)
    requires
        section@.wf(),
        section@.k + section@.m <= usize::MAX,
        stripe < section@.stripe_count,
        (stripe + 1) * section@.stripe_len() <= data@.len(),
        data_at + data@.len() <= usize::MAX,
        flags@ == damage(section@, data@, stripe as int),
        recovered@.len() == section@.k,
    ensures
        writes_view(final(writes)@) == writes_view(old(writes)@) + data_writes(
            section@,
            data_at as int,
            data@,
            stripe as int,
            recovered@,
            section@.k as int,
        ),
{
    let k: usize = section.k;
    let ghost before = writes_view(writes@);
    let mut d: usize = 0;
    while d < k
        invariant
            d <= k == section@.k == recovered@.len(),
            section@.wf(),
            section@.k + section@.m <= usize::MAX,
            stripe < section@.stripe_count,
            (stripe + 1) * section@.stripe_len() <= data@.len(),
            data_at + data@.len() <= usize::MAX,
            flags@ == damage(section@, data@, stripe as int),
            before == writes_view(old(writes)@),
            writes_view(writes@) =~= before + data_writes(
                section@,
                data_at as int,
                data@,
                stripe as int,
                recovered@,
                d as int,
            ),
        decreases k - d,
    {
        let ghost were = writes@;
        if flags[d] {
            proof {
                lemma_data_shard_range(section@, stripe as int, d as int);
                assert(0 <= stripe * section@.stripe_len() && section@.stripe_len() <= (stripe + 1)
                    * section@.stripe_len()) by (nonlinear_arith)
                    requires
                        section@.stripe_len() >= 0,
                        stripe >= 0,
                ;
                assert(0 <= d * section@.strip <= section@.stripe_len()) by (nonlinear_arith)
                    requires
                        section@.stripe_len() == section@.k * section@.strip,
                        0 <= d < section@.k,
                ;
            }
            let at: usize = stripe * section.stripe_len() + d * section.strip;
            let w = RangeWrite { offset: data_at + at, bytes: bytes_clone(&recovered[d]) };
            writes.push(w);
            assert(writes_view(writes@) =~= writes_view(were).push(w@));
        }
        d = d + 1;
    }
}

/// Adds the writes of the damaged parity shards of a stripe.
pub fn push_parity_writes<'a>(
    writes: &mut Vec<RangeWrite>,
    section: &ParitySection<'a>,
    section_at: usize,
    data: &[u8],
    stripe: usize,
    flags: &Vec<bool>,
    parity: &Vec<Bytes>,
)
    requires
        section@.wf(),
        section@.k + section@.m <= usize::MAX,
        stripe < section@.stripe_count,
        section_at + PARITY_SECTION_HEADER_SIZE + section@.shards.len() <= usize::MAX,
        flags@ == damage(section@, data@, stripe as int),
        parity_covers(section@, data@, stripe as int, parity@),
    ensures
        writes_view(final(writes)@) == writes_view(old(writes)@) + parity_writes(
            section@,
            section_at as int,
            data@,
            stripe as int,
            parity@,
            section@.m as int,
        ),
{
    let m: usize = section.m;
    let ghost before = writes_view(writes@);
    let mut i: usize = 0;
    while i < m
        invariant
            i <= m == section@.m,
            parity_covers(section@, data@, stripe as int, parity@),
            section@.wf(),
            section@.k + section@.m <= usize::MAX,
            stripe < section@.stripe_count,
            section_at + PARITY_SECTION_HEADER_SIZE + section@.shards.len() <= usize::MAX,
            flags@ == damage(section@, data@, stripe as int),
            before == writes_view(old(writes)@),
            writes_view(writes@) =~= before + parity_writes(
                section@,
                section_at as int,
                data@,
                stripe as int,
                parity@,
                i as int,
            ),
        decreases m - i,
    {
        let ghost were = writes@;
        if flags[section.k + i] {
            proof {
                lemma_parity_shard_range(section@, stripe as int, i as int);
                assert(!section@.intact(data@, stripe as int, section@.k + i as int));
            }
            let at: usize = (stripe * section.m + i) * section.strip;
            let w = RangeWrite {
                offset: section_at + PARITY_SECTION_HEADER_SIZE + at,
                bytes: bytes_clone(&parity[i]),
            };
            writes.push(w);
            assert(writes_view(writes@) =~= writes_view(were).push(w@));
        }
        i = i + 1;
    }
}

/// Takes a decoder's answer for a stripe: adds the writes of the damaged data
/// shards, and gives the recovered data shards. Fails when the decoder failed,
/// or when what it gave back is not what the hash table expects.
pub fn take_decoded<'a>(
    id: SegmentId,
    section: &ParitySection<'a>,
    data: &[u8],
    data_at: usize,
    stripe: usize,
    flags: &Vec<bool>,
    decoded: Result<Vec<Bytes>, String>,
    writes: &mut Vec<RangeWrite>,
) -> (r: Result<Vec<Bytes>, Error>)
    requires
        section@.wf(),
        section@.k + section@.m <= usize::MAX,
        stripe < section@.stripe_count,
        (stripe + 1) * section@.stripe_len() <= data@.len(),
        data_at + data@.len() <= usize::MAX,
        flags@ == damage(section@, data@, stripe as int),
    ensures
        ({
            let end = after_decode(
                id,
                section@,
                data_at as int,
                data@,
                stripe as int,
                decoded,
            );
            &&& writes_view(final(writes)@) == writes_view(old(writes)@) + end.0
            &&& match end.1 {
                Ok(()) => r is Ok && r->Ok_0 == decoded->Ok_0,
                Err(e) => r == Err::<Vec<Bytes>, Error>(e),
            }
        }),
{
    let recovered = match decoded {
        Ok(recovered) => recovered,
        Err(why) => {
            assert(writes_view(writes@) + Seq::<RangeView>::empty() =~= writes_view(writes@));
            return Err(Error::DecodeFailed { segment_id: id, stripe, why });
        },
    };
    if !check_recovery(section, stripe, &recovered) {
        assert(writes_view(writes@) + Seq::<RangeView>::empty() =~= writes_view(writes@));
        return Err(Error::SegmentCorrupt(id));
    }
    push_data_writes(writes, section, data_at, data, stripe, flags, &recovered);
    Ok(recovered)
}

/// Takes an encoder's answer for a stripe: adds the writes of the damaged
/// parity shards, as they came. Fails when the encoder failed, or did not give
/// all of them.
pub fn take_encoded<'a>(
    id: SegmentId,
    section: &ParitySection<'a>,
    data: &[u8],
    section_at: usize,
    stripe: usize,
    flags: &Vec<bool>,
    encoded: Result<Vec<Bytes>, String>,
    writes: &mut Vec<RangeWrite>,
) -> (r: Result<(), Error>)
    requires
        section@.wf(),
        section@.k + section@.m <= usize::MAX,
        stripe < section@.stripe_count,
        section_at + PARITY_SECTION_HEADER_SIZE + section@.shards.len() <= usize::MAX,
        flags@ == damage(section@, data@, stripe as int),
    ensures
        ({
            let end = after_encode(
                id,
                section@,
                section_at as int,
                data@,
                stripe as int,
                encoded,
            );
            &&& writes_view(final(writes)@) == writes_view(old(writes)@) + end.0
            &&& r == end.1
        }),
{
    let parity = match encoded {
        Ok(parity) => parity,
        Err(why) => {
            assert(writes_view(writes@) + Seq::<RangeView>::empty() =~= writes_view(writes@));
            return Err(Error::EncodeFailed { segment_id: id, stripe, why });
        },
    };
    if !check_parity(section, data, stripe, flags, &parity) {
        assert(writes_view(writes@) + Seq::<RangeView>::empty() =~= writes_view(writes@));
        return Err(Error::SegmentCorrupt(id));
    }
    push_parity_writes(writes, section, section_at, data, stripe, flags, &parity);
    Ok(())
}

/// Whether a parity shard of the stripe is damaged.
fn lost_parity<'a>(section: &ParitySection<'a>, data: &[u8], stripe: usize, flags: &Vec<bool>) -> (r:
    bool)
    requires
        section@.k + section@.m <= usize::MAX,
        flags@ == damage(section@, data@, stripe as int),
    ensures
        r == parity_lost(section@, data@, stripe as int),
{
    let k: usize = section.k;
    let m: usize = section.m;
    let mut i: usize = 0;
    while i < m
        invariant
            i <= m == section@.m,
            k == section@.k,
            k + m <= usize::MAX,
            flags@ == damage(section@, data@, stripe as int),
            forall|d: int| 0 <= d < i ==> #[trigger] section@.intact(data@, stripe as int, k + d),
        decreases m - i,
    {
        if flags[k + i] {
            assert(!section@.intact(data@, stripe as int, section@.k + i as int));
            return true;
        }
        i = i + 1;
    }
    false
}

/// Repairs one damaged stripe. Fails when more than `m` shards are damaged, when
/// the codec fails, or when what it gives back is not what the hash table
/// expects.
fn repair_stripe<'a, D: Decoder, E: Encoder>(
    id: SegmentId,
    section: &ParitySection<'a>,
    data: &[u8],
    data_at: usize,
    section_at: usize,
    stripe: usize,
    flags: &Vec<bool>,
    decoder: &D,
    encoder: &E,
    writes: &mut Vec<RangeWrite>,
) -> (r: Result<(), Error>)
    requires
        section@.wf(),
        section@.k <= 0xFF,
        section@.m <= 0xFF,
        stripe < section@.stripe_count,
        (stripe + 1) * section@.stripe_len() <= data@.len(),
        data_at + data@.len() <= usize::MAX,
        section_at + PARITY_SECTION_HEADER_SIZE + section@.shards.len() <= usize::MAX,
        flags@ == damage(section@, data@, stripe as int),
        is_damaged(section@, data@, stripe as int),
    ensures
        exists|answer: StripeAnswer|
            {
                let end = stripe_outcome(
                    id,
                    section@,
                    data_at as int,
                    section_at as int,
                    data@,
                    stripe as int,
                    answer,
                );
                &&& #[trigger] codec_answered(
                    decoder,
                    encoder,
                    section@,
                    data@,
                    stripe as int,
                    answer,
                )
                &&& writes_view(final(writes)@) == writes_view(old(writes)@) + end.0
                &&& r == end.1
            },
{
    let ghost p = section@;
    let ghost w0 = writes_view(writes@);
    let ghost mut answer: StripeAnswer = arbitrary();
    if count_damage(flags) > section.m {
        proof {
            assert(codec_answered(decoder, encoder, p, data@, stripe as int, answer));
            assert(w0 + Seq::<RangeView>::empty() =~= w0);
        }
        return Err(Error::SegmentCorrupt(id));
    }
    let available = collect_survivors(section, data, stripe, flags);
    let decoded = decoder.decode(&available, section.k as u8, section.m as u8);
    proof {
        answer = StripeAnswer { decoded, encoded: answer.encoded };
        assert(decoder_answered(decoder, p, data@, stripe as int, answer.decoded));
    }
    let recovered = match take_decoded(id, section, data, data_at, stripe, flags, decoded, writes) {
        Ok(recovered) => recovered,
        Err(e) => {
            assert(codec_answered(decoder, encoder, p, data@, stripe as int, answer));
            return Err(e);
        },
    };
    if !lost_parity(section, data, stripe, flags) {
        assert(codec_answered(decoder, encoder, p, data@, stripe as int, answer));
        return Ok(());
    }
    let ghost w1 = writes_view(writes@);
    let encoded = encoder.encode(&recovered, section.m as u8);
    proof {
        answer = StripeAnswer { decoded: answer.decoded, encoded };
        assert(codec_answered(decoder, encoder, p, data@, stripe as int, answer));
    }
    let r = take_encoded(id, section, data, section_at, stripe, flags, encoded, writes);
    proof {
        let first = after_decode(id, p, data_at as int, data@, stripe as int, answer.decoded);
        let second = after_encode(id, p, section_at as int, data@, stripe as int, answer.encoded);
        assert(writes_view(writes@) =~= w0 + (first.0 + second.0));
    }
    r
}

/// What the repair of a file works on: the data, and its parity section; none
/// when the section lies past the end of the file, is malformed, or covers more
/// than the data.
pub open spec fn repair_input(h: HeaderView, file: Seq<u8>) -> Option<(Seq<u8>, ParityView)> {
    let data = h.data_of(file);
    let end = h.parity_offset + h.parity_size;
    if end > file.len() {
        None
    } else {
        match parse_section(file.subrange(h.parity_offset as int, end)) {
            Some(p) => if p.stripe_count * p.stripe_len() <= data.len() {
                Some((data, p))
            } else {
                None
            },
            None => None,
        }
    }
}

/// A write starts within a file of this length.
pub open spec fn starts_within(w: RangeView, len: nat) -> bool {
    0 <= w.offset <= len
}

/// A file after a write, which makes it longer when it goes past its end.
pub open spec fn after_write(file: Seq<u8>, w: RangeView) -> Seq<u8> {
    let end = w.offset + w.bytes.len();
    file.take(w.offset) + w.bytes + if end <= file.len() {
        file.skip(end)
    } else {
        Seq::empty()
    }
}

/// A file after writes, in order.
pub open spec fn after_writes(file: Seq<u8>, writes: Seq<RangeView>) -> Seq<u8>
    decreases writes.len(),
{
    if writes.len() == 0 {
        file
    } else {
        after_write(after_writes(file, writes.drop_last()), writes.last())
    }
}

/// A file matches the checksum of its header.
pub open spec fn matches_checksum(h: HeaderView, file: Seq<u8>) -> bool {
    blake3_digest(hashed_bytes(h, file)) == h.checksum
}

/// The content of a file after writes that start within it.
pub fn apply_writes(file: &[u8], writes: &Vec<RangeWrite>) -> (out: Vec<u8>)
    requires
        forall|i: int|
            0 <= i < writes@.len() ==> starts_within(
                #[trigger] writes_view(writes@)[i],
                file@.len(),
            ),
    ensures
        out@ == after_writes(file@, writes_view(writes@)),
        out@.len() >= file@.len(),
{
    let ghost all = writes_view(writes@);
    let mut out = copy_range(file, 0, file.len());
    assert(out@ =~= file@);
    let n: usize = writes.len();
    let mut i: usize = 0;
    assert(all.take(0) =~= Seq::empty());
    while i < n
        invariant
            i <= n == writes@.len(),
            all == writes_view(writes@),
            forall|j: int| 0 <= j < all.len() ==> starts_within(#[trigger] all[j], file@.len()),
            out@.len() >= file@.len(),
            out@ == after_writes(file@, all.take(i as int)),
        decreases n - i,
    {
        let ghost before = out@;
        let ghost w = all[i as int];
        let at: usize = writes[i].offset;
        let bytes = bytes_as_slice(&writes[i].bytes);
        let len: usize = bytes.len();
        assert(starts_within(w, file@.len()) && w.offset == at && w.bytes == bytes@);
        let room: usize = out.len() - at;
        let mut j: usize = 0;
        while j < len
            invariant
                j <= len == bytes@.len(),
                at + room == before.len() <= usize::MAX,
                out@ =~= before.take(at as int) + bytes@.take(j as int) + (if j <= room {
                    before.skip(at + j)
                } else {
                    Seq::empty()
                }),
            decreases len - j,
        {
            if j < room {
                out.set(at + j, bytes[j]);
            } else {
                out.push(bytes[j]);
            }
            j = j + 1;
        }
        proof {
            assert(bytes@.take(len as int) =~= bytes@);
            assert(out@ =~= after_write(before, w));
            assert(all.take(i + 1).drop_last() =~= all.take(i as int));
        }
        i = i + 1;
    }
    assert(all.take(n as int) =~= all);
    out
}

/// The data of a file.
fn data_slice<'a>(header: &SegmentHeader, file: &'a [u8]) -> (data: &'a [u8])
    requires
        header@.data_end() <= file@.len(),
    ensures
        data@ == header@.data_of(file@),
{
    let len: usize = file.len();
    let from: usize = header.serialized_size();
    let end: u64 = header.data_end();
    assert(end <= len);
    if end <= from as u64 {
        let none = slice_subrange(file, 0, 0);
        assert(none@ =~= header@.data_of(file@));
        none
    } else {
        slice_subrange(file, from, end as usize)
    }
}

/// Whether a file matches the checksum of its header.
pub fn check_checksum(header: &SegmentHeader, file: &[u8]) -> (ok: bool)
    requires
        header@.data_end() <= isize::MAX,
        header@.data_end() <= file@.len(),
        header@.parity_size > 0 ==> header@.parity_offset + header@.parity_size <= isize::MAX,
        header@.parity_size > 0 ==> header@.parity_offset + header@.parity_size <= file@.len(),
    ensures
        ok == matches_checksum(header@, file@),
{
    let mut hasher = hasher_new();
    hasher_update(&mut hasher, data_slice(header, file));
    if header.parity_size > 0 {
        let at: usize = header.parity_offset as usize;
        hasher_update(
            &mut hasher,
            slice_subrange(file, at, at + header.parity_size as usize),
        );
    }
    assert(hasher_input(hasher) =~= hashed_bytes(header@, file@));
    bytes_equal(hasher_finalize(&hasher).bytes.as_slice(), header.checksum.as_slice())
}

/// A repair of a file can end in this way: with the answers that the codec gives
/// for its stripes.
pub open spec fn repair_reported<D: Decoder, E: Encoder>(
    decoder: &D,
    encoder: &E,
    h: HeaderView,
    file: Seq<u8>,
    data: Seq<u8>,
    p: ParityView,
    writes: Seq<RangeView>,
    result: Result<usize, Error>,
) -> bool {
    exists|answers: Seq<StripeAnswer>| #[trigger]
        repair_ended(
            decoder,
            encoder,
            h.segment_id,
            p,
            h.data_range().0,
            h.parity_offset as int,
            data,
            answers,
            writes,
            matches_checksum(h, after_writes(file, writes)),
            result,
        )
}

/// Repairs a damaged file from its parity section. It cannot be repaired when
/// the section cannot be used, when a stripe has more than `m` damaged shards,
/// or when the damage is behind the last stripe: the file then does not match
/// its checksum after the writes. They stay in the report all the same.
pub fn repair_segment<D: Decoder, E: Encoder>(
    header: &SegmentHeader,
    file: &[u8],
    decoder: &D,
    encoder: &E,
) -> (report: RepairReport)
    requires
        file@.len() <= isize::MAX,
        header@.data_end() <= file@.len(),
    ensures
        match repair_input(header@, file@) {
            None => report.writes@.len() == 0 && report.result == Err::<usize, Error>(
                Error::SegmentCorrupt(header@.segment_id),
            ),
            Some((data, p)) => repair_reported(
                decoder,
                encoder,
                header@,
                file@,
                data,
                p,
                writes_view(report.writes@),
                report.result,
            ),
        },
{
    let id = header.segment_id;
    let len: usize = file.len();
    let mut writes: Vec<RangeWrite> = Vec::new();
    let data_at: usize = header.serialized_size();
    let data = data_slice(header, file);
    if header.parity_offset as u128 + header.parity_size as u128 > len as u128 {
        return RepairReport { writes, result: Err(Error::SegmentCorrupt(id)) };
    }
    let section_at: usize = header.parity_offset as usize;
    let section_end: usize = section_at + header.parity_size as usize;
    let section = match ParitySection::parse(slice_subrange(file, section_at, section_end)) {
        Some(section) => section,
        None => {
            return RepairReport { writes, result: Err(Error::SegmentCorrupt(id)) };
        },
    };
    let ghost p = section@;
    let k: usize = section.k;
    let m: usize = section.m;
    let count: usize = section.stripe_count;
    let n: usize = data.len();
    proof {
        assert(p.k <= 0xFF && p.m <= 0xFF);
        assert(p.strip <= 0xFFFF_FFFF && p.stripe_count <= 0xFFFF_FFFF);
        assert(p.k * p.strip <= 0xFF * 0xFFFF_FFFF) by (nonlinear_arith)
            requires
                p.k <= 0xFF,
                p.strip <= 0xFFFF_FFFF,
        ;
        let stripe_len = p.stripe_len();
        assert(p.stripe_count * stripe_len <= 0xFFFF_FFFF * (0xFF * 0xFFFF_FFFF))
            by (nonlinear_arith)
            requires
                p.stripe_count <= 0xFFFF_FFFF,
                stripe_len <= 0xFF * 0xFFFF_FFFF,
        ;
    }
    let covered: u128 = count as u128 * (k as u128 * section.strip as u128);
    if (n as u128) < covered {
        return RepairReport { writes, result: Err(Error::SegmentCorrupt(id)) };
    }
    assert(repair_input(header@, file@) == Some((data@, p)));
    assert(section_at + PARITY_SECTION_HEADER_SIZE + p.shards.len() <= file@.len());
    assert(data_at + p.stripe_count * p.stripe_len() <= file@.len()) by {
        assert(p.stripe_count * p.stripe_len() > 0) by (nonlinear_arith)
            requires
                p.stripe_count > 0,
                p.stripe_len() == p.k * p.strip,
                p.k > 0,
                p.strip > 0,
        ;
    }
    let mut repaired: usize = 0;
    let mut stripe: usize = 0;
    let ghost mut answers: Seq<StripeAnswer> = Seq::empty();
    while stripe < count
        invariant
            stripe <= count == p.stripe_count,
            p == section@,
            p.wf(),
            p.k <= 0xFF,
            p.m <= 0xFF,
            n == data@.len(),
            count * p.stripe_len() <= n,
            data_at + n <= usize::MAX,
            section_at + PARITY_SECTION_HEADER_SIZE + p.shards.len() <= usize::MAX,
            repair_input(header@, file@) == Some((data@, p)),
            data_at == header@.data_range().0,
            section_at == header@.parity_offset,
            id == header@.segment_id,
            repaired <= stripe == answers.len(),
            forall|i: int|
                0 <= i < answers.len() ==> codec_answered(
                    decoder,
                    encoder,
                    p,
                    data@,
                    i,
                    #[trigger] answers[i],
                ),
            repair_outcome(id, p, data_at as int, section_at as int, data@, answers) == (
                writes_view(writes@),
                Ok::<nat, Error>(repaired as nat),
            ),
        decreases count - stripe,
    {
        proof {
            assert((stripe + 1) * p.stripe_len() <= count * p.stripe_len()) by (nonlinear_arith)
                requires
                    stripe + 1 <= count,
                    p.stripe_len() >= 0,
            ;
        }
        let flags = find_damage(&section, data, stripe);
        let ghost w0 = writes_view(writes@);
        if count_damage(&flags) == 0 {
            proof {
                assert forall|idx: int| 0 <= idx < p.k + p.m implies #[trigger] p.intact(
                    data@,
                    stripe as int,
                    idx,
                ) by {
                    assert(!flags@[idx]);
                }
                let none: StripeAnswer = arbitrary();
                assert(answers.push(none).drop_last() =~= answers);
                assert(w0 + Seq::<RangeView>::empty() =~= w0);
                answers = answers.push(none);
            }
        } else {
            proof {
                let i = choose|i: int| 0 <= i < flags@.len() && #[trigger] flags@[i];
                assert(!p.intact(data@, stripe as int, i));
            }
            let r = repair_stripe(
                id,
                &section,
                data,
                data_at,
                section_at,
                stripe,
                &flags,
                decoder,
                encoder,
                &mut writes,
            );
            proof {
                let answer = choose|answer: StripeAnswer|
                    {
                        let end = stripe_outcome(
                            id,
                            p,
                            data_at as int,
                            section_at as int,
                            data@,
                            stripe as int,
                            answer,
                        );
                        &&& #[trigger] codec_answered(
                            decoder,
                            encoder,
                            p,
                            data@,
                            stripe as int,
                            answer,
                        )
                        &&& writes_view(writes@) == w0 + end.0
                        &&& r == end.1
                    };
                assert(answers.push(answer).drop_last() =~= answers);
                answers = answers.push(answer);
            }
            match r {
                Ok(()) => {},
                Err(e) => {
                    let report = RepairReport { writes, result: Err(e) };
                    assert(repair_ended(
                        decoder,
                        encoder,
                        header@.segment_id,
                        p,
                        header@.data_range().0,
                        header@.parity_offset as int,
                        data@,
                        answers,
                        writes_view(report.writes@),
                        matches_checksum(header@, after_writes(file@, writes_view(report.writes@))),
                        report.result,
                    ));
                    return report;
                },
            }
            repaired = repaired + 1;
        }
        stripe = stripe + 1;
    }
    let result: Result<usize, Error> = if repaired == 0 {
        Err(Error::SegmentCorrupt(id))
    } else {
        proof {
            lemma_repair_starts_within(
                id,
                p,
                data_at as int,
                section_at as int,
                data@,
                answers,
                file@.len(),
            );
            let end = repair_outcome(id, p, data_at as int, section_at as int, data@, answers);
            assert(end.0 == writes_view(writes@));
            assert forall|i: int| 0 <= i < writes@.len() implies starts_within(
                #[trigger] writes_view(writes@)[i],
                file@.len(),
            ) by {
                assert(starts_within(end.0[i], file@.len()));
            }
        }
        if check_checksum(header, apply_writes(file, &writes).as_slice()) {
            Ok(repaired)
        } else {
            Err(Error::SegmentCorrupt(id))
        }
    };
    assert(repair_ended(
        decoder,
        encoder,
        header@.segment_id,
        p,
        header@.data_range().0,
        header@.parity_offset as int,
        data@,
        answers,
        writes_view(writes@),
        matches_checksum(header@, after_writes(file@, writes_view(writes@))),
        result,
    ));
    RepairReport { writes, result }
}

/// The first bytes of a file.
pub open spec fn file_prefix(file: Seq<u8>) -> Seq<u8> {
    if file.len() <= HEADER_PREFIX {
        file
    } else {
        file.take(HEADER_PREFIX as int)
    }
}

/// The bytes of a file that its checksum covers.
pub open spec fn hashed_bytes(h: HeaderView, file: Seq<u8>) -> Seq<u8> {
    let data = h.data_of(file);
    if h.parity_size > 0 {
        data + file.subrange(h.parity_offset as int, h.parity_offset + h.parity_size)
    } else {
        data
    }
}

/// What verifying a file, and repairing it when it is damaged, can report.
pub open spec fn verify_reported<D: Decoder, E: Encoder>(
    decoder: &D,
    encoder: &E,
    file: Seq<u8>,
    writes: Seq<RangeView>,
    result: Result<usize, Error>,
) -> bool {
    match checked_header(file_prefix(file), file.len()) {
        Err(id) => writes.len() == 0 && result == Err::<usize, Error>(Error::SegmentCorrupt(id)),
        Ok(h) => if matches_checksum(h, file) {
            writes.len() == 0 && result == Ok::<usize, Error>(0)
        } else if h.parity_offset == 0 || h.parity_size == 0 {
            writes.len() == 0 && result == Err::<usize, Error>(
                Error::SegmentCorrupt(h.segment_id),
            )
        } else {
            match repair_input(h, file) {
                None => writes.len() == 0 && result == Err::<usize, Error>(
                    Error::SegmentCorrupt(h.segment_id),
                ),
                Some((data, p)) => repair_reported(
                    decoder,
                    encoder,
                    h,
                    file,
                    data,
                    p,
                    writes,
                    result,
                ),
            }
        },
    }
}

/// Verifies a file, and repairs it when it is damaged. A healthy file gives no
/// repaired stripe and no write.
pub fn verify_and_repair_segment<D: Decoder, E: Encoder>(file: &[u8], decoder: &D, encoder: &E) -> (report:
    RepairReport)
    requires
        file@.len() <= isize::MAX,
    ensures
        match checked_header(file_prefix(file@), file@.len()) {
            Err(id) => report.writes@.len() == 0 && report.result == Err::<usize, Error>(
                Error::SegmentCorrupt(id),
            ),
            Ok(h) => if matches_checksum(h, file@) {
                report.writes@.len() == 0 && report.result == Ok::<usize, Error>(0)
            } else if h.parity_offset == 0 || h.parity_size == 0 {
                report.writes@.len() == 0 && report.result == Err::<usize, Error>(
                    Error::SegmentCorrupt(h.segment_id),
                )
            } else {
                match repair_input(h, file@) {
                    None => report.writes@.len() == 0 && report.result == Err::<usize, Error>(
                        Error::SegmentCorrupt(h.segment_id),
                    ),
                    Some((data, p)) => repair_reported(
                        decoder,
                        encoder,
                        h,
                        file@,
                        data,
                        p,
                        writes_view(report.writes@),
                        report.result,
                    ),
                }
            },
        },
        verify_reported(
            decoder,
            encoder,
            file@,
            writes_view(report.writes@),
            report.result,
        ),
        is_healthy(file@) ==> report.writes@.len() == 0 && report.result == Ok::<usize, Error>(0),
{
    let len: usize = file.len();
    let cut: usize = if len <= HEADER_PREFIX {
        len
    } else {
        HEADER_PREFIX
    };
    let prefix = slice_subrange(file, 0, cut);
    assert(prefix@ =~= file_prefix(file@));
    let mut verifier = match SegmentVerifier::begin(prefix, len as u64) {
        Ok(verifier) => verifier,
        Err(e) => {
            let report = RepairReport { writes: Vec::new(), result: Err(e) };
            proof {
                let writes = writes_view(report.writes@);
                if is_healthy(file@) {
                    law_healthy_file_is_left_alone(decoder, encoder, file@, writes, report.result);
                }
            }
            return report;
        },
    };
    let ghost h = verifier.header();
    let data = data_slice(verifier.segment_header(), file);
    verifier.feed(data);
    assert(verifier.input() =~= data@);
    let parity_at: u64 = verifier.segment_header().parity_offset;
    let parity_size: u64 = verifier.segment_header().parity_size;
    if parity_size > 0 {
        let section = slice_subrange(
            file,
            parity_at as usize,
            parity_at as usize + parity_size as usize,
        );
        verifier.feed(section);
    }
    assert(verifier.input() =~= hashed_bytes(h, file@));
    let report = match verifier.finish() {
        Ok(true) => RepairReport { writes: Vec::new(), result: Ok(0) },
        Ok(false) => repair_segment(verifier.segment_header(), file, decoder, encoder),
        Err(e) => RepairReport { writes: Vec::new(), result: Err(e) },
    };
    proof {
        let writes = writes_view(report.writes@);
        assert(verify_reported(decoder, encoder, file@, writes, report.result));
        if is_healthy(file@) {
            law_healthy_file_is_left_alone(decoder, encoder, file@, writes, report.result);
        }
    }
    report
}

} // verus!
