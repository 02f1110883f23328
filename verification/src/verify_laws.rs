//! What verifying and repairing a segment file promises, in terms of the file's
//! bytes.
use crate::checksum::blake3_digest;
use crate::codec::{Decoder, Encoder};
use crate::error::Error;
use crate::header::{parse_header, HeaderView};
use crate::parity_section::{parse_section, ParityView};
use crate::repair::{
    after_write, after_writes, checked_header, codec_answered, count_set, damage, damaged_stripes,
    file_prefix, hashed_bytes, is_damaged, matches_checksum, padded, parity_covers, parity_lost,
    recovery_holds, repair_ended, repair_input, repair_outcome, repair_reported, starts_within,
    survivors, verify_reported, RangeView, StripeAnswer, HEADER_PREFIX,
};
use crate::repair_laws::{
    is_repair, law_repair_replaces_damage, law_repair_succeeds, lemma_repair_starts_within,
    stripe_repaired,
};
use crate::types::SegmentId;
use vstd::prelude::*;

verus! {

/// A file as its header is read from it: as if zeros followed it.
pub open spec fn zero_filled(file: Seq<u8>) -> Seq<u8> {
    file + Seq::new(HEADER_PREFIX as nat, |i: int| 0u8)
}

/// Where the data of a file with this header begins.
pub open spec fn data_starts(h: HeaderView) -> int {
    if h.version >= 2 {
        92
    } else {
        76
    }
}

/// Where the data of a file with this header ends: at its parity section, or at
/// its index when it has none.
pub open spec fn data_ends(h: HeaderView) -> int {
    if h.parity_offset > 0 {
        h.parity_offset as int
    } else {
        h.index_offset as int
    }
}

/// The file holds all that its header tells of: the data, and the parity section
/// where there is one. More may follow.
pub open spec fn is_whole(h: HeaderView, file: Seq<u8>) -> bool {
    &&& data_ends(h) <= file.len()
    &&& h.parity_size > 0 ==> h.parity_offset + h.parity_size <= file.len()
}

/// The data of a file and the parity section behind it.
pub open spec fn data_and_parity(h: HeaderView, file: Seq<u8>) -> Seq<u8> {
    let data = if data_starts(h) < data_ends(h) {
        file.subrange(data_starts(h), data_ends(h))
    } else {
        Seq::empty()
    };
    let section = if h.parity_size > 0 {
        file.subrange(h.parity_offset as int, h.parity_offset + h.parity_size)
    } else {
        Seq::empty()
    };
    data + section
}

/// The file begins with a header, holds all that the header tells of, and its
/// data and parity section have the checksum of the header.
pub open spec fn is_healthy(file: Seq<u8>) -> bool {
    &&& file.len() >= 76
    &&& parse_header(zero_filled(file)) matches Some(h) && {
        &&& is_whole(h, file)
        &&& blake3_digest(data_and_parity(h, file)) == h.checksum
    }
}

/// The header of a file is in its first bytes.
proof fn lemma_same_header(a: Seq<u8>, b: Seq<u8>)
    requires
        a.len() >= 92,
        b.len() >= 92,
        a.take(92) == b.take(92),
    ensures
        parse_header(a) == parse_header(b),
{
    assert forall|i: int, j: int| 0 <= i <= j <= 92 implies #[trigger] a.subrange(i, j)
        == b.subrange(i, j) by {
        assert(a.subrange(i, j) =~= a.take(92).subrange(i, j));
        assert(b.subrange(i, j) =~= b.take(92).subrange(i, j));
    }
    if parse_header(a) is Some {
        assert(parse_header(a)->0 =~= parse_header(b)->0);
    }
}

/// The header that a verification goes by.
proof fn lemma_checked_header(file: Seq<u8>)
    ensures
        file.len() < 76 ==> checked_header(file_prefix(file), file.len()) == Err::<
            HeaderView,
            SegmentId,
        >(SegmentId { bits: 0 }),
        file.len() >= 76 ==> checked_header(file_prefix(file), file.len()) == (match parse_header(
            zero_filled(file),
        ) {
            None => Err::<HeaderView, SegmentId>(SegmentId { bits: 0 }),
            Some(h) => if is_whole(h, file) {
                Ok(h)
            } else {
                Err(h.segment_id)
            },
        }),
        file.len() >= 92 ==> parse_header(zero_filled(file)) == parse_header(file),
{
    let prefix = file_prefix(file);
    assert(padded(prefix).take(92) =~= zero_filled(file).take(92));
    lemma_same_header(padded(prefix), zero_filled(file));
    if file.len() >= 92 {
        assert(file.take(92) =~= zero_filled(file).take(92));
        lemma_same_header(file, zero_filled(file));
    }
}

/// What the checksum of a whole file covers is its data and its parity section.
proof fn lemma_hashed(h: HeaderView, file: Seq<u8>)
    requires
        is_whole(h, file),
    ensures
        hashed_bytes(h, file) == data_and_parity(h, file),
        matches_checksum(h, file) == (blake3_digest(data_and_parity(h, file)) == h.checksum),
{
    assert(hashed_bytes(h, file) =~= data_and_parity(h, file));
}

/// A healthy file is left alone: its verification counts no repaired stripe and
/// asks for no write, whatever stands behind its parity section.
pub proof fn law_healthy_file_is_left_alone<D: Decoder, E: Encoder>(
    decoder: &D,
    encoder: &E,
    file: Seq<u8>,
    writes: Seq<RangeView>,
    result: Result<usize, Error>,
)
    requires
        verify_reported(decoder, encoder, file, writes, result),
        is_healthy(file),
    ensures
        result == Ok::<usize, Error>(0),
        writes.len() == 0,
{
    lemma_checked_header(file);
    lemma_hashed(parse_header(zero_filled(file))->0, file);
}

/// The verification of a file that is not healthy never passes for that of a
/// healthy one: it counts a repaired stripe, or it fails.
pub proof fn law_damage_is_noticed<D: Decoder, E: Encoder>(
    decoder: &D,
    encoder: &E,
    file: Seq<u8>,
    writes: Seq<RangeView>,
    result: Result<usize, Error>,
)
    requires
        verify_reported(decoder, encoder, file, writes, result),
        !is_healthy(file),
    ensures
        result != Ok::<usize, Error>(0),
{
    lemma_checked_header(file);
    if file.len() >= 76 && parse_header(zero_filled(file)) is Some {
        let h = parse_header(zero_filled(file))->0;
        if is_whole(h, file) {
            lemma_hashed(h, file);
        }
    }
}

/// A file without a header is refused as an unknown segment, and one that is cut
/// before the end of its data or of its parity section as the segment that its
/// header names. A damaged file without a parity section is refused, too. Nothing
/// is written to any of them.
pub proof fn law_unusable_file_is_refused<D: Decoder, E: Encoder>(
    decoder: &D,
    encoder: &E,
    file: Seq<u8>,
    writes: Seq<RangeView>,
    result: Result<usize, Error>,
)
    requires
        verify_reported(decoder, encoder, file, writes, result),
    ensures
        file.len() < 76 || parse_header(zero_filled(file)) is None ==> writes.len() == 0 && result
            == Err::<usize, Error>(Error::SegmentCorrupt(SegmentId { bits: 0 })),
        file.len() >= 76 ==> (parse_header(zero_filled(file)) matches Some(h) ==> !is_whole(h, file)
            || (!is_healthy(file) && (h.parity_offset == 0 || h.parity_size == 0)) ==> writes.len()
            == 0 && result == Err::<usize, Error>(Error::SegmentCorrupt(h.segment_id))),
{
    lemma_checked_header(file);
    if file.len() >= 76 && parse_header(zero_filled(file)) is Some {
        let h = parse_header(zero_filled(file))->0;
        if is_whole(h, file) {
            lemma_hashed(h, file);
        }
    }
}

/// Writes that start within a file do to its bytes what they do to them when more
/// bytes follow.
proof fn lemma_writes_keep_prefix(file: Seq<u8>, tail: Seq<u8>, writes: Seq<RangeView>)
    requires
        forall|i: int| 0 <= i < writes.len() ==> starts_within(#[trigger] writes[i], file.len()),
    ensures
        after_writes(file, writes).len() >= file.len(),
        after_writes(file + tail, writes).len() >= file.len(),
        after_writes(file + tail, writes).take(file.len() as int) == after_writes(
            file,
            writes,
        ).take(file.len() as int),
    decreases writes.len(),
{
    let n = file.len() as int;
    if writes.len() == 0 {
        assert((file + tail).take(n) =~= file.take(n));
    } else {
        let before = writes.drop_last();
        let w = writes.last();
        assert forall|i: int| 0 <= i < before.len() implies starts_within(
            #[trigger] before[i],
            file.len(),
        ) by {
            assert(before[i] == writes[i]);
        }
        lemma_writes_keep_prefix(file, tail, before);
        assert(starts_within(writes[writes.len() - 1], file.len()));
        let a = after_writes(file, before);
        let b = after_writes(file + tail, before);
        assert forall|i: int| 0 <= i < n implies after_write(a, w)[i] == after_write(b, w)[i] by {
            assert(a.take(n)[i] == b.take(n)[i]);
        }
        assert(after_write(a, w).take(n) =~= after_write(b, w).take(n));
    }
}

/// Parts of a file that are the same when more bytes follow.
proof fn lemma_tail_keeps_parts(h: HeaderView, file: Seq<u8>, tail: Seq<u8>)
    requires
        is_whole(h, file),
        h.parity_size > 0,
    ensures
        is_whole(h, file + tail),
        data_and_parity(h, file + tail) == data_and_parity(h, file),
        repair_input(h, file + tail) == repair_input(h, file),
{
    let longer = file + tail;
    assert(data_and_parity(h, longer) =~= data_and_parity(h, file));
    let end = h.parity_offset + h.parity_size;
    assert(longer.subrange(h.parity_offset as int, end) =~= file.subrange(
        h.parity_offset as int,
        end,
    ));
    assert(h.data_of(longer) =~= h.data_of(file));
}

proof fn lemma_repair_with_tail<D: Decoder, E: Encoder>(
    decoder: &D,
    encoder: &E,
    h: HeaderView,
    file: Seq<u8>,
    tail: Seq<u8>,
    data: Seq<u8>,
    p: ParityView,
    writes: Seq<RangeView>,
    result: Result<usize, Error>,
)
    requires
        is_whole(h, file),
        h.parity_offset > 0,
        h.parity_size > 0,
        repair_input(h, file) == Some((data, p)),
    ensures
        repair_reported(decoder, encoder, h, file, data, p, writes, result) <==> repair_reported(
            decoder,
            encoder,
            h,
            file + tail,
            data,
            p,
            writes,
            result,
        ),
{
    let longer = file + tail;
    assert forall|answers: Seq<StripeAnswer>|
        answers.len() <= p.stripe_count && writes == (#[trigger] repair_outcome(
            h.segment_id,
            p,
            h.data_range().0,
            h.parity_offset as int,
            data,
            answers,
        )).0 implies matches_checksum(h, after_writes(file, writes)) == matches_checksum(
        h,
        after_writes(longer, writes),
    ) by {
        lemma_repair_writes_within(h, file, data, p, answers);
        lemma_writes_keep_prefix(file, tail, writes);
        let a = after_writes(file, writes);
        let b = after_writes(longer, writes);
        let n = file.len() as int;
        lemma_hashed(h, a);
        lemma_hashed(h, b);
        lemma_same_prefix_same_parts(h, a, b, n);
    }
    if repair_reported(decoder, encoder, h, file, data, p, writes, result) {
        let answers = choose|answers: Seq<StripeAnswer>| #[trigger]
            repair_ended(
                decoder,
                encoder,
                h.segment_id,
                p,
                h.data_range().0,
                h.parity_offset as int,
                data,
                answers,
                writes,
                matches_checksum(h, after_writes(file, writes)),
                result,
            );
        assert(repair_ended(
            decoder,
            encoder,
            h.segment_id,
            p,
            h.data_range().0,
            h.parity_offset as int,
            data,
            answers,
            writes,
            matches_checksum(h, after_writes(longer, writes)),
            result,
        ));
    }
    if repair_reported(decoder, encoder, h, longer, data, p, writes, result) {
        let answers = choose|answers: Seq<StripeAnswer>| #[trigger]
            repair_ended(
                decoder,
                encoder,
                h.segment_id,
                p,
                h.data_range().0,
                h.parity_offset as int,
                data,
                answers,
                writes,
                matches_checksum(h, after_writes(longer, writes)),
                result,
            );
        assert(repair_ended(
            decoder,
            encoder,
            h.segment_id,
            p,
            h.data_range().0,
            h.parity_offset as int,
            data,
            answers,
            writes,
            matches_checksum(h, after_writes(file, writes)),
            result,
        ));
    }
}

/// The writes of the repair of a file start behind its header and within it.
proof fn lemma_repair_writes_within(
    h: HeaderView,
    file: Seq<u8>,
    data: Seq<u8>,
    p: ParityView,
    answers: Seq<StripeAnswer>,
)
    requires
        is_whole(h, file),
        h.parity_offset > 0,
        h.parity_size > 0,
        repair_input(h, file) == Some((data, p)),
        answers.len() <= p.stripe_count,
    ensures
        ({
            let writes = repair_outcome(
                h.segment_id,
                p,
                h.data_range().0,
                h.parity_offset as int,
                data,
                answers,
            ).0;
            forall|i: int|
                0 <= i < writes.len() ==> starts_within(#[trigger] writes[i], file.len())
                    && writes[i].offset >= data_starts(h)
        }),
        p.wf(),
{
    let section = file.subrange(h.parity_offset as int, h.parity_offset + h.parity_size);
    assert(parse_section(section) == Some(p));
    assert(p.wf());
    assert(p.stripe_count * p.stripe_len() > 0) by (nonlinear_arith)
        requires
            p.stripe_count > 0,
            p.stripe_len() == p.k * p.strip,
            p.k > 0,
            p.strip > 0,
    ;
    lemma_repair_starts_within(
        h.segment_id,
        p,
        h.data_range().0,
        h.parity_offset as int,
        data,
        answers,
        file.len(),
    );
    law_repair_replaces_damage(
        h.segment_id,
        p,
        h.data_range().0,
        h.parity_offset as int,
        data,
        answers,
    );
    let writes = repair_outcome(
        h.segment_id,
        p,
        h.data_range().0,
        h.parity_offset as int,
        data,
        answers,
    ).0;
    assert forall|i: int| 0 <= i < writes.len() implies (#[trigger] writes[i]).offset
        >= data_starts(h) by {
        assert(is_repair(p, h.data_range().0, h.parity_offset as int, data, writes[i]));
        lemma_repair_offset(p, h.data_range().0, h.parity_offset as int, data, writes[i]);
    }
}

/// Where a repair writes.
proof fn lemma_repair_offset(
    p: ParityView,
    data_at: int,
    section_at: int,
    data: Seq<u8>,
    w: RangeView,
)
    requires
        p.wf(),
        is_repair(p, data_at, section_at, data, w),
    ensures
        w.offset >= data_at || w.offset >= section_at,
{
    let stripe = choose|stripe: int|
        crate::repair_laws::repairs_some_data(p, data_at, data, w, stripe)
            || crate::repair_laws::repairs_some_parity(p, section_at, data, w, stripe);
    if crate::repair_laws::repairs_some_data(p, data_at, data, w, stripe) {
        let d = choose|d: int| crate::repair_laws::repairs_data(p, data_at, data, w, stripe, d);
        crate::parity_section::lemma_data_shard_range(p, stripe, d);
    } else {
        let d = choose|d: int|
            crate::repair_laws::repairs_parity(p, section_at, data, w, stripe, d);
        crate::parity_section::lemma_parity_shard_range(p, stripe, d);
        assert(stripe * p.m >= 0) by (nonlinear_arith)
            requires
                stripe >= 0,
                p.m >= 0,
        ;
    }
}

proof fn lemma_same_prefix_same_parts(h: HeaderView, a: Seq<u8>, b: Seq<u8>, n: int)
    requires
        0 <= n <= a.len(),
        n <= b.len(),
        a.take(n) == b.take(n),
        is_whole(h, a.take(n)),
    ensures
        data_and_parity(h, a) == data_and_parity(h, b),
{
    assert(data_and_parity(h, a) =~= data_and_parity(h, a.take(n)));
    assert(data_and_parity(h, b) =~= data_and_parity(h, b.take(n)));
}

/// What stands behind the parity section of a file, such as its index, has no
/// part in its verification or in its repair: the same reports can come of the
/// file with any other bytes behind it.
pub proof fn law_bytes_behind_parity_do_not_matter<D: Decoder, E: Encoder>(
    decoder: &D,
    encoder: &E,
    file: Seq<u8>,
    tail: Seq<u8>,
    h: HeaderView,
    writes: Seq<RangeView>,
    result: Result<usize, Error>,
)
    requires
        file.len() >= 92,
        parse_header(file) == Some(h),
        is_whole(h, file),
    ensures
        verify_reported(decoder, encoder, file, writes, result) <==> verify_reported(
            decoder,
            encoder,
            file + tail,
            writes,
            result,
        ),
{
    let longer = file + tail;
    lemma_checked_header(file);
    lemma_checked_header(longer);
    assert(file.take(92) =~= longer.take(92));
    lemma_same_header(file, longer);
    lemma_hashed(h, file);
    assert(data_and_parity(h, longer) =~= data_and_parity(h, file));
    lemma_hashed(h, longer);
    if h.parity_offset > 0 && h.parity_size > 0 {
        lemma_tail_keeps_parts(h, file, tail);
        if repair_input(h, file) is Some {
            let (data, p) = repair_input(h, file)->0;
            lemma_repair_with_tail(decoder, encoder, h, file, tail, data, p, writes, result);
        }
    }
}

/// A file that was repaired is healthy once the writes were made: its next
/// verification leaves it alone. The repair counts the damaged stripes, of which
/// there was at least one, and none of them had more than `m` damaged shards.
pub proof fn law_repaired_file_is_healthy<D: Decoder, E: Encoder>(
    decoder: &D,
    encoder: &E,
    file: Seq<u8>,
    h: HeaderView,
    data: Seq<u8>,
    p: ParityView,
    writes: Seq<RangeView>,
    count: usize,
)
    requires
        file.len() >= 92,
        parse_header(file) == Some(h),
        h.parity_offset > 0,
        h.parity_size > 0,
        repair_input(h, file) == Some((data, p)),
        !is_healthy(file),
        verify_reported(decoder, encoder, file, writes, Ok(count)),
    ensures
        is_healthy(after_writes(file, writes)),
        count > 0,
        writes.len() > 0,
        count == damaged_stripes(p, data, p.stripe_count as int),
        forall|stripe: int|
            0 <= stripe < p.stripe_count && is_damaged(p, data, stripe) ==> count_set(
                #[trigger] damage(p, data, stripe),
            ) <= p.m,
        forall|stripe: int|
            0 <= stripe < p.stripe_count ==> #[trigger] stripe_repaired(
                p,
                h.data_range().0,
                h.parity_offset as int,
                data,
                writes,
                stripe,
            ),
{
    lemma_checked_header(file);
    assert(is_whole(h, file));
    lemma_hashed(h, file);
    let answers = choose|answers: Seq<StripeAnswer>| #[trigger]
        repair_ended(
            decoder,
            encoder,
            h.segment_id,
            p,
            h.data_range().0,
            h.parity_offset as int,
            data,
            answers,
            writes,
            matches_checksum(h, after_writes(file, writes)),
            Ok(count),
        );
    law_repair_replaces_damage(
        h.segment_id,
        p,
        h.data_range().0,
        h.parity_offset as int,
        data,
        answers,
    );
    lemma_repair_writes_within(h, file, data, p, answers);
    let repaired = after_writes(file, writes);
    lemma_writes_keep_prefix(file, Seq::empty(), writes);
    lemma_writes_keep_start(file, writes, data_starts(h));
    if h.version < 2 {
        assert(h.parity_size == 0);
    }
    assert(zero_filled(repaired).take(92) =~= repaired.take(92));
    assert(repaired.take(92) =~= file.take(92));
    lemma_same_header(file, zero_filled(repaired));
    lemma_hashed(h, repaired);
    if writes.len() == 0 {
        assert(after_writes(file, writes) == file);
    }
}

/// Writes behind the first bytes of a file leave them as they are.
proof fn lemma_writes_keep_start(file: Seq<u8>, writes: Seq<RangeView>, n: int)
    requires
        0 <= n <= file.len(),
        forall|i: int|
            0 <= i < writes.len() ==> starts_within(#[trigger] writes[i], file.len())
                && writes[i].offset >= n,
    ensures
        after_writes(file, writes).len() >= file.len(),
        after_writes(file, writes).take(n) == file.take(n),
    decreases writes.len(),
{
    if writes.len() > 0 {
        let before = writes.drop_last();
        assert forall|i: int| 0 <= i < before.len() implies starts_within(
            #[trigger] before[i],
            file.len(),
        ) && before[i].offset >= n by {
            assert(before[i] == writes[i]);
        }
        lemma_writes_keep_start(file, before, n);
        assert(starts_within(writes[writes.len() - 1], file.len()));
        let a = after_writes(file, before);
        assert forall|i: int| 0 <= i < n implies after_write(a, writes.last())[i] == file[i] by {
            assert(a.take(n)[i] == file.take(n)[i]);
        }
        assert(after_writes(file, writes).take(n) =~= file.take(n));
    }
}

/// The codec does its work on the damaged stripes that can be repaired: to the
/// shards that survive it answers with the data shards that the hash table
/// expects, and to these with all parity shards that are lost.
pub open spec fn codec_works<D: Decoder, E: Encoder>(
    decoder: &D,
    encoder: &E,
    p: ParityView,
    data: Seq<u8>,
) -> bool {
    forall|i: int, answer: StripeAnswer|
        0 <= i < p.stripe_count && is_damaged(p, data, i) && #[trigger] codec_answered(
            decoder,
            encoder,
            p,
            data,
            i,
            answer,
        ) ==> {
            &&& answer.decoded is Ok
            &&& recovery_holds(p, i, answer.decoded->Ok_0@)
            &&& parity_lost(p, data, i) ==> answer.encoded is Ok && parity_covers(
                p,
                data,
                i,
                answer.encoded->Ok_0@,
            )
        }
}

/// A damaged file is repaired when no stripe has more than `m` damaged shards and
/// the codec does its work: every damaged shard is replaced, and the repair
/// succeeds just when the file then has its checksum. A file with a stripe that
/// has more damaged shards is never repaired.
pub proof fn law_damaged_file_is_repaired<D: Decoder, E: Encoder>(
    decoder: &D,
    encoder: &E,
    file: Seq<u8>,
    h: HeaderView,
    data: Seq<u8>,
    p: ParityView,
    writes: Seq<RangeView>,
    result: Result<usize, Error>,
)
    requires
        file.len() >= 92,
        parse_header(file) == Some(h),
        is_whole(h, file),
        h.parity_offset > 0,
        h.parity_size > 0,
        repair_input(h, file) == Some((data, p)),
        !is_healthy(file),
        verify_reported(decoder, encoder, file, writes, result),
        codec_works(decoder, encoder, p, data),
    ensures
        ({
            let mendable = forall|stripe: int|
                0 <= stripe < p.stripe_count && is_damaged(p, data, stripe) ==> count_set(
                    #[trigger] damage(p, data, stripe),
                ) <= p.m;
            &&& mendable ==> (result is Ok <==> is_healthy(after_writes(file, writes)))
            &&& mendable ==> forall|stripe: int|
                0 <= stripe < p.stripe_count ==> #[trigger] stripe_repaired(
                    p,
                    h.data_range().0,
                    h.parity_offset as int,
                    data,
                    writes,
                    stripe,
                )
            &&& !mendable ==> result is Err
        }),
{
    lemma_checked_header(file);
    lemma_hashed(h, file);
    let answers = choose|answers: Seq<StripeAnswer>| #[trigger]
        repair_ended(
            decoder,
            encoder,
            h.segment_id,
            p,
            h.data_range().0,
            h.parity_offset as int,
            data,
            answers,
            writes,
            matches_checksum(h, after_writes(file, writes)),
            result,
        );
    law_repair_replaces_damage(
        h.segment_id,
        p,
        h.data_range().0,
        h.parity_offset as int,
        data,
        answers,
    );
    let mendable = forall|stripe: int|
        0 <= stripe < p.stripe_count && is_damaged(p, data, stripe) ==> count_set(
            #[trigger] damage(p, data, stripe),
        ) <= p.m;
    if mendable {
        assert forall|i: int| 0 <= i < answers.len() && is_damaged(p, data, i) implies {
            &&& count_set(damage(p, data, i)) <= p.m
            &&& (#[trigger] answers[i]).decoded is Ok
            &&& recovery_holds(p, i, answers[i].decoded->Ok_0@)
            &&& parity_lost(p, data, i) ==> answers[i].encoded is Ok && parity_covers(
                p,
                data,
                i,
                answers[i].encoded->Ok_0@,
            )
        } by {
            assert(codec_answered(decoder, encoder, p, data, i, answers[i]));
            assert(count_set(damage(p, data, i)) <= p.m);
        }
        law_repair_succeeds(
            h.segment_id,
            p,
            h.data_range().0,
            h.parity_offset as int,
            data,
            answers,
        );
        lemma_repair_writes_within(h, file, data, p, answers);
        let repaired = after_writes(file, writes);
        lemma_writes_keep_prefix(file, Seq::empty(), writes);
        lemma_writes_keep_start(file, writes, data_starts(h));
        if h.version < 2 {
            assert(h.parity_size == 0);
        }
        assert(zero_filled(repaired).take(92) =~= repaired.take(92));
        assert(repaired.take(92) =~= file.take(92));
        lemma_same_header(file, zero_filled(repaired));
        lemma_hashed(h, repaired);
        if damaged_stripes(p, data, p.stripe_count as int) == 0 {
            assert(writes.len() == 0);
            assert(after_writes(file, writes) == file);
        }
    }
}

/// The pieces of a file that are to be fed to a verification, one behind the
/// other, are its data and its parity section.
pub proof fn law_ranges_are_data_and_parity(h: HeaderView, file: Seq<u8>)
    requires
        is_whole(h, file),
        data_starts(h) <= file.len(),
    ensures
        ({
            let ranges = h.hashed_ranges();
            &&& forall|i: int|
                0 <= i < ranges.len() ==> 0 <= (#[trigger] ranges[i]).0 <= ranges[i].1
                    <= file.len()
            &&& data_and_parity(h, file) == crate::parity_section::joined(
                Seq::new(ranges.len(), |i: int| file.subrange(ranges[i].0, ranges[i].1)),
            )
        }),
{
    let ranges = h.hashed_ranges();
    let parts = Seq::new(ranges.len(), |i: int| file.subrange(ranges[i].0, ranges[i].1));
    reveal_with_fuel(crate::parity_section::joined, 3);
    if h.parity_size > 0 {
        assert(parts.drop_last().drop_last() =~= Seq::empty());
        assert(parts.drop_last().last() == parts[0]);
    } else {
        assert(parts.drop_last() =~= Seq::empty());
    }
    assert(crate::parity_section::joined(parts) =~= data_and_parity(h, file));
}

/// A decoder is given the shards of a stripe that have the hash of the table, in their
/// places, and no other.
pub proof fn law_decoder_gets_intact_shards(p: ParityView, data: Seq<u8>, stripe: int, idx: int)
    requires
        0 <= idx < p.k + p.m,
    ensures
        survivors(p, data, stripe).len() == p.k + p.m,
        survivors(p, data, stripe)[idx] matches Some(shard) ==> {
            &&& blake3_digest(shard) == p.shard_hash(stripe, idx)
            &&& idx < p.k ==> shard == data.subrange(
                stripe * (p.k * p.strip) + idx * p.strip,
                stripe * (p.k * p.strip) + idx * p.strip + p.strip,
            )
            &&& idx >= p.k ==> shard == p.shards.subrange(
                (stripe * p.m + (idx - p.k)) * p.strip,
                (stripe * p.m + (idx - p.k)) * p.strip + p.strip,
            )
        },
        survivors(p, data, stripe)[idx] is None <==> damage(p, data, stripe)[idx],
{
}

/// The damaged shards of a stripe are counted one by one: none are counted just when
/// the stripe is whole, and no more than it has.
pub proof fn law_damage_is_counted(flags: Seq<bool>)
    ensures
        count_set(flags) <= flags.len(),
        count_set(flags) == 0 <==> forall|i: int| 0 <= i < flags.len() ==> !(#[trigger] flags[i]),
        count_set(flags.push(true)) == count_set(flags) + 1,
        count_set(flags.push(false)) == count_set(flags),
    decreases flags.len(),
{
    assert(flags.push(true).drop_last() =~= flags);
    assert(flags.push(false).drop_last() =~= flags);
    if flags.len() > 0 {
        let rest = flags.drop_last();
        law_damage_is_counted(rest);
        if count_set(flags) == 0 {
            assert forall|i: int| 0 <= i < flags.len() implies !(#[trigger] flags[i]) by {
                if i < rest.len() {
                    assert(!rest[i]);
                }
            }
        } else if forall|i: int| 0 <= i < flags.len() ==> !(#[trigger] flags[i]) {
            assert(!flags[flags.len() - 1]);
            assert forall|i: int| 0 <= i < rest.len() implies !(#[trigger] rest[i]) by {
                assert(!flags[i]);
            }
        }
    }
}

/// A write replaces the bytes from its offset on, as many as it has, and no others.
pub proof fn law_write_replaces_its_range(file: Seq<u8>, w: RangeView, i: int)
    requires
        starts_within(w, file.len()),
    ensures
        ({
            let after = after_write(file, w);
            let end = w.offset + w.bytes.len();
            &&& after.len() == (if end <= file.len() {
                file.len() as int
            } else {
                end
            })
            &&& w.offset <= i < end ==> after[i] == w.bytes[i - w.offset]
            &&& 0 <= i < w.offset || end <= i < file.len() ==> after[i] == file[i]
        }),
{
}

} // verus!
