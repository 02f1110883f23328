//! Laws of how segment files are laid out: the header, the data, the parity
//! section and what follows them.
use crate::checksum::blake3_digest;
use crate::codec::{by_stripe, complete_stripes, parity_from};
use crate::dat_name::{dat_name, uuid_text};
use crate::data_pass::data_section;
use crate::data_store::{
    direct_padding, geometry, pool_index, pool_of, read_pool_of, v1_header, v1_header_view,
    write_mode, SegmentWriteMode, StoragePool,
};
use crate::encoding::{
    le_u16, le_u32, le_u64, lemma_u16_round_trip, lemma_u32_round_trip, lemma_u64_round_trip,
};
use crate::error::Error;
use crate::header::{
    header_bytes, law_header_round_trip, parse_header, segment_magic, HeaderView, SEGMENT_VERSION,
};
use crate::index::{distinct_offsets, indexes, no_overlap, SegmentIndexEntry};
use crate::lifecycle::{entry_at, Entries};
use crate::metadata_codec::{fields_of, metadata_of, tier_index, FieldsView};
use crate::parity_section::{
    has_parity, joined, lemma_joined_len, lemma_joined_part, section_bytes, segment_hashes,
    segment_shard,
};
use crate::types::{id_bytes, lemma_id_round_trip, MetadataView, SegmentId, SizeTier};
use crate::verify_laws::{data_and_parity, is_healthy, is_whole, zero_filled};
use vstd::prelude::*;

verus! {

/// Where the fields of a header stand.
pub proof fn law_header_layout(h: HeaderView)
    requires
        h.magic == segment_magic(),
        h.checksum.len() == 32,
    ensures
        ({
            let b = header_bytes(h);
            &&& b.len() == 92
            &&& b[0] == 0x4F && b[1] == 0x46 && b[2] == 0x53 && b[3] == 0x47
            &&& b.subrange(4, 6) == le_u16(h.version)
            &&& b.subrange(6, 22) == id_bytes(h.segment_id)
            &&& b.subrange(22, 30) == le_u64(h.size)
            &&& b.subrange(30, 34) == le_u32(h.blob_count)
            &&& b.subrange(34, 42) == le_u64(h.index_offset)
            &&& b.subrange(42, 74) == h.checksum
            &&& b.subrange(74, 82) == le_u64(h.parity_offset)
            &&& b.subrange(82, 90) == le_u64(h.parity_size)
            &&& b[90] == 0 && b[91] == 0
        }),
{
    lemma_id_round_trip(h.segment_id);
    let b = header_bytes(h);
    assert(b.len() == 92);
    assert(b.subrange(4, 6) =~= le_u16(h.version));
    assert(b.subrange(6, 22) =~= id_bytes(h.segment_id));
    assert(b.subrange(22, 30) =~= le_u64(h.size));
    assert(b.subrange(30, 34) =~= le_u32(h.blob_count));
    assert(b.subrange(34, 42) =~= le_u64(h.index_offset));
    assert(b.subrange(42, 74) =~= h.checksum);
    assert(b.subrange(74, 82) =~= le_u64(h.parity_offset));
    assert(b.subrange(82, 90) =~= le_u64(h.parity_size));
}

/// A file that is written as header, data, parity section and index, with the
/// checksum of the data and the section in its header, is healthy.
pub proof fn law_sealed_file_is_healthy(
    h: HeaderView,
    data: Seq<u8>,
    section: Seq<u8>,
    index: Seq<u8>,
)
    requires
        h.magic == segment_magic(),
        h.version == SEGMENT_VERSION,
        h.checksum == blake3_digest(data + section),
        h.checksum.len() == 32,
        section.len() > 0 ==> h.parity_offset == 92 + data.len() && h.parity_size == section.len(),
        section.len() == 0 ==> h.parity_offset == 0 && h.parity_size == 0,
        h.index_offset == 92 + data.len() + section.len(),
    ensures
        is_healthy(header_bytes(h) + data + section + index),
{
    let file = header_bytes(h) + data + section + index;
    law_header_layout(h);
    let zeros = Seq::new(crate::repair::HEADER_PREFIX as nat, |i: int| 0u8);
    law_header_round_trip(h, data + section + index + zeros);
    assert(zero_filled(file) =~= header_bytes(h) + (data + section + index + zeros));
    assert(parse_header(zero_filled(file)) == Some(h));
    assert(is_whole(h, file));
    assert(data_and_parity(h, file) =~= data + section);
}

/// A file that was rewritten with new data is healthy, has no parity section, and
/// its data is what was written, whatever follows it.
pub proof fn law_rewritten_file_is_healthy(data: Seq<u8>, tail: Seq<u8>)
    requires
        blake3_digest(data).len() == 32,
        76 + data.len() <= u64::MAX,
    ensures
        is_healthy(v1_header(data) + data + tail),
        data_section(v1_header(data) + data + tail) == Some((76int, 76 + data.len() as int)),
        (v1_header(data) + data + tail).subrange(76, 76 + data.len() as int) == data,
        parse_header(v1_header(data) + data + tail) matches Some(h) && {
            &&& h.version == 1
            &&& h.size == data.len()
            &&& h.index_offset == 76 + data.len()
            &&& h.parity_offset == 0
            &&& h.parity_size == 0
            &&& h.checksum == blake3_digest(data)
        },
{
    let file = v1_header(data) + data + tail;
    lemma_v1_header(data, data + tail);
    assert(file =~= v1_header(data) + (data + tail));
    let zeros = Seq::new(crate::repair::HEADER_PREFIX as nat, |i: int| 0u8);
    lemma_v1_header(data, data + tail + zeros);
    assert(zero_filled(file) =~= v1_header(data) + (data + tail + zeros));
    let h = v1_header_view(data);
    assert(file.subrange(76, 76 + data.len() as int) =~= data);
    assert(data_and_parity(h, file) =~= data);
}

proof fn lemma_v1_header(data: Seq<u8>, tail: Seq<u8>)
    requires
        blake3_digest(data).len() == 32,
        76 + data.len() <= u64::MAX,
    ensures
        v1_header(data).len() == 76,
        parse_header(v1_header(data) + tail) == Some(v1_header_view(data)),
{
    let b = v1_header(data);
    let all = b + tail;
    let none = Seq::new(16, |i: int| 0u8);
    lemma_u16_round_trip(1u16);
    lemma_u64_round_trip(data.len() as u64);
    lemma_u32_round_trip(0u32);
    lemma_u64_round_trip((76 + data.len()) as u64);
    assert(b.len() == 76);
    assert(all.subrange(0, 4) =~= segment_magic());
    assert(all.subrange(4, 6) =~= le_u16(1u16));
    assert(all.subrange(6, 22) =~= none);
    assert(all.subrange(22, 30) =~= le_u64(data.len() as u64));
    assert(all.subrange(30, 34) =~= le_u32(0u32));
    assert(all.subrange(34, 42) =~= le_u64((76 + data.len()) as u64));
    assert(all.subrange(42, 74) =~= blake3_digest(data));
}

/// A direct write is filled up to a whole number of blocks, by less than a block.
pub proof fn law_direct_write_is_padded(total: nat)
    ensures
        (total + direct_padding(total)) % 512 == 0,
        direct_padding(total) < 512,
        total % 512 == 0 ==> direct_padding(total) == 0,
{
}

/// The pool of an identifier is the first that has it; there is none when no pool
/// has it.
pub proof fn law_first_pool_is_found(pools: Seq<StoragePool>, id: u32)
    ensures
        match pool_index(pools, id) {
            Some(i) => {
                &&& 0 <= i < pools.len()
                &&& pools[i].id == id
                &&& forall|j: int| 0 <= j < i ==> (#[trigger] pools[j]).id != id
            },
            None => forall|j: int| 0 <= j < pools.len() ==> (#[trigger] pools[j]).id != id,
        },
    decreases pools.len(),
{
    if pools.len() > 0 {
        let rest = pools.drop_last();
        law_first_pool_is_found(rest, id);
        assert forall|j: int| 0 <= j < rest.len() implies #[trigger] rest[j] == pools[j] by {}
        if pool_index(rest, id) is None {
            assert forall|j: int| 0 <= j < pools.len() - 1 implies (#[trigger] pools[j]).id
                != id by {
                assert(rest[j].id != id);
            }
        } else {
            let i = pool_index(rest, id)->0;
            assert forall|j: int| 0 <= j < i implies (#[trigger] pools[j]).id != id by {
                assert(rest[j].id != id);
            }
        }
    }
}

/// The complete stripes of a segment are as many as its data fills: the bytes
/// behind them do not fill another. Without erasure coding there are none.
pub proof fn law_complete_stripes_fill_data(len: nat, k: u8, m: u8, strip: nat)
    ensures
        k == 0 || m == 0 || strip == 0 ==> complete_stripes(len, k, m, strip) == 0,
        k > 0 && m > 0 && strip > 0 ==> complete_stripes(len, k, m, strip) * (k * strip) <= len
            && len < (complete_stripes(len, k, m, strip) + 1) * (k * strip),
{
    if k > 0 && m > 0 && strip > 0 {
        let stripe = k as nat * strip;
        assert(stripe > 0) by (nonlinear_arith)
            requires
                stripe == k as nat * strip,
                k > 0,
                strip > 0,
        ;
        let n = len / stripe;
        assert(n * stripe <= len && len < (n + 1) * stripe) by (nonlinear_arith)
            requires
                n == len / stripe,
                stripe > 0,
        ;
        assert(stripe == k * strip);
    }
}

/// The parity shards of a segment come stripe by stripe: shard `p` of stripe `s` is
/// the part of buffer `p` that belongs to the stripe.
pub proof fn law_parity_comes_by_stripe(
    parity: Seq<Vec<u8>>,
    complete: nat,
    m: nat,
    strip: nat,
    s: int,
    p: int,
)
    requires
        0 <= s < complete,
        0 <= p < m,
    ensures
        by_stripe(parity, complete, m, strip).len() == complete * m,
        0 <= s * m + p < complete * m,
        by_stripe(parity, complete, m, strip)[s * m + p] == parity[p]@.subrange(
            s * strip,
            s * strip + strip,
        ),
{
    vstd::arithmetic::div_mod::lemma_fundamental_div_mod_converse(s * m + p, m as int, s, p);
    assert(0 <= s * m && s * m + p < complete * m) by (nonlinear_arith)
        requires
            0 <= s,
            s + 1 <= complete,
            0 <= p < m,
    ;
}

/// How a parity section is laid out: the number of stripes, the two shard counts,
/// two zeros and the size of a shard; then the parity shards; then the hashes of
/// all shards, stripe by stripe, the data shards before the parity shards.
pub proof fn law_section_layout(
    data: Seq<u8>,
    ec_k: u8,
    ec_m: u8,
    parity: Seq<Seq<u8>>,
    stripe: int,
    idx: int,
)
    requires
        has_parity(data, ec_k as nat, ec_m as nat, parity),
        parity.len() / ec_m as nat <= u32::MAX,
        parity[0].len() <= u32::MAX,
        0 <= stripe < parity.len() / ec_m as nat,
        0 <= idx < ec_k + ec_m,
        forall|bytes: Seq<u8>| (#[trigger] blake3_digest(bytes)).len() == 32,
    ensures
        ({
            let b = section_bytes(data, ec_k, ec_m, parity);
            let count = parity.len() / ec_m as nat;
            let strip = parity[0].len();
            let hashes = 12 + parity.len() * strip;
            let at = hashes + (stripe * (ec_k + ec_m) + idx) * 32;
            &&& b.len() == hashes + count * (ec_k + ec_m) * 32
            &&& b.subrange(0, 4) == le_u32(count as u32)
            &&& b[4] == ec_k && b[5] == ec_m && b[6] == 0 && b[7] == 0
            &&& b.subrange(8, 12) == le_u32(strip as u32)
            &&& b.subrange(at, at + 32) == blake3_digest(
                if idx < ec_k {
                    data.subrange(
                        stripe * (ec_k * strip) + idx * strip,
                        stripe * (ec_k * strip) + idx * strip + strip,
                    )
                } else {
                    parity[stripe * ec_m + (idx - ec_k)]
                },
            )
        }),
        forall|q: int|
            0 <= q < parity.len() ==> section_bytes(data, ec_k, ec_m, parity).subrange(
                12 + q * parity[0].len(),
                12 + q * parity[0].len() + parity[0].len(),
            ) == #[trigger] parity[q],
{
    let count = parity.len() / ec_m as nat;
    let strip = parity[0].len();
    let k = ec_k as nat;
    let m = ec_m as nat;
    let table = segment_hashes(data, k, m, strip, parity, count);
    let b = section_bytes(data, ec_k, ec_m, parity);
    lemma_joined_len(parity, strip);
    lemma_joined_len(table, 32);
    let q = stripe * (k + m) + idx;
    assert(0 <= q < count * (k + m)) by (nonlinear_arith)
        requires
            q == stripe * (k + m) + idx,
            0 <= stripe,
            stripe + 1 <= count,
            0 <= idx < k + m,
    ;
    vstd::arithmetic::div_mod::lemma_fundamental_div_mod_converse(q, (k + m) as int, stripe, idx);
    lemma_joined_part(table, 32, q);
    assert(table[q] == blake3_digest(segment_shard(data, k, m, strip, parity, q)));
    let hashes = (12 + parity.len() * strip) as int;
    assert(b.len() == hashes + count * (k + m) * 32);
    assert(b.subrange(0, 4) =~= le_u32(count as u32));
    assert(b.subrange(8, 12) =~= le_u32(strip as u32));
    assert(b.subrange(hashes + q * 32, hashes + q * 32 + 32) =~= joined(table).subrange(
        q * 32,
        q * 32 + 32,
    ));
    assert(k * strip == ec_k * strip);
    assert forall|q: int| 0 <= q < parity.len() implies b.subrange(
        12 + q * strip,
        12 + q * strip + strip,
    ) == #[trigger] parity[q] by {
        lemma_joined_part(parity, strip, q);
        assert(b.subrange(12 + q * strip, 12 + q * strip + strip) =~= joined(parity).subrange(
            q * strip,
            q * strip + strip,
        ));
    }
}

/// The text of an identifier has thirty-six characters, with hyphens in the places
/// of a UUID; the name of a data file is that text and `.dat`.
pub proof fn law_uuid_text_layout(id: SegmentId)
    ensures
        uuid_text(id).len() == 36,
        uuid_text(id)[8] == '-' && uuid_text(id)[13] == '-' && uuid_text(id)[18] == '-'
            && uuid_text(id)[23] == '-',
        dat_name(id).len() == 40,
        dat_name(id).take(36) == uuid_text(id),
        dat_name(id)[36] == '.' && dat_name(id)[37] == 'd' && dat_name(id)[38] == 'a' && dat_name(
            id,
        )[39] == 't',
{
    let b = id.bits as nat;
    lemma_hex_len(b / 0x1_0000_0000_0000_0000_0000_0000, 8);
    lemma_hex_len(b / 0x1_0000_0000_0000_0000_0000 % 0x1_0000, 4);
    lemma_hex_len(b / 0x1_0000_0000_0000_0000 % 0x1_0000, 4);
    lemma_hex_len(b / 0x1_0000_0000_0000 % 0x1_0000, 4);
    lemma_hex_len(b % 0x1_0000_0000_0000, 12);
    assert(dat_name(id).take(36) =~= uuid_text(id));
}

proof fn lemma_hex_len(n: nat, width: nat)
    ensures
        crate::dat_name::hex(n, width).len() == width,
    decreases width,
{
    if width > 0 {
        lemma_hex_len(n / 16, (width - 1) as nat);
    }
}

/// A segment is written to and read from the same pool: the first that has the
/// identifier in its entry. One without an entry is neither written nor read, nor is
/// one whose pool is not registered.
pub proof fn law_segment_is_read_where_it_is_written(
    m: Entries,
    pools: Seq<StoragePool>,
    id: SegmentId,
    now: u64,
    i: int,
)
    ensures
        read_pool_of(m, pools, id, now) == Some(i) <==> pool_of(m, pools, id, now) == Ok::<
            int,
            Error,
        >(i),
        entry_at(m, id, now) is None ==> pool_of(m, pools, id, now) == Err::<int, Error>(
            Error::NotRegistered(id),
        ),
        pool_of(m, pools, id, now) matches Ok(at) ==> {
            &&& entry_at(m, id, now) is Some
            &&& 0 <= at < pools.len()
            &&& pools[at].id == m[id].metadata.pool_id
            &&& forall|j: int| 0 <= j < at ==> (#[trigger] pools[j]).id != m[id].metadata.pool_id
        },
        entry_at(m, id, now) is Some && (forall|j: int|
            0 <= j < pools.len() ==> (#[trigger] pools[j]).id != m[id].metadata.pool_id)
            ==> pool_of(m, pools, id, now) == Err::<int, Error>(
            Error::UnknownPool { segment_id: id, pool_id: m[id].metadata.pool_id },
        ),
{
    if entry_at(m, id, now) is Some {
        law_first_pool_is_found(pools, m[id].metadata.pool_id);
    }
}

/// The data of a file is read from behind its header, in its full length; one that is
/// too large to be read in one piece is refused.
pub proof fn law_data_is_read_from_behind_header(
    id: SegmentId,
    h: HeaderView,
    head: Seq<u8>,
    data: Seq<u8>,
    tail: Seq<u8>,
)
    requires
        head.len() == (if h.version >= 2 {
            92int
        } else {
            76
        }),
        h.size == data.len(),
    ensures
        data.len() <= u32::MAX ==> (geometry(id, h) matches Ok((offset, length)) && (head + data
            + tail).subrange(offset as int, offset + length) == data),
        data.len() > u32::MAX ==> geometry(id, h) == Err::<(u64, u32), Error>(
            Error::DataTooLarge { segment_id: id, size: h.size },
        ),
{
    let file = head + data + tail;
    let n = head.len() as int;
    assert(file.subrange(n, n + data.len() as int) =~= data);
}

/// A file that is there is replaced by a rename, never by a link; else it is written
/// as asked for.
pub proof fn law_replacing_needs_rename(mode: SegmentWriteMode)
    ensures
        write_mode(mode, true) == SegmentWriteMode::Rename,
        write_mode(mode, false) == mode,
{
}

/// The parity of a segment is taken from the codec's answer just when it gives a
/// buffer for each parity shard, long enough for all stripes.
pub proof fn law_parity_needs_whole_buffers(
    answer: Result<Vec<Vec<u8>>, String>,
    complete: nat,
    m: nat,
    strip: nat,
)
    ensures
        parity_from(answer, complete, m, strip) is Some <==> answer is Ok && answer->Ok_0@.len() >= m
            && forall|p: int|
            0 <= p < m ==> (#[trigger] answer->Ok_0@[p])@.len() >= complete * strip,
        parity_from(answer, complete, m, strip) matches Some(shards) ==> shards.len() == complete
            * m,
{
}

/// A parity section is built of every set of shards that fits: as many for each
/// stripe, all of one size, with the data of all stripes there. The data may go on
/// behind them.
pub proof fn law_fitting_shards_make_a_section(
    data: Seq<u8>,
    k: nat,
    m: nat,
    parity: Seq<Seq<u8>>,
    count: nat,
    strip: nat,
)
    requires
        k > 0,
        m > 0,
        count > 0,
        strip > 0,
        parity.len() == count * m,
        forall|i: int| 0 <= i < parity.len() ==> (#[trigger] parity[i]).len() == strip,
        data.len() >= count * (k * strip),
    ensures
        has_parity(data, k, m, parity),
{
    assert(parity.len() > 0) by (nonlinear_arith)
        requires
            parity.len() == count * m,
            count > 0,
            m > 0,
    ;
    vstd::arithmetic::div_mod::lemma_fundamental_div_mod_converse(
        parity.len() as int,
        m as int,
        count as int,
        0,
    );
    assert(parity[0].len() == strip);
}

/// The index of each tier in stored metadata.
pub proof fn law_tier_indices()
    ensures
        tier_index(SizeTier::Inline) == 0,
        tier_index(SizeTier::Small) == 1,
        tier_index(SizeTier::Standard) == 2,
        tier_index(SizeTier::Multi) == 3,
{
}

/// Stored metadata holds the identifier, the counts of data and parity shards, the
/// tier, the root, the holders, the seal time, the pool and the size, in this order, and
/// reads back as it was.
pub proof fn law_metadata_is_stored_in_order(m: MetadataView)
    ensures
        ({
            let f = fields_of(m);
            &&& f.0 == id_bytes(m.segment_id)
            &&& f.1 == m.ec_k
            &&& f.2 == m.ec_m
            &&& f.3 == tier_index(m.size_tier)
            &&& f.4 is Some <==> m.merkle_root is Some
            &&& m.merkle_root matches Some(root) ==> f.4 == Some(root.bytes)
            &&& f.5 == m.storage_locations
            &&& f.6 == m.sealed_at
            &&& f.7 == m.pool_id
            &&& f.8 == m.total_bytes
        }),
        metadata_of(fields_of(m)) == Some(m),
{
    lemma_id_round_trip(m.segment_id);
}

/// Stored fields are refused just when the identifier has not sixteen bytes or the
/// tier's index is none of the four.
pub proof fn law_malformed_metadata_is_refused(f: FieldsView)
    ensures
        metadata_of(f) is None <==> f.0.len() != 16 || f.3 >= 4,
{
}

/// Blobs that do not overlap make an index, whatever order they are listed in; they may
/// follow each other without a gap. Two blobs at one offset, or one that starts within
/// another, do not.
pub proof fn law_index_takes_disjoint_blobs(s: Seq<SegmentIndexEntry>)
    ensures
        (forall|i: int, j: int|
            #![trigger s[i], s[j]]
            0 <= i < s.len() && 0 <= j < s.len() && i != j ==> s[i].offset != s[j].offset && (
            s[i].offset + s[i].length <= s[j].offset || s[j].offset + s[j].length <= s[i].offset))
            ==> distinct_offsets(s) && no_overlap(s),
        (exists|i: int, j: int|
            #![trigger s[i], s[j]]
            0 <= i < s.len() && 0 <= j < s.len() && i != j && s[i].offset <= s[j].offset
                && s[j].offset < s[i].offset + s[i].length) ==> !distinct_offsets(s) || !no_overlap(
            s,
        ),
{
    if forall|i: int, j: int|
        #![trigger s[i], s[j]]
        0 <= i < s.len() && 0 <= j < s.len() && i != j ==> s[i].offset != s[j].offset && (
        s[i].offset + s[i].length <= s[j].offset || s[j].offset + s[j].length <= s[i].offset) {
        assert forall|i: int, j: int|
            #![trigger s[i], s[j]]
            0 <= i < s.len() && 0 <= j < s.len() && s[i].offset < s[j].offset implies s[i].offset
            + s[i].length <= s[j].offset by {
            assert(i != j);
        }
    }
    if exists|i: int, j: int|
        #![trigger s[i], s[j]]
        0 <= i < s.len() && 0 <= j < s.len() && i != j && s[i].offset <= s[j].offset
            && s[j].offset < s[i].offset + s[i].length {
        let (i, j) = choose|i: int, j: int|
            #![trigger s[i], s[j]]
            0 <= i < s.len() && 0 <= j < s.len() && i != j && s[i].offset <= s[j].offset
                && s[j].offset < s[i].offset + s[i].length;
        if distinct_offsets(s) && no_overlap(s) {
            if i < j {
                assert(s[i].offset != s[j].offset);
            } else {
                assert(s[j].offset != s[i].offset);
            }
            assert(s[i].offset + s[i].length <= s[j].offset);
        }
    }
}

/// An index gives back each blob that it was made of at its offset, and nothing
/// anywhere else.
pub proof fn law_index_finds_its_blobs(
    m: Map<u64, SegmentIndexEntry>,
    s: Seq<SegmentIndexEntry>,
    i: int,
    offset: u64,
)
    requires
        indexes(m, s),
    ensures
        0 <= i < s.len() ==> m.contains_key(s[i].offset) && m[s[i].offset] == s[i],
        (forall|k: int| 0 <= k < s.len() ==> (#[trigger] s[k]).offset != offset)
            ==> !m.contains_key(offset),
{
    if m.contains_key(offset) {
        let k = choose|k: int| 0 <= k < s.len() && (#[trigger] s[k]).offset == offset;
        assert(s[k].offset == offset);
    }
}

} // verus!
