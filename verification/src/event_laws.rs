//! Laws of the event log and its checkpoints: where things stand on disk, and what
//! a damaged log, a truncation and a snapshot keep.
use crate::checksum::crc32;
use crate::encoding::{le_u32, le_u64, u32_of_le};
use crate::error::BadRecord;
use crate::event_checkpoint::{
    checkpoint_name, checkpoint_pos, entry_bytes, file_verdict, framed, is_newest, newer_skipped,
    orphan_places, orphan_tmp_name, parse_entries, parse_entry, parse_snapshot, snapshot_body, snapshot_bytes, snapshot_of,
    verdict, CheckpointFile, VerdictView, CHECKPOINT_VERSION,
};
use crate::event_reader::{
    all_encodable, data_after, file_holds, first_file_from, good_end, kept_tail,
    law_written_record_is_read, lemma_read_files, lemma_read_prefix, placed, placed_files, read_log,
    read_log_from, record_at, records_bytes, EventFile, LogEnd, RecordView,
};
use crate::event_record::{
    event_payload, event_record, event_record_body, lemma_payload_bounded, tier_byte, tier_of_byte,
    EventView,
};
use crate::event_wal::{
    bases_of, covered_files, evl_name, last_seq, lemma_sort_files, remaining_files, sort_files,
    total_size, with_last_size, EventWalView,
};
use crate::lifecycle::{is_live, Entries, EntryView, SegmentState};
use crate::text::{decimal, digit_char, path_join, zero_padded};
use crate::types::{id_bytes, lemma_id_round_trip, DataWalPos, EventWalPos, SegmentId, SizeTier};
use vstd::prelude::*;
use vstd::string::*;

verus! {

/// Integers stand in a record with their low byte first.
pub proof fn law_integers_are_little_endian(x: u32, y: u64)
    ensures
        le_u32(x).len() == 4,
        le_u32(x)[0] == x % 256,
        le_u32(x)[1] == x / 256 % 256,
        le_u32(x)[2] == x / 65536 % 256,
        le_u32(x)[3] == x / 16777216,
        le_u64(y).len() == 8,
        le_u64(y)[0] == y % 256,
        le_u64(y)[1] == y / 256 % 256,
        le_u64(y)[4] == y / 0x1_0000_0000 % 256,
        le_u64(y)[7] == y / 0x100_0000_0000_0000,
{
    assert(x as u8 == x % 256 && (x >> 8) as u8 == x / 256 % 256 && (x >> 16) as u8 == x / 65536
        % 256 && (x >> 24) as u8 == x / 16777216) by (bit_vector);
    assert(y as u8 == y % 256 && (y >> 8) as u8 == y / 256 % 256 && (y >> 32) as u8 == y
        / 0x1_0000_0000 % 256 && (y >> 56) as u8 == y / 0x100_0000_0000_0000) by (bit_vector);
}

/// An identifier stands on disk with its high byte first.
pub proof fn law_identifiers_are_big_endian(id: SegmentId)
    ensures
        id_bytes(id).len() == 16,
        id_bytes(id)[0] == id.bits / 0x1_00000000_00000000_00000000_000000,
        id_bytes(id)[14] == id.bits / 256 % 256,
        id_bytes(id)[15] == id.bits % 256,
{
    let x = id.bits;
    assert((x >> 120) as u8 == x / 0x1_00000000_00000000_00000000_000000 && (x >> 8) as u8 == x
        / 256 % 256 && x as u8 == x % 256) by (bit_vector);
}

/// How a record is laid out: the magic, the version, the kind, two zeros, the
/// length of the payload, the segment, the payload, and a checksum of all of it.
pub proof fn law_record_layout(e: EventView)
    requires
        e.encodable(),
    ensures
        ({
            let r = event_record(e);
            let n = event_payload(e).len() as int;
            &&& r.len() == 32 + n
            &&& r[0] == 0x45 && r[1] == 0x56 && r[2] == 0x4C && r[3] == 1
            &&& r[4] == 1
            &&& r[5] == (match e {
                EventView::Reserve(_) => 0u8,
                EventView::Seal(_) => 1u8,
                EventView::Delete(_) => 2u8,
                EventView::MetadataRefresh { .. } => 3u8,
            })
            &&& r[6] == 0 && r[7] == 0
            &&& r.subrange(8, 12) == le_u32(n as u32)
            &&& r.subrange(12, 28) == id_bytes(e.segment_id())
            &&& r.subrange(28, 28 + n) == event_payload(e)
            &&& r.subrange(28 + n, 32 + n) == le_u32(crc32(r.subrange(0, 28 + n)))
        }),
{
    reveal(event_record);
    lemma_payload_bounded(e);
    lemma_id_round_trip(e.segment_id());
    let r = event_record(e);
    let n = event_payload(e).len() as int;
    let body = event_record_body(e);
    assert(body.len() == 28 + n);
    assert(r.subrange(0, 28 + n) =~= body);
    assert(r.subrange(8, 12) =~= le_u32(n as u32));
    assert(r.subrange(12, 28) =~= id_bytes(e.segment_id()));
    assert(r.subrange(28, 28 + n) =~= event_payload(e));
    assert(r.subrange(28 + n, 32 + n) =~= le_u32(crc32(body)));
}

/// How the payload of a reserve and that of a seal are laid out.
pub proof fn law_payload_layout(e: EventView)
    ensures
        e matches EventView::Reserve(r) ==> {
            let p = event_payload(e);
            &&& p.len() == 4
            &&& p[0] == tier_byte(r.tier) && p[1] == r.ec_k && p[2] == r.ec_m && p[3] == 0
        },
        e matches EventView::Seal(s) ==> {
            let p = event_payload(e);
            let behind = if s.repacked_from is Some {
                64int
            } else {
                48
            };
            &&& p.len() == behind + if s.pool_id != 0 {
                4int
            } else {
                0
            }
            &&& p[0] == tier_byte(s.tier) && p[1] == s.ec_k && p[2] == s.ec_m
            &&& p.subrange(4, 36) == s.merkle_root@
            &&& p.subrange(36, 40) == le_u32(s.data_wal_pos.file_seq)
            &&& p.subrange(40, 48) == le_u64(s.data_wal_pos.offset)
            &&& s.repacked_from matches Some(old_id) ==> p.subrange(48, 64) == id_bytes(old_id)
            &&& s.pool_id != 0 ==> p.subrange(behind, behind + 4) == le_u32(s.pool_id)
        },
        e is Delete ==> event_payload(e).len() == 0,
{
    if let EventView::Seal(s) = e {
        let p = event_payload(e);
        crate::types::lemma_hash_of(s.merkle_root);
        assert(s.merkle_root@.len() == 32);
        assert(p.subrange(4, 36) =~= s.merkle_root@);
        assert(p.subrange(36, 40) =~= le_u32(s.data_wal_pos.file_seq));
        assert(p.subrange(40, 48) =~= le_u64(s.data_wal_pos.offset));
        if let Some(old_id) = s.repacked_from {
            lemma_id_round_trip(old_id);
            assert(p.subrange(48, 64) =~= id_bytes(old_id));
            if s.pool_id != 0 {
                assert(p.subrange(64, 68) =~= le_u32(s.pool_id));
            }
        } else if s.pool_id != 0 {
            assert(p.subrange(48, 52) =~= le_u32(s.pool_id));
        }
    }
}

/// The bytes of the tiers, which no other tier has.
pub proof fn law_tier_bytes(tier: SizeTier, byte: u8)
    ensures
        tier_byte(SizeTier::Inline) == 0,
        tier_byte(SizeTier::Small) == 1,
        tier_byte(SizeTier::Standard) == 2,
        tier_byte(SizeTier::Multi) == 3,
        tier_of_byte(tier_byte(tier)) == Some(tier),
        tier_of_byte(byte) matches Some(t) ==> tier_byte(t) == byte,
        tier_of_byte(byte) is None <==> byte > 3,
{
}

/// A bad record stands behind the records of `events` in the file at `i`; the
/// files before it hold just records.
pub open spec fn damaged_at(
    files: Seq<EventFile>,
    groups: Seq<Seq<EventView>>,
    i: int,
    events: Seq<EventView>,
    rest: Seq<u8>,
) -> bool {
    &&& 0 <= i < files.len()
    &&& i <= groups.len()
    &&& forall|k: int| 0 <= k < i ==> file_holds(#[trigger] files[k], groups[k])
    &&& all_encodable(events)
    &&& rest.len() > 0
    &&& files[i].data@ == records_bytes(events) + rest
}

/// A log is read up to the first bad record, and every event before it comes, with
/// its place. When anything follows the bad record, in its file or in a later one,
/// the log is corrupt there; else the record is torn.
pub proof fn law_log_is_read_up_to_damage(
    files: Seq<EventFile>,
    groups: Seq<Seq<EventView>>,
    i: int,
    events: Seq<EventView>,
    rest: Seq<u8>,
    kind: BadRecord,
    more: bool,
)
    requires
        damaged_at(files, groups, i, events, rest),
        record_at(rest) == (RecordView::Bad { kind, more }),
    ensures
        ({
            let read = read_log(files, 0, 0);
            let at = EventWalPos {
                file_seq: files[i].seq,
                offset: records_bytes(events).len() as u64,
            };
            &&& read.events == placed_files(files, groups, 0, i) + placed(files[i].seq, 0, events)
            &&& read.end == (if more || data_after(files, i) {
                LogEnd::Corrupt { pos: at, detail: kind }
            } else {
                LogEnd::Torn { pos: at, detail: kind }
            })
        }),
{
    let data = files[i].data@;
    let n = records_bytes(events).len() as int;
    lemma_read_files(files, groups, 0, i);
    assert(data.subrange(0, n) =~= records_bytes(events));
    lemma_read_prefix(files, i, 0, events);
    assert(data.skip(n) =~= rest);
    let here = read_log(files, i, n);
    assert(here.events =~= Seq::empty());
    let first = placed(files[i].seq, 0, events);
    assert(first + here.events =~= first);
    assert(placed_files(files, groups, 0, i) + first =~= read_log(files, 0, 0).events);
}

/// What is bad about a record: too few bytes for a header, another magic, another
/// version, a length that no record has, too few bytes for the payload, or a
/// checksum that is not that of the bytes. A bad record in the middle of a file has
/// something behind it, one that the file cuts short has not.
pub proof fn law_bad_records_are_told_apart(b: Seq<u8>)
    ensures
        b.len() < 28 ==> record_at(b) == (RecordView::Bad {
            kind: BadRecord::TruncatedHeader,
            more: false,
        }),
        b.len() >= 28 && !(b[0] == 0x45 && b[1] == 0x56 && b[2] == 0x4C && b[3] == 1) ==> record_at(b)
            == (RecordView::Bad { kind: BadRecord::BadMagic, more: b.len() > 32 }),
        b.len() >= 28 && b[0] == 0x45 && b[1] == 0x56 && b[2] == 0x4C && b[3] == 1 ==> {
            let len = u32_of_le(b.subrange(8, 12)) as int;
            &&& b[4] != 1 ==> record_at(b) == (RecordView::Bad {
                kind: BadRecord::UnsupportedVersion,
                more: b.len() > 32,
            })
            &&& b[4] == 1 && len > 4134 ==> record_at(b) == (RecordView::Bad {
                kind: BadRecord::ImplausibleLength,
                more: b.len() > 32,
            })
            &&& b[4] == 1 && len <= 4134 && b.len() < 32 + len ==> record_at(b)
                == (RecordView::Bad { kind: BadRecord::TruncatedPayload, more: false })
            &&& b[4] == 1 && len <= 4134 && b.len() >= 32 + len && u32_of_le(
                b.subrange(28 + len, 32 + len),
            ) != crc32(b.subrange(0, 28 + len)) ==> record_at(b) == (RecordView::Bad {
                kind: BadRecord::ChecksumMismatch,
                more: b.len() > 32 + len,
            })
        },
{
    reveal(record_at);
    if b.len() >= 28 {
        let magic = crate::event_record::event_record_magic();
        let head = b.subrange(0, 4);
        if b[0] == 0x45 && b[1] == 0x56 && b[2] == 0x4C && b[3] == 1 {
            assert(head =~= magic);
        } else {
            assert(head[0] == b[0] && head[1] == b[1] && head[2] == b[2] && head[3] == b[3]);
            assert(magic[0] == 0x45 && magic[1] == 0x56 && magic[2] == 0x4C && magic[3] == 1);
        }
    }
}

/// A reading from a position in a file that is gone starts with the next file: what
/// was before it is covered by a checkpoint.
pub proof fn law_reading_skips_removed_files(files: Seq<EventFile>, pos: EventWalPos, i: int)
    requires
        0 <= i <= files.len(),
        forall|k: int| 0 <= k < i ==> (#[trigger] files[k]).seq < pos.file_seq,
        i < files.len() ==> files[i].seq > pos.file_seq,
    ensures
        read_log_from(files, pos) == read_log(files, i, 0),
{
    lemma_first_file_at(files, pos.file_seq, i, 0);
}

proof fn lemma_first_file_at(files: Seq<EventFile>, seq: u32, at: int, from: int)
    requires
        0 <= from <= at <= files.len(),
        forall|k: int| 0 <= k < at ==> (#[trigger] files[k]).seq < seq,
        at < files.len() ==> files[at].seq >= seq,
    ensures
        first_file_from(files, seq, from) == at,
    decreases at - from,
{
    if from < at {
        assert(files[from].seq < seq);
        lemma_first_file_at(files, seq, at, from + 1);
    }
}

/// Records do not cross the size of a file: one that fits goes behind the others,
/// and one that does not starts a new file, with the next number. Only a record
/// that is alone in its file can be larger.
pub proof fn law_records_stay_within_files(wal: EventWalView, size: nat)
    requires
        wal.has_room(size),
    ensures
        ({
            let at = wal.append_pos(size);
            let after = wal.appended(size);
            &&& wal.latest.offset + size <= wal.file_size ==> at == wal.latest && after.file_count
                == wal.file_count && after.bases == wal.bases
            &&& wal.latest.offset + size > wal.file_size ==> {
                &&& at.file_seq == wal.latest.file_seq + 1
                &&& at.offset == 0
                &&& after.file_count == wal.file_count + 1
            }
            &&& after.latest.file_seq == at.file_seq
            &&& after.latest.offset == at.offset + size
            &&& after.latest.offset <= wal.file_size || at.offset == 0
            &&& after.bytes_total == wal.bytes_total + size
            &&& after.file_size == wal.file_size
        }),
{
}

/// A truncation removes just the files that a checkpoint at `pos` covers: those
/// before the file of `pos`, and that file itself when nothing in it is at or
/// behind `pos`. The file that is being written stays. Each file is either removed
/// or stays as it is.
pub proof fn law_truncation_removes_covered_files(
    files: Seq<(u32, u64)>,
    pos: EventWalPos,
    current: u32,
    i: int,
)
    requires
        0 <= i < files.len(),
    ensures
        ({
            let (seq, size) = files[i];
            let covered = seq != current && (seq < pos.file_seq || (seq == pos.file_seq && size
                <= pos.offset));
            &&& covered ==> covered_files(files, pos, current).contains(seq)
            &&& !covered ==> remaining_files(files, pos, current).contains(files[i])
        }),
        forall|k: int|
            0 <= k < covered_files(files, pos, current).len() ==> #[trigger] covered_files(
                files,
                pos,
                current,
            )[k] != current && covered_files(files, pos, current)[k] <= pos.file_seq,
        forall|k: int|
            0 <= k < remaining_files(files, pos, current).len() ==> {
                let f = #[trigger] remaining_files(files, pos, current)[k];
                files.contains(f) && (f.0 == current || f.0 > pos.file_seq || (f.0 == pos.file_seq
                    && f.1 > pos.offset))
            },
        covered_files(files, pos, current).len() + remaining_files(files, pos, current).len()
            == files.len(),
        total_size(remaining_files(files, pos, current)) <= total_size(files),
    decreases files.len(),
{
    let rest = files.drop_last();
    let last = files.last();
    let removed = covered_files(rest, pos, current);
    let kept = remaining_files(rest, pos, current);
    if rest.len() == 0 {
        assert(removed =~= Seq::empty());
        assert(kept =~= Seq::empty());
        reveal_with_fuel(total_size, 2);
        reveal_with_fuel(covered_files, 2);
        reveal_with_fuel(remaining_files, 2);
        if remaining_files(files, pos, current).len() > 0 {
            assert(remaining_files(files, pos, current).drop_last() =~= kept);
            assert(remaining_files(files, pos, current)[0] == last);
        } else {
            assert(covered_files(files, pos, current)[0] == last.0);
        }
        assert(files[0] == last);
    } else {
        law_truncation_removes_covered_files(rest, pos, current, if i < rest.len() {
            i
        } else {
            0
        });
        let gone = covered_files(files, pos, current);
        let stay = remaining_files(files, pos, current);
        assert(files[files.len() - 1] == last);
        assert forall|k: int| 0 <= k < stay.len() implies {
            let f = #[trigger] stay[k];
            files.contains(f) && (f.0 == current || f.0 > pos.file_seq || (f.0 == pos.file_seq
                && f.1 > pos.offset))
        } by {
            if k < kept.len() {
                assert(stay[k] == kept[k]);
                let j = rest.index_of(kept[k]);
                assert(files[j] == kept[k]);
            } else {
                assert(stay[k] == last);
            }
        }
        assert forall|k: int| 0 <= k < gone.len() implies #[trigger] gone[k] != current && gone[k]
            <= pos.file_seq by {
            if k < removed.len() {
                assert(gone[k] == removed[k]);
            }
        }
        if i < rest.len() {
            assert(rest[i] == files[i]);
            if removed.contains(files[i].0) {
                let j = removed.index_of(files[i].0);
                assert(gone[j] == files[i].0);
            }
            if kept.contains(files[i]) {
                let j = kept.index_of(files[i]);
                assert(stay[j] == files[i]);
            }
        } else {
            if gone.len() > removed.len() {
                assert(gone[gone.len() - 1] == last.0);
            } else {
                assert(stay[stay.len() - 1] == last);
            }
        }
        if stay.len() > kept.len() {
            assert(stay.drop_last() =~= kept);
        }
    }
}

/// The bytes that lie before each file are those of the files that come before it.
pub proof fn law_bases_are_sums(files: Seq<(u32, u64)>, i: int)
    requires
        0 <= i < files.len(),
        total_size(files) <= u64::MAX,
    ensures
        bases_of(files).len() == files.len(),
        bases_of(files)[i].0 == files[i].0,
        i == 0 ==> bases_of(files)[i].1 == 0,
        i + 1 < files.len() ==> bases_of(files)[i + 1].1 == bases_of(files)[i].1 + files[i].1,
        i + 1 == files.len() ==> total_size(files) == bases_of(files)[i].1 + files[i].1,
{
    lemma_prefix_size(files, i);
    lemma_prefix_size(files, i + 1);
    assert(files.take(i + 1).drop_last() =~= files.take(i));
    assert(files.take(i + 1).last() == files[i]);
    if i == 0 {
        assert(files.take(0) =~= Seq::empty());
    }
    if i + 1 == files.len() {
        assert(files.take(i + 1) =~= files);
    }
}

proof fn lemma_prefix_size(files: Seq<(u32, u64)>, k: int)
    requires
        0 <= k <= files.len(),
    ensures
        total_size(files.take(k)) <= total_size(files),
    decreases files.len(),
{
    if k < files.len() {
        lemma_prefix_size(files.drop_last(), k);
        assert(files.drop_last().take(k) =~= files.take(k));
    } else {
        assert(files.take(k) =~= files);
    }
}

/// Positions are ordered by file, then by offset: of two different ones just one
/// lies before the other.
pub proof fn law_positions_are_ordered(a: EventWalPos, b: EventWalPos, c: EventWalPos)
    ensures
        !a.before(a),
        a.before(b) && b.before(c) ==> a.before(c),
        a == b || a.before(b) || b.before(a),
        a.before(b) ==> !b.before(a),
        a.file_seq < b.file_seq ==> a.before(b),
        a.file_seq == b.file_seq ==> (a.before(b) <==> a.offset < b.offset),
{
}

/// Positions in the data log are ordered by file, then by offset.
pub proof fn law_data_positions_are_ordered(a: DataWalPos, b: DataWalPos, c: DataWalPos)
    ensures
        a.at_or_after(a),
        a.at_or_after(b) && b.at_or_after(c) ==> a.at_or_after(c),
        a.at_or_after(b) || b.at_or_after(a),
        a.at_or_after(b) && b.at_or_after(a) ==> a == b,
        a.file_seq > b.file_seq ==> a.at_or_after(b),
        a.file_seq == b.file_seq ==> (a.at_or_after(b) <==> a.offset >= b.offset),
{
}

/// A snapshot keeps the live segments: each with its state and its metadata, and a
/// sealed one with the position of its last data entry and the segment that it was
/// repacked from.
pub proof fn law_snapshot_keeps_live_entries(m: Entries, id: SegmentId)
    ensures
        snapshot_of(m).contains_key(id) <==> is_live(m, id),
        is_live(m, id) ==> {
            let kept = snapshot_of(m)[id];
            &&& kept.state == m[id].state
            &&& kept.metadata == m[id].metadata
            &&& m[id].state == SegmentState::Sealed ==> {
                &&& kept.repacked_from == m[id].repacked_from
                &&& m[id].data_wal_pos is Some ==> kept.data_wal_pos == m[id].data_wal_pos
            }
            &&& m[id].state == SegmentState::Reserved ==> kept.data_wal_pos is None
            &&& kept.in_flight is None
        },
        snapshot_of(snapshot_of(m)) == snapshot_of(m),
{
    assert(snapshot_of(snapshot_of(m)) =~= snapshot_of(m));
}

/// A checkpoint file is used for the position that it covers only; under the name
/// of another it is passed over. One from before storage pools stops the start-up,
/// and any other bytes are passed over.
pub proof fn law_checkpoint_is_used_under_its_name(raw: Seq<u8>, pos: EventWalPos)
    ensures
        parse_snapshot(raw) matches Some((covered, m)) ==> {
            &&& covered == pos ==> verdict(pos, raw) == VerdictView::Use(m)
            &&& covered != pos ==> verdict(pos, raw) is Skip
            &&& raw[4] == 3
        },
        verdict(pos, raw) matches VerdictView::Use(m) ==> parse_snapshot(raw) == Some((pos, m)),
        framed(raw, 2) ==> verdict(pos, raw) is PrePool,
        verdict(pos, raw) is PrePool ==> raw.len() >= 25 && raw[4] == 2,
        raw.len() < 25 ==> verdict(pos, raw) is Skip,
{
    reveal(parse_snapshot);
    assert(framed(raw, 2) ==> !framed(raw, CHECKPOINT_VERSION));
}

/// The left-over temporary files of a directory are found, each once and in order,
/// and nothing else is.
pub proof fn law_orphans_are_found(names: Seq<String>, i: int)
    ensures
        orphan_places(names).contains(i) <==> 0 <= i < names.len() && orphan_tmp_name(names[i]@),
        forall|j: int, k: int|
            0 <= j < k < orphan_places(names).len() ==> #[trigger] orphan_places(names)[j]
                < #[trigger] orphan_places(names)[k],
        forall|j: int|
            0 <= j < orphan_places(names).len() ==> 0 <= #[trigger] orphan_places(names)[j]
                < names.len(),
    decreases names.len(),
{
    if names.len() > 0 {
        let rest = names.drop_last();
        law_orphans_are_found(rest, i);
        let before = orphan_places(rest);
        let all = orphan_places(names);
        if orphan_tmp_name(names.last()@) {
            assert(all == before.push(names.len() - 1));
            if before.contains(i) {
                let j = before.index_of(i);
                assert(all[j] == i);
            }
            assert(all[before.len() as int] == names.len() - 1);
            if all.contains(i) {
                let j = all.index_of(i);
                if j < before.len() {
                    assert(before[j] == i);
                }
            }
        }
        if 0 <= i < rest.len() {
            assert(rest[i] == names[i]);
        }
    }
}

/// A file whose name begins like a checkpoint's and ends in `.tmp` is a left-over,
/// and no finished checkpoint is taken for one.
pub proof fn law_checkpoints_are_no_orphans(pos: EventWalPos, middle: Seq<char>)
    ensures
        orphan_tmp_name("checkpoint-"@ + middle + ".tmp"@),
        !orphan_tmp_name(checkpoint_name(pos)),
{
    reveal_strlit("checkpoint-");
    reveal_strlit(".tmp");
    reveal_strlit("-");
    let name = "checkpoint-"@ + middle + ".tmp"@;
    let n = name.len() as int;
    assert(name.subrange(0, 11) =~= "checkpoint-"@);
    assert(name.subrange(n - 4, n) =~= ".tmp"@);
    let digits = decimal(pos.offset as nat);
    let whole = checkpoint_name(pos);
    lemma_last_digit(pos.offset as nat);
    assert(whole.last() == digits.last());
    let m = whole.len() as int;
    if whole.subrange(m - 4, m) == ".tmp"@ {
        assert(whole.subrange(m - 4, m)[3] == whole.last());
        assert(".tmp"@[3] == 'p');
    }
}

proof fn lemma_last_digit(n: nat)
    ensures
        decimal(n).len() > 0,
        decimal(n).last() == digit_char(n % 10),
        digit_char(n % 10) != 'p',
    decreases n,
{
    let d = n % 10;
    assert(0 <= d < 10);
    if n >= 10 {
        lemma_last_digit(n / 10);
    }
}

/// A log whose last file was cut goes on with that file's kept size; the other files
/// count as they are.
pub proof fn law_cut_tail_counts_as_kept(files: Seq<(u32, u64)>, size: u64)
    requires
        files.len() > 0,
    ensures
        with_last_size(files, size).len() == files.len(),
        with_last_size(files, size).last() == (files.last().0, size),
        forall|i: int|
            0 <= i < files.len() - 1 ==> #[trigger] with_last_size(files, size)[i] == files[i],
        total_size(with_last_size(files, size)) + files.last().1 == total_size(files) + size,
{
    assert(with_last_size(files, size).drop_last() =~= files.drop_last());
}

/// A log is resumed at its file with the highest number; an empty one starts with the
/// first file. The order in which the files are listed does not matter for that.
pub proof fn law_log_resumes_at_highest_file(files: Seq<(u32, u64)>, i: int)
    requires
        0 <= i < files.len(),
    ensures
        files[i].0 <= last_seq(sort_files(files)),
        exists|k: int| 0 <= k < files.len() && (#[trigger] files[k]).0 == last_seq(
            sort_files(files),
        ),
        last_seq(sort_files(Seq::empty())) == 0,
        total_size(sort_files(files)) == total_size(files),
{
    lemma_sort_files(files);
    let sorted = sort_files(files);
    broadcast use vstd::seq_lib::group_to_multiset_ensures;

    assert(files.to_multiset().count(files[i]) > 0);
    assert(sorted.contains(files[i]));
    let j = sorted.index_of(files[i]);
    assert(sorted[j].0 <= sorted[sorted.len() - 1].0);
    assert(sorted.to_multiset().count(sorted.last()) > 0) by {
        assert(sorted.contains(sorted[sorted.len() - 1]));
    }
    assert(files.contains(sorted.last()));
    let k = files.index_of(sorted.last());
    assert(files[k].0 == last_seq(sorted));
    assert(sort_files(Seq::<(u32, u64)>::empty()) =~= Seq::empty());
}

/// There is one newest checkpoint among the names of a directory, and no name is newer
/// than it.
pub proof fn law_newest_checkpoint_is_one(
    names: Seq<String>,
    a: Option<EventWalPos>,
    b: Option<EventWalPos>,
    i: int,
)
    requires
        is_newest(names, a),
        is_newest(names, b),
    ensures
        a == b,
        0 <= i < names.len() && checkpoint_pos(names[i]@) is Some ==> a is Some && !(a->0).before(
            checkpoint_pos(names[i]@)->0,
        ),
{
    if a is Some && b is Some {
        let j = choose|j: int|
            0 <= j < names.len() && checkpoint_pos((#[trigger] names[j])@) == Some(a->0);
        let k = choose|k: int|
            0 <= k < names.len() && checkpoint_pos((#[trigger] names[k])@) == Some(b->0);
        assert(!(b->0).before(checkpoint_pos(names[j]@)->0));
        assert(!(a->0).before(checkpoint_pos(names[k]@)->0));
    }
}

/// The checkpoint that is loaded is the newest that can be used: no newer file is a
/// valid checkpoint, and none newer stops the start-up.
pub proof fn law_loaded_checkpoint_is_newest_valid(
    files: Seq<CheckpointFile>,
    pos: EventWalPos,
    i: int,
)
    requires
        newer_skipped(files, pos),
        0 <= i < files.len(),
    ensures
        file_verdict(files[i]) !is Skip ==> !pos.before(files[i].pos),
        files[i].raw is None ==> file_verdict(files[i]) is Skip,
        files[i].raw matches Some(raw) ==> file_verdict(files[i]) == verdict(
            files[i].pos,
            raw@,
        ),
{
}

/// How a snapshot begins and ends: the magic, the version, the position that it covers,
/// and the number of its entries; at the end a checksum of all that is before it.
pub proof fn law_snapshot_layout(s: Seq<(SegmentId, EntryView)>, pos: EventWalPos)
    requires
        s.len() <= u32::MAX,
    ensures
        ({
            let b = snapshot_bytes(s, pos);
            let n = b.len() as int;
            &&& n >= 25
            &&& b[0] == 0x43 && b[1] == 0x48 && b[2] == 0x4B && b[3] == 1
            &&& b[4] == 3
            &&& b.subrange(5, 9) == le_u32(pos.file_seq)
            &&& b.subrange(9, 17) == le_u64(pos.offset)
            &&& b.subrange(17, 21) == le_u32(s.len() as u32)
            &&& b.subrange(n - 4, n) == le_u32(crc32(b.subrange(0, n - 4)))
        }),
{
    reveal(snapshot_bytes);
    let body = snapshot_body(s, pos);
    let b = snapshot_bytes(s, pos);
    let n = b.len() as int;
    assert(body.len() >= 21);
    assert(b.subrange(5, 9) =~= le_u32(pos.file_seq));
    assert(b.subrange(9, 17) =~= le_u64(pos.offset));
    assert(b.subrange(17, 21) =~= le_u32(s.len() as u32));
    assert(b.subrange(0, n - 4) =~= body);
    assert(b.subrange(n - 4, n) =~= le_u32(crc32(body)));
}

/// A checkpoint whose checksum or first bytes are wrong is skipped, whatever else it
/// holds.
pub proof fn law_damaged_checkpoint_is_skipped(pos: EventWalPos, b: Seq<u8>)
    requires
        b.len() >= 25,
        u32_of_le(b.subrange(b.len() - 4, b.len() as int)) != crc32(b.take(b.len() - 4)) || !(b[0]
            == 0x43 && b[1] == 0x48 && b[2] == 0x4B && b[3] == 1),
    ensures
        parse_snapshot(b) is None,
        verdict(pos, b) is Skip,
{
    reveal(parse_snapshot);
    assert(b.take(b.len() - 4) =~= b.subrange(0, b.len() - 4));
    if b.subrange(0, 4) == seq![0x43u8, 0x48u8, 0x4Bu8, 1u8] {
        assert(b.subrange(0, 4)[0] == b[0]);
        assert(b.subrange(0, 4)[1] == b[1]);
        assert(b.subrange(0, 4)[2] == b[2]);
        assert(b.subrange(0, 4)[3] == b[3]);
    }
}

/// An entry of a checkpoint is refused when it is cut short, or when its state or its
/// repacking is marked by a byte other than zero and one; the entries that it stands among
/// are refused with it.
pub proof fn law_damaged_entry_is_refused(b: Seq<u8>, count: nat, m: Entries)
    requires
        count > 0,
        ({
            let end = 21 + u32_of_le(b.subrange(17, 21));
            ||| b.len() < 21
            ||| b.len() < end
            ||| b[16] > 1
            ||| b[16] == 1 && b.len() < end + 13
            ||| b[16] == 1 && b[end + 12] > 1
            ||| b[16] == 1 && b[end + 12] == 1 && b.len() < end + 29
        }),
    ensures
        parse_entry(b) is None,
        parse_entries(b, count, m) is None,
{
    reveal(parse_entry);
}

proof fn lemma_good_records(head: Seq<u8>, events: Seq<EventView>, rest: Seq<u8>)
    requires
        all_encodable(events),
    ensures
        good_end(head + records_bytes(events) + rest, head.len() as int) == good_end(
            head + records_bytes(events) + rest,
            (head.len() + records_bytes(events).len()) as int,
        ),
    decreases events.len(),
{
    let data = head + records_bytes(events) + rest;
    if events.len() > 0 {
        let first = event_record(events[0]);
        let others = events.drop_first();
        assert(events[0].encodable());
        assert forall|i: int| 0 <= i < others.len() implies (#[trigger] others[i]).encodable() by {
            assert(events[i + 1].encodable());
        }
        let tail = records_bytes(others) + rest;
        assert(data.skip(head.len() as int) =~= first + tail);
        law_written_record_is_read(events[0], tail);
        lemma_good_records(head + first, others, rest);
        assert((head + first) + records_bytes(others) + rest =~= data);
    }
}

/// At start-up only a torn record is cut off the last file: the records before it stay.
/// Damage with more behind it is not cut, and a file that ends in a whole record is kept
/// whole.
pub proof fn law_only_a_torn_tail_is_cut(events: Seq<EventView>, rest: Seq<u8>)
    requires
        all_encodable(events),
        rest.len() == 0 || record_at(rest) is Bad,
    ensures
        ({
            let data = records_bytes(events) + rest;
            kept_tail(data) == (if rest.len() > 0 && !record_at(rest)->more {
                records_bytes(events).len() as int
            } else {
                data.len() as int
            })
        }),
{
    let data = records_bytes(events) + rest;
    assert(Seq::<u8>::empty() + records_bytes(events) + rest =~= data);
    lemma_good_records(Seq::empty(), events, rest);
    assert(data.skip(records_bytes(events).len() as int) =~= rest);
}

/// How an entry of a snapshot is laid out: the segment, its state, the length of its
/// metadata and the metadata; behind it, for a sealed segment, the position of its
/// last data entry and the segment that it was repacked from, if it was.
pub proof fn law_snapshot_entry_layout(id: SegmentId, e: EntryView, meta: Seq<u8>)
    requires
        e.state != SegmentState::Deleted,
        meta.len() <= u32::MAX,
    ensures
        ({
            let b = entry_bytes(id, e, meta);
            let end = 21 + meta.len() as int;
            &&& b.subrange(0, 16) == id_bytes(id)
            &&& b[16] == (if e.state == SegmentState::Sealed {
                1u8
            } else {
                0u8
            })
            &&& b.subrange(17, 21) == le_u32(meta.len() as u32)
            &&& b.subrange(21, end) == meta
            &&& e.state == SegmentState::Reserved ==> b.len() == end
            &&& e.state == SegmentState::Sealed ==> {
                &&& b.len() == end + if e.repacked_from is Some {
                    29int
                } else {
                    13
                }
                &&& e.data_wal_pos matches Some(p) ==> b.subrange(end, end + 4) == le_u32(
                    p.file_seq,
                ) && b.subrange(end + 4, end + 12) == le_u64(p.offset)
                &&& e.repacked_from is None ==> b[end + 12] == 0
                &&& e.repacked_from matches Some(old_id) ==> b[end + 12] == 1 && b.subrange(
                    end + 13,
                    end + 29,
                ) == id_bytes(old_id)
            }
        }),
{
    reveal(entry_bytes);
    lemma_id_round_trip(id);
    let b = entry_bytes(id, e, meta);
    let end = 21 + meta.len() as int;
    assert(b.subrange(0, 16) =~= id_bytes(id));
    assert(b.subrange(17, 21) =~= le_u32(meta.len() as u32));
    assert(b.subrange(21, end) =~= meta);
    if e.state == SegmentState::Sealed {
        if let Some(p) = e.data_wal_pos {
            assert(b.subrange(end, end + 4) =~= le_u32(p.file_seq));
            assert(b.subrange(end + 4, end + 12) =~= le_u64(p.offset));
        }
        if let Some(old_id) = e.repacked_from {
            lemma_id_round_trip(old_id);
            assert(b.subrange(end + 13, end + 29) =~= id_bytes(old_id));
        }
    }
}

/// The flags of a payload say which optional fields it has, one bit for each.
pub proof fn law_payload_flags(e: EventView)
    ensures
        e matches EventView::Seal(s) ==> event_payload(e)[3] == (if s.repacked_from is Some {
            1int
        } else {
            0
        }) + (if s.pool_id != 0 {
            2int
        } else {
            0
        }),
        e matches EventView::MetadataRefresh { merkle_root, storage_locations, pool_id, .. } ==> {
            let p = event_payload(e);
            &&& p[0] == (if merkle_root is Some {
                1int
            } else {
                0
            }) + (if storage_locations is Some {
                2int
            } else {
                0
            }) + (if pool_id is Some {
                4int
            } else {
                0
            })
            &&& merkle_root matches Some(root) ==> p.subrange(1, 33) == root@
            &&& pool_id matches Some(pool) ==> p.subrange(p.len() - 4, p.len() as int) == le_u32(
                pool,
            )
            &&& storage_locations matches Some(locs) ==> locs.len() < 256 ==> p[if merkle_root
                is Some {
                33int
            } else {
                1
            }] == locs.len()
        },
{
    match e {
        EventView::MetadataRefresh { merkle_root, storage_locations, pool_id, .. } => {
            let p = event_payload(e);
            if let Some(root) = merkle_root {
                crate::types::lemma_hash_of(root);
                assert(p.subrange(1, 33) =~= root@);
            }
            if let Some(pool) = pool_id {
                assert(p.subrange(p.len() - 4, p.len() as int) =~= le_u32(pool));
            }
        },
        _ => {},
    }
}

/// The names of log files have at least eight digits, between `evl_` and `.log`; a
/// path is its directory and the name, with one slash between them.
pub proof fn law_file_names_and_paths(seq: u32, dir: Seq<char>)
    ensures
        ({
            let name = evl_name(seq);
            let n = name.len() as int;
            &&& n >= 16
            &&& name.subrange(0, 4) == "evl_"@
            &&& name.subrange(n - 4, n) == ".log"@
            &&& dir.len() == 0 || dir.last() == '/' ==> path_join(dir, name) == dir + name
            &&& dir.len() > 0 && dir.last() != '/' ==> path_join(dir, name) == dir + seq!['/'] + name
        }),
{
    reveal_strlit("evl_");
    reveal_strlit(".log");
    let name = evl_name(seq);
    let n = name.len() as int;
    assert(zero_padded(decimal(seq as nat), 8).len() >= 8);
    assert(name.subrange(0, 4) =~= "evl_"@);
    assert(name.subrange(n - 4, n) =~= ".log"@);
    assert(dir.push('/') =~= dir + seq!['/']);
}

} // verus!
