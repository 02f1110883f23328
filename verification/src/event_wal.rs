//! The segment event log: files of event records, appended to in order.
//!
//! The log is a set of files named by a sequence number. A record that would
//! cross the file size goes to a new file; files are removed only when a
//! checkpoint covers them.

use crate::event_reader::{
    files_ordered, first_file_from, read_log_from, truncate_torn_tail, EventFile, EventWalReader,
    kept_tail, lemma_read_suffix,
};
use crate::event_record::{event_record, SegmentEvent};
use crate::text::{
    chars_of, decimal, join_path, lemma_decimal_round_trip, parse_number, parse_number_at,
    path_join, push_decimal_padded, zero_padded,
};
use crate::types::{EventWalConfig, EventWalPos};
use vstd::prelude::*;
use vstd::string::*;

verus! {

/// Number of bits that a packed position keeps for the offset.
pub const PACKED_OFFSET_BITS: u64 = 48;

/// The bits of a packed position that hold the offset.
pub const PACKED_OFFSET_MASK: u64 = 0xFFFF_FFFF_FFFF;

impl EventWalPos {
    /// `self` lies before `other`: by file sequence, then by offset.
    pub open spec fn before(self, other: EventWalPos) -> bool {
        self.file_seq < other.file_seq || (self.file_seq == other.file_seq && self.offset
            < other.offset)
    }

    /// The position in one word: the file sequence in the high bits, the low
    /// 48 bits of the offset below it.
    pub open spec fn packed_spec(self) -> u64 {
        ((self.file_seq as u64) << 48) | (self.offset & 0xFFFF_FFFF_FFFF)
    }

    /// The position that a word stands for.
    pub open spec fn from_packed_spec(packed: u64) -> EventWalPos {
        EventWalPos { file_seq: (packed >> 48) as u32, offset: packed & 0xFFFF_FFFF_FFFF }
    }

    /// The position fits a word: the sequence has 16 bits and the offset 48.
    pub open spec fn packable(self) -> bool {
        self.file_seq < 0x1_0000 && self.offset < 0x1_0000_0000_0000
    }

    /// Packs the position into one word, so that it can be published with one
    /// atomic store. Packed positions are ordered as the positions are, so a
    /// position that does not fit the word has none.
    pub fn packed(self) -> (packed: u64)
        requires
            self.packable(),
        ensures
            packed == self.packed_spec(),
            Self::from_packed_spec(packed) == self,
    {
        proof {
            law_packed_round_trip(self);
        }
        ((self.file_seq as u64) << PACKED_OFFSET_BITS) | (self.offset & PACKED_OFFSET_MASK)
    }

    /// Unpacks a word written by [`packed`](Self::packed).
    pub fn from_packed(packed: u64) -> (pos: EventWalPos)
        ensures
            pos == Self::from_packed_spec(packed),
    {
        let seq: u64 = packed >> PACKED_OFFSET_BITS;
        EventWalPos {
            file_seq: #[verifier::truncate] (seq as u32),
            offset: packed & PACKED_OFFSET_MASK,
        }
    }

    /// Whether this position lies before `other`.
    pub fn is_before(&self, other: &EventWalPos) -> (r: bool)
        ensures
            r == self.before(*other),
    {
        self.file_seq < other.file_seq || (self.file_seq == other.file_seq && self.offset
            < other.offset)
    }
}

/// A position that fits a word is unpacked from it unchanged.
pub proof fn law_packed_round_trip(pos: EventWalPos)
    requires
        pos.packable(),
    ensures
        EventWalPos::from_packed_spec(pos.packed_spec()) == pos,
{
    let s = pos.file_seq;
    let o = pos.offset;
    assert((((((s as u64) << 48) | (o & 0xFFFF_FFFF_FFFF)) >> 48) as u32) == s && ((((s as u64)
        << 48) | (o & 0xFFFF_FFFF_FFFF)) & 0xFFFF_FFFF_FFFF) == o) by (bit_vector)
        requires
            s < 0x1_0000,
            o < 0x1_0000_0000_0000,
    ;
}

/// Packed positions are ordered as the positions are.
pub proof fn law_packed_monotonic(a: EventWalPos, b: EventWalPos)
    requires
        a.packable(),
        b.packable(),
    ensures
        a.before(b) <==> a.packed_spec() < b.packed_spec(),
{
    let (s, o) = (a.file_seq, a.offset);
    let (t, p) = (b.file_seq, b.offset);
    assert((s < t || (s == t && o < p)) <==> (((s as u64) << 48) | (o & 0xFFFF_FFFF_FFFF)) < (((
    t as u64) << 48) | (p & 0xFFFF_FFFF_FFFF))) by (bit_vector)
        requires
            s < 0x1_0000,
            o < 0x1_0000_0000_0000,
            t < 0x1_0000,
            p < 0x1_0000_0000_0000,
    ;
}

/// Name of the log file with the given sequence number: `evl_`, the number in
/// at least eight digits, `.log`.
pub open spec fn evl_name(seq: u32) -> Seq<char> {
    "evl_"@ + zero_padded(decimal(seq as nat), 8) + ".log"@
}

/// The sequence number in the name of a log file; `None` for another name.
pub open spec fn evl_seq(name: Seq<char>) -> Option<nat> {
    let n = name.len() as int;
    if n >= 8 && name.subrange(0, 4) == "evl_"@ && name.subrange(n - 4, n) == ".log"@ {
        parse_number(name.subrange(4, n - 4), u32::MAX as nat)
    } else {
        None
    }
}

/// Name of the log file with the given sequence number.
pub fn evl_file_name(seq: u32) -> (name: String)
    ensures
        name@ == evl_name(seq),
{
    let mut name: String = "evl_".to_owned();
    push_decimal_padded(&mut name, seq as u64, 8);
    name.append(".log");
    name
}

/// Path of the log file with the given sequence number in `dir`.
pub fn evl_file_path(dir: &str, seq: u32) -> (path: String)
    ensures
        path@ == path_join(dir@, evl_name(seq)),
{
    join_path(dir, evl_file_name(seq).as_str())
}

/// Reads the sequence number from the name of a log file.
pub fn parse_evl_name(name: &str) -> (seq: Option<u32>)
    ensures
        match seq {
            Some(s) => evl_seq(name@) == Some(s as nat),
            None => evl_seq(name@) is None,
        },
{
    let chars = chars_of(name);
    let n: usize = chars.len();
    proof {
        reveal_strlit("evl_");
        reveal_strlit(".log");
    }
    if n < 8 {
        return None;
    }
    let ghost head = name@.subrange(0, 4);
    let ghost tail = name@.subrange(n - 4, n as int);
    if chars[0] != 'e' || chars[1] != 'v' || chars[2] != 'l' || chars[3] != '_' {
        assert(head[0] == chars@[0] && head[1] == chars@[1] && head[2] == chars@[2] && head[3]
            == chars@[3]);
        return None;
    }
    if chars[n - 4] != '.' || chars[n - 3] != 'l' || chars[n - 2] != 'o' || chars[n - 1] != 'g' {
        assert(tail[0] == chars@[n - 4] && tail[1] == chars@[n - 3] && tail[2] == chars@[n - 2]
            && tail[3] == chars@[n - 1]);
        return None;
    }
    assert(head =~= "evl_"@);
    assert(tail =~= ".log"@);
    match parse_number_at(&chars, 4, n - 4, u32::MAX as u64) {
        Some(v) => Some(v as u32),
        None => None,
    }
}

/// The name of a log file gives back its sequence number.
pub proof fn law_evl_name_round_trip(seq: u32)
    ensures
        evl_seq(evl_name(seq)) == Some(seq as nat),
{
    reveal_strlit("evl_");
    reveal_strlit(".log");
    let name = evl_name(seq);
    let n = name.len() as int;
    let digits = zero_padded(decimal(seq as nat), 8);
    lemma_decimal_round_trip(seq as nat, 8);
    assert(name.subrange(0, 4) =~= "evl_"@);
    assert(name.subrange(n - 4, n) =~= ".log"@);
    assert(name.subrange(4, n - 4) =~= digits);
    assert('0' <= digits[0] <= '9');
}

/// Sum of the sizes in a listing of log files.
pub open spec fn total_size(files: Seq<(u32, u64)>) -> nat
    decreases files.len(),
{
    if files.len() == 0 {
        0
    } else {
        total_size(files.drop_last()) + files.last().1 as nat
    }
}

/// `files` with `f` at its place by sequence number, behind its equals.
pub open spec fn insert_file(files: Seq<(u32, u64)>, f: (u32, u64)) -> Seq<(u32, u64)>
    decreases files.len(),
{
    if files.len() == 0 || files.last().0 <= f.0 {
        files.push(f)
    } else {
        insert_file(files.drop_last(), f).push(files.last())
    }
}

/// A listing of log files in order of their sequence numbers.
pub open spec fn sort_files(files: Seq<(u32, u64)>) -> Seq<(u32, u64)>
    decreases files.len(),
{
    if files.len() == 0 {
        Seq::empty()
    } else {
        insert_file(sort_files(files.drop_last()), files.last())
    }
}

/// The sequence numbers of a listing do not decrease.
pub open spec fn listing_sorted(files: Seq<(u32, u64)>) -> bool {
    forall|i: int, j: int| 0 <= i <= j < files.len() ==> (#[trigger] files[i]).0 <= (
    #[trigger] files[j]).0
}

/// For each file of a listing, its sequence number and the total size of the
/// files before it.
pub open spec fn bases_of(files: Seq<(u32, u64)>) -> Seq<(u32, u64)> {
    Seq::new(files.len(), |i: int| (files[i].0, total_size(files.take(i)) as u64))
}

/// The total size of the files before file `seq`: the last base at or before
/// it.
pub open spec fn base_of(bases: Seq<(u32, u64)>, seq: u32) -> Option<u64>
    decreases bases.len(),
{
    if bases.len() == 0 {
        None
    } else if bases.last().0 <= seq {
        Some(bases.last().1)
    } else {
        base_of(bases.drop_last(), seq)
    }
}

/// A file is covered by `pos`: no event at or after `pos` is in it, and it is
/// not the file being written.
pub open spec fn file_covered(file: (u32, u64), pos: EventWalPos, current: u32) -> bool {
    file.0 != current && (file.0 < pos.file_seq || (file.0 == pos.file_seq && file.1
        <= pos.offset))
}

proof fn lemma_insert_file(files: Seq<(u32, u64)>, f: (u32, u64))
    requires
        listing_sorted(files),
    ensures
        listing_sorted(insert_file(files, f)),
        insert_file(files, f).len() == files.len() + 1,
        insert_file(files, f).to_multiset() =~= files.to_multiset().insert(f),
        total_size(insert_file(files, f)) == total_size(files) + f.1,
        forall|i: int|
            0 <= i < insert_file(files, f).len() ==> (#[trigger] insert_file(files, f)[i]).0 <= f.0
                || (files.len() > 0 && insert_file(files, f)[i].0 <= files.last().0),
    decreases files.len(),
{
    broadcast use vstd::seq_lib::group_to_multiset_ensures;

    let r = insert_file(files, f);
    if files.len() == 0 || files.last().0 <= f.0 {
        assert(r.drop_last() =~= files);
    } else {
        let front = files.drop_last();
        lemma_insert_file(front, f);
        let g = insert_file(front, f);
        assert(r.drop_last() =~= g);
        assert(files =~= front.push(files.last()));
        assert forall|i: int, j: int| 0 <= i <= j < r.len() implies (#[trigger] r[i]).0 <= (
        #[trigger] r[j]).0 by {
            if j == r.len() - 1 && i < j {
                assert(r[i] == g[i]);
                if front.len() > 0 {
                    assert(files[front.len() - 1].0 <= files[files.len() - 1].0);
                }
            }
        }
    }
}

/// Sorting a listing orders it and keeps its files.
pub proof fn lemma_sort_files(files: Seq<(u32, u64)>)
    ensures
        listing_sorted(sort_files(files)),
        sort_files(files).len() == files.len(),
        sort_files(files).to_multiset() =~= files.to_multiset(),
        total_size(sort_files(files)) == total_size(files),
    decreases files.len(),
{
    broadcast use vstd::seq_lib::group_to_multiset_ensures;

    if files.len() > 0 {
        lemma_sort_files(files.drop_last());
        lemma_insert_file(sort_files(files.drop_last()), files.last());
        assert(files =~= files.drop_last().push(files.last()));
    } else {
        assert(sort_files(files) =~= files);
    }
}

/// Sorts a listing of log files by sequence number.
fn sorted_listing(files: &Vec<(u32, u64)>) -> (sorted: Vec<(u32, u64)>)
    ensures
        sorted@ == sort_files(files@),
{
    let mut sorted: Vec<(u32, u64)> = Vec::new();
    let mut i: usize = 0;
    let n: usize = files.len();
    assert(files@.take(0) =~= Seq::empty());
    while i < n
        invariant
            i <= n == files@.len(),
            sorted@ == sort_files(files@.take(i as int)),
        decreases n - i,
    {
        let f = files[i];
        assert(files@.take(i + 1).drop_last() =~= files@.take(i as int));
        insert_into(&mut sorted, f);
        i = i + 1;
    }
    assert(files@.take(n as int) =~= files@);
    sorted
}

/// Puts a file into a sorted listing.
fn insert_into(files: &mut Vec<(u32, u64)>, f: (u32, u64))
    ensures
        final(files)@ == insert_file(old(files)@, f),
{
    let mut at: usize = files.len();
    let ghost all = files@;
    assert(all.take(all.len() as int) =~= all);
    while at > 0 && files[at - 1].0 > f.0
        invariant
            at <= all.len(),
            files@ == all,
            insert_file(all, f) =~= insert_file(all.take(at as int), f) + all.skip(at as int),
        decreases at,
    {
        proof {
            let t = all.take(at as int);
            assert(t.drop_last() =~= all.take(at - 1));
            assert(all.skip(at - 1) =~= seq![all[at - 1]] + all.skip(at as int));
        }
        at = at - 1;
    }
    files.insert(at, f);
    proof {
        assert(insert_file(all.take(at as int), f) =~= all.take(at as int).push(f));
        assert(files@ =~= all.take(at as int).push(f) + all.skip(at as int));
    }
}


/// Computes the bases of a listing, and its total size.
fn listing_bases(files: &Vec<(u32, u64)>) -> (r: (Vec<(u32, u64)>, u64))
    requires
        total_size(files@) <= u64::MAX,
    ensures
        r.0@ == bases_of(files@),
        r.1 == total_size(files@),
{
    let mut bases: Vec<(u32, u64)> = Vec::new();
    let mut cumulative: u64 = 0;
    let mut i: usize = 0;
    let n: usize = files.len();
    assert(files@.take(n as int) =~= files@);
    while i < n
        invariant
            i <= n == files@.len(),
            total_size(files@) <= u64::MAX,
            files@.take(n as int) == files@,
            bases@ =~= bases_of(files@).take(i as int),
            cumulative == total_size(files@.take(i as int)),
        decreases n - i,
    {
        proof {
            lemma_total_size_prefix(files@, i + 1);
            assert(files@.take(i + 1).drop_last() =~= files@.take(i as int));
        }
        bases.push((files[i].0, cumulative));
        cumulative = cumulative + files[i].1;
        i = i + 1;
    }
    assert(bases_of(files@).take(n as int) =~= bases_of(files@));
    (bases, cumulative)
}

proof fn lemma_total_size_prefix(files: Seq<(u32, u64)>, k: int)
    requires
        0 <= k <= files.len(),
    ensures
        total_size(files.take(k)) <= total_size(files),
    decreases files.len(),
{
    if k == files.len() {
        assert(files.take(k) =~= files);
    } else {
        assert(files.drop_last().take(k) =~= files.take(k));
        lemma_total_size_prefix(files.drop_last(), k);
    }
}

/// The files that a truncation removes, and how many bytes they held.
#[derive(Debug, PartialEq, Eq)]
pub struct Truncation {
    /// Sequence numbers of the files to remove, in order.
    pub files: Vec<u32>,
    /// Their total size.
    pub bytes: u64,
}

/// The write state of the event log: where the next record goes, and how many
/// bytes the log holds.
pub struct EventWal {
    config: EventWalConfig,
    file_seq: u32,
    position: u64,
    bytes_total: u64,
    file_bases: Vec<(u32, u64)>,
    file_count: u64,
}

/// The mathematical view of [`EventWal`].
pub struct EventWalView {
    /// A record that would cross this size goes to a new file.
    pub file_size: u64,
    /// Where the next record goes, unless it needs a new file.
    pub latest: EventWalPos,
    /// Total size of the log.
    pub bytes_total: nat,
    /// Total size of the files before each file.
    pub bases: Seq<(u32, u64)>,
    /// Number of files on disk.
    pub file_count: nat,
}

impl EventWalView {
    /// How many bytes of the log lie before `pos`.
    pub open spec fn bytes_before(self, pos: EventWalPos) -> nat {
        (match base_of(self.bases, pos.file_seq) {
            Some(base) => base as nat,
            None => 0,
        }) + pos.offset as nat
    }

    /// How many bytes of the log lie at or after `pos`.
    pub open spec fn bytes_since(self, pos: EventWalPos) -> nat {
        if self.bytes_total >= self.bytes_before(pos) {
            (self.bytes_total - self.bytes_before(pos)) as nat
        } else {
            0
        }
    }

    /// The accounting is right: all bytes lie before the write position, and
    /// the file being written has the last base.
    pub open spec fn accounted(self) -> bool {
        &&& self.bytes_before(self.latest) == self.bytes_total
        &&& forall|i: int| 0 <= i < self.bases.len() ==> (#[trigger] self.bases[i]).0
            <= self.latest.file_seq
    }

    /// A record of `size` bytes needs a new file.
    pub open spec fn needs_rotation(self, size: nat) -> bool {
        self.latest.offset + size > self.file_size
    }

    /// After moving on to a new file.
    pub open spec fn rotated(self) -> EventWalView {
        let seq = (self.latest.file_seq + 1) as u32;
        EventWalView {
            file_size: self.file_size,
            latest: EventWalPos { file_seq: seq, offset: 0 },
            bytes_total: self.bytes_total,
            bases: self.bases.push((seq, self.bytes_total as u64)),
            file_count: self.file_count + 1,
        }
    }

    /// After writing a record of `size` bytes at the write position.
    pub open spec fn written(self, size: nat) -> EventWalView {
        EventWalView {
            latest: EventWalPos {
                file_seq: self.latest.file_seq,
                offset: (self.latest.offset + size) as u64,
            },
            bytes_total: self.bytes_total + size,
            ..self
        }
    }

    /// After appending a record of `size` bytes.
    pub open spec fn appended(self, size: nat) -> EventWalView {
        if self.needs_rotation(size) {
            self.rotated().written(size)
        } else {
            self.written(size)
        }
    }

    /// Where a record of `size` bytes goes.
    pub open spec fn append_pos(self, size: nat) -> EventWalPos {
        if self.needs_rotation(size) {
            self.rotated().latest
        } else {
            self.latest
        }
    }

    /// There is room for a record of `size` bytes: sequence numbers and byte
    /// counts stay in range.
    pub open spec fn has_room(self, size: nat) -> bool {
        &&& self.latest.offset + size <= u64::MAX
        &&& self.bytes_total + size <= u64::MAX
        &&& self.needs_rotation(size) ==> self.latest.file_seq < u32::MAX && self.file_count
            < u64::MAX
    }
}

impl View for EventWal {
    type V = EventWalView;

    closed spec fn view(&self) -> EventWalView {
        EventWalView {
            file_size: self.config.event_wal_file_size_bytes,
            latest: EventWalPos { file_seq: self.file_seq, offset: self.position },
            bytes_total: self.bytes_total as nat,
            bases: self.file_bases@,
            file_count: self.file_count as nat,
        }
    }
}

/// The highest sequence number of a sorted listing; 0 when it is empty.
pub open spec fn last_seq(files: Seq<(u32, u64)>) -> u32 {
    if files.len() == 0 {
        0
    } else {
        files.last().0
    }
}

/// A sorted listing whose last file has the size `size`.
pub open spec fn with_last_size(files: Seq<(u32, u64)>, size: u64) -> Seq<(u32, u64)> {
    if files.len() == 0 {
        files
    } else {
        files.drop_last().push((files.last().0, size))
    }
}

impl EventWal {
    /// Resumes the log at the end of its highest-numbered file.
    ///
    /// `files` lists the files with their sizes, in any order; `tail` is the
    /// content of the highest-numbered file, empty when there is none: the
    /// first file is then created. A torn record at the end of the tail does
    /// not count: the file is to be cut to the resumed offset.
    pub fn open(files: Vec<(u32, u64)>, tail: &[u8], config: EventWalConfig) -> (wal: EventWal)
        requires
            total_size(files@) + tail@.len() <= u64::MAX,
            files@.len() == 0 ==> tail@.len() == 0,
        ensures
            wal@.file_size == config.event_wal_file_size_bytes,
            wal@.latest.file_seq == last_seq(sort_files(files@)),
            wal@.latest.offset == kept_tail(tail@),
            wal@.bases == bases_of(with_last_size(sort_files(files@), kept_tail(tail@) as u64)),
            wal@.bytes_total == total_size(
                with_last_size(sort_files(files@), kept_tail(tail@) as u64),
            ),
            wal@.file_count == (if files@.len() == 0 {
                1
            } else {
                files@.len()
            }),
            wal@.accounted(),
    {
        let mut sorted = sorted_listing(&files);
        proof {
            lemma_sort_files(files@);
        }
        let kept: usize = truncate_torn_tail(tail);
        let file_count: u64 = if files.len() == 0 {
            1
        } else {
            files.len() as u64
        };
        let mut max_seq: u32 = 0;
        let ghost listing = sorted@;
        if sorted.len() > 0 {
            let last: usize = sorted.len() - 1;
            max_seq = sorted[last].0;
            sorted.pop();
            sorted.push((max_seq, kept as u64));
            proof {
                assert(sorted@ =~= with_last_size(listing, kept as u64));
                assert(sorted@.drop_last() =~= listing.drop_last());
            }
        } else {
            assert(sorted@ =~= with_last_size(listing, kept as u64));
        }
        let (file_bases, bytes_total) = listing_bases(&sorted);
        let wal = EventWal {
            config,
            file_seq: max_seq,
            position: kept as u64,
            bytes_total,
            file_bases,
            file_count,
        };
        proof {
            assert(wal@.bases == bases_of(sorted@));
            if sorted@.len() > 0 {
                assert(sorted@.take(sorted@.len() - 1) =~= sorted@.drop_last());
            }
        }
        wal
    }

    /// Where the next record goes.
    pub fn latest_pos(&self) -> (pos: EventWalPos)
        ensures
            pos == self@.latest,
    {
        EventWalPos { file_seq: self.file_seq, offset: self.position }
    }

    /// Total size of the log, in bytes.
    pub fn bytes_total(&self) -> (n: u64)
        ensures
            n == self@.bytes_total,
    {
        self.bytes_total
    }

    /// Number of log files on disk.
    pub fn file_count(&self) -> (n: u64)
        ensures
            n == self@.file_count,
    {
        self.file_count
    }

    /// Whether a record of `size` bytes goes to a new file: it would cross the
    /// file size.
    pub fn needs_rotation(&self, size: u64) -> (r: bool)
        ensures
            r == self@.needs_rotation(size as nat),
    {
        self.position as u128 + size as u128 > self.config.event_wal_file_size_bytes as u128
    }

    /// Moves on to the next file. Old files stay until a checkpoint covers
    /// them.
    pub fn rotate(&mut self)
        requires
            old(self)@.latest.file_seq < u32::MAX,
            old(self)@.file_count < u64::MAX,
        ensures
            final(self)@ == old(self)@.rotated(),
    {
        let new_seq: u32 = self.file_seq + 1;
        self.file_bases.push((new_seq, self.bytes_total));
        self.file_seq = new_seq;
        self.position = 0;
        self.file_count = self.file_count + 1;
    }

    /// Counts a record of `size` bytes that was written at the write position,
    /// and gives its position.
    pub fn record_written(&mut self, size: u64) -> (pos: EventWalPos)
        requires
            old(self)@.latest.offset + size <= u64::MAX,
            old(self)@.bytes_total + size <= u64::MAX,
        ensures
            pos == old(self)@.latest,
            final(self)@ == old(self)@.written(size as nat),
    {
        let pos = self.latest_pos();
        self.position = self.position + size;
        self.bytes_total = self.bytes_total + size;
        pos
    }

    /// Appends an event: gives the record to write, and where it goes.
    pub fn append(&mut self, event: &SegmentEvent) -> (r: (EventWalPos, Vec<u8>))
        requires
            old(self)@.has_room(event_record(event@).len()),
        ensures
            r.1@ == event_record(event@),
            r.0 == old(self)@.append_pos(event_record(event@).len()),
            final(self)@ == old(self)@.appended(event_record(event@).len()),
    {
        let record = event.to_record_bytes();
        let size: u64 = record.len() as u64;
        if self.needs_rotation(size) {
            self.rotate();
        }
        let pos = self.record_written(size);
        (pos, record)
    }

    /// Starts reading the log at `pos`.
    pub fn read_from(&self, files: Vec<EventFile>, pos: EventWalPos) -> (reader: EventWalReader)
        requires
            files_ordered(files@),
        ensures
            reader.wf(),
            reader.rest() == read_log_from(files@, pos),
    {
        EventWalReader::read_from(files, pos)
    }

    /// Number of bytes appended at or after `pos`.
    pub fn bytes_since(&self, pos: EventWalPos) -> (n: u64)
        ensures
            n == self@.bytes_since(pos),
    {
        let base: u64 = match self.base_before(pos.file_seq) {
            Some(base) => base,
            None => 0,
        };
        let before: u128 = base as u128 + pos.offset as u128;
        if self.bytes_total as u128 >= before {
            (self.bytes_total as u128 - before) as u64
        } else {
            0
        }
    }

    /// Total size of the files before file `file_seq`, or `None` when it lies
    /// before every known file.
    fn base_before(&self, file_seq: u32) -> (base: Option<u64>)
        ensures
            base == base_of(self.file_bases@, file_seq),
    {
        let mut i: usize = self.file_bases.len();
        assert(self.file_bases@.take(i as int) =~= self.file_bases@);
        while i > 0
            invariant
                i <= self.file_bases@.len(),
                base_of(self.file_bases@, file_seq) == base_of(
                    self.file_bases@.take(i as int),
                    file_seq,
                ),
            decreases i,
        {
            let ghost t = self.file_bases@.take(i as int);
            assert(t.drop_last() =~= self.file_bases@.take(i - 1));
            if self.file_bases[i - 1].0 <= file_seq {
                return Some(self.file_bases[i - 1].1);
            }
            i = i - 1;
        }
        None
    }

    /// Removes the files that `pos` covers. Events at or after `pos` are never
    /// touched, and the file being written always stays.
    ///
    /// `listing` lists the log's files with their sizes. The byte accounting
    /// is rebuilt from the files that stay.
    pub fn truncate_before(&mut self, listing: &Vec<(u32, u64)>, pos: EventWalPos) -> (removed:
        Truncation)
        requires
            total_size(listing@) <= u64::MAX,
        ensures
            removed.files@ == covered_files(sort_files(listing@), pos, old(self)@.latest.file_seq),
            removed.bytes + final(self)@.bytes_total == total_size(listing@),
            final(self)@.bytes_total == total_size(
                remaining_files(sort_files(listing@), pos, old(self)@.latest.file_seq),
            ),
            final(self)@.bases == bases_of(
                remaining_files(sort_files(listing@), pos, old(self)@.latest.file_seq),
            ),
            final(self)@.file_count == remaining_files(
                sort_files(listing@),
                pos,
                old(self)@.latest.file_seq,
            ).len(),
            final(self)@.latest == old(self)@.latest,
            final(self)@.file_size == old(self)@.file_size,
    {
        let sorted = sorted_listing(listing);
        proof {
            lemma_sort_files(listing@);
        }
        let mut gone: Vec<u32> = Vec::new();
        let mut bytes: u64 = 0;
        let mut remaining: Vec<(u32, u64)> = Vec::new();
        let mut i: usize = 0;
        let n: usize = sorted.len();
        let current: u32 = self.file_seq;
        assert(sorted@.take(0) =~= Seq::empty());
        while i < n
            invariant
                i <= n == sorted@.len(),
                gone@ == covered_files(sorted@.take(i as int), pos, current),
                remaining@ == remaining_files(sorted@.take(i as int), pos, current),
                bytes + total_size(remaining@) == total_size(sorted@.take(i as int)),
                total_size(sorted@) <= u64::MAX,
            decreases n - i,
        {
            let (seq, size) = sorted[i];
            proof {
                assert(sorted@.take(i + 1).drop_last() =~= sorted@.take(i as int));
                lemma_total_size_prefix(sorted@, i + 1);
            }
            if seq != current && (seq < pos.file_seq || (seq == pos.file_seq && size <= pos.offset)) {
                gone.push(seq);
                bytes = bytes + size;
            } else {
                let ghost before = remaining@;
                remaining.push((seq, size));
                assert(remaining@.drop_last() =~= before);
            }
            i = i + 1;
        }
        assert(sorted@.take(n as int) =~= sorted@);
        let (file_bases, bytes_total) = listing_bases(&remaining);
        self.file_count = remaining.len() as u64;
        self.file_bases = file_bases;
        self.bytes_total = bytes_total;
        Truncation { files: gone, bytes }
    }
}

/// The sequence numbers of the files of a listing that `pos` covers.
pub open spec fn covered_files(files: Seq<(u32, u64)>, pos: EventWalPos, current: u32) -> Seq<u32>
    decreases files.len(),
{
    if files.len() == 0 {
        Seq::empty()
    } else if file_covered(files.last(), pos, current) {
        covered_files(files.drop_last(), pos, current).push(files.last().0)
    } else {
        covered_files(files.drop_last(), pos, current)
    }
}

/// The files of a listing that `pos` does not cover.
pub open spec fn remaining_files(files: Seq<(u32, u64)>, pos: EventWalPos, current: u32) -> Seq<
    (u32, u64),
>
    decreases files.len(),
{
    if files.len() == 0 {
        Seq::empty()
    } else if file_covered(files.last(), pos, current) {
        remaining_files(files.drop_last(), pos, current)
    } else {
        remaining_files(files.drop_last(), pos, current).push(files.last())
    }
}


/// Positions grow with appends: a record goes at or behind the write position,
/// and the write position moves behind the record.
pub proof fn law_append_positions_grow(wal: EventWalView, size: nat)
    requires
        wal.has_room(size),
        size > 0,
    ensures
        !wal.append_pos(size).before(wal.latest),
        wal.append_pos(size).before(wal.appended(size).latest),
{
}

proof fn lemma_base_push(bases: Seq<(u32, u64)>, b: (u32, u64), seq: u32)
    ensures
        seq < b.0 ==> base_of(bases.push(b), seq) == base_of(bases, seq),
        seq >= b.0 ==> base_of(bases.push(b), seq) == Some(b.1),
{
    assert(bases.push(b).drop_last() =~= bases);
}

/// An append keeps the accounting right: the new record is all that lies at
/// or after its position, and every position in the log so far has that many
/// more bytes behind it.
pub proof fn law_append_accounting(wal: EventWalView, size: nat, pos: EventWalPos)
    requires
        wal.accounted(),
        wal.has_room(size),
        wal.bytes_total <= u64::MAX,
        pos.file_seq <= wal.latest.file_seq,
        wal.bytes_before(pos) <= wal.bytes_total,
    ensures
        wal.appended(size).accounted(),
        wal.appended(size).bytes_since(wal.append_pos(size)) == size,
        wal.appended(size).bytes_since(pos) == wal.bytes_since(pos) + size,
        wal.appended(size).bytes_since(wal.appended(size).latest) == 0,
{
    if wal.needs_rotation(size) {
        let seq = (wal.latest.file_seq + 1) as u32;
        let b = (seq, wal.bytes_total as u64);
        lemma_base_push(wal.bases, b, seq);
        lemma_base_push(wal.bases, b, pos.file_seq);
    }
}

/// The log without the files that `pos` covers.
pub open spec fn truncated_log(files: Seq<EventFile>, pos: EventWalPos, current: u32) -> Seq<
    EventFile,
>
    decreases files.len(),
{
    if files.len() == 0 {
        Seq::empty()
    } else if file_covered((files.last().seq, files.last().data@.len() as u64), pos, current) {
        truncated_log(files.drop_last(), pos, current)
    } else {
        truncated_log(files.drop_last(), pos, current).push(files.last())
    }
}

proof fn lemma_truncated_low(files: Seq<EventFile>, pos: EventWalPos, current: u32)
    requires
        forall|i: int| 0 <= i < files.len() ==> (#[trigger] files[i]).seq < pos.file_seq,
    ensures
        forall|i: int|
            0 <= i < truncated_log(files, pos, current).len() ==> (#[trigger] truncated_log(
                files,
                pos,
                current,
            )[i]).seq < pos.file_seq,
    decreases files.len(),
{
    if files.len() > 0 {
        let front = files.drop_last();
        assert(forall|i: int| 0 <= i < front.len() ==> front[i] == files[i]);
        lemma_truncated_low(front, pos, current);
        let kept = truncated_log(front, pos, current);
        let all = truncated_log(files, pos, current);
        assert forall|i: int| 0 <= i < all.len() implies (#[trigger] all[i]).seq < pos.file_seq by {
            if i < kept.len() {
                assert(all[i] == kept[i]);
            } else {
                assert(all[i] == files[files.len() - 1]);
            }
        }
    }
}

proof fn lemma_truncated_high(files: Seq<EventFile>, pos: EventWalPos, current: u32, m: int)
    requires
        0 <= m <= files.len(),
        forall|i: int|
            m <= i < files.len() ==> !file_covered(
                ((#[trigger] files[i]).seq, files[i].data@.len() as u64),
                pos,
                current,
            ),
    ensures
        truncated_log(files, pos, current) == truncated_log(files.take(m), pos, current)
            + files.skip(m),
    decreases files.len() - m,
{
    if m == files.len() {
        assert(files.take(m) =~= files);
        assert(truncated_log(files, pos, current) =~= truncated_log(files.take(m), pos, current)
            + files.skip(m));
    } else {
        let n = files.len() as int;
        let front = files.drop_last();
        assert(front.take(m) =~= files.take(m));
        assert(!file_covered((files[n - 1].seq, files[n - 1].data@.len() as u64), pos, current));
        lemma_truncated_high(front, pos, current, m);
        assert(front.skip(m).push(files.last()) =~= files.skip(m));
        assert(truncated_log(files, pos, current) =~= truncated_log(files.take(m), pos, current)
            + files.skip(m));
    }
}

proof fn lemma_first_file_bounds(files: Seq<EventFile>, seq: u32, from: int)
    requires
        0 <= from <= files.len(),
        forall|i: int| 0 <= i < from ==> (#[trigger] files[i]).seq < seq,
    ensures
        from <= first_file_from(files, seq, from) <= files.len(),
        forall|i: int|
            0 <= i < first_file_from(files, seq, from) ==> (#[trigger] files[i]).seq < seq,
        first_file_from(files, seq, from) < files.len() ==> files[first_file_from(
            files,
            seq,
            from,
        )].seq >= seq,
    decreases files.len() - from,
{
    if from < files.len() && files[from].seq < seq {
        lemma_first_file_bounds(files, seq, from + 1);
    }
}

proof fn lemma_first_file_is(files: Seq<EventFile>, seq: u32, at: int, from: int)
    requires
        0 <= from <= at <= files.len(),
        forall|i: int| 0 <= i < at ==> (#[trigger] files[i]).seq < seq,
        at < files.len() ==> files[at].seq >= seq,
    ensures
        first_file_from(files, seq, from) == at,
    decreases at - from,
{
    if from < at {
        assert(files[from].seq < seq);
        lemma_first_file_is(files, seq, at, from + 1);
    }
}

/// Truncating the log before `pos` leaves every event at or after `pos`: a
/// reading from `pos` gives the same as before.
pub proof fn law_truncation_keeps_events(files: Seq<EventFile>, pos: EventWalPos, current: u32)
    requires
        files_ordered(files),
        forall|i: int| 0 <= i < files.len() ==> (#[trigger] files[i]).data@.len() <= u64::MAX,
    ensures
        read_log_from(truncated_log(files, pos, current), pos) == read_log_from(files, pos),
{
    let i = first_file_from(files, pos.file_seq, 0);
    lemma_first_file_bounds(files, pos.file_seq, 0);
    let kept = truncated_log(files, pos, current);
    let low = files.take(i);
    lemma_truncated_low(low, pos, current);
    let front = truncated_log(low, pos, current);
    let p = front.len() as int;
    if i < files.len() && file_covered((files[i].seq, files[i].data@.len() as u64), pos, current) {
        assert forall|k: int| i + 1 <= k < files.len() implies !file_covered(
            ((#[trigger] files[k]).seq, files[k].data@.len() as u64),
            pos,
            current,
        ) by {
            assert(files[i].seq < files[k].seq);
        }
        lemma_truncated_high(files, pos, current, i + 1);
        assert(files.take(i + 1).drop_last() =~= low);
        assert(truncated_log(files.take(i + 1), pos, current) == front);
        assert(kept == front + files.skip(i + 1));
        assert forall|k: int| 0 <= k < p implies (#[trigger] kept[k]).seq < pos.file_seq by {
            assert(kept[k] == front[k]);
        }
        if p < kept.len() {
            assert(kept[p] == files[i + 1]);
            assert(files[i].seq < files[i + 1].seq);
        }
        lemma_first_file_is(kept, pos.file_seq, p, 0);
        assert(kept.skip(p) =~= files.skip(i + 1));
        lemma_read_suffix(kept, p, files, i + 1, 0);
    } else {
        assert forall|k: int| i <= k < files.len() implies !file_covered(
            ((#[trigger] files[k]).seq, files[k].data@.len() as u64),
            pos,
            current,
        ) by {
            if k > i {
                assert(files[i].seq < files[k].seq);
            }
        }
        lemma_truncated_high(files, pos, current, i);
        assert(kept == front + files.skip(i));
        assert forall|k: int| 0 <= k < p implies (#[trigger] kept[k]).seq < pos.file_seq by {
            assert(kept[k] == front[k]);
        }
        if p < kept.len() {
            assert(kept[p] == files[i]);
        }
        lemma_first_file_is(kept, pos.file_seq, p, 0);
        assert(kept.skip(p) =~= files.skip(i));
        lemma_read_suffix(kept, p, files, i, 0);
        lemma_read_suffix(kept, p, files, i, pos.offset as int);
    }
}

} // verus!
