//! The parity section of a sealed segment file.
//!
//! A sealed file is laid out as header, data, parity section, index. The
//! parity section holds the parity shards that were computed at the seal, and
//! a hash of every data and parity shard, so that a damaged shard can be
//! located and rebuilt from the others. Only complete stripes are covered.
//!
//! ```text
//! [u32 stripe_count][u8 k][u8 m][2 zero bytes][u32 strip_size]
//! [stripe_count x m x strip_size parity bytes]      per stripe
//! [stripe_count x (k+m) x 32 shard hashes]          data shards 0..k,
//!                                                   parity shards k..k+m
//! ```

use crate::buf::{bytes_as_slice, bytes_contents, bytes_len};
use crate::checksum::{blake3_digest, blake3_of};
use crate::encoding::{
    bytes_equal, le_u32, lemma_u32_round_trip, push_u32_le, read_u32_le, u32_of_le,
};
use bytes::Bytes;
use vstd::arithmetic::div_mod::lemma_fundamental_div_mod_converse;
use vstd::prelude::*;
use vstd::slice::slice_subrange;

verus! {

/// Size of the fixed parity-section header.
pub const PARITY_SECTION_HEADER_SIZE: usize = 12;

/// Size of one shard hash in the hash table.
pub const SHARD_HASH_SIZE: usize = 32;

/// A parsed parity section.
#[derive(Debug)]
pub struct ParitySection<'a> {
    /// Number of encoded stripes.
    pub stripe_count: usize,
    /// Number of data shards per stripe.
    pub k: usize,
    /// Number of parity shards per stripe.
    pub m: usize,
    /// Size of one shard in bytes.
    pub strip: usize,
    /// The parity shards, stripe by stripe.
    pub shards: &'a [u8],
    /// The hash table.
    pub hashes: &'a [u8],
}

/// The mathematical view of [`ParitySection`].
#[verifier::ext_equal]
pub struct ParityView {
    pub stripe_count: nat,
    pub k: nat,
    pub m: nat,
    pub strip: nat,
    /// The parity shards, stripe by stripe.
    pub shards: Seq<u8>,
    /// The hash table.
    pub hashes: Seq<u8>,
}

impl<'a> View for ParitySection<'a> {
    type V = ParityView;

    open spec fn view(&self) -> ParityView {
        ParityView {
            stripe_count: self.stripe_count as nat,
            k: self.k as nat,
            m: self.m as nat,
            strip: self.strip as nat,
            shards: self.shards@,
            hashes: self.hashes@,
        }
    }
}

impl ParityView {
    /// The counts are positive and the two tables have their lengths.
    pub open spec fn wf(self) -> bool {
        &&& 0 < self.stripe_count
        &&& 0 < self.k
        &&& 0 < self.m
        &&& 0 < self.strip
        &&& self.shards.len() == self.stripe_count * self.m * self.strip
        &&& self.hashes.len() == self.stripe_count * (self.k + self.m) * SHARD_HASH_SIZE
    }

    /// Byte length of the data of one stripe.
    pub open spec fn stripe_len(self) -> nat {
        self.k * self.strip
    }

    /// Where data shard `shard` of stripe `stripe` starts in the data.
    pub open spec fn data_shard_at(self, stripe: int, shard: int) -> int {
        stripe * (self.k * self.strip) + shard * self.strip
    }

    /// Where parity shard `shard` of stripe `stripe` starts among the parity
    /// shards.
    pub open spec fn parity_shard_at(self, stripe: int, shard: int) -> int {
        (stripe * self.m + shard) * self.strip
    }

    /// Data shard `shard` of stripe `stripe`.
    pub open spec fn data_shard(self, data: Seq<u8>, stripe: int, shard: int) -> Seq<u8> {
        let at = self.data_shard_at(stripe, shard);
        data.subrange(at, at + self.strip)
    }

    /// Parity shard `shard` of stripe `stripe`.
    pub open spec fn parity_shard(self, stripe: int, shard: int) -> Seq<u8> {
        let at = self.parity_shard_at(stripe, shard);
        self.shards.subrange(at, at + self.strip)
    }

    /// The expected hash of shard `idx` of stripe `stripe`: data shards first,
    /// parity shards behind them.
    pub open spec fn shard_hash(self, stripe: int, idx: int) -> Seq<u8> {
        let at = (stripe * (self.k + self.m) + idx) * SHARD_HASH_SIZE;
        self.hashes.subrange(at, at + SHARD_HASH_SIZE)
    }
}

/// The parity section that bytes stand for; `None` when they are malformed.
pub open spec fn parse_section(s: Seq<u8>) -> Option<ParityView> {
    if s.len() < PARITY_SECTION_HEADER_SIZE {
        None
    } else {
        let count = u32_of_le(s.subrange(0, 4)) as nat;
        let k = s[4] as nat;
        let m = s[5] as nat;
        let strip = u32_of_le(s.subrange(8, 12)) as nat;
        let shards_len = count * m * strip;
        let hashes_len = count * (k + m) * SHARD_HASH_SIZE as nat;
        if count == 0 || k == 0 || m == 0 || strip == 0 {
            None
        } else if s.len() != PARITY_SECTION_HEADER_SIZE + shards_len + hashes_len {
            None
        } else {
            Some(
                ParityView {
                    stripe_count: count,
                    k,
                    m,
                    strip,
                    shards: s.subrange(12, (12 + shards_len) as int),
                    hashes: s.skip((12 + shards_len) as int),
                },
            )
        }
    }
}

impl<'a> ParitySection<'a> {
    /// Parses a parity section; `None` on any malformed input.
    pub fn parse(section: &'a [u8]) -> (parsed: Option<Self>)
        ensures
            match parsed {
                Some(p) => parse_section(section@) == Some(p@) && p@.wf(),
                None => parse_section(section@) is None,
            },
    {
        let n: usize = section.len();
        if n < PARITY_SECTION_HEADER_SIZE {
            return None;
        }
        let stripe_count: u32 = read_u32_le(section, 0);
        let k: u8 = section[4];
        let m: u8 = section[5];
        let strip: u32 = read_u32_le(section, 8);
        if stripe_count == 0 || k == 0 || m == 0 || strip == 0 {
            return None;
        }
        proof {
            lemma_lengths_bounded(stripe_count, k, m, strip);
        }
        let shards_len: u128 = stripe_count as u128 * m as u128 * strip as u128;
        let hashes_len: u128 = stripe_count as u128 * (k as u128 + m as u128)
            * SHARD_HASH_SIZE as u128;
        if n as u128 != PARITY_SECTION_HEADER_SIZE as u128 + shards_len + hashes_len {
            return None;
        }
        proof {
            assert(stripe_count <= shards_len && strip <= shards_len) by (nonlinear_arith)
                requires
                    shards_len == stripe_count * m * strip,
                    stripe_count > 0,
                    m > 0,
                    strip > 0,
            ;
        }
        let mid: usize = PARITY_SECTION_HEADER_SIZE + shards_len as usize;
        let parsed = ParitySection {
            stripe_count: stripe_count as usize,
            k: k as usize,
            m: m as usize,
            strip: strip as usize,
            shards: &section[PARITY_SECTION_HEADER_SIZE..mid],
            hashes: &section[mid..n],
        };
        assert(section@.subrange(mid as int, n as int) =~= section@.skip(mid as int));
        Some(parsed)
    }
}

impl<'a> ParitySection<'a> {
    /// Byte length of the data of one stripe.
    pub fn stripe_len(&self) -> (n: usize)
        requires
            self@.wf(),
            self@.stripe_len() <= usize::MAX,
        ensures
            n == self@.stripe_len(),
    {
        self.k * self.strip
    }

    /// Data shard `shard` of stripe `stripe`.
    pub fn data_shard<'b>(&self, data: &'b [u8], stripe: usize, shard: usize) -> (bytes: &'b [u8])
        requires
            self@.wf(),
            shard < self@.k,
            (stripe + 1) * self@.stripe_len() <= data@.len(),
        ensures
            bytes@ == self@.data_shard(data@, stripe as int, shard as int),
            bytes@.len() == self@.strip,
    {
        let n: usize = data.len();
        proof {
            lemma_data_shard_range(self@, stripe as int, shard as int);
            assert(self@.stripe_len() <= (stripe + 1) * self@.stripe_len()) by (nonlinear_arith)
                requires
                    self@.stripe_len() >= 0,
                    stripe >= 0,
            ;
            assert(0 <= stripe * self@.stripe_len() <= (stripe + 1) * self@.stripe_len())
                by (nonlinear_arith)
                requires
                    self@.stripe_len() >= 0,
                    stripe >= 0,
            ;
            assert(0 <= shard * self@.strip <= self@.stripe_len()) by (nonlinear_arith)
                requires
                    self@.stripe_len() == self@.k * self@.strip,
                    0 <= shard < self@.k,
            ;
        }
        let at: usize = stripe * self.stripe_len() + shard * self.strip;
        slice_subrange(data, at, at + self.strip)
    }

    /// Parity shard `shard` of stripe `stripe`.
    pub fn parity_shard(&self, stripe: usize, shard: usize) -> (bytes: &'a [u8])
        requires
            self@.wf(),
            stripe < self@.stripe_count,
            shard < self@.m,
        ensures
            bytes@ == self@.parity_shard(stripe as int, shard as int),
            bytes@.len() == self@.strip,
    {
        let n: usize = self.shards.len();
        proof {
            lemma_parity_shard_range(self@, stripe as int, shard as int);
        }
        let at: usize = (stripe * self.m + shard) * self.strip;
        slice_subrange(self.shards, at, at + self.strip)
    }

    /// The expected hash of shard `idx` of stripe `stripe`: data shards first,
    /// parity shards behind them.
    pub fn shard_hash(&self, stripe: usize, idx: usize) -> (bytes: &'a [u8])
        requires
            self@.wf(),
            stripe < self@.stripe_count,
            idx < self@.k + self@.m,
            self@.k + self@.m <= usize::MAX,
        ensures
            bytes@ == self@.shard_hash(stripe as int, idx as int),
            bytes@.len() == SHARD_HASH_SIZE,
    {
        let n: usize = self.hashes.len();
        proof {
            lemma_shard_hash_range(self@, stripe as int, idx as int);
        }
        let at: usize = (stripe * (self.k + self.m) + idx) * SHARD_HASH_SIZE;
        slice_subrange(self.hashes, at, at + SHARD_HASH_SIZE)
    }

    /// Whether the hash of shard `idx` of stripe `stripe` is the expected one.
    pub fn shard_intact(&self, data: &[u8], stripe: usize, idx: usize) -> (intact: bool)
        requires
            self@.wf(),
            stripe < self@.stripe_count,
            idx < self@.k + self@.m,
            self@.k + self@.m <= usize::MAX,
            (stripe + 1) * self@.stripe_len() <= data@.len(),
        ensures
            intact == self@.intact(data@, stripe as int, idx as int),
    {
        let shard = if idx < self.k {
            self.data_shard(data, stripe, idx)
        } else {
            self.parity_shard(stripe, idx - self.k)
        };
        let hash = blake3_of(shard);
        bytes_equal(hash.bytes.as_slice(), self.shard_hash(stripe, idx))
    }
}

impl ParityView {
    /// Shard `idx` of stripe `stripe`: data shards first, parity shards behind
    /// them.
    pub open spec fn shard(self, data: Seq<u8>, stripe: int, idx: int) -> Seq<u8> {
        if idx < self.k {
            self.data_shard(data, stripe, idx)
        } else {
            self.parity_shard(stripe, idx - self.k)
        }
    }

    /// The hash of shard `idx` of stripe `stripe` is the expected one.
    pub open spec fn intact(self, data: Seq<u8>, stripe: int, idx: int) -> bool {
        blake3_digest(self.shard(data, stripe, idx)) == self.shard_hash(stripe, idx)
    }
}

/// Where a data shard lies within its stripe.
pub proof fn lemma_data_shard_range(p: ParityView, stripe: int, shard: int)
    requires
        0 <= stripe,
        0 <= shard < p.k,
    ensures
        0 <= stripe * p.stripe_len() <= p.data_shard_at(stripe, shard),
        p.data_shard_at(stripe, shard) + p.strip <= (stripe + 1) * p.stripe_len(),
{
    assert(0 <= stripe * p.stripe_len() <= p.data_shard_at(stripe, shard) && p.data_shard_at(
        stripe,
        shard,
    ) + p.strip <= (stripe + 1) * p.stripe_len()) by (nonlinear_arith)
        requires
            p.data_shard_at(stripe, shard) == stripe * (p.k * p.strip) + shard * p.strip,
            p.stripe_len() == p.k * p.strip,
            0 <= stripe,
            0 <= shard < p.k,
            0 <= p.strip,
    ;
}

/// Where a parity shard lies among the parity shards.
pub proof fn lemma_parity_shard_range(p: ParityView, stripe: int, shard: int)
    requires
        p.wf(),
        0 <= stripe < p.stripe_count,
        0 <= shard < p.m,
    ensures
        0 <= stripe * p.m + shard < p.stripe_count * p.m,
        stripe * p.m <= stripe * p.m + shard <= p.parity_shard_at(stripe, shard),
        p.parity_shard_at(stripe, shard) + p.strip <= p.shards.len(),
{
    let q = stripe * p.m + shard;
    assert(0 <= stripe * p.m && q + 1 <= p.stripe_count * p.m) by (nonlinear_arith)
        requires
            q == stripe * p.m + shard,
            0 <= stripe < p.stripe_count,
            0 <= shard < p.m,
    ;
    let n = p.stripe_count * p.m;
    assert(q <= q * p.strip && (q + 1) * p.strip <= n * p.strip && (q + 1) * p.strip == q * p.strip
        + p.strip) by (nonlinear_arith)
        requires
            0 <= q,
            q + 1 <= n,
            p.strip >= 1,
    ;
}

/// Where a shard hash lies in the hash table.
pub proof fn lemma_shard_hash_range(p: ParityView, stripe: int, idx: int)
    requires
        p.wf(),
        0 <= stripe < p.stripe_count,
        0 <= idx < p.k + p.m,
    ensures
        0 <= stripe * (p.k + p.m) <= stripe * (p.k + p.m) + idx < p.stripe_count * (p.k + p.m),
        (stripe * (p.k + p.m) + idx) * SHARD_HASH_SIZE + SHARD_HASH_SIZE <= p.hashes.len(),
{
    let n = p.k + p.m;
    let q = stripe * n + idx;
    assert(0 <= stripe * n && q + 1 <= p.stripe_count * n) by (nonlinear_arith)
        requires
            q == stripe * n + idx,
            0 <= stripe < p.stripe_count,
            0 <= idx < n,
    ;
}

/// The parts, one behind the other.
pub open spec fn joined(parts: Seq<Seq<u8>>) -> Seq<u8>
    decreases parts.len(),
{
    if parts.len() == 0 {
        Seq::empty()
    } else {
        joined(parts.drop_last()) + parts.last()
    }
}

/// The length of joined parts of one length.
pub proof fn lemma_joined_len(parts: Seq<Seq<u8>>, len: nat)
    requires
        forall|i: int| 0 <= i < parts.len() ==> (#[trigger] parts[i]).len() == len,
    ensures
        joined(parts).len() == parts.len() * len,
    decreases parts.len(),
{
    if parts.len() > 0 {
        let front = parts.drop_last();
        let n = front.len();
        assert forall|i: int| 0 <= i < front.len() implies (#[trigger] front[i]).len() == len by {
            assert(front[i] == parts[i]);
        }
        lemma_joined_len(front, len);
        assert(parts[n as int].len() == len);
        assert((n + 1) * len == n * len + len) by (nonlinear_arith);
    }
}

/// A part of joined parts of one length is found again where it was joined.
pub proof fn lemma_joined_part(parts: Seq<Seq<u8>>, len: nat, i: int)
    requires
        forall|i: int| 0 <= i < parts.len() ==> (#[trigger] parts[i]).len() == len,
        0 <= i < parts.len(),
    ensures
        0 <= i * len,
        i * len + len <= joined(parts).len(),
        joined(parts).subrange(i * len, i * len + len) == parts[i],
    decreases parts.len(),
{
    let front = parts.drop_last();
    let n = front.len();
    assert forall|j: int| 0 <= j < front.len() implies (#[trigger] front[j]).len() == len by {
        assert(front[j] == parts[j]);
    }
    lemma_joined_len(front, len);
    lemma_joined_len(parts, len);
    assert(0 <= i * len) by (nonlinear_arith)
        requires
            i >= 0,
    ;
    if i < n {
        lemma_joined_part(front, len, i);
        assert(joined(parts).subrange(i * len, i * len + len) =~= joined(front).subrange(
            i * len,
            i * len + len,
        ));
    } else {
        assert(parts[n as int].len() == len);
        assert(joined(parts).subrange(i * len, i * len + len) =~= parts.last());
    }
}

/// The views of a list of shards.
pub open spec fn shards_view(shards: Seq<Bytes>) -> Seq<Seq<u8>> {
    shards.map_values(|b: Bytes| bytes_contents(b))
}

/// Shard `q` of a segment, counted through its stripes: `k` data shards and
/// `m` parity shards each.
pub open spec fn segment_shard(
    data: Seq<u8>,
    k: nat,
    m: nat,
    strip: nat,
    parity: Seq<Seq<u8>>,
    q: int,
) -> Seq<u8> {
    let stripe = q / (k + m) as int;
    let idx = q % (k + m) as int;
    if idx < k {
        data.subrange(
            stripe * (k * strip) + idx * strip,
            stripe * (k * strip) + idx * strip + strip,
        )
    } else {
        parity[stripe * m + (idx - k)]
    }
}

/// The hashes of all shards of a segment, counted through its stripes.
pub open spec fn segment_hashes(
    data: Seq<u8>,
    k: nat,
    m: nat,
    strip: nat,
    parity: Seq<Seq<u8>>,
    count: nat,
) -> Seq<Seq<u8>> {
    Seq::new(
        count * (k + m),
        |q: int| blake3_digest(segment_shard(data, k, m, strip, parity, q)),
    )
}

/// The parity shards make up a parity section: there are some, `m` to a
/// stripe, all of one length, and the data covers the stripes.
pub open spec fn has_parity(data: Seq<u8>, k: nat, m: nat, parity: Seq<Seq<u8>>) -> bool {
    &&& parity.len() > 0
    &&& k > 0
    &&& m > 0
    &&& parity[0].len() > 0
    &&& parity.len() % m == 0
    &&& forall|i: int| 0 <= i < parity.len() ==> (#[trigger] parity[i]).len() == parity[0].len()
    &&& data.len() >= (parity.len() / m) * (k * parity[0].len())
}

/// The parity section of a segment with the given parity shards: `m` shards of
/// each stripe in turn.
pub open spec fn section_bytes(data: Seq<u8>, ec_k: u8, ec_m: u8, parity: Seq<Seq<u8>>) -> Seq<u8> {
    let strip = parity[0].len();
    let count = parity.len() / ec_m as nat;
    le_u32(count as u32) + seq![ec_k, ec_m, 0u8, 0u8] + le_u32(strip as u32) + joined(parity)
        + joined(segment_hashes(data, ec_k as nat, ec_m as nat, strip, parity, count))
}

/// The section reads back as what it was built from.
pub open spec fn section_describes(
    p: ParityView,
    data: Seq<u8>,
    ec_k: u8,
    ec_m: u8,
    parity: Seq<Seq<u8>>,
) -> bool {
    &&& p.wf()
    &&& p.stripe_count == parity.len() / ec_m as nat
    &&& p.stripe_count * p.m == parity.len()
    &&& p.k == ec_k
    &&& p.m == ec_m
    &&& p.strip == parity[0].len()
    &&& forall|stripe: int, shard: int|
        0 <= stripe < p.stripe_count && 0 <= shard < p.m ==> #[trigger] p.parity_shard(stripe, shard)
            == parity[stripe * p.m + shard]
    &&& forall|stripe: int, idx: int|
        0 <= stripe < p.stripe_count && 0 <= idx < p.k + p.m ==> #[trigger] p.intact(
            data,
            stripe,
            idx,
        )
}

/// Builds the parity section of a segment. `parity` holds `m` shards of each
/// complete stripe in turn. `None` when there is no parity, or its shards do
/// not fit the data. The section reads back, and all its shards are intact, as
/// long as the number of stripes and the shard size can be written down.
pub fn build_parity_section(data: &[u8], ec_k: u8, ec_m: u8, parity: Option<&Vec<Bytes>>) -> (section:
    Option<Vec<u8>>)
    ensures
        match section {
            Some(bytes) => {
                let shards = shards_view(parity->0@);
                &&& parity is Some
                &&& has_parity(data@, ec_k as nat, ec_m as nat, shards)
                &&& bytes@ == section_bytes(data@, ec_k, ec_m, shards)
                &&& shards.len() / ec_m as nat <= u32::MAX && shards[0].len() <= u32::MAX
                    ==> parse_section(bytes@) is Some && section_describes(
                    parse_section(bytes@)->0,
                    data@,
                    ec_k,
                    ec_m,
                    shards,
                )
            },
            None => parity is None || !has_parity(
                data@,
                ec_k as nat,
                ec_m as nat,
                shards_view(parity->0@),
            ),
        },
{
    let list = match parity {
        Some(list) => list,
        None => {
            return None;
        },
    };
    let ghost shards = shards_view(list@);
    let k: usize = ec_k as usize;
    let m: usize = ec_m as usize;
    let total: usize = list.len();
    if total == 0 || k == 0 || m == 0 {
        return None;
    }
    assert(shards[0] == bytes_contents(list@[0]));
    let strip: usize = bytes_len(&list[0]);
    if strip == 0 || total % m != 0 {
        return None;
    }
    let count: usize = total / m;
    let mut i: usize = 0;
    while i < total
        invariant
            i <= total == list@.len(),
            parity == Some(list),
            shards == shards_view(list@),
            shards.len() > 0,
            strip == shards[0].len(),
            forall|j: int| 0 <= j < i ==> (#[trigger] shards[j]).len() == strip,
        decreases total - i,
    {
        assert(shards[i as int] == bytes_contents(list@[i as int]));
        if bytes_len(&list[i]) != strip {
            assert(shards[i as int].len() != shards[0].len());
            return None;
        }
        i = i + 1;
    }
    assert(k * strip <= 0xFF * usize::MAX) by (nonlinear_arith)
        requires
            k <= 0xFF,
            strip <= usize::MAX,
            k >= 0,
            strip >= 0,
    ;
    assert(count == shards.len() / m as nat);
    let size: usize = data.len();
    let wide: u128 = k as u128 * strip as u128;
    assert(wide == k as nat * shards[0].len());
    let covered: u128 = match (count as u128).checked_mul(wide) {
        Some(n) => n,
        None => {
            assert(count * wide > u128::MAX);
            return None;
        },
    };
    if (size as u128) < covered {
        return None;
    }
    assert(has_parity(data@, k as nat, m as nat, shards));
    proof {
        assert(count >= 1 && count * m == total) by (nonlinear_arith)
            requires
                count == total / m,
                total % m == 0,
                total > 0,
                m > 0,
        ;
        assert(wide <= size) by (nonlinear_arith)
            requires
                count >= 1,
                count * wide <= size,
                wide >= 0,
        ;
    }
    let stripe_byte_len: usize = wide as usize;
    let mut out: Vec<u8> = Vec::new();
    push_u32_le(&mut out, #[verifier::truncate] (count as u32));
    out.push(ec_k);
    out.push(ec_m);
    out.push(0);
    out.push(0);
    push_u32_le(&mut out, #[verifier::truncate] (strip as u32));
    let ghost head = out@;
    assert(head =~= le_u32(count as u32) + seq![ec_k, ec_m, 0u8, 0u8] + le_u32(strip as u32));
    i = 0;
    while i < total
        invariant
            i <= total == list@.len(),
            shards == shards_view(list@),
            out@ =~= head + joined(shards.take(i as int)),
        decreases total - i,
    {
        assert(shards[i as int] == bytes_contents(list@[i as int]));
        assert(shards.take(i + 1).drop_last() =~= shards.take(i as int));
        out.extend_from_slice(bytes_as_slice(&list[i]));
        i = i + 1;
    }
    assert(shards.take(total as int) =~= shards);
    let ghost body = out@;
    let per: usize = k + m;
    let ghost want = segment_hashes(data@, k as nat, m as nat, strip as nat, shards, count as nat);
    let ghost mut got: Seq<Seq<u8>> = Seq::empty();
    let mut stripe: usize = 0;
    while stripe < count
        invariant
            stripe <= count,
            per == k + m,
            0 < k <= 0xFF,
            0 < m <= 0xFF,
            ec_k == k,
            ec_m == m,
            strip > 0,
            total == list@.len(),
            count * m == total,
            shards == shards_view(list@),
            stripe_byte_len == k * strip,
            size == data@.len(),
            count * stripe_byte_len <= size,
            got.len() == stripe * per,
            out@ =~= body + joined(got),
            forall|q: int|
                0 <= q < got.len() ==> (#[trigger] got[q]).len() == 32 && got[q] == blake3_digest(
                    segment_shard(data@, k as nat, m as nat, strip as nat, shards, q),
                ),
        decreases count - stripe,
    {
        proof {
            assert(0 <= stripe * stripe_byte_len && (stripe + 1) * stripe_byte_len <= count
                * stripe_byte_len && (stripe + 1) * stripe_byte_len == stripe * stripe_byte_len
                + stripe_byte_len) by (nonlinear_arith)
                requires
                    0 <= stripe < count,
                    0 <= stripe_byte_len,
            ;
        }
        let base: usize = stripe * stripe_byte_len;
        let mut idx: usize = 0;
        while idx < per
            invariant
                idx <= per,
                stripe < count,
                per == k + m,
                0 < k <= 0xFF,
                0 < m <= 0xFF,
                strip > 0,
                total == list@.len(),
                count * m == total,
                shards == shards_view(list@),
                stripe_byte_len == k * strip,
                base == stripe * stripe_byte_len,
                size == data@.len(),
                base + stripe_byte_len <= size,
                got.len() == stripe * per + idx,
                out@ =~= body + joined(got),
                forall|q: int|
                    0 <= q < got.len() ==> (#[trigger] got[q]).len() == 32 && got[q]
                        == blake3_digest(
                        segment_shard(data@, k as nat, m as nat, strip as nat, shards, q),
                    ),
            decreases per - idx,
        {
            let ghost q = stripe * per + idx;
            let ghost were = got;
            proof {
                lemma_fundamental_div_mod_converse(q, per as int, stripe as int, idx as int);
            }
            let hash = if idx < k {
                proof {
                    assert(0 <= idx * strip && idx * strip + strip <= stripe_byte_len)
                        by (nonlinear_arith)
                        requires
                            0 <= idx < k,
                            stripe_byte_len == k * strip,
                            strip > 0,
                    ;
                }
                let at: usize = base + idx * strip;
                blake3_of(slice_subrange(data, at, at + strip))
            } else {
                proof {
                    assert(0 <= stripe * m && stripe * m + (idx - k) < total) by (nonlinear_arith)
                        requires
                            0 <= stripe < count,
                            k <= idx < k + m,
                            count * m == total,
                            m > 0,
                    ;
                }
                let at: usize = stripe * m + (idx - k);
                assert(shards[at as int] == bytes_contents(list@[at as int]));
                blake3_of(bytes_as_slice(&list[at]))
            };
            hash.push_to(&mut out);
            proof {
                got = got.push(hash@);
                assert(got.drop_last() =~= were);
            }
            idx = idx + 1;
        }
        proof {
            assert((stripe + 1) * per == stripe * per + per) by (nonlinear_arith);
        }
        stripe = stripe + 1;
    }
    proof {
        assert(got =~= want);
        assert(out@ =~= section_bytes(data@, ec_k, ec_m, shards));
        if shards.len() / ec_m as nat <= u32::MAX && shards[0].len() <= u32::MAX {
            lemma_section_reads_back(data@, ec_k, ec_m, shards);
        }
    }
    Some(out)
}

proof fn lemma_section_reads_back(data: Seq<u8>, ec_k: u8, ec_m: u8, parity: Seq<Seq<u8>>)
    requires
        has_parity(data, ec_k as nat, ec_m as nat, parity),
        parity.len() / ec_m as nat <= u32::MAX,
        parity[0].len() <= u32::MAX,
        forall|q: int|
            0 <= q < (parity.len() / ec_m as nat) * (ec_k + ec_m) ==> (#[trigger] segment_hashes(
                data,
                ec_k as nat,
                ec_m as nat,
                parity[0].len(),
                parity,
                parity.len() / ec_m as nat,
            )[q]).len() == 32,
    ensures
        parse_section(section_bytes(data, ec_k, ec_m, parity)) is Some,
        section_describes(
            parse_section(section_bytes(data, ec_k, ec_m, parity))->0,
            data,
            ec_k,
            ec_m,
            parity,
        ),
{
    let b = section_bytes(data, ec_k, ec_m, parity);
    let k = ec_k as nat;
    let m = ec_m as nat;
    let strip = parity[0].len();
    let count = parity.len() / m;
    let per = k + m;
    let hashes = segment_hashes(data, k, m, strip, parity, count);
    lemma_joined_len(parity, strip);
    assert(hashes.len() == count * per);
    lemma_joined_len(hashes, 32);
    lemma_u32_round_trip(count as u32);
    lemma_u32_round_trip(strip as u32);
    assert(0 < count && count * m == parity.len() && count <= parity.len()) by (nonlinear_arith)
        requires
            count == parity.len() / m,
            parity.len() % m == 0,
            parity.len() > 0,
            m > 0,
    ;
    assert(b.subrange(0, 4) =~= le_u32(count as u32));
    assert(b.subrange(8, 12) =~= le_u32(strip as u32));
    assert(b[4] == ec_k && b[5] == ec_m);
    let shards_len = count * m * strip;
    assert(shards_len == joined(parity).len());
    assert(b.len() == 12 + shards_len + count * per * 32);
    let p = parse_section(b)->0;
    assert(p.shards =~= joined(parity));
    assert(p.hashes =~= joined(hashes));
    assert forall|stripe: int, shard: int|
        0 <= stripe < p.stripe_count && 0 <= shard < p.m implies #[trigger] p.parity_shard(
        stripe,
        shard,
    ) == parity[stripe * p.m + shard] by {
        lemma_parity_shard_range(p, stripe, shard);
        lemma_joined_part(parity, strip, stripe * p.m + shard);
    }
    assert forall|stripe: int, idx: int|
        0 <= stripe < p.stripe_count && 0 <= idx < p.k + p.m implies #[trigger] p.intact(
        data,
        stripe,
        idx,
    ) by {
        let q = stripe * per + idx;
        lemma_shard_hash_range(p, stripe, idx);
        lemma_fundamental_div_mod_converse(q, per as int, stripe, idx);
        lemma_joined_part(hashes, 32, q);
        assert(p.shard_hash(stripe, idx) == hashes[q]);
        if idx < p.k {
            assert(p.data_shard(data, stripe, idx) == segment_shard(data, k, m, strip, parity, q));
        } else {
            assert(p.parity_shard(stripe, idx - p.k) == parity[stripe * p.m + (idx - p.k)]);
        }
    }
}

/// Whether all hashes of a parity section are those of its shards.
pub fn verify_section_hashes<'a>(section: &ParitySection<'a>, data: &[u8]) -> (ok: bool)
    requires
        section@.wf(),
        section@.k + section@.m <= usize::MAX,
        section@.stripe_count * section@.stripe_len() <= data@.len(),
    ensures
        ok == (forall|stripe: int, idx: int|
            0 <= stripe < section@.stripe_count && 0 <= idx < section@.k + section@.m
                ==> #[trigger] section@.intact(data@, stripe, idx)),
{
    let per: usize = section.k + section.m;
    let count: usize = section.stripe_count;
    let mut stripe: usize = 0;
    while stripe < count
        invariant
            stripe <= count == section@.stripe_count,
            per == section@.k + section@.m,
            section@.wf(),
            per <= usize::MAX,
            count * section@.stripe_len() <= data@.len(),
            forall|s: int, idx: int|
                0 <= s < stripe && 0 <= idx < per ==> #[trigger] section@.intact(data@, s, idx),
        decreases count - stripe,
    {
        proof {
            assert((stripe + 1) * section@.stripe_len() <= count * section@.stripe_len())
                by (nonlinear_arith)
                requires
                    stripe + 1 <= count,
                    section@.stripe_len() >= 0,
            ;
        }
        let mut idx: usize = 0;
        while idx < per
            invariant
                idx <= per,
                stripe < count == section@.stripe_count,
                per == section@.k + section@.m,
                section@.wf(),
                per <= usize::MAX,
                (stripe + 1) * section@.stripe_len() <= data@.len(),
                forall|i: int|
                    0 <= i < idx ==> #[trigger] section@.intact(data@, stripe as int, i),
            decreases per - idx,
        {
            if !section.shard_intact(data, stripe, idx) {
                assert(!section@.intact(data@, stripe as int, idx as int));
                return false;
            }
            idx = idx + 1;
        }
        stripe = stripe + 1;
    }
    true
}

proof fn lemma_lengths_bounded(count: u32, k: u8, m: u8, strip: u32)
    ensures
        count * m <= 0x100_0000_0000,
        count * m * strip <= 0x100_0000_0000_0000_0000,
        count * (k + m) <= 0x200_0000_0000,
        count * (k + m) * 32 <= 0x4000_0000_0000,
{
    assert(count * m <= 0x100_0000_0000) by (nonlinear_arith)
        requires
            count <= 0xFFFF_FFFF,
            m <= 0xFF,
    ;
    let cm = count * m;
    assert(cm * strip <= 0x100_0000_0000_0000_0000) by (nonlinear_arith)
        requires
            0 <= cm <= 0x100_0000_0000,
            strip <= 0xFFFF_FFFF,
    ;
    let km = k + m;
    assert(count * km <= 0x200_0000_0000) by (nonlinear_arith)
        requires
            count <= 0xFFFF_FFFF,
            0 <= km <= 0x1FE,
    ;
}

} // verus!
