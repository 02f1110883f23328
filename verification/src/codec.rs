//! The seams to the erasure code, and the shard layout around it.
//!
//! A codec is what a user of the library brings. Nothing is taken for granted
//! of what it returns: too few buffers or shards are refused, recovered data is
//! held to the hash table, and a repaired file to its checksum.

use crate::buf::{bytes_contents, bytes_copy};
use crate::parity_section::shards_view;
use bytes::Bytes;
use vstd::arithmetic::div_mod::lemma_fundamental_div_mod_converse;
use vstd::prelude::*;
use vstd::slice::slice_subrange;

verus! {

/// Encodes the stripes of a segment.
pub trait SegmentEncoder {
    /// The `m` parity buffers of `data`, which is a whole number of stripes of
    /// `k` shards of `strip` bytes. Each holds its shard of every stripe in
    /// turn.
    fn encode_stripes(&self, data: &[u8], k: u8, m: u8, strip: usize) -> Result<
        Vec<Vec<u8>>,
        String,
    >;
}

/// Encodes one stripe.
pub trait Encoder {
    /// The `m` parity shards of the given data shards.
    fn encode(&self, shards: &Vec<Bytes>, m: u8) -> Result<Vec<Bytes>, String>;
}

/// Decodes one stripe.
pub trait Decoder {
    /// The `k` data shards, from what is left of `k` data and `m` parity
    /// shards.
    fn decode(&self, available: &Vec<Option<Bytes>>, k: u8, m: u8) -> Result<Vec<Bytes>, String>;
}

/// Number of stripes that `len` bytes fill; none without erasure coding.
pub open spec fn complete_stripes(len: nat, k: u8, m: u8, strip: nat) -> nat {
    if k == 0 || m == 0 || strip == 0 {
        0
    } else {
        len / (k as nat * strip)
    }
}

/// Number of stripes that `len` bytes fill.
pub fn count_complete_stripes(len: usize, k: u8, m: u8, strip: usize) -> (n: usize)
    ensures
        n == complete_stripes(len as nat, k, m, strip as nat),
        n > 0 ==> n * (k * strip) <= len,
        n > 0 ==> k * strip <= len,
{
    if k == 0 || m == 0 || strip == 0 {
        return 0;
    }
    assert(0 < k * strip <= 0xFF * usize::MAX) by (nonlinear_arith)
        requires
            0 < k <= 0xFF,
            0 < strip <= usize::MAX,
    ;
    let stripe: u128 = k as u128 * strip as u128;
    let n: u128 = len as u128 / stripe;
    assert(n <= len && n * stripe <= len && (n > 0 ==> stripe <= len)) by (nonlinear_arith)
        requires
            n == len as u128 / stripe,
            stripe > 0,
    ;
    n as usize
}

/// The `m` parity buffers hold their shards of `complete` stripes.
pub open spec fn buffers_hold(parity: Seq<Vec<u8>>, complete: nat, m: nat, strip: nat) -> bool {
    &&& parity.len() >= m
    &&& forall|p: int| 0 <= p < m ==> (#[trigger] parity[p])@.len() >= complete * strip
}

/// The parity shards of the stripes in turn, from one buffer per shard.
pub open spec fn by_stripe(parity: Seq<Vec<u8>>, complete: nat, m: nat, strip: nat) -> Seq<Seq<u8>> {
    Seq::new(
        complete * m,
        |q: int|
            parity[q % m as int]@.subrange(
                (q / m as int) * strip,
                (q / m as int) * strip + strip,
            ),
    )
}

/// Takes parity buffers apart into the parity shards of the stripes in turn.
pub fn regroup_by_stripe(parity: &Vec<Vec<u8>>, complete: usize, m: usize, strip: usize) -> (shards:
    Vec<Bytes>)
    requires
        buffers_hold(parity@, complete as nat, m as nat, strip as nat),
    ensures
        shards_view(shards@) == by_stripe(parity@, complete as nat, m as nat, strip as nat),
{
    let ghost want = by_stripe(parity@, complete as nat, m as nat, strip as nat);
    let mut shards: Vec<Bytes> = Vec::new();
    let mut stripe: usize = 0;
    while stripe < complete
        invariant
            stripe <= complete,
            buffers_hold(parity@, complete as nat, m as nat, strip as nat),
            want == by_stripe(parity@, complete as nat, m as nat, strip as nat),
            shards@.len() == stripe * m,
            shards@.len() <= want.len(),
            shards_view(shards@) == want.take(shards@.len() as int),
        decreases complete - stripe,
    {
        let mut p: usize = 0;
        while p < m
            invariant
                p <= m,
                stripe < complete,
                buffers_hold(parity@, complete as nat, m as nat, strip as nat),
                want == by_stripe(parity@, complete as nat, m as nat, strip as nat),
                shards@.len() == stripe * m + p,
                shards@.len() <= want.len(),
                shards_view(shards@) == want.take(shards@.len() as int),
            decreases m - p,
        {
            let ghost q = stripe * m + p;
            let n: usize = parity[p].len();
            proof {
                lemma_fundamental_div_mod_converse(q, m as int, stripe as int, p as int);
                assert(0 <= stripe * strip && stripe * strip + strip <= complete * strip)
                    by (nonlinear_arith)
                    requires
                        0 <= stripe < complete,
                        0 <= strip,
                ;
                assert(q < complete * m) by (nonlinear_arith)
                    requires
                        q == stripe * m + p,
                        0 <= stripe < complete,
                        0 <= p < m,
                ;
            }
            let at: usize = stripe * strip;
            let ghost were = shards@;
            let shard = bytes_copy(slice_subrange(parity[p].as_slice(), at, at + strip));
            shards.push(shard);
            proof {
                assert(want[q] == bytes_contents(shard));
                assert(shards_view(shards@) =~= shards_view(were).push(bytes_contents(shard)));
                assert(want.take(q + 1) =~= want.take(q).push(want[q]));
            }
            p = p + 1;
        }
        proof {
            assert((stripe + 1) * m == stripe * m + m) by (nonlinear_arith);
        }
        stripe = stripe + 1;
    }
    assert(want.take(want.len() as int) =~= want);
    shards
}

/// Whether the parity buffers hold their shards of `complete` stripes.
fn check_buffers(parity: &Vec<Vec<u8>>, complete: usize, m: usize, strip: usize) -> (r: bool)
    requires
        complete * strip <= usize::MAX,
    ensures
        r == buffers_hold(parity@, complete as nat, m as nat, strip as nat),
{
    if parity.len() < m {
        return false;
    }
    let mut p: usize = 0;
    while p < m
        invariant
            p <= m <= parity@.len(),
            complete * strip <= usize::MAX,
            forall|i: int| 0 <= i < p ==> (#[trigger] parity@[i])@.len() >= complete * strip,
        decreases m - p,
    {
        if parity[p].len() < complete * strip {
            assert(parity@[p as int]@.len() < complete * strip);
            return false;
        }
        p = p + 1;
    }
    true
}

/// The contents of a list of shards, if there is one.
pub open spec fn opt_shards_view(shards: Option<Vec<Bytes>>) -> Option<Seq<Seq<u8>>> {
    match shards {
        Some(list) => Some(shards_view(list@)),
        None => None,
    }
}

/// The parity shards of the stripes in turn, out of what a codec answered; none
/// when it failed or gave back too little.
pub open spec fn parity_from(
    answer: Result<Vec<Vec<u8>>, String>,
    complete: nat,
    m: nat,
    strip: nat,
) -> Option<Seq<Seq<u8>>> {
    match answer {
        Ok(parity) => if buffers_hold(parity@, complete, m, strip) {
            Some(by_stripe(parity@, complete, m, strip))
        } else {
            None
        },
        Err(_) => None,
    }
}

/// Encodes the complete stripes of a segment: the parity shards of the stripes
/// in turn. The bytes behind the last complete stripe stay without parity.
/// `None` when there is no complete stripe, or the codec fails or gives back
/// too little.
pub fn encode_segment_parity<E: SegmentEncoder>(
    data: &[u8],
    k: u8,
    m: u8,
    strip: usize,
    encoder: &E,
) -> (shards: Option<Vec<Bytes>>)
    ensures
        complete_stripes(data@.len(), k, m, strip as nat) == 0 ==> shards is None,
        complete_stripes(data@.len(), k, m, strip as nat) > 0 ==> exists|
            covered: &[u8],
            answer: Result<Vec<Vec<u8>>, String>,
        |
            #[trigger] call_ensures(
                E::encode_stripes,
                (encoder, covered, k, m, strip),
                answer,
            ) && covered@ == data@.take(
                complete_stripes(data@.len(), k, m, strip as nat) * (k * strip),
            ) && opt_shards_view(shards) == parity_from(
                answer,
                complete_stripes(data@.len(), k, m, strip as nat),
                m as nat,
                strip as nat,
            ),
{
    let len: usize = data.len();
    let complete: usize = count_complete_stripes(len, k, m, strip);
    if complete == 0 {
        return None;
    }
    assert(complete * strip <= complete * (k * strip)) by (nonlinear_arith)
        requires
            k >= 1,
            strip >= 0,
            complete >= 0,
    ;
    let covered: usize = complete * (k as usize * strip);
    let parity = match encoder.encode_stripes(slice_subrange(data, 0, covered), k, m, strip) {
        Ok(parity) => parity,
        Err(_) => {
            return None;
        },
    };
    if !check_buffers(&parity, complete, m as usize, strip) {
        return None;
    }
    let shards = regroup_by_stripe(&parity, complete, m as usize, strip);
    assert(shards@.len() == shards_view(shards@).len());
    Some(shards)
}

/// The data of stripe `i`, with `len` bytes to a stripe.
pub open spec fn stripe_data(data: Seq<u8>, i: int, len: int) -> Seq<u8> {
    data.subrange(i * len, i * len + len)
}

/// The parity of stripe `i` in `whole` is that of the one stripe in `one`.
pub open spec fn same_parity(whole: Seq<Vec<u8>>, one: Seq<Vec<u8>>, i: int, m: nat, strip: nat)
    -> bool {
    forall|p: int|
        0 <= p < m ==> (#[trigger] whole[p])@.subrange(i * strip, i * strip + strip)
            == one[p]@.subrange(0, strip as int)
}

/// The codec encodes stripe by stripe: what it answers for a stripe among others
/// is what it answers for the stripe alone.
pub open spec fn encodes_stripes_apart<E: SegmentEncoder>(
    encoder: &E,
    k: u8,
    m: u8,
    strip: usize,
) -> bool {
    forall|
        data: &[u8],
        whole: Result<Vec<Vec<u8>>, String>,
        alone: &[u8],
        one: Result<Vec<Vec<u8>>, String>,
        i: int,
    |
        #![trigger call_ensures(E::encode_stripes, (encoder, data, k, m, strip), whole), call_ensures(
            E::encode_stripes,
            (encoder, alone, k, m, strip),
            one,
        ), stripe_data(data@, i, k * strip)]
        call_ensures(E::encode_stripes, (encoder, data, k, m, strip), whole) && call_ensures(
            E::encode_stripes,
            (encoder, alone, k, m, strip),
            one,
        ) && 0 <= i && i * (k * strip) + k * strip <= data@.len() && alone@ == stripe_data(
            data@,
            i,
            k * strip,
        ) && whole is Ok && one is Ok ==> same_parity(
            whole->Ok_0@,
            one->Ok_0@,
            i,
            m as nat,
            strip as nat,
        )
}

/// There are `m` parity shards of `strip` bytes to each complete stripe, stripe
/// by stripe. With a codec that encodes stripe by stripe, those of stripe `i` are
/// what the stripe gives alone: neither the other stripes nor the bytes behind
/// the last one have a part in them.
pub proof fn law_parity_of_stripe<E: SegmentEncoder>(
    encoder: &E,
    data: Seq<u8>,
    k: u8,
    m: u8,
    strip: usize,
    covered: &[u8],
    whole: Result<Vec<Vec<u8>>, String>,
    alone: &[u8],
    one: Result<Vec<Vec<u8>>, String>,
    i: int,
)
    requires
        encodes_stripes_apart(encoder, k, m, strip),
        0 <= i < complete_stripes(data.len(), k, m, strip as nat),
        covered@ == data.take(complete_stripes(data.len(), k, m, strip as nat) * (k * strip)),
        alone@ == stripe_data(data, i, k * strip),
        call_ensures(E::encode_stripes, (encoder, covered, k, m, strip), whole),
        call_ensures(E::encode_stripes, (encoder, alone, k, m, strip), one),
        parity_from(
            whole,
            complete_stripes(data.len(), k, m, strip as nat),
            m as nat,
            strip as nat,
        ) is Some,
        parity_from(one, 1, m as nat, strip as nat) is Some,
    ensures
        complete_stripes(alone@.len(), k, m, strip as nat) == 1,
        ({
            let n = complete_stripes(data.len(), k, m, strip as nat);
            let shards = parity_from(whole, n, m as nat, strip as nat)->0;
            &&& shards.len() == n * m
            &&& forall|q: int| 0 <= q < shards.len() ==> (#[trigger] shards[q]).len() == strip
            &&& i * m + m <= shards.len()
            &&& shards.subrange(i * m, i * m + m) == parity_from(
                one,
                1,
                m as nat,
                strip as nat,
            )->0
        }),
{
    let n = complete_stripes(data.len(), k, m, strip as nat);
    let len = k * strip;
    let parity = whole->Ok_0@;
    let shards = by_stripe(parity, n, m as nat, strip as nat);
    let single = by_stripe(one->Ok_0@, 1, m as nat, strip as nat);
    assert(0 < len) by (nonlinear_arith)
        requires
            len == k * strip,
            k > 0,
            strip > 0,
    ;
    assert(n * len <= data.len()) by (nonlinear_arith)
        requires
            n == data.len() / (k as nat * strip as nat),
            len == k * strip,
            len > 0,
    ;
    assert(0 <= i * len && i * len + len <= n * len && 0 <= i * m && i * m + m <= n * m)
        by (nonlinear_arith)
        requires
            0 <= i,
            i + 1 <= n,
            0 < len,
            0 <= m,
    ;
    assert(alone@.len() == len);
    assert(len / len == 1) by (nonlinear_arith)
        requires
            len > 0,
    ;
    assert(stripe_data(covered@, i, len) =~= stripe_data(data, i, len));
    assert(same_parity(parity, one->Ok_0@, i, m as nat, strip as nat));
    assert forall|q: int| 0 <= q < shards.len() implies (#[trigger] shards[q]).len() == strip by {
        let s = q / m as int;
        let p = q % m as int;
        assert(0 <= s && s + 1 <= n && 0 <= p < m) by (nonlinear_arith)
            requires
                s == q / m as int,
                p == q % m as int,
                0 <= q < n * m,
                m > 0,
        ;
        assert(0 <= s * strip && s * strip + strip <= n * strip) by (nonlinear_arith)
            requires
                0 <= s,
                s + 1 <= n,
                0 <= strip,
        ;
        assert(parity[p]@.len() >= n * strip);
    }
    assert forall|p: int| 0 <= p < m implies shards[i * m + p] == single[p] by {
        lemma_fundamental_div_mod_converse(i * m + p, m as int, i, p);
        lemma_fundamental_div_mod_converse(p, m as int, 0, p);
        assert(parity[p]@.subrange(i * strip, i * strip + strip) == one->Ok_0@[p]@.subrange(
            0,
            strip as int,
        ));
    }
    assert(shards.subrange(i * m, i * m + m) =~= single);
}

} // verus!
