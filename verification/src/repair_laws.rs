//! What the repair of a segment file keeps and restores.

use crate::checksum::blake3_digest;
use crate::error::Error;
use crate::header::HeaderView;
use crate::parity_section::{
    lemma_data_shard_range, lemma_parity_shard_range, parse_section, ParityView,
    PARITY_SECTION_HEADER_SIZE,
};
use crate::repair::{
    after_write, after_writes, count_set, damage, damaged_stripes, data_writes, is_damaged,
    parity_covers, parity_lost, parity_writes, recovery_holds, repair_input, repair_outcome,
    starts_within, stripe_outcome, RangeView, StripeAnswer,
};
use crate::types::SegmentId;
use bytes::Bytes;
use vstd::prelude::*;

verus! {

/// A write that repairs a data shard: the shard was damaged, and what is
/// written has the hash that the table expects.
pub open spec fn repairs_data(
    p: ParityView,
    data_at: int,
    data: Seq<u8>,
    w: RangeView,
    stripe: int,
    d: int,
) -> bool {
    &&& 0 <= stripe < p.stripe_count
    &&& 0 <= d < p.k
    &&& !p.intact(data, stripe, d)
    &&& w.offset == data_at + p.data_shard_at(stripe, d)
    &&& blake3_digest(w.bytes) == p.shard_hash(stripe, d)
}

/// A write that replaces a damaged parity shard.
pub open spec fn repairs_parity(
    p: ParityView,
    section_at: int,
    data: Seq<u8>,
    w: RangeView,
    stripe: int,
    shard: int,
) -> bool {
    &&& 0 <= stripe < p.stripe_count
    &&& 0 <= shard < p.m
    &&& !p.intact(data, stripe, p.k + shard)
    &&& w.offset == section_at + PARITY_SECTION_HEADER_SIZE + p.parity_shard_at(stripe, shard)
}

/// A write repairs a data shard of the stripe.
pub open spec fn repairs_some_data(
    p: ParityView,
    data_at: int,
    data: Seq<u8>,
    w: RangeView,
    stripe: int,
) -> bool {
    exists|d: int| repairs_data(p, data_at, data, w, stripe, d)
}

/// A write replaces a parity shard of the stripe.
pub open spec fn repairs_some_parity(
    p: ParityView,
    section_at: int,
    data: Seq<u8>,
    w: RangeView,
    stripe: int,
) -> bool {
    exists|shard: int| repairs_parity(p, section_at, data, w, stripe, shard)
}

/// A write is a repair of a damaged shard.
pub open spec fn is_repair(p: ParityView, data_at: int, section_at: int, data: Seq<u8>, w: RangeView)
    -> bool {
    ||| exists|stripe: int| #[trigger] repairs_some_data(p, data_at, data, w, stripe)
    ||| exists|stripe: int| #[trigger] repairs_some_parity(p, section_at, data, w, stripe)
}

/// Every damaged shard of the stripe is repaired by one of the writes.
pub open spec fn stripe_repaired(
    p: ParityView,
    data_at: int,
    section_at: int,
    data: Seq<u8>,
    writes: Seq<RangeView>,
    stripe: int,
) -> bool {
    &&& forall|d: int|
        0 <= d < p.k && !(#[trigger] p.intact(data, stripe, d)) ==> exists|i: int|
            0 <= i < writes.len() && #[trigger] repairs_data(
                p,
                data_at,
                data,
                writes[i],
                stripe,
                d,
            )
    &&& forall|d: int|
        0 <= d < p.m && !(#[trigger] p.intact(data, stripe, p.k + d)) ==> exists|i: int|
            0 <= i < writes.len() && #[trigger] repairs_parity(
                p,
                section_at,
                data,
                writes[i],
                stripe,
                d,
            )
}

proof fn lemma_data_writes(
    p: ParityView,
    data_at: int,
    data: Seq<u8>,
    stripe: int,
    recovered: Seq<Bytes>,
    n: int,
)
    requires
        0 <= n <= p.k,
        0 <= stripe < p.stripe_count,
        recovery_holds(p, stripe, recovered),
    ensures
        forall|i: int|
            0 <= i < data_writes(p, data_at, data, stripe, recovered, n).len()
                ==> repairs_some_data(
                p,
                data_at,
                data,
                #[trigger] data_writes(p, data_at, data, stripe, recovered, n)[i],
                stripe,
            ),
        forall|d: int|
            0 <= d < n && !(#[trigger] p.intact(data, stripe, d)) ==> exists|i: int|
                0 <= i < data_writes(p, data_at, data, stripe, recovered, n).len()
                    && #[trigger] repairs_data(
                    p,
                    data_at,
                    data,
                    data_writes(p, data_at, data, stripe, recovered, n)[i],
                    stripe,
                    d,
                ),
    decreases n,
{
    if n > 0 {
        let rest = data_writes(p, data_at, data, stripe, recovered, n - 1);
        let all = data_writes(p, data_at, data, stripe, recovered, n);
        lemma_data_writes(p, data_at, data, stripe, recovered, n - 1);
        assert forall|i: int| 0 <= i < all.len() implies repairs_some_data(
            p,
            data_at,
            data,
            #[trigger] all[i],
            stripe,
        ) by {
            if i < rest.len() {
                assert(repairs_some_data(p, data_at, data, rest[i], stripe));
                let d = choose|d: int| repairs_data(p, data_at, data, rest[i], stripe, d);
                assert(repairs_data(p, data_at, data, all[i], stripe, d));
            } else {
                assert(repairs_data(p, data_at, data, all[i], stripe, n - 1));
            }
        }
        assert forall|d: int| 0 <= d < n && !(#[trigger] p.intact(data, stripe, d)) implies exists|
            i: int,
        |
            0 <= i < all.len() && #[trigger] repairs_data(
                p,
                data_at,
                data,
                all[i],
                stripe,
                d,
            ) by {
            if d < n - 1 {
                let i = choose|i: int|
                    0 <= i < rest.len() && #[trigger] repairs_data(
                        p,
                        data_at,
                        data,
                        rest[i],
                        stripe,
                        d,
                    );
                assert(all[i] == rest[i]);
                assert(repairs_data(p, data_at, data, all[i], stripe, d));
            } else {
                assert(repairs_data(p, data_at, data, all[rest.len() as int], stripe, d));
            }
        }
    }
}

proof fn lemma_parity_writes(
    p: ParityView,
    section_at: int,
    data: Seq<u8>,
    stripe: int,
    parity: Seq<Bytes>,
    n: int,
)
    requires
        0 <= n <= p.m,
        0 <= stripe < p.stripe_count,
    ensures
        forall|i: int|
            0 <= i < parity_writes(p, section_at, data, stripe, parity, n).len()
                ==> repairs_some_parity(
                p,
                section_at,
                data,
                #[trigger] parity_writes(p, section_at, data, stripe, parity, n)[i],
                stripe,
            ),
        forall|d: int|
            0 <= d < n && !(#[trigger] p.intact(data, stripe, p.k + d)) ==> exists|i: int|
                0 <= i < parity_writes(p, section_at, data, stripe, parity, n).len()
                    && #[trigger] repairs_parity(
                    p,
                    section_at,
                    data,
                    parity_writes(p, section_at, data, stripe, parity, n)[i],
                    stripe,
                    d,
                ),
    decreases n,
{
    if n > 0 {
        let rest = parity_writes(p, section_at, data, stripe, parity, n - 1);
        let all = parity_writes(p, section_at, data, stripe, parity, n);
        lemma_parity_writes(p, section_at, data, stripe, parity, n - 1);
        assert forall|i: int| 0 <= i < all.len() implies repairs_some_parity(
            p,
            section_at,
            data,
            #[trigger] all[i],
            stripe,
        ) by {
            if i < rest.len() {
                assert(repairs_some_parity(p, section_at, data, rest[i], stripe));
                let d = choose|d: int| repairs_parity(p, section_at, data, rest[i], stripe, d);
                assert(repairs_parity(p, section_at, data, all[i], stripe, d));
            } else {
                assert(repairs_parity(p, section_at, data, all[i], stripe, n - 1));
            }
        }
        assert forall|d: int|
            0 <= d < n && !(#[trigger] p.intact(data, stripe, p.k + d)) implies exists|i: int|
            0 <= i < all.len() && #[trigger] repairs_parity(
                p,
                section_at,
                data,
                all[i],
                stripe,
                d,
            ) by {
            if d < n - 1 {
                let i = choose|i: int|
                    0 <= i < rest.len() && #[trigger] repairs_parity(
                        p,
                        section_at,
                        data,
                        rest[i],
                        stripe,
                        d,
                    );
                assert(all[i] == rest[i]);
                assert(repairs_parity(p, section_at, data, all[i], stripe, d));
            } else {
                assert(repairs_parity(p, section_at, data, all[rest.len() as int], stripe, d));
            }
        }
    }
}

proof fn lemma_more_writes(
    p: ParityView,
    data_at: int,
    section_at: int,
    data: Seq<u8>,
    writes: Seq<RangeView>,
    before: Seq<RangeView>,
    after: Seq<RangeView>,
    stripe: int,
)
    requires
        stripe_repaired(p, data_at, section_at, data, writes, stripe),
    ensures
        stripe_repaired(p, data_at, section_at, data, before + writes + after, stripe),
{
    let all = before + writes + after;
    assert forall|d: int| 0 <= d < p.k && !(#[trigger] p.intact(data, stripe, d)) implies exists|
        i: int,
    |
        0 <= i < all.len() && #[trigger] repairs_data(p, data_at, data, all[i], stripe, d) by {
        let i = choose|i: int|
            0 <= i < writes.len() && #[trigger] repairs_data(
                p,
                data_at,
                data,
                writes[i],
                stripe,
                d,
            );
        assert(all[before.len() + i] == writes[i]);
        assert(repairs_data(p, data_at, data, all[before.len() + i], stripe, d));
    }
    assert forall|d: int| 0 <= d < p.m && !(#[trigger] p.intact(data, stripe, p.k + d)) implies exists|
        i: int,
    |
        0 <= i < all.len() && #[trigger] repairs_parity(
            p,
            section_at,
            data,
            all[i],
            stripe,
            d,
        ) by {
        let i = choose|i: int|
            0 <= i < writes.len() && #[trigger] repairs_parity(
                p,
                section_at,
                data,
                writes[i],
                stripe,
                d,
            );
        assert(all[before.len() + i] == writes[i]);
        assert(repairs_parity(p, section_at, data, all[before.len() + i], stripe, d));
    }
}

/// Writes that repair data shards of a stripe, and writes that replace its parity
/// shards, are repairs.
proof fn lemma_joined_writes(
    p: ParityView,
    data_at: int,
    section_at: int,
    data: Seq<u8>,
    stripe: int,
    first: Seq<RangeView>,
    second: Seq<RangeView>,
)
    requires
        forall|i: int|
            0 <= i < first.len() ==> repairs_some_data(
                p,
                data_at,
                data,
                #[trigger] first[i],
                stripe,
            ),
        forall|i: int|
            0 <= i < second.len() ==> repairs_some_parity(
                p,
                section_at,
                data,
                #[trigger] second[i],
                stripe,
            ),
    ensures
        forall|i: int|
            0 <= i < (first + second).len() ==> is_repair(
                p,
                data_at,
                section_at,
                data,
                #[trigger] (first + second)[i],
            ),
{
    let all = first + second;
    assert forall|i: int| 0 <= i < all.len() implies is_repair(
        p,
        data_at,
        section_at,
        data,
        #[trigger] all[i],
    ) by {
        if i < first.len() {
            assert(repairs_some_data(p, data_at, data, first[i], stripe));
        } else {
            assert(repairs_some_parity(p, section_at, data, second[i - first.len()], stripe));
        }
    }
}

/// The writes of the recovered data shards and of the encoded parity shards
/// repair a stripe.
proof fn lemma_written_stripe(
    p: ParityView,
    data_at: int,
    section_at: int,
    data: Seq<u8>,
    stripe: int,
    recovered: Seq<Bytes>,
    parity: Seq<Bytes>,
)
    requires
        0 <= stripe < p.stripe_count,
        recovery_holds(p, stripe, recovered),
    ensures
        stripe_repaired(
            p,
            data_at,
            section_at,
            data,
            data_writes(p, data_at, data, stripe, recovered, p.k as int) + parity_writes(
                p,
                section_at,
                data,
                stripe,
                parity,
                p.m as int,
            ),
            stripe,
        ),
{
    let first = data_writes(p, data_at, data, stripe, recovered, p.k as int);
    let second = parity_writes(p, section_at, data, stripe, parity, p.m as int);
    let all = first + second;
    lemma_data_writes(p, data_at, data, stripe, recovered, p.k as int);
    lemma_parity_writes(p, section_at, data, stripe, parity, p.m as int);
    assert forall|d: int| 0 <= d < p.k && !(#[trigger] p.intact(data, stripe, d)) implies exists|
        i: int,
    |
        0 <= i < all.len() && #[trigger] repairs_data(p, data_at, data, all[i], stripe, d) by {
        let i = choose|i: int|
            0 <= i < first.len() && #[trigger] repairs_data(p, data_at, data, first[i], stripe, d);
        assert(all[i] == first[i]);
        assert(repairs_data(p, data_at, data, all[i], stripe, d));
    }
    assert forall|d: int| 0 <= d < p.m && !(#[trigger] p.intact(data, stripe, p.k + d)) implies exists|
        i: int,
    |
        0 <= i < all.len() && #[trigger] repairs_parity(
            p,
            section_at,
            data,
            all[i],
            stripe,
            d,
        ) by {
        let i = choose|i: int|
            0 <= i < second.len() && #[trigger] repairs_parity(
                p,
                section_at,
                data,
                second[i],
                stripe,
                d,
            );
        assert(all[first.len() + i] == second[i]);
        assert(repairs_parity(p, section_at, data, all[first.len() + i], stripe, d));
    }
}

/// A stripe without lost parity has no parity shard to write.
proof fn lemma_no_parity_writes(
    p: ParityView,
    section_at: int,
    data: Seq<u8>,
    stripe: int,
    parity: Seq<Bytes>,
    n: int,
)
    requires
        !parity_lost(p, data, stripe),
        0 <= n <= p.m,
    ensures
        parity_writes(p, section_at, data, stripe, parity, n) == Seq::<RangeView>::empty(),
    decreases n,
{
    if n > 0 {
        lemma_no_parity_writes(p, section_at, data, stripe, parity, n - 1);
        assert(p.intact(data, stripe, p.k + (n - 1)));
    }
}

/// The repair of a stripe only replaces damaged shards, and all of them when it
/// ends well.
proof fn lemma_stripe_outcome(
    id: SegmentId,
    p: ParityView,
    data_at: int,
    section_at: int,
    data: Seq<u8>,
    stripe: int,
    answer: StripeAnswer,
)
    requires
        0 <= stripe < p.stripe_count,
    ensures
        ({
            let end = stripe_outcome(id, p, data_at, section_at, data, stripe, answer);
            &&& forall|i: int|
                0 <= i < end.0.len() ==> is_repair(
                    p,
                    data_at,
                    section_at,
                    data,
                    #[trigger] end.0[i],
                )
            &&& end.1 is Ok ==> stripe_repaired(p, data_at, section_at, data, end.0, stripe)
        }),
{
    let none = Seq::<RangeView>::empty();
    let end = stripe_outcome(id, p, data_at, section_at, data, stripe, answer);
    if is_damaged(p, data, stripe) && count_set(damage(p, data, stripe)) <= p.m {
        if answer.decoded is Ok && recovery_holds(p, stripe, answer.decoded->Ok_0@) {
            let recovered = answer.decoded->Ok_0@;
            let first = data_writes(p, data_at, data, stripe, recovered, p.k as int);
            lemma_data_writes(p, data_at, data, stripe, recovered, p.k as int);
            if !parity_lost(p, data, stripe) {
                lemma_joined_writes(p, data_at, section_at, data, stripe, first, none);
                lemma_written_stripe(p, data_at, section_at, data, stripe, recovered, recovered);
                lemma_no_parity_writes(p, section_at, data, stripe, recovered, p.m as int);
                assert(first + none =~= first);
            } else if answer.encoded is Ok && parity_covers(
                p,
                data,
                stripe,
                answer.encoded->Ok_0@,
            ) {
                let parity = answer.encoded->Ok_0@;
                let second = parity_writes(p, section_at, data, stripe, parity, p.m as int);
                lemma_parity_writes(p, section_at, data, stripe, parity, p.m as int);
                lemma_joined_writes(p, data_at, section_at, data, stripe, first, second);
                lemma_written_stripe(p, data_at, section_at, data, stripe, recovered, parity);
                assert(end.0 == first + second);
            } else {
                lemma_joined_writes(p, data_at, section_at, data, stripe, first, none);
                assert(end.0 == first + none);
            }
        }
    }
}

/// A repair only ever replaces damaged shards, and a data shard only with what
/// the hash table expects. When it ends well, no stripe had more than `m`
/// damaged shards, and each damaged shard was replaced. When no stripe is
/// damaged it writes nothing and counts none.
pub proof fn law_repair_replaces_damage(
    id: SegmentId,
    p: ParityView,
    data_at: int,
    section_at: int,
    data: Seq<u8>,
    answers: Seq<StripeAnswer>,
)
    requires
        answers.len() <= p.stripe_count,
    ensures
        ({
            let end = repair_outcome(id, p, data_at, section_at, data, answers);
            &&& forall|i: int|
                0 <= i < end.0.len() ==> is_repair(
                    p,
                    data_at,
                    section_at,
                    data,
                    #[trigger] end.0[i],
                )
            &&& end.1 matches Ok(n) ==> {
                &&& n == damaged_stripes(p, data, answers.len() as int)
                &&& forall|stripe: int|
                    0 <= stripe < answers.len() && is_damaged(p, data, stripe) ==> count_set(
                        #[trigger] damage(p, data, stripe),
                    ) <= p.m
                &&& forall|stripe: int|
                    0 <= stripe < answers.len() ==> #[trigger] stripe_repaired(
                        p,
                        data_at,
                        section_at,
                        data,
                        end.0,
                        stripe,
                    )
            }
            &&& damaged_stripes(p, data, answers.len() as int) == 0 ==> end == (
                Seq::<RangeView>::empty(),
                Ok::<nat, Error>(0),
            )
        }),
    decreases answers.len(),
{
    if answers.len() > 0 {
        let stripe = answers.len() - 1;
        let before = repair_outcome(id, p, data_at, section_at, data, answers.drop_last());
        let end = repair_outcome(id, p, data_at, section_at, data, answers);
        law_repair_replaces_damage(id, p, data_at, section_at, data, answers.drop_last());
        lemma_stripe_outcome(id, p, data_at, section_at, data, stripe, answers.last());
        if before.1 is Ok {
            let step = stripe_outcome(
                id,
                p,
                data_at,
                section_at,
                data,
                stripe,
                answers.last(),
            );
            assert forall|i: int| 0 <= i < end.0.len() implies is_repair(
                p,
                data_at,
                section_at,
                data,
                #[trigger] end.0[i],
            ) by {
                if i < before.0.len() {
                    assert(end.0[i] == before.0[i]);
                } else {
                    assert(end.0[i] == step.0[i - before.0.len()]);
                }
            }
            if end.1 is Ok {
                assert forall|s: int| 0 <= s < answers.len() implies #[trigger] stripe_repaired(
                    p,
                    data_at,
                    section_at,
                    data,
                    end.0,
                    s,
                ) by {
                    if s < stripe {
                        assert(stripe_repaired(p, data_at, section_at, data, before.0, s));
                        lemma_more_writes(
                            p,
                            data_at,
                            section_at,
                            data,
                            before.0,
                            Seq::empty(),
                            step.0,
                            s,
                        );
                        assert(end.0 =~= Seq::empty() + before.0 + step.0);
                    } else {
                        lemma_more_writes(
                            p,
                            data_at,
                            section_at,
                            data,
                            step.0,
                            before.0,
                            Seq::empty(),
                            s,
                        );
                        assert(end.0 =~= before.0 + step.0 + Seq::empty());
                    }
                }
            }
        }
    }
}

/// A repair succeeds when no stripe has more than `m` damaged shards and the
/// codec does its work: it gives back the data shards that the hash table
/// expects, and the parity shards where one is lost.
pub proof fn law_repair_succeeds(
    id: SegmentId,
    p: ParityView,
    data_at: int,
    section_at: int,
    data: Seq<u8>,
    answers: Seq<StripeAnswer>,
)
    requires
        forall|i: int|
            0 <= i < answers.len() && is_damaged(p, data, i) ==> {
                &&& count_set(damage(p, data, i)) <= p.m
                &&& (#[trigger] answers[i]).decoded is Ok
                &&& recovery_holds(p, i, answers[i].decoded->Ok_0@)
                &&& parity_lost(p, data, i) ==> answers[i].encoded is Ok
                    && parity_covers(p, data, i, answers[i].encoded->Ok_0@)
            },
    ensures
        repair_outcome(id, p, data_at, section_at, data, answers).1 == Ok::<nat, Error>(
            damaged_stripes(p, data, answers.len() as int),
        ),
    decreases answers.len(),
{
    if answers.len() > 0 {
        let rest = answers.drop_last();
        assert forall|i: int| 0 <= i < rest.len() && is_damaged(p, data, i) implies {
            &&& count_set(damage(p, data, i)) <= p.m
            &&& (#[trigger] rest[i]).decoded is Ok
            &&& recovery_holds(p, i, rest[i].decoded->Ok_0@)
            &&& parity_lost(p, data, i) ==> rest[i].encoded is Ok && parity_covers(
                p,
                data,
                i,
                rest[i].encoded->Ok_0@,
            )
        } by {
            assert(rest[i] == answers[i]);
        }
        law_repair_succeeds(id, p, data_at, section_at, data, rest);
        assert(answers[answers.len() - 1] == answers.last());
    }
}

/// A data shard of a file.
spec fn shard_of(p: ParityView, data_at: int, file: Seq<u8>, stripe: int, d: int) -> Seq<u8> {
    file.subrange(
        data_at + p.data_shard_at(stripe, d),
        data_at + p.data_shard_at(stripe, d) + p.strip,
    )
}

/// A write goes to a data shard.
spec fn goes_to(p: ParityView, data_at: int, w: RangeView, stripe: int, d: int) -> bool {
    w.offset == data_at + p.data_shard_at(stripe, d)
}

/// A byte of a file belongs to a shard.
spec fn in_shards(p: ParityView, data_at: int, section_at: int, i: int) -> bool {
    ||| data_at <= i < data_at + p.stripe_count * p.stripe_len()
    ||| section_at + PARITY_SECTION_HEADER_SIZE <= i < section_at + PARITY_SECTION_HEADER_SIZE
        + p.shards.len()
}

/// The stripes' data lies before the parity section, and both in the file.
spec fn is_laid_out(p: ParityView, data_at: int, section_at: int, file: Seq<u8>) -> bool {
    &&& p.wf()
    &&& 0 <= data_at
    &&& data_at + p.stripe_count * p.stripe_len() <= section_at
    &&& section_at + PARITY_SECTION_HEADER_SIZE + p.shards.len() <= file.len()
}

/// Different data shards do not overlap.
proof fn lemma_shards_apart(p: ParityView, s1: int, d1: int, s2: int, d2: int)
    requires
        0 <= s1,
        0 <= s2,
        0 <= d1 < p.k,
        0 <= d2 < p.k,
        s1 != s2 || d1 != d2,
    ensures
        p.data_shard_at(s1, d1) + p.strip <= p.data_shard_at(s2, d2) || p.data_shard_at(s2, d2)
            + p.strip <= p.data_shard_at(s1, d1),
{
    let k = p.k as int;
    let t = p.strip as int;
    let q1 = s1 * k + d1;
    let q2 = s2 * k + d2;
    assert(p.data_shard_at(s1, d1) == q1 * t && p.data_shard_at(s2, d2) == q2 * t)
        by (nonlinear_arith)
        requires
            p.data_shard_at(s1, d1) == s1 * (k * t) + d1 * t,
            p.data_shard_at(s2, d2) == s2 * (k * t) + d2 * t,
            q1 == s1 * k + d1,
            q2 == s2 * k + d2,
    ;
    assert(q1 < q2 || q2 < q1) by (nonlinear_arith)
        requires
            q1 == s1 * k + d1,
            q2 == s2 * k + d2,
            0 <= d1 < k,
            0 <= d2 < k,
            s1 != s2 || d1 != d2,
    ;
    assert(q1 * t + t <= q2 * t || q2 * t + t <= q1 * t) by (nonlinear_arith)
        requires
            q1 < q2 || q2 < q1,
            t >= 0,
    ;
}

/// Where a data shard lies in a file.
proof fn lemma_shard_in_file(p: ParityView, stripe: int, d: int)
    requires
        0 <= stripe < p.stripe_count,
        0 <= d < p.k,
    ensures
        0 <= p.data_shard_at(stripe, d),
        p.data_shard_at(stripe, d) + p.strip <= p.stripe_count * p.stripe_len(),
{
    lemma_data_shard_range(p, stripe, d);
    assert((stripe + 1) * p.stripe_len() <= p.stripe_count * p.stripe_len()) by (nonlinear_arith)
        requires
            stripe + 1 <= p.stripe_count,
            p.stripe_len() >= 0,
    ;
}

/// One write of a repair keeps the bytes outside the shards, and the other data
/// shards.
proof fn lemma_after_write(
    p: ParityView,
    data_at: int,
    section_at: int,
    data: Seq<u8>,
    file: Seq<u8>,
    w: RangeView,
)
    requires
        is_laid_out(p, data_at, section_at, file),
        is_repair(p, data_at, section_at, data, w),
        w.bytes.len() == p.strip,
    ensures
        after_write(file, w).len() == file.len(),
        forall|i: int|
            0 <= i < file.len() && !in_shards(p, data_at, section_at, i) ==> #[trigger] after_write(
                file,
                w,
            )[i] == file[i],
        forall|s: int, d: int|
            0 <= s < p.stripe_count && 0 <= d < p.k ==> if goes_to(p, data_at, w, s, d) {
                blake3_digest(#[trigger] shard_of(p, data_at, after_write(file, w), s, d))
                    == p.shard_hash(s, d)
            } else {
                shard_of(p, data_at, after_write(file, w), s, d) == shard_of(
                    p,
                    data_at,
                    file,
                    s,
                    d,
                )
            },
{
    let next = after_write(file, w);
    let is_data = exists|stripe: int| #[trigger] repairs_some_data(p, data_at, data, w, stripe);
    if is_data {
        let stripe = choose|stripe: int| #[trigger] repairs_some_data(p, data_at, data, w, stripe);
        let shard = choose|d: int| repairs_data(p, data_at, data, w, stripe, d);
        assert(repairs_data(p, data_at, data, w, stripe, shard));
        lemma_shard_in_file(p, stripe, shard);
        assert forall|s: int, d: int| 0 <= s < p.stripe_count && 0 <= d < p.k implies if goes_to(
            p,
            data_at,
            w,
            s,
            d,
        ) {
            blake3_digest(#[trigger] shard_of(p, data_at, next, s, d)) == p.shard_hash(s, d)
        } else {
            shard_of(p, data_at, next, s, d) == shard_of(p, data_at, file, s, d)
        } by {
            lemma_shard_in_file(p, s, d);
            if s == stripe && d == shard {
                assert(shard_of(p, data_at, next, s, d) =~= w.bytes);
            } else {
                lemma_shards_apart(p, s, d, stripe, shard);
                assert(shard_of(p, data_at, next, s, d) =~= shard_of(p, data_at, file, s, d));
            }
        }
    } else {
        let stripe = choose|stripe: int| #[trigger]
            repairs_some_parity(p, section_at, data, w, stripe);
        let shard = choose|d: int| repairs_parity(p, section_at, data, w, stripe, d);
        assert(repairs_parity(p, section_at, data, w, stripe, shard));
        lemma_parity_shard_range(p, stripe, shard);
        assert forall|s: int, d: int| 0 <= s < p.stripe_count && 0 <= d < p.k implies if goes_to(
            p,
            data_at,
            w,
            s,
            d,
        ) {
            blake3_digest(#[trigger] shard_of(p, data_at, next, s, d)) == p.shard_hash(s, d)
        } else {
            shard_of(p, data_at, next, s, d) == shard_of(p, data_at, file, s, d)
        } by {
            lemma_shard_in_file(p, s, d);
            assert(shard_of(p, data_at, next, s, d) =~= shard_of(p, data_at, file, s, d));
        }
    }
}

/// The writes of a repair keep the bytes outside the shards. A data shard is
/// kept, or it has what the hash table expects.
proof fn lemma_after_writes(
    p: ParityView,
    data_at: int,
    section_at: int,
    data: Seq<u8>,
    file: Seq<u8>,
    writes: Seq<RangeView>,
)
    requires
        is_laid_out(p, data_at, section_at, file),
        forall|i: int|
            0 <= i < writes.len() ==> is_repair(
                p,
                data_at,
                section_at,
                data,
                #[trigger] writes[i],
            ) && writes[i].bytes.len() == p.strip,
    ensures
        after_writes(file, writes).len() == file.len(),
        forall|i: int|
            0 <= i < file.len() && !in_shards(p, data_at, section_at, i) ==> #[trigger] after_writes(
                file,
                writes,
            )[i] == file[i],
        forall|s: int, d: int|
            0 <= s < p.stripe_count && 0 <= d < p.k ==> {
                ||| blake3_digest(
                    #[trigger] shard_of(p, data_at, after_writes(file, writes), s, d),
                ) == p.shard_hash(s, d)
                ||| shard_of(p, data_at, after_writes(file, writes), s, d) == shard_of(
                    p,
                    data_at,
                    file,
                    s,
                    d,
                ) && forall|i: int|
                    0 <= i < writes.len() ==> !goes_to(p, data_at, #[trigger] writes[i], s, d)
            },
    decreases writes.len(),
{
    if writes.len() > 0 {
        let rest = writes.drop_last();
        let w = writes.last();
        assert(w == writes[writes.len() - 1]);
        assert forall|i: int| 0 <= i < rest.len() implies is_repair(
            p,
            data_at,
            section_at,
            data,
            #[trigger] rest[i],
        ) && rest[i].bytes.len() == p.strip by {
            assert(rest[i] == writes[i]);
        }
        lemma_after_writes(p, data_at, section_at, data, file, rest);
        let before = after_writes(file, rest);
        lemma_after_write(p, data_at, section_at, data, before, w);
        let now = after_writes(file, writes);
        assert(now == after_write(before, w));
        assert forall|s: int, d: int| 0 <= s < p.stripe_count && 0 <= d < p.k implies {
            ||| blake3_digest(#[trigger] shard_of(p, data_at, now, s, d)) == p.shard_hash(s, d)
            ||| shard_of(p, data_at, now, s, d) == shard_of(p, data_at, file, s, d) && forall|
                i: int,
            |
                0 <= i < writes.len() ==> !goes_to(p, data_at, #[trigger] writes[i], s, d)
        } by {
            let was = shard_of(p, data_at, before, s, d);
            let is = shard_of(p, data_at, now, s, d);
            if !goes_to(p, data_at, w, s, d) {
                assert(is == was);
                if blake3_digest(is) != p.shard_hash(s, d) {
                    assert forall|i: int| 0 <= i < writes.len() implies !goes_to(
                        p,
                        data_at,
                        #[trigger] writes[i],
                        s,
                        d,
                    ) by {
                        if i < rest.len() {
                            assert(rest[i] == writes[i]);
                        }
                    }
                }
            }
        }
    }
}

/// The writes of a repair start within the file.
pub proof fn lemma_repair_starts_within(
    id: SegmentId,
    p: ParityView,
    data_at: int,
    section_at: int,
    data: Seq<u8>,
    answers: Seq<StripeAnswer>,
    len: nat,
)
    requires
        p.wf(),
        answers.len() <= p.stripe_count,
        0 <= data_at,
        0 <= section_at,
        data_at + p.stripe_count * p.stripe_len() <= len,
        section_at + PARITY_SECTION_HEADER_SIZE + p.shards.len() <= len,
    ensures
        forall|i: int|
            0 <= i < repair_outcome(id, p, data_at, section_at, data, answers).0.len() ==> starts_within(
                #[trigger] repair_outcome(id, p, data_at, section_at, data, answers).0[i],
                len,
            ),
{
    let end = repair_outcome(id, p, data_at, section_at, data, answers);
    law_repair_replaces_damage(id, p, data_at, section_at, data, answers);
    assert forall|i: int| 0 <= i < end.0.len() implies starts_within(
        #[trigger] end.0[i],
        len,
    ) by {
        let w = end.0[i];
        assert(is_repair(p, data_at, section_at, data, w));
        if exists|stripe: int| #[trigger] repairs_some_data(p, data_at, data, w, stripe) {
            let stripe = choose|stripe: int| #[trigger]
                repairs_some_data(p, data_at, data, w, stripe);
            let shard = choose|d: int| repairs_data(p, data_at, data, w, stripe, d);
            lemma_shard_in_file(p, stripe, shard);
        } else {
            let stripe = choose|stripe: int| #[trigger]
                repairs_some_parity(p, section_at, data, w, stripe);
            let shard = choose|d: int| repairs_parity(p, section_at, data, w, stripe, d);
            lemma_parity_shard_range(p, stripe, shard);
        }
    }
}

/// After a repair whose stripes end well, with shards of the length of a shard
/// from the codec, every data shard has what the hash table expects, so a second
/// repair finds no damaged one. Nothing but shards was changed.
pub proof fn law_repaired_data_is_intact(h: HeaderView, file: Seq<u8>, answers: Seq<StripeAnswer>)
    requires
        repair_input(h, file) is Some,
        h.data_end() <= file.len(),
        h.data_end() <= h.parity_offset,
        answers.len() == repair_input(h, file)->Some_0.1.stripe_count,
        ({
            let (data, p) = repair_input(h, file)->Some_0;
            let end = repair_outcome(
                h.segment_id,
                p,
                h.data_range().0,
                h.parity_offset as int,
                data,
                answers,
            );
            &&& end.1 is Ok
            &&& forall|i: int| 0 <= i < end.0.len() ==> (#[trigger] end.0[i]).bytes.len() == p.strip
        }),
    ensures
        ({
            let (data, p) = repair_input(h, file)->Some_0;
            let end = repair_outcome(
                h.segment_id,
                p,
                h.data_range().0,
                h.parity_offset as int,
                data,
                answers,
            );
            let repaired = after_writes(file, end.0);
            &&& repaired.len() == file.len()
            &&& repaired.take(h.data_range().0) == file.take(h.data_range().0)
            &&& repair_input(h, repaired) matches Some((restored, q)) && {
                &&& q.stripe_count == p.stripe_count && q.k == p.k && q.m == p.m && q.strip
                    == p.strip && q.hashes == p.hashes
                &&& restored.skip((p.stripe_count * p.stripe_len()) as int) == data.skip(
                    (p.stripe_count * p.stripe_len()) as int,
                )
                &&& forall|stripe: int, d: int|
                    0 <= stripe < p.stripe_count && 0 <= d < p.k ==> #[trigger] q.intact(
                        restored,
                        stripe,
                        d,
                    )
            }
        }),
{
    let (data, p) = repair_input(h, file)->Some_0;
    let data_at = h.data_range().0;
    let data_end = h.data_end() as int;
    let section_at = h.parity_offset as int;
    let section_end = section_at + h.parity_size;
    let end = repair_outcome(h.segment_id, p, data_at, section_at, data, answers);
    let repaired = after_writes(file, end.0);
    let section = file.subrange(section_at, section_end);
    assert(p.wf());
    assert(data.len() > 0) by {
        assert(p.stripe_count * p.stripe_len() > 0) by (nonlinear_arith)
            requires
                p.stripe_count > 0,
                p.stripe_len() == p.k * p.strip,
                p.k > 0,
                p.strip > 0,
        ;
    }
    law_repair_replaces_damage(h.segment_id, p, data_at, section_at, data, answers);
    lemma_after_writes(p, data_at, section_at, data, file, end.0);
    assert(repaired.take(data_at) =~= file.take(data_at));
    let now = repaired.subrange(section_at, section_end);
    let restored = repaired.subrange(data_at, data_end);
    assert(now.subrange(0, 4) =~= section.subrange(0, 4));
    assert(now.subrange(8, 12) =~= section.subrange(8, 12));
    assert(now[4] == section[4] && now[5] == section[5]);
    let shards_len = p.stripe_count * p.m * p.strip;
    assert(now.skip((12 + shards_len) as int) =~= section.skip((12 + shards_len) as int));
    let q = parse_section(now)->Some_0;
    assert(repair_input(h, repaired) == Some((restored, q)));
    let covered = (p.stripe_count * p.stripe_len()) as int;
    assert(restored.skip(covered) =~= data.skip(covered));
    assert forall|stripe: int, d: int| 0 <= stripe < p.stripe_count && 0 <= d < p.k implies #[trigger] q.intact(
        restored,
        stripe,
        d,
    ) by {
        lemma_shard_in_file(p, stripe, d);
        let was = shard_of(p, data_at, file, stripe, d);
        let is = shard_of(p, data_at, repaired, stripe, d);
        assert(p.data_shard(data, stripe, d) =~= was);
        assert(q.data_shard(restored, stripe, d) =~= is);
        if blake3_digest(is) != p.shard_hash(stripe, d) {
            assert(!p.intact(data, stripe, d));
            assert(stripe_repaired(p, data_at, section_at, data, end.0, stripe));
            let i = choose|i: int|
                0 <= i < end.0.len() && #[trigger] repairs_data(
                    p,
                    data_at,
                    data,
                    end.0[i],
                    stripe,
                    d,
                );
            assert(goes_to(p, data_at, end.0[i], stripe, d));
        }
    }
}

/// The parity of a segment can be used as long as the stripes that it describes lie in
/// the data; the data may go on behind the last of them.
pub proof fn law_parity_within_data_is_used(h: HeaderView, file: Seq<u8>)
    requires
        h.parity_offset + h.parity_size <= file.len(),
        parse_section(
            file.subrange(h.parity_offset as int, h.parity_offset + h.parity_size),
        ) is Some,
    ensures
        ({
            let p = parse_section(
                file.subrange(h.parity_offset as int, h.parity_offset + h.parity_size),
            )->Some_0;
            let data = h.data_of(file);
            &&& p.stripe_count * (p.k * p.strip) <= data.len() ==> repair_input(h, file) == Some(
                (data, p),
            )
            &&& p.stripe_count * (p.k * p.strip) > data.len() ==> repair_input(h, file) is None
        }),
{
}

/// How the repair of a damaged stripe fails. With more shards lost than there is parity, or
/// with recovered data that the hashes do not confirm, the segment is corrupt; a
/// failure of the codec is told with its stripe and its reason. Nothing is written, unless
/// the data was recovered and only the parity could not be made again.
pub proof fn law_failed_stripe_is_told(
    id: SegmentId,
    p: ParityView,
    data_at: int,
    section_at: int,
    data: Seq<u8>,
    stripe: int,
    answer: StripeAnswer,
)
    requires
        is_damaged(p, data, stripe),
    ensures
        ({
            let lost = count_set(damage(p, data, stripe));
            let (writes, r) = stripe_outcome(id, p, data_at, section_at, data, stripe, answer);
            &&& lost > p.m ==> writes.len() == 0 && r == Err::<(), Error>(Error::SegmentCorrupt(id))
            &&& lost <= p.m ==> match answer.decoded {
                Err(why) => writes.len() == 0 && r == Err::<(), Error>(
                    Error::DecodeFailed { segment_id: id, stripe: stripe as usize, why },
                ),
                Ok(recovered) => {
                    &&& !recovery_holds(p, stripe, recovered@) ==> writes.len() == 0 && r == Err::<
                        (),
                        Error,
                    >(Error::SegmentCorrupt(id))
                    &&& recovery_holds(p, stripe, recovered@) && !parity_lost(p, data, stripe)
                        ==> r is Ok
                    &&& recovery_holds(p, stripe, recovered@) && parity_lost(p, data, stripe)
                        ==> match answer.encoded {
                        Err(why) => r == Err::<(), Error>(
                            Error::EncodeFailed { segment_id: id, stripe: stripe as usize, why },
                        ),
                        Ok(parity) => if parity_covers(p, data, stripe, parity@) {
                            r is Ok
                        } else {
                            r == Err::<(), Error>(Error::SegmentCorrupt(id))
                        },
                    }
                },
            }
        }),
{
}

/// A stripe that cannot be repaired ends the repair, and takes nothing back: the writes of
/// the stripes before it stand.
pub proof fn law_earlier_repairs_stand(
    id: SegmentId,
    p: ParityView,
    data_at: int,
    section_at: int,
    data: Seq<u8>,
    answers: Seq<StripeAnswer>,
    next: StripeAnswer,
)
    ensures
        ({
            let before = repair_outcome(id, p, data_at, section_at, data, answers);
            let after = repair_outcome(id, p, data_at, section_at, data, answers.push(next));
            &&& before.0.is_prefix_of(after.0)
            &&& before.1 is Err ==> after == before
            &&& before.1 is Ok ==> (after.1 is Ok <==> stripe_outcome(
                id,
                p,
                data_at,
                section_at,
                data,
                answers.len() as int,
                next,
            ).1 is Ok)
        }),
{
    assert(answers.push(next).drop_last() =~= answers);
}

} // verus!
