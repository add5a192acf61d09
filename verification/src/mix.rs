//! The mix engine: sizing the output buffer, accumulating every placement
//! into it with per-channel gain, and clipping the result.

use vstd::prelude::*;
use crate::sample::{CanonicalSample, SampleCache, find_in};
use crate::timeline::{GroupView, PlacementRecord, Timeline};
use crate::units::{gain_of, scaled_product, CELL_LIMIT, TERM_LIMIT};

verus! {

/// The mathematical cells of an output buffer.
pub open spec fn int_cells(s: Seq<i128>) -> Seq<int> {
    s.map_values(|x: i128| x as int)
}

/// An all-zero buffer of a given length.
pub open spec fn zero_seq(n: int) -> Seq<int> {
    Seq::new(n as nat, |j: int| 0)
}

/// One placement accumulated into a buffer: every cell covered by the
/// source window takes the scaled contribution of its sample under the
/// placement's volume and the pan law; every other cell is untouched.
pub open spec fn place_spec(buf: Seq<int>, sample: Seq<i32>, off: int, vol: int, pan: int) -> Seq<
    int,
> {
    Seq::new(
        buf.len(),
        |j: int|
            if off <= j < off + sample.len() {
                buf[j] + scaled_product(sample[j - off] as int, vol, gain_of(pan, j - off))
            } else {
                buf[j]
            },
    )
}

/// A sequence of placements of one source accumulated left to right.
pub open spec fn mix_records_spec(
    buf: Seq<int>,
    sample: Seq<i32>,
    rs: Seq<PlacementRecord>,
) -> Seq<int>
    decreases rs.len(),
{
    if rs.len() == 0 {
        buf
    } else {
        place_spec(
            mix_records_spec(buf, sample, rs.drop_last()),
            sample,
            rs.last().offset as int,
            rs.last().volume as int,
            rs.last().pan as int,
        )
    }
}

/// Every group accumulated left to right; a group whose source is not in
/// the cache contributes nothing.
pub open spec fn mix_groups_spec(
    buf: Seq<int>,
    gs: Seq<GroupView>,
    samples: Seq<CanonicalSample>,
) -> Seq<int>
    decreases gs.len(),
{
    if gs.len() == 0 {
        buf
    } else {
        let b = mix_groups_spec(buf, gs.drop_last(), samples);
        match find_in(samples, gs.last().0) {
            Some(c) => mix_records_spec(b, c.data@, gs.last().1),
            None => b,
        }
    }
}

/// The largest offset among a group's placements (0 when there are none).
pub open spec fn max_offset(rs: Seq<PlacementRecord>) -> int
    decreases rs.len(),
{
    if rs.len() == 0 {
        0
    } else {
        let m = max_offset(rs.drop_last());
        if rs.last().offset as int >= m {
            rs.last().offset as int
        } else {
            m
        }
    }
}

/// The buffer length one group demands: its furthest placement plus its
/// source's canonical length; nothing when its source is absent.
pub open spec fn group_need(g: GroupView, samples: Seq<CanonicalSample>) -> int {
    match find_in(samples, g.0) {
        Some(c) => max_offset(g.1) + c.data@.len(),
        None => 0,
    }
}

/// The smallest buffer length that holds every group's material.
pub open spec fn required_len(gs: Seq<GroupView>, samples: Seq<CanonicalSample>) -> int
    decreases gs.len(),
{
    if gs.len() == 0 {
        0
    } else {
        let m = required_len(gs.drop_last(), samples);
        let gl = group_need(gs.last(), samples);
        if gl >= m {
            gl
        } else {
            m
        }
    }
}

/// The mixed output of a whole run, before clipping: every group's
/// placements accumulated into a zeroed buffer of the required length.
pub open spec fn mixed_output(gs: Seq<GroupView>, samples: Seq<CanonicalSample>) -> Seq<int> {
    mix_groups_spec(zero_seq(required_len(gs, samples)), gs, samples)
}

/// A record count is never negative.
pub proof fn lemma_total_records_nonneg(gs: Seq<GroupView>)
    ensures
        crate::timeline::total_records(gs) >= 0,
    decreases gs.len(),
{
    if gs.len() > 0 {
        lemma_total_records_nonneg(gs.drop_last());
    }
}

/// A maximal offset is never negative and bounds every record's offset.
pub proof fn lemma_max_offset_ge(rs: Seq<PlacementRecord>, k: int)
    requires
        0 <= k < rs.len(),
    ensures
        max_offset(rs) >= 0,
        rs[k].offset <= max_offset(rs),
    decreases rs.len(),
{
    if k < rs.len() - 1 {
        lemma_max_offset_ge(rs.drop_last(), k);
        assert(rs.drop_last()[k] == rs[k]);
    } else if rs.len() > 1 {
        lemma_max_offset_ge(rs.drop_last(), 0);
    }
}

/// Every group's demand is within the required length.
pub proof fn lemma_required_len_ge(gs: Seq<GroupView>, samples: Seq<CanonicalSample>, k: int)
    requires
        0 <= k < gs.len(),
    ensures
        required_len(gs, samples) >= 0,
        group_need(gs[k], samples) <= required_len(gs, samples),
    decreases gs.len(),
{
    if k < gs.len() - 1 {
        lemma_required_len_ge(gs.drop_last(), samples, k);
        assert(gs.drop_last()[k] == gs[k]);
    } else if gs.len() > 1 {
        lemma_required_len_ge(gs.drop_last(), samples, 0);
    }
}

/// Extending a prefix of groups by one more group.
pub proof fn lemma_required_len_take_step(
    gs: Seq<GroupView>,
    samples: Seq<CanonicalSample>,
    k: int,
)
    requires
        0 <= k < gs.len(),
    ensures
        required_len(gs.take(k + 1), samples) == if group_need(gs[k], samples) >= required_len(
            gs.take(k),
            samples,
        ) {
            group_need(gs[k], samples)
        } else {
            required_len(gs.take(k), samples)
        },
{
    assert(gs.take(k + 1).drop_last() =~= gs.take(k));
    assert(gs.take(k + 1).last() == gs[k]);
}

/// Extending a prefix of records by one more record.
pub proof fn lemma_max_offset_take_step(rs: Seq<PlacementRecord>, k: int)
    requires
        0 <= k < rs.len(),
    ensures
        max_offset(rs.take(k + 1)) == if rs[k].offset as int >= max_offset(rs.take(k)) {
            rs[k].offset as int
        } else {
            max_offset(rs.take(k))
        },
{
    assert(rs.take(k + 1).drop_last() =~= rs.take(k));
    assert(rs.take(k + 1).last() == rs[k]);
}

/// Extending a prefix of mixed records by one more placement.
pub proof fn lemma_mix_records_take_step(
    buf: Seq<int>,
    sample: Seq<i32>,
    rs: Seq<PlacementRecord>,
    k: int,
)
    requires
        0 <= k < rs.len(),
    ensures
        mix_records_spec(buf, sample, rs.take(k + 1)) == place_spec(
            mix_records_spec(buf, sample, rs.take(k)),
            sample,
            rs[k].offset as int,
            rs[k].volume as int,
            rs[k].pan as int,
        ),
{
    assert(rs.take(k + 1).drop_last() =~= rs.take(k));
    assert(rs.take(k + 1).last() == rs[k]);
}

/// Extending a prefix of mixed groups by one more group.
pub proof fn lemma_mix_groups_take_step(
    buf: Seq<int>,
    gs: Seq<GroupView>,
    samples: Seq<CanonicalSample>,
    k: int,
)
    requires
        0 <= k < gs.len(),
    ensures
        mix_groups_spec(buf, gs.take(k + 1), samples) == (match find_in(samples, gs[k].0) {
            Some(c) => mix_records_spec(
                mix_groups_spec(buf, gs.take(k), samples),
                c.data@,
                gs[k].1,
            ),
            None => mix_groups_spec(buf, gs.take(k), samples),
        }),
{
    assert(gs.take(k + 1).drop_last() =~= gs.take(k));
    assert(gs.take(k + 1).last() == gs[k]);
}

/// One placement moves every cell by at most TERM_LIMIT.
pub proof fn lemma_place_spec_bound(
    buf: Seq<int>,
    sample: Seq<i32>,
    off: int,
    vol: i32,
    pan: i32,
    b: int,
)
    requires
        b >= 0,
        forall|j: int| 0 <= j < buf.len() ==> -b <= #[trigger] buf[j] <= b,
    ensures
        forall|j: int|
            0 <= j < buf.len() ==> -(b + TERM_LIMIT) <= #[trigger] place_spec(
                buf,
                sample,
                off,
                vol as int,
                pan as int,
            )[j] <= b + TERM_LIMIT,
{
    let out = place_spec(buf, sample, off, vol as int, pan as int);
    assert forall|j: int| 0 <= j < buf.len() implies -(b + TERM_LIMIT) <= #[trigger] out[j] <= b
        + TERM_LIMIT by {
        if off <= j < off + sample.len() {
            crate::units::lemma_gain_in_range(pan as int, j - off);
            crate::units::lemma_scaled_product_bound(
                sample[j - off] as int,
                vol as int,
                gain_of(pan as int, j - off),
            );
        }
    }
}

/// Accumulate one source into the output buffer starting at an interleaved
/// index, applying the placement's volume and the pan law per channel.
#[verifier::loop_isolation(false)]
pub fn mix(data: &mut Vec<i128>, sample: &Vec<i32>, index: usize, volume: i32, pan: i32)
    requires
        index + sample@.len() <= old(data)@.len(),
        forall|j: int|
            0 <= j < old(data)@.len() ==> -CELL_LIMIT <= #[trigger] old(data)@[j] <= CELL_LIMIT,
    ensures
        final(data)@.len() == old(data)@.len(),
        int_cells(final(data)@) == place_spec(
            int_cells(old(data)@),
            sample@,
            index as int,
            volume as int,
            pan as int,
        ),
{
    let ghost base = int_cells(old(data)@);
    let total = sample.len();
    // binds the buffer length so the destination index arithmetic is in range
    let _limit = data.len();
    let mut i: usize = 0;
    proof {
        assert(int_cells(data@) =~= place_spec(
            base,
            sample@.take(0),
            index as int,
            volume as int,
            pan as int,
        ));
    }
    while i < total
        invariant
            i <= total,
            data@.len() == old(data)@.len(),
            int_cells(data@) == place_spec(
                base,
                sample@.take(i as int),
                index as int,
                volume as int,
                pan as int,
            ),
        decreases total - i,
    {
        let g = crate::units::gain_at(pan, i);
        let t = crate::units::contribution(sample[i], volume, g);
        let d = index + i;
        let ghost prev_cells = int_cells(data@);
        let cur = data[d];
        proof {
            assert(prev_cells[d as int] == base[d as int]);
            assert(cur as int == base[d as int]);
            assert(base[d as int] == old(data)@[d as int] as int);
            assert(-CELL_LIMIT <= cur as int <= CELL_LIMIT);
            assert(CELL_LIMIT + TERM_LIMIT == i128::MAX);
        }
        data[d] = cur + (t as i128);
        proof {
            let next = place_spec(
                base,
                sample@.take(i as int + 1),
                index as int,
                volume as int,
                pan as int,
            );
            assert forall|j: int| 0 <= j < data@.len() implies int_cells(data@)[j] == next[j] by {
                assert(int_cells(data@)[j] == data@[j] as int);
                if j == d as int {
                    assert(data@[j] == cur + (t as i128));
                    assert(sample@.take(i as int + 1)[j - index] == sample@[i as int]);
                } else {
                    assert(data@[j] as int == prev_cells[j]);
                    if index <= j < index + i {
                        assert(sample@.take(i as int + 1)[j - index] == sample@.take(i as int)[j
                            - index]);
                    }
                }
            }
            assert(int_cells(data@) =~= next);
        }
        i = i + 1;
    }
    proof {
        assert(sample@.take(sample@.len() as int) =~= sample@);
    }
}

/// The required length of the output buffer: the largest, over every group
/// whose source is cached, of the group's furthest offset plus its source's
/// canonical length.
#[verifier::loop_isolation(false)]
pub fn calculate_max_length(cache: &SampleCache, timeline: &Timeline) -> (n: usize)
    requires
        forall|i: int|
            0 <= i < timeline@.len() ==> #[trigger] group_need(timeline@[i], cache@)
                <= usize::MAX,
    ensures
        n == required_len(timeline@, cache@),
{
    let mut n: usize = 0;
    let group_total = timeline.group_count();
    let mut gi: usize = 0;
    while gi < group_total
        invariant
            gi <= timeline@.len(),
            n == required_len(timeline@.take(gi as int), cache@),
        decreases timeline@.len() - gi,
    {
        let g = timeline.group_at(gi);
        proof {
            lemma_required_len_take_step(timeline@, cache@, gi as int);
        }
        match cache.lookup(&g.name) {
            Some(cs) => {
                let mut m: usize = 0;
                let mut ri: usize = 0;
                proof {
                    assert(g.records@.take(0) =~= Seq::<PlacementRecord>::empty());
                }
                while ri < g.records.len()
                    invariant
                        ri <= g.records@.len(),
                        m == max_offset(g.records@.take(ri as int)),
                    decreases g.records@.len() - ri,
                {
                    proof {
                        lemma_max_offset_take_step(g.records@, ri as int);
                    }
                    let off = g.records[ri].offset;
                    if off > m {
                        m = off;
                    }
                    ri = ri + 1;
                }
                proof {
                    assert(g.records@.take(g.records@.len() as int) =~= g.records@);
                    assert(group_need(timeline@[gi as int], cache@) == max_offset(g.records@)
                        + cs.data@.len());
                }
                let cand = m + cs.data.len();
                if cand > n {
                    n = cand;
                }
            },
            None => {
            },
        }
        gi = gi + 1;
    }
    proof {
        assert(timeline@.take(timeline@.len() as int) =~= timeline@);
    }
    n
}

/// A zeroed output buffer of a given length.
pub fn zero_buffer(len: usize) -> (out: Vec<i128>)
    ensures
        out@.len() == len,
        int_cells(out@) == zero_seq(len as int),
{
    let mut out: Vec<i128> = Vec::new();
    let mut i: usize = 0;
    while i < len
        invariant
            i <= len,
            out@.len() == i,
            forall|j: int| 0 <= j < i ==> #[trigger] out@[j] == 0,
        decreases len - i,
    {
        out.push(0);
        i = i + 1;
    }
    proof {
        assert(int_cells(out@) =~= zero_seq(len as int));
    }
    out
}

/// Mix a whole run: allocate the output buffer at the required length,
/// zero it, and accumulate every placement of every group whose source is
/// cached. The result is the pre-clip output of the timeline.
#[verifier::loop_isolation(false)]
pub fn mix_all(cache: &SampleCache, timeline: &Timeline) -> (out: Vec<i128>)
    requires
        timeline.wf(),
        forall|i: int|
            0 <= i < timeline@.len() ==> #[trigger] group_need(timeline@[i], cache@)
                <= usize::MAX,
    ensures
        out@.len() == required_len(timeline@, cache@),
        int_cells(out@) == mixed_output(timeline@, cache@),
{
    let need = calculate_max_length(cache, timeline);
    let mut out = zero_buffer(need);
    let ghost gs = timeline@;
    let ghost samples = cache@;
    let group_total = timeline.group_count();
    let mut gi: usize = 0;
    proof {
        assert(gs.take(0) =~= Seq::<GroupView>::empty());
        lemma_total_records_nonneg(gs.take(0));
    }
    while gi < group_total
        invariant
            gi <= gs.len(),
            out@.len() == need,
            int_cells(out@) == mix_groups_spec(zero_seq(need as int), gs.take(gi as int), samples),
            0 <= crate::timeline::total_records(gs.take(gi as int)),
            forall|j: int|
                0 <= j < out@.len() ==> -(crate::timeline::total_records(gs.take(gi as int))
                    * TERM_LIMIT) <= #[trigger] int_cells(out@)[j] <= crate::timeline::total_records(
                    gs.take(gi as int),
                ) * TERM_LIMIT,
        decreases gs.len() - gi,
    {
        let g = timeline.group_at(gi);
        proof {
            lemma_mix_groups_take_step(zero_seq(need as int), gs, samples, gi as int);
            crate::timeline::lemma_total_records_take_step(gs, gi as int);
            crate::timeline::lemma_total_records_take_le(gs, gi as int + 1);
        }
        match cache.lookup(&g.name) {
            Some(cs) => {
                let ghost bgi = int_cells(out@);
                let ghost count0 = crate::timeline::total_records(gs.take(gi as int));
                let mut ri: usize = 0;
                proof {
                    assert(g.records@.take(0) =~= Seq::<PlacementRecord>::empty());
                }
                while ri < g.records.len()
                    invariant
                        ri <= g.records@.len(),
                        out@.len() == need,
                        int_cells(out@) == mix_records_spec(
                            bgi,
                            cs.data@,
                            g.records@.take(ri as int),
                        ),
                        forall|j: int|
                            0 <= j < out@.len() ==> -((count0 + ri) * TERM_LIMIT)
                                <= #[trigger] int_cells(out@)[j] <= (count0 + ri) * TERM_LIMIT,
                    decreases g.records@.len() - ri,
                {
                    let r = g.records[ri];
                    proof {
                        lemma_max_offset_ge(g.records@, ri as int);
                        lemma_required_len_ge(gs, samples, gi as int);
                        assert(group_need(gs[gi as int], samples) == max_offset(g.records@)
                            + cs.data@.len());
                        assert(r.offset + cs.data@.len() <= need);
                        // the running bound stays within the one-more-term headroom
                        assert(count0 + ri <= crate::timeline::total_records(gs));
                        vstd::arithmetic::mul::lemma_mul_inequality(
                            count0 + ri,
                            0xffff_ffff_ffff_ffff,
                            TERM_LIMIT as int,
                        );
                        assert forall|j: int|
                            0 <= j < out@.len() implies -CELL_LIMIT <= #[trigger] out@[j]
                            <= CELL_LIMIT by {
                            assert(int_cells(out@)[j] == out@[j] as int);
                        }
                        lemma_mix_records_take_step(bgi, cs.data@, g.records@, ri as int);
                    }
                    let ghost before = int_cells(out@);
                    mix(&mut out, &cs.data, r.offset, r.volume, r.pan);
                    proof {
                        lemma_place_spec_bound(
                            before,
                            cs.data@,
                            r.offset as int,
                            r.volume,
                            r.pan,
                            (count0 + ri) * TERM_LIMIT,
                        );
                        assert((count0 + ri) * TERM_LIMIT + TERM_LIMIT == (count0 + ri + 1)
                            * TERM_LIMIT) by (nonlinear_arith);
                    }
                    ri = ri + 1;
                }
                proof {
                    assert(g.records@.take(g.records@.len() as int) =~= g.records@);
                    assert(count0 + g.records@.len() == crate::timeline::total_records(
                        gs.take(gi as int + 1),
                    ));
                }
            },
            None => {
                proof {
                    vstd::arithmetic::mul::lemma_mul_inequality(
                        crate::timeline::total_records(gs.take(gi as int)),
                        crate::timeline::total_records(gs.take(gi as int + 1)),
                        TERM_LIMIT as int,
                    );
                }
            },
        }
        gi = gi + 1;
    }
    proof {
        assert(gs.take(gs.len() as int) =~= gs);
    }
    out
}

/// The hard-clipping function: values above the valid amplitude range are
/// set to exactly UNIT, values below it to exactly -UNIT, and values within
/// the range are untouched.
pub open spec fn clipped(x: int) -> int {
    if x > crate::UNIT {
        crate::UNIT as int
    } else if x < -(crate::UNIT as int) {
        -(crate::UNIT as int)
    } else {
        x
    }
}

/// At volume UNIT and gain UNIT, a contribution is the sample itself.
pub proof fn lemma_scaled_unit(s: int)
    ensures
        scaled_product(s, crate::UNIT as int, crate::UNIT as int) == s,
{
    let d = crate::units::UNIT_SQUARED as int;
    assert(s * (crate::UNIT as int) * (crate::UNIT as int) == d * s);
    if s >= 0 {
        vstd::arithmetic::div_mod::lemma_div_multiples_vanish(s, d);
    } else {
        vstd::arithmetic::div_mod::lemma_div_multiples_vanish(-s, d);
    }
}

/// Idempotence of a unit placement: mixing a single placement at volume
/// UNIT and center pan into a zeroed buffer reproduces the source exactly
/// at its offset and leaves every other cell zero.
pub proof fn lemma_unit_mix_reproduces_source(len: int, sample: Seq<i32>, off: int)
    requires
        0 <= off,
        off + sample.len() <= len,
    ensures
        place_spec(zero_seq(len), sample, off, crate::UNIT as int, 0).len() == len,
        forall|i: int|
            0 <= i < sample.len() ==> #[trigger] place_spec(
                zero_seq(len),
                sample,
                off,
                crate::UNIT as int,
                0,
            )[off + i] == sample[i],
        forall|j: int|
            0 <= j < len && !(off <= j < off + sample.len()) ==> #[trigger] place_spec(
                zero_seq(len),
                sample,
                off,
                crate::UNIT as int,
                0,
            )[j] == 0,
{
    let out = place_spec(zero_seq(len), sample, off, crate::UNIT as int, 0);
    assert forall|i: int| 0 <= i < sample.len() implies #[trigger] out[off + i] == sample[i] by {
        assert(gain_of(0, i) == crate::UNIT);
        lemma_scaled_unit(sample[i] as int);
    }
}

/// Overlap accumulation: two identical placements at the same offset, each
/// at volume UNIT and center pan, sum to exactly twice the source before
/// clipping, and leave every other cell zero.
pub proof fn lemma_overlap_accumulates(len: int, sample: Seq<i32>, off: int)
    requires
        0 <= off,
        off + sample.len() <= len,
    ensures
        ({
            let twice = place_spec(
                place_spec(zero_seq(len), sample, off, crate::UNIT as int, 0),
                sample,
                off,
                crate::UNIT as int,
                0,
            );
            &&& twice.len() == len
            &&& forall|i: int| 0 <= i < sample.len() ==> #[trigger] twice[off + i] == 2 * sample[i]
            &&& forall|j: int|
                0 <= j < len && !(off <= j < off + sample.len()) ==> #[trigger] twice[j] == 0
        }),
{
    let once = place_spec(zero_seq(len), sample, off, crate::UNIT as int, 0);
    let twice = place_spec(once, sample, off, crate::UNIT as int, 0);
    lemma_unit_mix_reproduces_source(len, sample, off);
    assert forall|i: int| 0 <= i < sample.len() implies #[trigger] twice[off + i] == 2 * sample[i] by {
        assert(gain_of(0, i) == crate::UNIT);
        lemma_scaled_unit(sample[i] as int);
        assert(once[off + i] == sample[i]);
    }
}

/// Commutativity of non-overlapping placements: mixing two placements
/// whose windows do not overlap yields the same buffer in either order.
pub proof fn lemma_disjoint_placements_commute(
    buf: Seq<int>,
    s1: Seq<i32>,
    off1: int,
    vol1: int,
    pan1: int,
    s2: Seq<i32>,
    off2: int,
    vol2: int,
    pan2: int,
)
    requires
        0 <= off1,
        0 <= off2,
        off1 + s1.len() <= off2 || off2 + s2.len() <= off1,
    ensures
        place_spec(place_spec(buf, s1, off1, vol1, pan1), s2, off2, vol2, pan2) == place_spec(
            place_spec(buf, s2, off2, vol2, pan2),
            s1,
            off1,
            vol1,
            pan1,
        ),
{
    let a = place_spec(place_spec(buf, s1, off1, vol1, pan1), s2, off2, vol2, pan2);
    let b = place_spec(place_spec(buf, s2, off2, vol2, pan2), s1, off1, vol1, pan1);
    assert forall|j: int| 0 <= j < buf.len() implies a[j] == b[j] by {
        assert(place_spec(buf, s1, off1, vol1, pan1)[j] == if off1 <= j < off1 + s1.len() {
            buf[j] + scaled_product(s1[j - off1] as int, vol1, gain_of(pan1, j - off1))
        } else {
            buf[j]
        });
        assert(place_spec(buf, s2, off2, vol2, pan2)[j] == if off2 <= j < off2 + s2.len() {
            buf[j] + scaled_product(s2[j - off2] as int, vol2, gain_of(pan2, j - off2))
        } else {
            buf[j]
        });
    }
    assert(a =~= b);
}

/// Mixing a whole timeline of one event at volume UNIT and center pan
/// reproduces the cached source exactly at the event's offset and leaves
/// every other cell of the output zero.
pub proof fn lemma_single_event_timeline(
    samples: Seq<CanonicalSample>,
    c: CanonicalSample,
    r: PlacementRecord,
)
    requires
        find_in(samples, c.name@) == Some(c),
        r.volume == crate::UNIT,
        r.pan == 0,
    ensures
        ({
            let gs: Seq<GroupView> = seq![(c.name@, seq![r])];
            let out = mixed_output(gs, samples);
            &&& out.len() == r.offset + c.data@.len()
            &&& forall|i: int| 0 <= i < c.data@.len() ==> #[trigger] out[r.offset + i] == c.data@[i]
            &&& forall|j: int| 0 <= j < r.offset ==> #[trigger] out[j] == 0
        }),
{
    let gs: Seq<GroupView> = seq![(c.name@, seq![r])];
    let rs: Seq<PlacementRecord> = seq![r];
    let nil_g = Seq::<GroupView>::empty();
    let nil_r = Seq::<PlacementRecord>::empty();
    assert(gs.drop_last() =~= nil_g);
    assert(gs.last() == (c.name@, rs));
    assert(rs.drop_last() =~= nil_r);
    assert(rs.last() == r);
    assert(max_offset(nil_r) == 0);
    assert(max_offset(rs) == r.offset);
    assert(required_len(nil_g, samples) == 0);
    assert(group_need((c.name@, rs), samples) == r.offset + c.data@.len());
    assert(required_len(gs, samples) == r.offset + c.data@.len());
    let zeros = zero_seq(r.offset + c.data@.len());
    assert(mix_groups_spec(zeros, nil_g, samples) == zeros);
    assert(mix_records_spec(zeros, c.data@, nil_r) == zeros);
    assert(mix_records_spec(zeros, c.data@, rs) == place_spec(
        zeros,
        c.data@,
        r.offset as int,
        crate::UNIT as int,
        0,
    ));
    assert(mixed_output(gs, samples) == place_spec(
        zeros,
        c.data@,
        r.offset as int,
        crate::UNIT as int,
        0,
    ));
    lemma_unit_mix_reproduces_source(r.offset + c.data@.len(), c.data@, r.offset as int);
}

/// Mixing a whole timeline of two identical events at the same offset,
/// each at volume UNIT and center pan, accumulates to exactly twice the
/// cached source before clipping.
pub proof fn lemma_double_event_timeline(
    samples: Seq<CanonicalSample>,
    c: CanonicalSample,
    r: PlacementRecord,
)
    requires
        find_in(samples, c.name@) == Some(c),
        r.volume == crate::UNIT,
        r.pan == 0,
    ensures
        ({
            let gs: Seq<GroupView> = seq![(c.name@, seq![r, r])];
            let out = mixed_output(gs, samples);
            &&& out.len() == r.offset + c.data@.len()
            &&& forall|i: int|
                0 <= i < c.data@.len() ==> #[trigger] out[r.offset + i] == 2 * c.data@[i]
            &&& forall|j: int| 0 <= j < r.offset ==> #[trigger] out[j] == 0
        }),
{
    let gs: Seq<GroupView> = seq![(c.name@, seq![r, r])];
    let rs: Seq<PlacementRecord> = seq![r, r];
    let one: Seq<PlacementRecord> = seq![r];
    let nil_g = Seq::<GroupView>::empty();
    let nil_r = Seq::<PlacementRecord>::empty();
    assert(gs.drop_last() =~= nil_g);
    assert(gs.last() == (c.name@, rs));
    assert(rs.drop_last() =~= one);
    assert(rs.last() == r);
    assert(one.drop_last() =~= nil_r);
    assert(one.last() == r);
    assert(max_offset(nil_r) == 0);
    assert(max_offset(one) == r.offset);
    assert(max_offset(rs) == r.offset);
    assert(required_len(nil_g, samples) == 0);
    assert(group_need((c.name@, rs), samples) == r.offset + c.data@.len());
    assert(required_len(gs, samples) == r.offset + c.data@.len());
    let zeros = zero_seq(r.offset + c.data@.len());
    assert(mix_groups_spec(zeros, nil_g, samples) == zeros);
    assert(mix_records_spec(zeros, c.data@, nil_r) == zeros);
    let once = place_spec(zeros, c.data@, r.offset as int, crate::UNIT as int, 0);
    assert(mix_records_spec(zeros, c.data@, one) == once);
    assert(mix_records_spec(zeros, c.data@, rs) == place_spec(
        once,
        c.data@,
        r.offset as int,
        crate::UNIT as int,
        0,
    ));
    assert(mixed_output(gs, samples) == place_spec(
        once,
        c.data@,
        r.offset as int,
        crate::UNIT as int,
        0,
    ));
    lemma_overlap_accumulates(r.offset + c.data@.len(), c.data@, r.offset as int);
}

/// Commutativity for one source: accumulating two non-overlapping
/// placements of the same source gives the same buffer in either order.
pub proof fn lemma_disjoint_records_commute(
    buf: Seq<int>,
    sample: Seq<i32>,
    r1: PlacementRecord,
    r2: PlacementRecord,
)
    requires
        r1.offset + sample.len() <= r2.offset || r2.offset + sample.len() <= r1.offset,
    ensures
        mix_records_spec(buf, sample, seq![r1, r2]) == mix_records_spec(buf, sample, seq![r2, r1]),
{
    let a: Seq<PlacementRecord> = seq![r1, r2];
    let b: Seq<PlacementRecord> = seq![r2, r1];
    let first: Seq<PlacementRecord> = seq![r1];
    let second: Seq<PlacementRecord> = seq![r2];
    let nil_r = Seq::<PlacementRecord>::empty();
    assert(a.drop_last() =~= first);
    assert(a.last() == r2);
    assert(b.drop_last() =~= second);
    assert(b.last() == r1);
    assert(first.drop_last() =~= nil_r);
    assert(second.drop_last() =~= nil_r);
    assert(mix_records_spec(buf, sample, nil_r) == buf);
    assert(mix_records_spec(buf, sample, first) == place_spec(
        buf,
        sample,
        r1.offset as int,
        r1.volume as int,
        r1.pan as int,
    ));
    assert(mix_records_spec(buf, sample, second) == place_spec(
        buf,
        sample,
        r2.offset as int,
        r2.volume as int,
        r2.pan as int,
    ));
    lemma_disjoint_placements_commute(
        buf,
        sample,
        r1.offset as int,
        r1.volume as int,
        r1.pan as int,
        sample,
        r2.offset as int,
        r2.volume as int,
        r2.pan as int,
    );
}

/// Commutativity across sources: a timeline of two events of different
/// sources whose windows do not overlap mixes to the same output buffer
/// whichever source is processed first.
pub proof fn lemma_disjoint_groups_commute(
    samples: Seq<CanonicalSample>,
    c1: CanonicalSample,
    r1: PlacementRecord,
    c2: CanonicalSample,
    r2: PlacementRecord,
)
    requires
        find_in(samples, c1.name@) == Some(c1),
        find_in(samples, c2.name@) == Some(c2),
        r1.offset + c1.data@.len() <= r2.offset || r2.offset + c2.data@.len() <= r1.offset,
    ensures
        mixed_output(seq![(c1.name@, seq![r1]), (c2.name@, seq![r2])], samples) == mixed_output(
            seq![(c2.name@, seq![r2]), (c1.name@, seq![r1])],
            samples,
        ),
{
    let g1: GroupView = (c1.name@, seq![r1]);
    let g2: GroupView = (c2.name@, seq![r2]);
    let a: Seq<GroupView> = seq![g1, g2];
    let b: Seq<GroupView> = seq![g2, g1];
    let nil_g = Seq::<GroupView>::empty();
    let nil_r = Seq::<PlacementRecord>::empty();
    assert(seq![r1].drop_last() =~= nil_r);
    assert(seq![r2].drop_last() =~= nil_r);
    assert(max_offset(nil_r) == 0);
    assert(max_offset(seq![r1]) == r1.offset);
    assert(max_offset(seq![r2]) == r2.offset);
    assert(a.drop_last() =~= seq![g1]);
    assert(a.last() == g2);
    assert(b.drop_last() =~= seq![g2]);
    assert(b.last() == g1);
    assert(seq![g1].drop_last() =~= nil_g);
    assert(seq![g2].drop_last() =~= nil_g);
    assert(required_len(nil_g, samples) == 0);
    assert(group_need(g1, samples) == r1.offset + c1.data@.len());
    assert(group_need(g2, samples) == r2.offset + c2.data@.len());
    assert(required_len(seq![g1], samples) == group_need(g1, samples));
    assert(required_len(seq![g2], samples) == group_need(g2, samples));
    assert(required_len(a, samples) == required_len(b, samples));
    let zeros = zero_seq(required_len(a, samples));
    let p1 = place_spec(zeros, c1.data@, r1.offset as int, r1.volume as int, r1.pan as int);
    let p2 = place_spec(zeros, c2.data@, r2.offset as int, r2.volume as int, r2.pan as int);
    assert(mix_groups_spec(zeros, nil_g, samples) == zeros);
    assert(mix_records_spec(zeros, c1.data@, nil_r) == zeros);
    assert(mix_records_spec(zeros, c2.data@, nil_r) == zeros);
    assert(mix_records_spec(zeros, c1.data@, seq![r1]) == p1);
    assert(mix_records_spec(zeros, c2.data@, seq![r2]) == p2);
    assert(mix_groups_spec(zeros, seq![g1], samples) == p1);
    assert(mix_groups_spec(zeros, seq![g2], samples) == p2);
    assert(mix_records_spec(p1, c2.data@, nil_r) == p1);
    assert(mix_records_spec(p2, c1.data@, nil_r) == p2);
    assert(mix_groups_spec(zeros, a, samples) == place_spec(
        p1,
        c2.data@,
        r2.offset as int,
        r2.volume as int,
        r2.pan as int,
    ));
    assert(mix_groups_spec(zeros, b, samples) == place_spec(
        p2,
        c1.data@,
        r1.offset as int,
        r1.volume as int,
        r1.pan as int,
    ));
    lemma_disjoint_placements_commute(
        zeros,
        c1.data@,
        r1.offset as int,
        r1.volume as int,
        r1.pan as int,
        c2.data@,
        r2.offset as int,
        r2.volume as int,
        r2.pan as int,
    );
}

/// One clamp pass over the whole output buffer, applied once after all
/// accumulation.
#[verifier::loop_isolation(false)]
pub fn clip(data: &mut Vec<i128>)
    ensures
        final(data)@.len() == old(data)@.len(),
        forall|j: int|
            0 <= j < old(data)@.len() ==> final(data)@[j] as int == clipped(old(data)@[j] as int),
{
    let mut i: usize = 0;
    while i < data.len()
        invariant
            i <= data@.len(),
            data@.len() == old(data)@.len(),
            forall|j: int| 0 <= j < i ==> #[trigger] data@[j] as int == clipped(old(data)@[j] as int),
            forall|j: int| i <= j < data@.len() ==> #[trigger] data@[j] == old(data)@[j],
        decreases data@.len() - i,
    {
        let c = data[i];
        if c > (crate::UNIT as i128) {
            data[i] = crate::UNIT as i128;
        } else if c < -(crate::UNIT as i128) {
            data[i] = -(crate::UNIT as i128);
        }
        i = i + 1;
    }
}

} // verus!
