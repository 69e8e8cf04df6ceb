//! The segment layout engine.
//!
//! A channel layout is an ordered list of [`Segment`]s covering one channel's
//! full duration.  It is built in three passes: a base pass that lays the
//! segments out in order and draws the reverse/silence outcomes, a swap pass
//! that exchanges segments over bounded random distances, and a repeat pass
//! that overwrites bounded runs with their first segment.  Swap and repeat
//! both clamp their target index so that the trailing partial segment — the
//! one whose nominal window sticks out past the duration — never leaves the
//! final slot.
use crate::rng::{pick_distance, trial, PROB_ONE};
use vstd::arithmetic::div_mod::{
    lemma_div_is_ordered, lemma_div_multiples_vanish, lemma_div_pos_is_pos,
    lemma_fundamental_div_mod, lemma_mod_bound, lemma_mod_multiples_basic,
};
use vstd::arithmetic::mul::{lemma_mul_inequality, lemma_mul_is_commutative};
use vstd::pervasive::VecAdditionalExecFns;
use vstd::prelude::*;

verus! {

/// One time-contiguous window of a channel's samples: a starting sample
/// offset plus the two independent transformation outcomes.
#[derive(Clone, Copy, Debug, PartialEq, Eq, Structural)]
pub struct Segment {
    pub offset: u32,
    pub reverse: bool,
    pub silence: bool,
}

impl Segment {
    pub fn new(offset: u32, reverse: bool, silence: bool) -> (s: Segment)
        ensures
            s.offset == offset,
            s.reverse == reverse,
            s.silence == silence,
    {
        Segment { offset, reverse, silence }
    }

    pub fn offset(&self) -> (r: u32)
        ensures
            r == self.offset,
    {
        self.offset
    }

    pub fn reverse(&self) -> (r: bool)
        ensures
            r == self.reverse,
    {
        self.reverse
    }

    pub fn silence(&self) -> (r: bool)
        ensures
            r == self.silence,
    {
        self.silence
    }
}

/// The caller-supplied knobs for one run: the nominal segment length in
/// samples, the four effect probabilities as numerators over
/// [`PROB_ONE`], the two positive distance bounds, and the flag that
/// selects per-channel randomization.
#[derive(Clone, Copy, Debug)]
pub struct Config {
    pub segment_len: u32,
    pub prob_silence: u32,
    pub prob_swap: u32,
    pub prob_reverse: u32,
    pub prob_repeat: u32,
    pub max_swap: u16,
    pub max_repeat: u16,
    pub each_channel_separately: bool,
}

impl Config {
    /// The ranges that every caller must have validated upstream.
    pub open spec fn wf(self) -> bool {
        &&& self.segment_len >= 1
        &&& self.prob_silence <= PROB_ONE
        &&& self.prob_swap <= PROB_ONE
        &&& self.prob_reverse <= PROB_ONE
        &&& self.prob_repeat <= PROB_ONE
        &&& self.max_swap >= 1
        &&& self.max_repeat >= 1
    }
}

/// How many segments cover `duration` samples: the ceiling of
/// `duration / segment_len`.
pub open spec fn seg_count(duration: int, segment_len: int) -> int
    recommends
        duration >= 1,
        segment_len >= 1,
{
    duration / segment_len + if duration % segment_len == 0 {
        0int
    } else {
        1int
    }
}

/// Whether the final segment is shorter than the nominal length.
pub open spec fn is_incomplete(duration: int, segment_len: int) -> bool
    recommends
        duration >= 1,
        segment_len >= 1,
{
    duration % segment_len != 0
}

/// `seg_count` is the ceiling: the segments cover the duration, the last
/// one starts inside it, and the cover is exact iff the layout is complete.
pub proof fn lemma_seg_count_bounds(duration: int, len: int)
    requires
        duration >= 1,
        len >= 1,
    ensures
        1 <= seg_count(duration, len) <= duration,
        (seg_count(duration, len) - 1) * len < duration,
        duration <= seg_count(duration, len) * len,
        is_incomplete(duration, len) <==> duration < seg_count(duration, len) * len,
{
    let q = duration / len;
    let r = duration % len;
    lemma_fundamental_div_mod(duration, len);
    lemma_mod_bound(duration, len);
    lemma_div_pos_is_pos(duration, len);
    assert(duration == len * q + r);
    let c = seg_count(duration, len);
    if r == 0 {
        assert(c == q);
        assert(c * len == len * q) by {
            lemma_mul_is_commutative(c, len);
        }
        assert(q >= 1) by (nonlinear_arith)
            requires
                len * q == duration,
                duration >= 1,
                len >= 1,
        ;
        assert(q <= duration) by (nonlinear_arith)
            requires
                len * q == duration,
                q >= 1,
                len >= 1,
        ;
        assert((c - 1) * len == duration - len) by (nonlinear_arith)
            requires
                c == q,
                len * q == duration,
        ;
    } else {
        assert(c == q + 1);
        assert(q >= 0);
        assert(c * len == len * q + len) by (nonlinear_arith)
            requires
                c == q + 1,
        ;
        assert((c - 1) * len == len * q) by (nonlinear_arith)
            requires
                c == q + 1,
        ;
        assert(q + 1 <= duration) by (nonlinear_arith)
            requires
                len * q + r == duration,
                0 < r < len,
                q >= 0,
                len >= 1,
        ;
    }
}

/// A segment whose offset lies on the segment grid and inside the duration.
pub open spec fn fits(seg: Segment, segment_len: int, duration: int) -> bool {
    seg.offset as int % segment_len == 0 && seg.offset < duration
}

/// Well-formedness of one channel layout: it has exactly `seg_count` slots,
/// every slot's segment lies on the grid inside the duration, every slot but
/// the last holds a full-length segment, and — when the layout is incomplete —
/// the trailing partial segment sits in the final slot.
pub open spec fn channel_wf(ch: Seq<Segment>, segment_len: int, duration: int) -> bool {
    &&& ch.len() == seg_count(duration, segment_len)
    &&& forall|k: int| 0 <= k < ch.len() ==> fits(#[trigger] ch[k], segment_len, duration)
    &&& forall|k: int|
        0 <= k < ch.len() - 1 ==> (#[trigger] ch[k]).offset + segment_len <= duration
    &&& (is_incomplete(duration, segment_len) ==> ch[ch.len() - 1].offset == (ch.len() - 1)
        * segment_len)
}

/// In a complete layout every fitting segment is full-length.
pub proof fn lemma_fits_full(seg: Segment, len: int, duration: int)
    requires
        len >= 1,
        duration >= 1,
        fits(seg, len, duration),
        !is_incomplete(duration, len),
    ensures
        seg.offset + len <= duration,
{
    let a = seg.offset as int / len;
    let c = duration / len;
    lemma_fundamental_div_mod(seg.offset as int, len);
    lemma_fundamental_div_mod(duration, len);
    assert(seg.offset == len * a);
    assert(duration == len * c);
    assert(a < c) by (nonlinear_arith)
        requires
            len * a < len * c,
            len >= 1,
    ;
    assert(len * a + len <= len * c) by (nonlinear_arith)
        requires
            a + 1 <= c,
            len >= 1,
    ;
}

/// The aggregate layout: one channel layout per output channel, a cursor for
/// slice iteration, and the shared nominal segment length.
#[derive(Debug)]
pub struct SegmentLayout {
    pub segments: Vec<Vec<Segment>>,
    pub index: usize,
    pub segment_len: usize,
}

impl SegmentLayout {
    /// The segment count for a channel of `duration` samples, and whether
    /// the layout is incomplete (final segment shorter than nominal).
    pub fn segment_count(duration: u32, segment_len: u32) -> (r: (usize, bool))
        requires
            duration >= 1,
            segment_len >= 1,
        ensures
            r.0 == seg_count(duration as int, segment_len as int),
            r.1 == is_incomplete(duration as int, segment_len as int),
            1 <= r.0 <= duration,
            (r.0 - 1) * segment_len < duration <= r.0 * segment_len,
    {
        proof {
            lemma_seg_count_bounds(duration as int, segment_len as int);
        }
        let q = duration / segment_len;
        let rem = duration % segment_len;
        if rem == 0 {
            (q as usize, false)
        } else {
            ((q + 1) as usize, true)
        }
    }
}

/// The base assignment pass: one segment per slot, at offset `k * segment_len`,
/// with reverse and silence each drawn by an independent trial.
fn base_pass(config: &Config, duration: u32) -> (channel: Vec<Segment>)
    requires
        config.wf(),
        duration >= 1,
    ensures
        channel_wf(channel@, config.segment_len as int, duration as int),
        forall|k: int|
            0 <= k < channel@.len() ==> (#[trigger] channel@[k]).offset == k * config.segment_len,
        config.prob_reverse == 0 ==> forall|k: int|
            0 <= k < channel@.len() ==> !(#[trigger] channel@[k]).reverse,
        config.prob_reverse == PROB_ONE ==> forall|k: int|
            0 <= k < channel@.len() ==> (#[trigger] channel@[k]).reverse,
        config.prob_silence == 0 ==> forall|k: int|
            0 <= k < channel@.len() ==> !(#[trigger] channel@[k]).silence,
        config.prob_silence == PROB_ONE ==> forall|k: int|
            0 <= k < channel@.len() ==> (#[trigger] channel@[k]).silence,
{
    let len = config.segment_len;
    let (count, _inc) = SegmentLayout::segment_count(duration, len);
    let mut channel: Vec<Segment> = Vec::new();
    let mut i: usize = 0;
    while i < count
        invariant
            config.wf(),
            duration >= 1,
            len == config.segment_len,
            count == seg_count(duration as int, len as int),
            (count - 1) * len < duration,
            i <= count,
            channel@.len() == i,
            forall|k: int| 0 <= k < i ==> (#[trigger] channel@[k]).offset == k * len,
            config.prob_reverse == 0 ==> forall|k: int|
                0 <= k < i ==> !(#[trigger] channel@[k]).reverse,
            config.prob_reverse == PROB_ONE ==> forall|k: int|
                0 <= k < i ==> (#[trigger] channel@[k]).reverse,
            config.prob_silence == 0 ==> forall|k: int|
                0 <= k < i ==> !(#[trigger] channel@[k]).silence,
            config.prob_silence == PROB_ONE ==> forall|k: int|
                0 <= k < i ==> (#[trigger] channel@[k]).silence,
        decreases count - i,
    {
        proof {
            lemma_mul_inequality(i as int, count - 1, len as int);
        }
        let offset = (i as u32) * len;
        let rev = trial(config.prob_reverse);
        let sil = trial(config.prob_silence);
        channel.push(Segment::new(offset, rev, sil));
        i = i + 1;
    }
    proof {
        lemma_seg_count_bounds(duration as int, len as int);
        assert forall|k: int| 0 <= k < channel@.len() implies fits(
            #[trigger] channel@[k],
            len as int,
            duration as int,
        ) by {
            lemma_mod_multiples_basic(k, len as int);
            lemma_mul_inequality(k, count - 1, len as int);
        }
        assert forall|k: int| 0 <= k < channel@.len() - 1 implies (#[trigger] channel@[k]).offset
            + len <= duration by {
            lemma_mul_inequality(k + 1, count - 1, len as int);
            assert((k + 1) * len == k * len + len) by (nonlinear_arith);
        }
    }
    channel
}

/// Exchange the segments at slots `i` and `j` in place.
fn swap_segments(channel: &mut Vec<Segment>, i: usize, j: usize)
    requires
        i < old(channel)@.len(),
        j < old(channel)@.len(),
    ensures
        final(channel)@.len() == old(channel)@.len(),
        final(channel)@[i as int] == old(channel)@[j as int],
        final(channel)@[j as int] == old(channel)@[i as int],
        forall|k: int|
            0 <= k < final(channel)@.len() && k != i && k != j ==> #[trigger] final(channel)@[k]
                == old(channel)@[k],
{
    let a = channel[i];
    let b = channel[j];
    channel.set(i, b);
    channel.set(j, a);
}

/// The slot that feeds slot `k` when every swap trial fires with distance 1:
/// the first segment bubbles forward to the highest unprotected slot while
/// the slots it passes shift back by one.
pub open spec fn swap_source(k: int, count: int, inc: bool) -> int {
    let upper = if inc && count >= 2 {
        count - 2
    } else {
        count - 1
    };
    if k < upper {
        k + 1
    } else if k == upper {
        0
    } else {
        k
    }
}

/// The swap pass: each slot, visited once in forward order, may be exchanged
/// with a slot a bounded random distance ahead; the target is clamped so that
/// a trailing partial segment is never pulled out of the final slot.
fn swap_pass(config: &Config, duration: u32, channel: &mut Vec<Segment>)
    requires
        config.wf(),
        duration >= 1,
        channel_wf(old(channel)@, config.segment_len as int, duration as int),
    ensures
        channel_wf(final(channel)@, config.segment_len as int, duration as int),
        final(channel)@.len() == old(channel)@.len(),
        config.prob_swap == 0 ==> final(channel)@ == old(channel)@,
        forall|k: int|
            0 <= k < final(channel)@.len() ==> old(channel)@.contains(
                #[trigger] final(channel)@[k],
            ),
        config.prob_swap == PROB_ONE && config.max_swap == 1 ==> forall|k: int|
            0 <= k < final(channel)@.len() ==> #[trigger] final(channel)@[k] == old(
                channel,
            )@[swap_source(
                k,
                final(channel)@.len() as int,
                is_incomplete(duration as int, config.segment_len as int),
            )],
{
    let ghost len = config.segment_len as int;
    let count = channel.len();
    let inc = duration % config.segment_len != 0;
    let ghost up: int = if inc && count >= 2 {
        count - 2
    } else {
        count - 1
    };
    proof {
        lemma_seg_count_bounds(duration as int, len);
        assert forall|k: int| 0 <= k < channel@.len() implies old(channel)@.contains(
            #[trigger] channel@[k],
        ) by {
            assert(old(channel)@[k] == channel@[k]);
        }
    }
    let mut i: usize = 0;
    while i < count
        invariant
            config.wf(),
            duration >= 1,
            len == config.segment_len as int,
            count == channel@.len(),
            count == seg_count(duration as int, len),
            count >= 1,
            inc == is_incomplete(duration as int, len),
            up == if inc && count >= 2 {
                count - 2
            } else {
                count - 1int
            },
            channel_wf(channel@, len, duration as int),
            config.prob_swap == 0 ==> channel@ == old(channel)@,
            forall|k: int|
                0 <= k < channel@.len() ==> old(channel)@.contains(#[trigger] channel@[k]),
            config.prob_swap == PROB_ONE && config.max_swap == 1 ==> {
                &&& forall|t: int|
                    0 <= t < i && t < up ==> #[trigger] channel@[t] == old(channel)@[t + 1]
                &&& (i <= up ==> channel@[i as int] == old(channel)@[0])
                &&& (i > up ==> channel@[up] == old(channel)@[0])
                &&& forall|t: int| i < t < count ==> #[trigger] channel@[t] == old(channel)@[t]
                &&& forall|t: int| up < t < count ==> #[trigger] channel@[t] == old(channel)@[t]
            },
        decreases count - i,
    {
        if trial(config.prob_swap) {
            let d = pick_distance(config.max_swap);
            let upper = if inc && i != count - 1 {
                count - 2
            } else {
                count - 1
            };
            let j = if d > upper - i {
                upper
            } else {
                i + d
            };
            let ghost pre = channel@;
            swap_segments(channel, i, j);
            proof {
                lemma_swap_keeps_channel_wf(pre, channel@, len, duration as int, i as int, j as int, inc);
                assert forall|k: int| 0 <= k < channel@.len() implies old(channel)@.contains(
                    #[trigger] channel@[k],
                ) by {
                    let src: int = if k == i {
                        j as int
                    } else if k == j {
                        i as int
                    } else {
                        k
                    };
                    assert(channel@[k] == pre[src]);
                    assert(old(channel)@.contains(pre[src]));
                }
                if config.prob_swap == PROB_ONE && config.max_swap == 1 {
                    assert(d == 1);
                    if (i as int) < up {
                        assert(j == i + 1);
                        assert(channel@[i as int] == pre[i + 1]);
                        assert(pre[i + 1] == old(channel)@[i + 1]);
                        assert(channel@[i + 1] == pre[i as int]);
                        assert(pre[i as int] == old(channel)@[0]);
                    } else {
                        // the clamp makes the exchange a no-op here
                        assert(j == i);
                        assert(channel@ =~= pre);
                    }
                }
            }
        }
        i = i + 1;
    }
    proof {
        if config.prob_swap == PROB_ONE && config.max_swap == 1 {
            assert forall|k: int| 0 <= k < channel@.len() implies #[trigger] channel@[k] == old(
                channel,
            )@[swap_source(k, count as int, inc)] by {
                if k < up {
                    assert(channel@[k] == old(channel)@[k + 1]);
                } else if k == up {
                    assert(channel@[up] == old(channel)@[0]);
                } else {
                    assert(channel@[k] == old(channel)@[k]);
                }
            }
        }
    }
}

/// A single exchange between a source slot and a clamped target preserves
/// channel well-formedness.
proof fn lemma_swap_keeps_channel_wf(
    pre: Seq<Segment>,
    post: Seq<Segment>,
    len: int,
    duration: int,
    i: int,
    j: int,
    inc: bool,
)
    requires
        len >= 1,
        duration >= 1,
        channel_wf(pre, len, duration),
        inc == is_incomplete(duration, len),
        0 <= i < pre.len(),
        i <= j < pre.len(),
        inc && i != pre.len() - 1 ==> j < pre.len() - 1,
        post.len() == pre.len(),
        post[i] == pre[j],
        post[j] == pre[i],
        forall|k: int| 0 <= k < post.len() && k != i && k != j ==> #[trigger] post[k] == pre[k],
    ensures
        channel_wf(post, len, duration),
{
    let c = pre.len() as int;
    assert forall|k: int| 0 <= k < c implies fits(#[trigger] post[k], len, duration) by {
        if k == i {
            assert(fits(pre[j], len, duration));
        } else if k == j {
            assert(fits(pre[i], len, duration));
        }
    }
    if inc {
        // the touched slots never include the final one unless i == j == c - 1,
        // and then the exchange leaves it in place
        if i == c - 1 {
            assert(j == c - 1);
            assert(post[c - 1] == pre[c - 1]);
        } else {
            assert(j < c - 1);
            assert(post[c - 1] == pre[c - 1]);
        }
        assert forall|k: int| 0 <= k < c - 1 implies (#[trigger] post[k]).offset + len
            <= duration by {
            if k == i {
                assert(j < c - 1 || j == i);
                assert(pre[j].offset + len <= duration);
            } else if k == j {
                assert(pre[i].offset + len <= duration);
            }
        }
    } else {
        assert forall|k: int| 0 <= k < c - 1 implies (#[trigger] post[k]).offset + len
            <= duration by {
            lemma_fits_full(post[k], len, duration);
        }
    }
}

/// The slot that feeds slot `k` when every repeat trial fires with distance 1:
/// slots collapse into pairs, except that a trailing partial segment keeps its
/// own slot.
pub open spec fn repeat_source(k: int, count: int, inc: bool) -> int {
    if inc && k == count - 1 {
        k
    } else {
        k - k % 2
    }
}

/// The repeat pass: walking forward with a skip, each trial that fires
/// overwrites a bounded run of slots with the segment at the run's start; the
/// run end is clamped exactly as the swap target is, and a run is never
/// revisited.
fn repeat_pass(config: &Config, duration: u32, channel: &mut Vec<Segment>)
    requires
        config.wf(),
        duration >= 1,
        channel_wf(old(channel)@, config.segment_len as int, duration as int),
    ensures
        channel_wf(final(channel)@, config.segment_len as int, duration as int),
        final(channel)@.len() == old(channel)@.len(),
        config.prob_repeat == 0 ==> final(channel)@ == old(channel)@,
        forall|k: int|
            0 <= k < final(channel)@.len() ==> old(channel)@.contains(
                #[trigger] final(channel)@[k],
            ),
        config.prob_repeat == PROB_ONE && config.max_repeat == 1 ==> forall|k: int|
            0 <= k < final(channel)@.len() ==> #[trigger] final(channel)@[k] == old(
                channel,
            )@[repeat_source(
                k,
                final(channel)@.len() as int,
                is_incomplete(duration as int, config.segment_len as int),
            )],
{
    let ghost len = config.segment_len as int;
    let ghost dur = duration as int;
    let count = channel.len();
    let inc = duration % config.segment_len != 0;
    proof {
        lemma_seg_count_bounds(dur, len);
        assert forall|k: int| 0 <= k < channel@.len() implies old(channel)@.contains(
            #[trigger] channel@[k],
        ) by {
            assert(old(channel)@[k] == channel@[k]);
        }
    }
    let mut i: usize = 0;
    while i < count
        invariant
            config.wf(),
            duration >= 1,
            len == config.segment_len as int,
            dur == duration as int,
            count == channel@.len(),
            count == old(channel)@.len(),
            count == seg_count(dur, len),
            inc == is_incomplete(dur, len),
            i <= count,
            channel_wf(channel@, len, dur),
            forall|k: int| i <= k < count ==> #[trigger] channel@[k] == old(channel)@[k],
            config.prob_repeat == 0 ==> channel@ == old(channel)@,
            forall|k: int|
                0 <= k < count ==> old(channel)@.contains(#[trigger] channel@[k]),
            config.prob_repeat == PROB_ONE && config.max_repeat == 1 ==> {
                &&& (i >= count || i % 2 == 0 || (inc && i == count - 1))
                &&& forall|k: int|
                    0 <= k < i ==> #[trigger] channel@[k] == old(channel)@[repeat_source(
                        k,
                        count as int,
                        inc,
                    )]
            },
        decreases count - i,
    {
        if trial(config.prob_repeat) {
            let d = pick_distance(config.max_repeat);
            let upper = if inc && i != count - 1 {
                count - 2
            } else {
                count - 1
            };
            let end = if d > upper - i {
                upper
            } else {
                i + d
            };
            let tmp = channel[i];
            let ghost pre = channel@;
            let mut j = i;
            while j <= end
                invariant
                    i <= j <= end + 1,
                    i <= end < count,
                    count == channel@.len(),
                    tmp == pre[i as int],
                    pre.len() == count,
                    forall|k: int|
                        0 <= k < count && !(i <= k < j) ==> #[trigger] channel@[k] == pre[k],
                    forall|k: int| i <= k < j ==> #[trigger] channel@[k] == tmp,
                decreases end + 1 - j,
            {
                channel.set(j, tmp);
                j = j + 1;
            }
            proof {
                lemma_repeat_fill_keeps_channel_wf(
                    pre,
                    channel@,
                    len,
                    dur,
                    i as int,
                    end as int,
                    inc,
                );
                assert forall|k: int| 0 <= k < count implies old(channel)@.contains(
                    #[trigger] channel@[k],
                ) by {
                    if i <= k <= end {
                        assert(channel@[k] == pre[i as int]);
                        assert(old(channel)@.contains(pre[i as int]));
                    } else {
                        assert(channel@[k] == pre[k]);
                        assert(old(channel)@.contains(pre[k]));
                    }
                }
                if config.prob_repeat == PROB_ONE && config.max_repeat == 1 {
                    assert(d == 1);
                    assert forall|k: int| 0 <= k < end + 1 implies #[trigger] channel@[k] == old(
                        channel,
                    )@[repeat_source(k, count as int, inc)] by {
                        if k < i {
                            assert(channel@[k] == pre[k]);
                        } else {
                            assert(channel@[k] == pre[i as int]);
                            assert(pre[i as int] == old(channel)@[i as int]);
                            assert(repeat_source(k, count as int, inc) == i as int);
                        }
                    }
                }
            }
            i = end + 1;
        } else {
            i = i + 1;
        }
    }
}

/// Overwriting the clamped run `[i, end]` with the segment that sat at `i`
/// preserves channel well-formedness.
proof fn lemma_repeat_fill_keeps_channel_wf(
    pre: Seq<Segment>,
    post: Seq<Segment>,
    len: int,
    duration: int,
    i: int,
    end: int,
    inc: bool,
)
    requires
        len >= 1,
        duration >= 1,
        channel_wf(pre, len, duration),
        inc == is_incomplete(duration, len),
        0 <= i <= end < pre.len(),
        inc && i != pre.len() - 1 ==> end < pre.len() - 1,
        post.len() == pre.len(),
        forall|k: int| i <= k <= end ==> #[trigger] post[k] == pre[i],
        forall|k: int| 0 <= k < post.len() && !(i <= k <= end) ==> #[trigger] post[k] == pre[k],
    ensures
        channel_wf(post, len, duration),
{
    let c = pre.len() as int;
    assert forall|k: int| 0 <= k < c implies fits(#[trigger] post[k], len, duration) by {
        if i <= k <= end {
            assert(fits(pre[i], len, duration));
        }
    }
    if inc {
        if i == c - 1 {
            assert(end == c - 1);
            assert(post[c - 1] == pre[c - 1]);
        } else {
            assert(end < c - 1);
            assert(post[c - 1] == pre[c - 1]);
        }
        assert forall|k: int| 0 <= k < c - 1 implies (#[trigger] post[k]).offset + len
            <= duration by {
            if i <= k <= end {
                assert(i < c - 1);
                assert(pre[i].offset + len <= duration);
            }
        }
    } else {
        assert forall|k: int| 0 <= k < c - 1 implies (#[trigger] post[k]).offset + len
            <= duration by {
            lemma_fits_full(post[k], len, duration);
        }
    }
}

/// The outcomes of channel construction that are certain whatever the random
/// draws: identity offsets when swap and repeat are off, uniform flags at the
/// probability extremes, the pairwise collapse when every repeat trial fires
/// over distance one, and the forward bubble when every swap trial does.
pub open spec fn certain_outcomes(ch: Seq<Segment>, config: Config, duration: int) -> bool {
    let len = config.segment_len as int;
    let inc = is_incomplete(duration, len);
    &&& (config.prob_swap == 0 && config.prob_repeat == 0 ==> forall|k: int|
        0 <= k < ch.len() ==> (#[trigger] ch[k]).offset == k * len)
    &&& (config.prob_reverse == 0 ==> forall|k: int|
        0 <= k < ch.len() ==> !(#[trigger] ch[k]).reverse)
    &&& (config.prob_reverse == PROB_ONE ==> forall|k: int|
        0 <= k < ch.len() ==> (#[trigger] ch[k]).reverse)
    &&& (config.prob_silence == 0 ==> forall|k: int|
        0 <= k < ch.len() ==> !(#[trigger] ch[k]).silence)
    &&& (config.prob_silence == PROB_ONE ==> forall|k: int|
        0 <= k < ch.len() ==> (#[trigger] ch[k]).silence)
    &&& (config.prob_swap == 0 && config.prob_repeat == PROB_ONE && config.max_repeat == 1
        ==> forall|k: int|
        0 <= k < ch.len() ==> (#[trigger] ch[k]).offset == repeat_source(k, ch.len() as int, inc)
            * len && ch[k] == ch[repeat_source(k, ch.len() as int, inc)])
    &&& (config.prob_swap == PROB_ONE && config.max_swap == 1 && config.prob_repeat == 0
        ==> forall|k: int|
        0 <= k < ch.len() ==> (#[trigger] ch[k]).offset == swap_source(k, ch.len() as int, inc)
            * len)
    &&& (config.prob_swap == PROB_ONE && config.max_swap == 1 && config.prob_repeat == PROB_ONE
        && config.max_repeat == 1 ==> forall|k: int|
        0 <= k < ch.len() ==> (#[trigger] ch[k]).offset == swap_source(
            repeat_source(k, ch.len() as int, inc),
            ch.len() as int,
            inc,
        ) * len)
}

impl SegmentLayout {
    /// Build one channel layout: base assignment, then the swap pass, then
    /// the repeat pass, all over the same slot range.
    pub fn build_channel(config: &Config, duration: u32) -> (channel: Vec<Segment>)
        requires
            config.wf(),
            duration >= 1,
        ensures
            channel_wf(channel@, config.segment_len as int, duration as int),
            certain_outcomes(channel@, *config, duration as int),
    {
        let ghost len = config.segment_len as int;
        let ghost dur = duration as int;
        let ghost inc = is_incomplete(dur, len);
        let mut channel = base_pass(config, duration);
        let ghost base = channel@;
        swap_pass(config, duration, &mut channel);
        let ghost mid = channel@;
        repeat_pass(config, duration, &mut channel);
        proof {
            let c = channel@.len() as int;
            if config.prob_reverse == 0 {
                assert forall|k: int| 0 <= k < c implies !(#[trigger] channel@[k]).reverse by {
                    lemma_flag_transfer(base, mid, channel@, k);
                }
            }
            if config.prob_reverse == PROB_ONE {
                assert forall|k: int| 0 <= k < c implies (#[trigger] channel@[k]).reverse by {
                    lemma_flag_transfer(base, mid, channel@, k);
                }
            }
            if config.prob_silence == 0 {
                assert forall|k: int| 0 <= k < c implies !(#[trigger] channel@[k]).silence by {
                    lemma_flag_transfer(base, mid, channel@, k);
                }
            }
            if config.prob_silence == PROB_ONE {
                assert forall|k: int| 0 <= k < c implies (#[trigger] channel@[k]).silence by {
                    lemma_flag_transfer(base, mid, channel@, k);
                }
            }
            if config.prob_swap == 0 && config.prob_repeat == PROB_ONE && config.max_repeat
                == 1 {
                assert forall|k: int| 0 <= k < c implies (#[trigger] channel@[k]).offset
                    == repeat_source(k, c, inc) * len && channel@[k] == channel@[repeat_source(
                    k,
                    c,
                    inc,
                )] by {
                    let s = repeat_source(k, c, inc);
                    assert(channel@[k] == mid[s]);
                    assert(mid[s].offset == s * len);
                    assert(repeat_source(s, c, inc) == s);
                    assert(channel@[s] == mid[s]);
                }
            }
            if config.prob_swap == PROB_ONE && config.max_swap == 1 && config.prob_repeat
                == 0 {
                assert forall|k: int| 0 <= k < c implies (#[trigger] channel@[k]).offset
                    == swap_source(k, c, inc) * len by {
                    assert(channel@[k] == mid[k]);
                    assert(mid[k] == base[swap_source(k, c, inc)]);
                }
            }
            if config.prob_swap == PROB_ONE && config.max_swap == 1 && config.prob_repeat
                == PROB_ONE && config.max_repeat == 1 {
                assert forall|k: int| 0 <= k < c implies (#[trigger] channel@[k]).offset
                    == swap_source(repeat_source(k, c, inc), c, inc) * len by {
                    let s = repeat_source(k, c, inc);
                    assert(channel@[k] == mid[s]);
                    assert(mid[s] == base[swap_source(s, c, inc)]);
                }
            }
        }
        channel
    }
}

/// A flag shared by every segment of the base layout is shared by every
/// segment after the two mutation passes, since both passes only move and
/// copy whole segments.
proof fn lemma_flag_transfer(base: Seq<Segment>, mid: Seq<Segment>, post: Seq<Segment>, k: int)
    requires
        forall|t: int| 0 <= t < mid.len() ==> base.contains(#[trigger] mid[t]),
        forall|t: int| 0 <= t < post.len() ==> mid.contains(#[trigger] post[t]),
        0 <= k < post.len(),
    ensures
        exists|j: int| 0 <= j < base.len() && #[trigger] base[j] == post[k],
{
    let m = choose|t: int| 0 <= t < mid.len() && mid[t] == post[k];
    assert(base.contains(mid[m]));
    let b = choose|t: int| 0 <= t < base.len() && base[t] == mid[m];
    assert(base[b] == post[k]);
}

/// The input stream facts the layout engine needs: per-channel duration in
/// samples, the sample rate, and the channel count.
#[derive(Clone, Copy, Debug)]
pub struct WavConfig {
    pub duration: u32,
    pub sample_rate: u32,
    pub channels: u16,
}

/// An element-for-element copy of a channel layout.
fn copy_channel(ch: &Vec<Segment>) -> (r: Vec<Segment>)
    ensures
        r@ == ch@,
{
    let mut r: Vec<Segment> = Vec::new();
    let mut i: usize = 0;
    while i < ch.len()
        invariant
            i <= ch@.len(),
            r@.len() == i,
            forall|k: int| 0 <= k < i ==> #[trigger] r@[k] == ch@[k],
        decreases ch@.len() - i,
    {
        r.push(ch[i]);
        i = i + 1;
    }
    proof {
        assert(r@ =~= ch@);
    }
    r
}

/// The completion percentage after `done` of `total` slices, in hundredths
/// of a percent, truncated.
pub open spec fn progress_hundredths(done: int, total: int) -> int
    recommends
        total >= 1,
{
    10000 * done / total
}

impl SegmentLayout {
    /// Iteration well-formedness: at least one channel, and every channel
    /// layout of the same length.
    pub open spec fn wf(self) -> bool {
        &&& self.segments@.len() >= 1
        &&& self.segments@[0]@.len() <= u32::MAX
        &&& forall|c: int|
            0 <= c < self.segments@.len() ==> (#[trigger] self.segments@[c])@.len()
                == self.segments@[0]@.len()
    }

    /// The shared segment count of the channel layouts.
    pub open spec fn seg_total(self) -> int {
        self.segments@[0]@.len() as int
    }

    /// Build the whole layout: one channel layout per output channel — a
    /// single randomized layout copied to every channel, or one independent
    /// random draw per channel when the caller asked for that.
    pub fn build(config: Config, wav_config: WavConfig) -> (layout: SegmentLayout)
        requires
            config.wf(),
            wav_config.duration >= 1,
            wav_config.channels >= 1,
        ensures
            layout.wf(),
            layout.index == 0,
            layout.segment_len == config.segment_len,
            layout.segments@.len() == wav_config.channels,
            forall|c: int|
                0 <= c < layout.segments@.len() ==> channel_wf(
                    (#[trigger] layout.segments@[c])@,
                    config.segment_len as int,
                    wav_config.duration as int,
                ) && certain_outcomes(
                    layout.segments@[c]@,
                    config,
                    wav_config.duration as int,
                ),
            !config.each_channel_separately ==> forall|a: int, b: int|
                0 <= a < layout.segments@.len() && 0 <= b < layout.segments@.len()
                    ==> (#[trigger] layout.segments@[a])@ == (#[trigger] layout.segments@[b])@,
    {
        let ghost len = config.segment_len as int;
        let ghost dur = wav_config.duration as int;
        let n = wav_config.channels as usize;
        let mut segments: Vec<Vec<Segment>> = Vec::new();
        if config.each_channel_separately {
            let mut c: usize = 0;
            while c < n
                invariant
                    config.wf(),
                    wav_config.duration >= 1,
                    len == config.segment_len as int,
                    dur == wav_config.duration as int,
                    c <= n,
                    segments@.len() == c,
                    forall|a: int|
                        0 <= a < c ==> channel_wf((#[trigger] segments@[a])@, len, dur)
                            && certain_outcomes(segments@[a]@, config, dur),
                decreases n - c,
            {
                let ch = SegmentLayout::build_channel(&config, wav_config.duration);
                segments.push(ch);
                c = c + 1;
            }
        } else {
            let ch = SegmentLayout::build_channel(&config, wav_config.duration);
            let mut c: usize = 0;
            while c < n
                invariant
                    config.wf(),
                    wav_config.duration >= 1,
                    len == config.segment_len as int,
                    dur == wav_config.duration as int,
                    c <= n,
                    segments@.len() == c,
                    channel_wf(ch@, len, dur),
                    certain_outcomes(ch@, config, dur),
                    forall|a: int| 0 <= a < c ==> (#[trigger] segments@[a])@ == ch@,
                decreases n - c,
            {
                let copy = copy_channel(&ch);
                segments.push(copy);
                c = c + 1;
            }
        }
        proof {
            lemma_seg_count_bounds(dur, len);
        }
        SegmentLayout { segments, index: 0, segment_len: config.segment_len as usize }
    }

    /// The next slice, advancing the cursor; `None` once — and forever
    /// after — the cursor has passed the shared segment count.
    pub fn next(&mut self) -> (r: Option<SegmentSlice>)
        requires
            old(self).wf(),
        ensures
            final(self).segments == old(self).segments,
            final(self).segment_len == old(self).segment_len,
            final(self).wf(),
            old(self).index >= old(self).seg_total() ==> r is None && final(self).index == old(
                self,
            ).index,
            old(self).index < old(self).seg_total() ==> ({
                &&& final(self).index == old(self).index + 1
                &&& r matches Some(slice)
                &&& slice.segments@.len() == old(self).segments@.len()
                &&& forall|c: int|
                    0 <= c < slice.segments@.len() ==> #[trigger] slice.segments@[c] == old(
                        self,
                    ).segments@[c]@[old(self).index as int]
                &&& slice.index == 0
                &&& slice.segment_len == old(self).segment_len
                &&& slice.percentage == progress_hundredths(
                    old(self).index + 1,
                    old(self).seg_total(),
                )
            }),
    {
        let total = self.segments[0].len();
        if self.index >= total {
            return None;
        }
        let mut vec: Vec<Segment> = Vec::new();
        let mut c: usize = 0;
        let channel_count = self.segments.len();
        while c < channel_count
            invariant
                self == old(self),
                old(self).wf(),
                self.index < total,
                total <= u32::MAX,
                total == self.seg_total(),
                channel_count == self.segments@.len(),
                c <= channel_count,
                vec@.len() == c,
                forall|a: int|
                    0 <= a < c ==> #[trigger] vec@[a] == self.segments@[a]@[self.index as int],
            decreases channel_count - c,
        {
            let seg = self.segments[c][self.index];
            vec.push(seg);
            c = c + 1;
        }
        self.index = self.index + 1;
        proof {
            lemma_progress_bounded(self.index as int, total as int);
        }
        let pct = ((10000u64 * self.index as u64) / total as u64) as u32;
        Some(SegmentSlice::new(vec, self.segment_len, pct))
    }
}

/// The truncated percentage never exceeds one hundred percent.
proof fn lemma_progress_bounded(done: int, total: int)
    requires
        1 <= done <= total,
    ensures
        0 <= progress_hundredths(done, total) <= 10000,
{
    lemma_div_pos_is_pos(10000 * done, total);
    lemma_mul_inequality(done, total, 10000);
    assert(done * 10000 == 10000 * done) by (nonlinear_arith);
    assert(total * 10000 == 10000 * total) by (nonlinear_arith);
    lemma_div_is_ordered(10000 * done, 10000 * total, total);
    lemma_div_multiples_vanish(10000, total);
}

/// One segment index's bundle: the segment at that index from every channel
/// in channel order, the shared nominal segment length, and the completion
/// percentage in hundredths of a percent.
#[derive(Debug)]
pub struct SegmentSlice {
    pub segments: Vec<Segment>,
    pub index: usize,
    pub segment_len: usize,
    pub percentage: u32,
}

impl SegmentSlice {
    pub fn new(segments: Vec<Segment>, segment_len: usize, percentage: u32) -> (s: SegmentSlice)
        ensures
            s.segments == segments,
            s.index == 0,
            s.segment_len == segment_len,
            s.percentage == percentage,
    {
        SegmentSlice { segments, index: 0, segment_len, percentage }
    }

    pub fn segment_len(&self) -> (r: usize)
        ensures
            r == self.segment_len,
    {
        self.segment_len
    }

    pub fn percentage(&self) -> (r: u32)
        ensures
            r == self.percentage,
    {
        self.percentage
    }

    /// The next per-channel segment, in channel order; the slice is a
    /// one-shot sequence and stays exhausted after the last channel.
    pub fn next(&mut self) -> (r: Option<Segment>)
        requires
            old(self).index < usize::MAX,
        ensures
            final(self).segments == old(self).segments,
            final(self).segment_len == old(self).segment_len,
            final(self).percentage == old(self).percentage,
            final(self).index == old(self).index + 1,
            old(self).index < old(self).segments@.len() ==> r == Some(
                old(self).segments@[old(self).index as int],
            ),
            old(self).index >= old(self).segments@.len() ==> r is None,
    {
        let r = if self.index < self.segments.len() {
            Some(self.segments[self.index])
        } else {
            None
        };
        self.index = self.index + 1;
        r
    }
}

} // verus!
