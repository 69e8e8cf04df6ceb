//! Turning layout slices into interleaved output samples.
//!
//! For each channel's segment the materialized run is: zeros when the segment
//! is silenced (truncated at the end of the stream), the raw read in reverse
//! order when the segment is reversed, and the raw read itself otherwise.
//! The per-channel runs are then interleaved sample by sample in channel
//! order.  Reading the raw runs from the stream is the caller's business;
//! everything from raw samples to output run is computed — and verified —
//! here, including the channel extraction that undoes the interleaving of the
//! input stream.
use crate::segment_layout::Segment;
use vstd::arithmetic::div_mod::{
    lemma_fundamental_div_mod, lemma_fundamental_div_mod_converse, lemma_mod_bound,
};
use vstd::arithmetic::mul::lemma_mul_nonnegative;
use vstd::prelude::*;

verus! {

/// How many samples a segment starting at `offset` really holds: the nominal
/// length, shortened at the end of the stream.
pub open spec fn run_len(duration: int, offset: int, segment_len: int) -> int
    recommends
        0 <= offset <= duration,
{
    if duration - offset < segment_len {
        duration - offset
    } else {
        segment_len
    }
}

/// A run of `n` zero-valued samples.
pub open spec fn zero_run(n: int) -> Seq<i32>
    recommends
        n >= 0,
{
    Seq::new(n as nat, |k: int| 0i32)
}

/// The run a silenced segment materializes to: zeros, with the final
/// segment's run correctly truncated to the remaining duration.
pub fn silence_run(duration: u32, offset: u32, segment_len: usize) -> (r: Vec<i32>)
    requires
        offset <= duration,
    ensures
        r@ == zero_run(run_len(duration as int, offset as int, segment_len as int)),
        r@.len() == run_len(duration as int, offset as int, segment_len as int),
{
    let remaining = (duration - offset) as usize;
    let n = if remaining < segment_len {
        remaining
    } else {
        segment_len
    };
    let mut r: Vec<i32> = Vec::new();
    let mut i: usize = 0;
    while i < n
        invariant
            i <= n,
            r@.len() == i,
            forall|k: int| 0 <= k < i ==> r@[k] == 0i32,
        decreases n - i,
    {
        r.push(0);
        i = i + 1;
    }
    proof {
        assert(r@ =~= zero_run(n as int));
    }
    r
}

/// An element-for-element copy of a sample run.
fn copy_samples(v: &Vec<i32>) -> (r: Vec<i32>)
    ensures
        r@ == v@,
{
    let mut r: Vec<i32> = Vec::new();
    let mut i: usize = 0;
    while i < v.len()
        invariant
            i <= v@.len(),
            r@.len() == i,
            forall|k: int| 0 <= k < i ==> #[trigger] r@[k] == v@[k],
        decreases v@.len() - i,
    {
        r.push(v[i]);
        i = i + 1;
    }
    proof {
        assert(r@ =~= v@);
    }
    r
}

/// The same sample run in reverse order.
fn reversed(v: &Vec<i32>) -> (r: Vec<i32>)
    ensures
        r@ == v@.reverse(),
{
    let n = v.len();
    let mut r: Vec<i32> = Vec::new();
    let mut i: usize = 0;
    while i < n
        invariant
            n == v@.len(),
            i <= n,
            r@.len() == i,
            forall|k: int| 0 <= k < i ==> #[trigger] r@[k] == v@[n - 1 - k],
        decreases n - i,
    {
        r.push(v[n - 1 - i]);
        i = i + 1;
    }
    proof {
        assert(r@ =~= v@.reverse());
    }
    r
}

/// How many samples of an interleaved block of `n` samples belong to the
/// channel at `idx` out of `cc` channels.
pub open spec fn channel_sample_count(n: int, cc: int, idx: int) -> int
    recommends
        cc >= 1,
        0 <= idx < cc,
        n >= 0,
{
    if idx >= n {
        0int
    } else {
        (n - idx - 1) / cc + 1
    }
}

/// The samples of one channel of an interleaved block: every `cc`-th sample
/// starting at `idx`.
pub open spec fn extracted(s: Seq<i32>, cc: int, idx: int) -> Seq<i32>
    recommends
        cc >= 1,
        0 <= idx < cc,
{
    Seq::new(
        channel_sample_count(s.len() as int, cc, idx) as nat,
        |m: int| s[m * cc + idx],
    )
}

/// Pull one channel's samples out of an interleaved block.
pub fn extract_channel(samples: &Vec<i32>, channel_count: usize, channel_idx: usize) -> (r: Vec<
    i32,
>)
    requires
        channel_count >= 1,
        channel_idx < channel_count,
        samples@.len() + channel_count <= usize::MAX,
    ensures
        r@ == extracted(samples@, channel_count as int, channel_idx as int),
{
    let ghost cc = channel_count as int;
    let ghost idx = channel_idx as int;
    let n = samples.len();
    let mut r: Vec<i32> = Vec::new();
    let mut j = channel_idx;
    proof {
        assert(0 * cc == 0) by (nonlinear_arith);
    }
    while j < n
        invariant
            cc == channel_count as int,
            idx == channel_idx as int,
            1 <= cc,
            0 <= idx < cc,
            n == samples@.len(),
            n + channel_count <= usize::MAX,
            j == idx + r@.len() * cc,
            r@.len() == 0 || idx + (r@.len() - 1) * cc < n,
            forall|m: int| 0 <= m < r@.len() ==> #[trigger] r@[m] == samples@[m * cc + idx],
        decreases n + channel_count - j,
    {
        r.push(samples[j]);
        proof {
            let m = r@.len() as int;
            assert((m - 1) * cc + idx == j) by (nonlinear_arith)
                requires
                    j == idx + (m - 1) * cc,
            ;
            assert(idx + m * cc == idx + (m - 1) * cc + cc) by (nonlinear_arith);
        }
        j = j + channel_count;
    }
    proof {
        let m = r@.len() as int;
        if idx >= n {
            assert(m == 0) by {
                if m > 0 {
                    lemma_mul_nonnegative(m - 1, cc);
                }
            }
        } else {
            assert(m >= 1) by {
                if m == 0 {
                    assert(j == idx);
                }
            }
            let rem = (n - idx - 1) - (m - 1) * cc;
            assert(0 <= rem < cc) by (nonlinear_arith)
                requires
                    rem == (n - idx - 1) - (m - 1) * cc,
                    idx + (m - 1) * cc < n,
                    idx + m * cc >= n,
                    cc >= 1,
            ;
            lemma_fundamental_div_mod_converse(n - idx - 1, cc, m - 1, rem);
            assert(m == channel_sample_count(n as int, cc, idx));
        }
        assert(r@ =~= extracted(samples@, cc, idx));
    }
    r
}

/// The per-channel runs of equal length merged sample by sample in channel
/// order: output sample `j` is sample `j / cc` of channel `j % cc`.
pub open spec fn interleaved(chs: Seq<Seq<i32>>) -> Seq<i32>
    recommends
        chs.len() >= 1,
{
    Seq::new(
        (chs.len() * chs[0].len()) as nat,
        |j: int| chs[j % (chs.len() as int)][j / (chs.len() as int)],
    )
}

/// The views of a vector of runs.
pub open spec fn views_of(channels: Seq<Vec<i32>>) -> Seq<Seq<i32>> {
    channels.map_values(|v: Vec<i32>| v@)
}

/// Merge per-channel runs of equal length into one interleaved run.
pub fn interleave(channels: &Vec<Vec<i32>>) -> (r: Vec<i32>)
    requires
        channels@.len() >= 1,
        forall|k: int|
            0 <= k < channels@.len() ==> (#[trigger] channels@[k])@.len()
                == channels@[0]@.len(),
        channels@.len() * channels@[0]@.len() <= usize::MAX,
    ensures
        r@ == interleaved(views_of(channels@)),
        r@.len() == channels@.len() * channels@[0]@.len(),
        forall|j: int|
            0 <= j < r@.len() ==> #[trigger] r@[j] == channels@[j % (channels@.len() as int)]@[j
                / (channels@.len() as int)],
{
    let cc = channels.len();
    let n = channels[0].len();
    let ghost ccs = cc as int;
    let mut r: Vec<i32> = Vec::new();
    let mut i: usize = 0;
    while i < n
        invariant
            ccs == channels@.len() as int,
            cc == channels@.len(),
            cc >= 1,
            n == channels@[0]@.len(),
            forall|k: int|
                0 <= k < channels@.len() ==> (#[trigger] channels@[k])@.len() == n,
            cc * n <= usize::MAX,
            i <= n,
            r@.len() == i * cc,
            forall|j: int|
                0 <= j < r@.len() ==> #[trigger] r@[j] == channels@[j % ccs]@[j / ccs],
        decreases n - i,
    {
        let mut k: usize = 0;
        proof {
            assert(i * cc + cc <= n * cc) by (nonlinear_arith)
                requires
                    i < n,
                    cc >= 1,
            ;
            assert(n * cc == cc * n) by (nonlinear_arith);
        }
        while k < cc
            invariant
                ccs == channels@.len() as int,
                cc == channels@.len(),
                cc >= 1,
                n == channels@[0]@.len(),
                forall|t: int|
                    0 <= t < channels@.len() ==> (#[trigger] channels@[t])@.len() == n,
                i < n,
                k <= cc,
                i * cc + cc <= cc * n <= usize::MAX,
                r@.len() == i * cc + k,
                forall|j: int|
                    0 <= j < r@.len() ==> #[trigger] r@[j] == channels@[j % ccs]@[j / ccs],
            decreases cc - k,
        {
            let x = channels[k][i];
            r.push(x);
            proof {
                let j0 = i * cc + k;
                lemma_fundamental_div_mod_converse(j0 as int, ccs, i as int, k as int);
                assert(r@[j0 as int] == channels@[(j0 as int) % ccs]@[(j0 as int) / ccs]);
            }
            k = k + 1;
        }
        proof {
            assert((i + 1) * cc == i * cc + cc) by (nonlinear_arith);
        }
        i = i + 1;
    }
    proof {
        let chs = views_of(channels@);
        assert(r@.len() == n * cc);
        assert(n * cc == cc * n) by (nonlinear_arith);
        assert(r@ =~= interleaved(chs));
    }
    r
}

/// The run one segment materializes to, given its raw read.
pub open spec fn processed_run(
    seg: Segment,
    raw: Seq<i32>,
    duration: int,
    segment_len: int,
) -> Seq<i32> {
    if seg.silence {
        zero_run(run_len(duration, seg.offset as int, segment_len))
    } else if seg.reverse {
        raw.reverse()
    } else {
        raw
    }
}

/// The per-channel materialized runs of one slice.
pub open spec fn processed_runs(
    segments: Seq<Segment>,
    raws: Seq<Seq<i32>>,
    duration: int,
    segment_len: int,
) -> Seq<Seq<i32>> {
    Seq::new(segments.len(), |k: int| processed_run(segments[k], raws[k], duration, segment_len))
}

/// Materialize one slice: apply silence and reversal per channel, then
/// interleave the runs in channel order.  `raws[k]` is the raw read for
/// channel `k`'s segment; it is ignored for a silenced channel.
pub fn materialize_slice(
    segments: &Vec<Segment>,
    segment_len: usize,
    duration: u32,
    raws: &Vec<Vec<i32>>,
) -> (r: Vec<i32>)
    requires
        segments@.len() >= 1,
        raws@.len() == segments@.len(),
        forall|k: int| 0 <= k < segments@.len() ==> (#[trigger] segments@[k]).offset < duration,
        forall|k: int|
            0 <= k < segments@.len() && !(#[trigger] segments@[k]).silence ==> raws@[k]@.len()
                == run_len(duration as int, segments@[k].offset as int, segment_len as int),
        forall|k: int|
            0 <= k < segments@.len() ==> run_len(
                duration as int,
                (#[trigger] segments@[k]).offset as int,
                segment_len as int,
            ) == run_len(duration as int, segments@[0].offset as int, segment_len as int),
        segments@.len() * run_len(
            duration as int,
            segments@[0].offset as int,
            segment_len as int,
        ) <= usize::MAX,
    ensures
        r@ == interleaved(
            processed_runs(segments@, views_of(raws@), duration as int, segment_len as int),
        ),
{
    let ghost dur = duration as int;
    let ghost len = segment_len as int;
    let ghost run0 = run_len(dur, segments@[0].offset as int, len);
    let mut channels: Vec<Vec<i32>> = Vec::new();
    let mut k: usize = 0;
    while k < segments.len()
        invariant
            dur == duration as int,
            len == segment_len as int,
            segments@.len() >= 1,
            raws@.len() == segments@.len(),
            forall|t: int|
                0 <= t < segments@.len() ==> (#[trigger] segments@[t]).offset < duration,
            forall|t: int|
                0 <= t < segments@.len() && !(#[trigger] segments@[t]).silence ==> raws@[t]@.len()
                    == run_len(dur, segments@[t].offset as int, len),
            forall|t: int|
                0 <= t < segments@.len() ==> run_len(
                    dur,
                    (#[trigger] segments@[t]).offset as int,
                    len,
                ) == run0,
            run0 == run_len(dur, segments@[0].offset as int, len),
            k <= segments@.len(),
            channels@.len() == k,
            forall|a: int|
                0 <= a < k ==> (#[trigger] channels@[a])@ == processed_run(
                    segments@[a],
                    raws@[a]@,
                    dur,
                    len,
                ),
            forall|a: int| 0 <= a < k ==> (#[trigger] channels@[a])@.len() == run0,
        decreases segments@.len() - k,
    {
        let seg = segments[k];
        let run = if seg.silence() {
            silence_run(duration, seg.offset(), segment_len)
        } else if seg.reverse() {
            reversed(&raws[k])
        } else {
            copy_samples(&raws[k])
        };
        channels.push(run);
        k = k + 1;
    }
    let out = interleave(&channels);
    proof {
        assert(views_of(channels@) =~= processed_runs(
            segments@,
            views_of(raws@),
            dur,
            len,
        ));
    }
    out
}

/// With silencing certain on every channel, the materialized slice is all
/// zeros, and its length is the channel count times the (possibly truncated)
/// run length.
pub proof fn lemma_silent_slice_is_zero(
    segments: Seq<Segment>,
    raws: Seq<Seq<i32>>,
    duration: int,
    segment_len: int,
)
    requires
        segments.len() >= 1,
        segment_len >= 0,
        forall|k: int|
            0 <= k < segments.len() ==> (#[trigger] segments[k]).silence && segments[k].offset
                <= duration,
        forall|k: int|
            0 <= k < segments.len() ==> run_len(
                duration,
                (#[trigger] segments[k]).offset as int,
                segment_len,
            ) == run_len(duration, segments[0].offset as int, segment_len),
    ensures
        ({
            let out = interleaved(processed_runs(segments, raws, duration, segment_len));
            &&& out.len() == segments.len() * run_len(
                duration,
                segments[0].offset as int,
                segment_len,
            )
            &&& forall|j: int| 0 <= j < out.len() ==> out[j] == 0i32
        }),
{
    let cc = segments.len() as int;
    let chs = processed_runs(segments, raws, duration, segment_len);
    let r0 = run_len(duration, segments[0].offset as int, segment_len);
    let out = interleaved(chs);
    assert forall|k: int| 0 <= k < cc implies (#[trigger] chs[k]).len() == r0 by {
        assert(chs[k] == zero_run(run_len(duration, segments[k].offset as int, segment_len)));
    }
    assert(out.len() == cc * r0);
    assert forall|j: int| 0 <= j < out.len() implies out[j] == 0i32 by {
        let k = j % cc;
        let m = j / cc;
        lemma_mod_bound(j, cc);
        lemma_fundamental_div_mod(j, cc);
        assert(0 <= m < r0) by (nonlinear_arith)
            requires
                j == cc * m + k,
                0 <= k < cc,
                0 <= j,
                j < cc * r0,
        ;
        assert(out[j] == chs[k][m]);
        assert(chs[k][m] == zero_run(r0)[m]);
    }
}

/// With reversal certain and silencing off, each channel's materialized run
/// is the reverse of its raw read.
pub proof fn lemma_reversed_slice(
    segments: Seq<Segment>,
    raws: Seq<Seq<i32>>,
    duration: int,
    segment_len: int,
)
    requires
        raws.len() == segments.len(),
        forall|k: int|
            0 <= k < segments.len() ==> (#[trigger] segments[k]).reverse && !segments[k].silence,
    ensures
        processed_runs(segments, raws, duration, segment_len) == Seq::new(
            segments.len(),
            |k: int| raws[k].reverse(),
        ),
{
    assert(processed_runs(segments, raws, duration, segment_len) =~= Seq::new(
        segments.len(),
        |k: int| raws[k].reverse(),
    ));
}

/// Interleaving the per-channel extractions of a block reproduces the block:
/// `extracted` undoes `interleaved` channel by channel.
pub proof fn lemma_extract_interleave_identity(block: Seq<i32>, cc: int)
    requires
        cc >= 1,
        block.len() as int % cc == 0,
    ensures
        interleaved(Seq::new(cc as nat, |k: int| extracted(block, cc, k))) == block,
{
    let chs = Seq::new(cc as nat, |k: int| extracted(block, cc, k));
    let n = block.len() as int;
    let per = n / cc;
    lemma_fundamental_div_mod(n, cc);
    assert(n == cc * per);
    assert forall|k: int| 0 <= k < cc implies (#[trigger] chs[k]).len() == per by {
        if n == 0 {
            assert(per == 0);
        } else {
            assert(k < n) by (nonlinear_arith)
                requires
                    n == cc * per,
                    n >= 1,
                    0 <= k < cc,
            ;
            let rem = (n - k - 1) - (per - 1) * cc;
            assert(0 <= rem < cc) by (nonlinear_arith)
                requires
                    rem == (n - k - 1) - (per - 1) * cc,
                    n == cc * per,
                    0 <= k < cc,
                    n >= 1,
            ;
            lemma_fundamental_div_mod_converse(n - k - 1, cc, per - 1, rem);
            assert(channel_sample_count(n, cc, k) == per);
        }
    }
    assert(interleaved(chs).len() == cc * chs[0].len());
    assert(chs[0].len() == per);
    assert forall|j: int| 0 <= j < n implies interleaved(chs)[j] == block[j] by {
        let k = j % cc;
        let m = j / cc;
        lemma_fundamental_div_mod(j, cc);
        lemma_mod_bound(j, cc);
        assert(j == cc * m + k);
        assert(0 <= m < per) by (nonlinear_arith)
            requires
                j == cc * m + k,
                0 <= k < cc,
                0 <= j < n,
                n == cc * per,
        ;
        assert(interleaved(chs)[j] == chs[k][m]);
        assert(chs[k][m] == extracted(block, cc, k)[m]);
        assert(0 <= m < channel_sample_count(n, cc, k));
        assert(extracted(block, cc, k)[m] == block[m * cc + k]);
        assert(m * cc + k == j) by (nonlinear_arith)
            requires
                j == cc * m + k,
        ;
    }
    assert(interleaved(chs) =~= block);
}

/// Round trip: a slice whose segments carry no effect, materialized from the
/// per-channel extractions of an interleaved block, reproduces the block.
pub proof fn lemma_identity_round_trip(
    segments: Seq<Segment>,
    block: Seq<i32>,
    duration: int,
    segment_len: int,
)
    requires
        segments.len() >= 1,
        block.len() as int % (segments.len() as int) == 0,
        forall|k: int|
            0 <= k < segments.len() ==> !(#[trigger] segments[k]).silence && !segments[k].reverse,
    ensures
        interleaved(
            processed_runs(
                segments,
                Seq::new(segments.len(), |k: int| extracted(block, segments.len() as int, k)),
                duration,
                segment_len,
            ),
        ) == block,
{
    let cc = segments.len() as int;
    let raws = Seq::new(segments.len(), |k: int| extracted(block, cc, k));
    assert(processed_runs(segments, raws, duration, segment_len) =~= Seq::new(
        cc as nat,
        |k: int| extracted(block, cc, k),
    ));
    lemma_extract_interleave_identity(block, cc);
}

} // verus!
