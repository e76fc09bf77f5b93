use vstd::prelude::*;
use itertools::Itertools;

verus! {

/// Items cut into consecutive runs of `size`; the last run is shorter when
/// the items run out.
pub open spec fn chunked<T>(s: Seq<T>, size: nat) -> Seq<Seq<T>>
    recommends
        size > 0,
{
    Seq::new(
        ((s.len() + size - 1) / size as int) as nat,
        |i: int|
            s.subrange(
                i * size,
                if i * size + size <= s.len() {
                    i * size + size
                } else {
                    s.len() as int
                },
            ),
    )
}

/// The whole frames of an interleaved sample stream with `channels` samples
/// per frame; samples of a trailing incomplete frame are left out.
pub open spec fn whole_frames<T>(s: Seq<T>, channels: nat) -> Seq<Seq<T>>
    recommends
        channels > 0,
{
    Seq::new(
        s.len() / channels,
        |i: int| s.subrange(i * channels, i * channels + channels),
    )
}

/// Number of target-rate frames that cover `n` frames at the source rate:
/// `n * target_rate / source_rate`, rounded to the nearest integer.
pub open spec fn target_len(n: nat, source_rate: nat, target_rate: nat) -> nat
    recommends
        source_rate > 0,
{
    ((2 * n * target_rate + source_rate) / (2 * source_rate)) as nat
}

/// Whole part of the source position of target frame `i`.
pub open spec fn source_index(i: nat, source_rate: nat, target_rate: nat) -> nat {
    (i * source_rate / target_rate) as nat
}

/// Fractional part of the source position of target frame `i`, in units of
/// `1 / target_rate`.
pub open spec fn source_fraction(i: nat, source_rate: nat, target_rate: nat) -> nat {
    (i * source_rate % target_rate) as nat
}

/// What target frame `i` holds, given a source table, its rates, the channel
/// count, the silent sample and the blend that interpolates two samples.
///
/// Between two source frames each channel is `blend(a, b, num, den)`, the point
/// `num / den` of the way from `a` to `b` (over the channels that both frames
/// have). On a source frame exactly, or on the last one, the frame is copied.
/// Past the end the frame is silent.
pub open spec fn resampled_frame<T, F: Fn(T, T, u32, u32) -> T>(
    source: Seq<Seq<T>>,
    i: nat,
    source_rate: u32,
    target_rate: u32,
    channels: nat,
    equilibrium: T,
    blend: F,
    out: Seq<T>,
) -> bool {
    let k = source_index(i, source_rate as nat, target_rate as nat);
    let num = source_fraction(i, source_rate as nat, target_rate as nat);
    if num != 0 && k + 1 < source.len() {
        let a = source[k as int];
        let b = source[k + 1 as int];
        &&& out.len() == if a.len() <= b.len() {
            a.len()
        } else {
            b.len()
        }
        &&& forall|c: int|
            0 <= c < out.len() ==> call_ensures(
                blend,
                (a[c], b[c], num as u32, target_rate),
                #[trigger] out[c],
            )
    } else if k < source.len() {
        out == source[k as int]
    } else {
        out == Seq::new(channels, |c: int| equilibrium)
    }
}

/// Relies on `Itertools::chunks`: runs of `size` consecutive items in order,
/// the last one shorter when the items run out; it panics on a size of zero.
#[verifier::external_body]
fn chunk_items<T>(items: Vec<T>, size: usize) -> (r: Vec<Vec<T>>)
    requires
        size > 0,
    ensures
        r@.map_values(|v: Vec<T>| v@) == chunked(items@, size as nat),
{
    items.into_iter().chunks(size).into_iter().map(|c| c.collect()).collect()
}

/// Groups an interleaved sample stream into frames of `channels` samples.
pub fn frames_of<T>(samples: Vec<T>, channels: usize) -> (r: Vec<Vec<T>>)
    requires
        channels > 0,
    ensures
        r@.map_values(|v: Vec<T>| v@) == whole_frames(samples@, channels as nat),
{
    let ghost s = samples@;
    let samples_len = samples.len();
    let mut runs = chunk_items(samples, channels);
    let ghost all = runs@;
    assert(runs@.map_values(|v: Vec<T>| v@) == chunked(s, channels as nat));
    let whole: usize = samples_len / channels;
    proof {
        lemma_whole_runs(s.len() as int, channels as int);
        assert(all.len() == all.map_values(|v: Vec<T>| v@).len());
        assert(all.len() == chunked(s, channels as nat).len());
    }
    if runs.len() > whole {
        runs.pop();
    }
    assert(runs.len() == whole);
    assert(whole == s.len() as int / channels as int);
    proof {
        assert(runs@.map_values(|v: Vec<T>| v@) =~= whole_frames(s, channels as nat)) by {
            assert forall|i: int| 0 <= i < runs.len() implies #[trigger] runs@[i]@ == whole_frames(
                s,
                channels as nat,
            )[i] by {
                assert(0 <= i < s.len() as int / channels as int);
                assert(runs@[i] == all[i]);
                assert(all.map_values(|v: Vec<T>| v@)[i] == chunked(s, channels as nat)[i]);
                lemma_run_fits(i, s.len() as int, channels as int);
            }
        }
    }
    runs
}

/// View of a frame table as sequences.
pub open spec fn table_view<T>(t: Seq<Vec<T>>) -> Seq<Seq<T>> {
    t.map_values(|v: Vec<T>| v@)
}

fn copy_frame<T: Copy>(f: &Vec<T>) -> (r: Vec<T>)
    ensures
        r@ == f@,
{
    let mut r: Vec<T> = Vec::new();
    let mut c: usize = 0;
    while c < f.len()
        invariant
            c <= f.len(),
            r@ == f@.subrange(0, c as int),
        decreases f.len() - c,
    {
        r.push(f[c]);
        c += 1;
    }
    assert(r@ =~= f@);
    r
}

fn silent_frame<T: Copy>(channels: usize, equilibrium: T) -> (r: Vec<T>)
    ensures
        r@ == Seq::new(channels as nat, |c: int| equilibrium),
{
    let mut r: Vec<T> = Vec::new();
    let mut c: usize = 0;
    while c < channels
        invariant
            c <= channels,
            r@ == Seq::new(c as nat, |i: int| equilibrium),
        decreases channels - c,
    {
        r.push(equilibrium);
        c += 1;
        assert(r@ =~= Seq::new(c as nat, |i: int| equilibrium));
    }
    r
}

/// Target frame `pos` of the table `samples` converted from `sample_rate` to
/// `target_sample_rate` (see `resampled_frame`).
pub fn get_sample<T: Copy, F: Fn(T, T, u32, u32) -> T>(
    samples: &Vec<Vec<T>>,
    pos: usize,
    sample_rate: u32,
    target_sample_rate: u32,
    channels: usize,
    equilibrium: T,
    blend: &F,
) -> (r: Vec<T>)
    requires
        target_sample_rate > 0,
        forall|a: T, b: T, num: u32, den: u32| blend.requires((a, b, num, den)),
    ensures
        resampled_frame(
            table_view(samples@),
            pos as nat,
            sample_rate,
            target_sample_rate,
            channels as nat,
            equilibrium,
            *blend,
            r@,
        ),
{
    let ghost src = table_view(samples@);
    assert(pos as u128 * sample_rate as u128 <= 0xffff_ffff_ffff_ffff * 0xffff_ffffu128) by (nonlinear_arith)
        requires
            pos <= 0xffff_ffff_ffff_ffffu128,
            sample_rate <= 0xffff_ffffu128,
    ;
    let p: u128 = pos as u128 * sample_rate as u128;
    let k: u128 = p / target_sample_rate as u128;
    let num: u32 = (p % target_sample_rate as u128) as u32;
    if num != 0 && k + 1 < samples.len() as u128 {
        let k = k as usize;
        let a = &samples[k];
        let b = &samples[k + 1];
        let m = if a.len() <= b.len() {
            a.len()
        } else {
            b.len()
        };
        let mut out: Vec<T> = Vec::new();
        let mut c: usize = 0;
        while c < m
            invariant
                c <= m,
                m <= a.len(),
                m <= b.len(),
                out.len() == c,
                forall|j: int|
                    0 <= j < c ==> call_ensures(
                        *blend,
                        (a[j], b[j], num, target_sample_rate),
                        #[trigger] out@[j],
                    ),
                forall|x: T, y: T, n: u32, d: u32| blend.requires((x, y, n, d)),
            decreases m - c,
        {
            let v = blend(a[c], b[c], num, target_sample_rate);
            out.push(v);
            c += 1;
        }
        assert(src[k as int] == a@);
        assert(src[k + 1] == b@);
        out
    } else if k < samples.len() as u128 {
        let f = copy_frame(&samples[k as usize]);
        assert(src[k as int] == samples@[k as int]@);
        f
    } else {
        silent_frame(channels, equilibrium)
    }
}

proof fn lemma_same_rate(i: nat, rate: nat)
    requires
        rate > 0,
    ensures
        source_index(i, rate, rate) == i,
        source_fraction(i, rate, rate) == 0,
        target_len(i, rate, rate) == i,
{
    vstd::arithmetic::div_mod::lemma_fundamental_div_mod_converse(
        (i * rate) as int,
        rate as int,
        i as int,
        0,
    );
    assert(2 * i * rate + rate == i * (2 * rate) + rate) by (nonlinear_arith);
    vstd::arithmetic::div_mod::lemma_fundamental_div_mod_converse(
        (2 * i * rate + rate) as int,
        (2 * rate) as int,
        i as int,
        rate as int,
    );
}

/// The length of a converted table is the duration rounded to whole target
/// frames: within half a target frame of `n * target_rate / source_rate`.
pub proof fn lemma_target_len_rounds(n: nat, source_rate: nat, target_rate: nat)
    requires
        source_rate > 0,
    ensures
        2 * target_len(n, source_rate, target_rate) * source_rate <= 2 * n * target_rate + source_rate,
        2 * n * target_rate < 2 * target_len(n, source_rate, target_rate) * source_rate + source_rate,
{
    let x = 2 * n * target_rate + source_rate;
    let d = 2 * source_rate;
    vstd::arithmetic::div_mod::lemma_fundamental_div_mod(x as int, d as int);
    let q = x as int / d as int;
    assert(q >= 0) by (nonlinear_arith)
        requires
            x >= 0,
            d > 0,
            q == x as int / d as int,
    ;
    assert(target_len(n, source_rate, target_rate) == q);
    assert(2 * q * source_rate == d * q) by (nonlinear_arith)
        requires
            d == 2 * source_rate,
    ;
}

/// Converts a frame table from `sample_rate` to `target_sample_rate`: the
/// result covers the same duration, frame `i` as `resampled_frame` says.
/// At equal rates the table comes back unchanged.
pub fn trans_sample<T: Copy, F: Fn(T, T, u32, u32) -> T>(
    input: Vec<Vec<T>>,
    sample_rate: u32,
    target_sample_rate: u32,
    channels: usize,
    equilibrium: T,
    blend: F,
) -> (r: Vec<Vec<T>>)
    requires
        sample_rate > 0,
        target_sample_rate > 0,
        target_len(input.len() as nat, sample_rate as nat, target_sample_rate as nat)
            <= usize::MAX,
        forall|a: T, b: T, num: u32, den: u32| blend.requires((a, b, num, den)),
    ensures
        r.len() == target_len(input.len() as nat, sample_rate as nat, target_sample_rate as nat),
        2 * r.len() * sample_rate <= 2 * input.len() * target_sample_rate + sample_rate,
        2 * input.len() * target_sample_rate < 2 * r.len() * sample_rate + sample_rate,
        forall|i: int|
            0 <= i < r.len() ==> resampled_frame(
                table_view(input@),
                i as nat,
                sample_rate,
                target_sample_rate,
                channels as nat,
                equilibrium,
                blend,
                #[trigger] r@[i]@,
            ),
        sample_rate == target_sample_rate ==> table_view(r@) == table_view(input@),
{
    let ghost n = input.len() as nat;
    proof {
        lemma_target_len_rounds(n, sample_rate as nat, target_sample_rate as nat);
    }
    assert(2 * (input.len() as u128) * (target_sample_rate as u128) + sample_rate as u128
        <= 2 * 0xffff_ffff_ffff_ffffu128 * 0xffff_ffffu128 + 0xffff_ffffu128) by (nonlinear_arith)
        requires
            input.len() <= 0xffff_ffff_ffff_ffffu128,
            target_sample_rate <= 0xffff_ffffu128,
            sample_rate <= 0xffff_ffffu128,
    ;
    let len128: u128 = (2 * (input.len() as u128) * (target_sample_rate as u128)
        + sample_rate as u128) / (2 * sample_rate as u128);
    let len = len128 as usize;
    let mut out: Vec<Vec<T>> = Vec::new();
    let mut i: usize = 0;
    while i < len
        invariant
            i <= len,
            len == target_len(n, sample_rate as nat, target_sample_rate as nat),
            n == input.len(),
            out.len() == i,
            target_sample_rate > 0,
            forall|a: T, b: T, num: u32, den: u32| blend.requires((a, b, num, den)),
            forall|j: int|
                0 <= j < i ==> resampled_frame(
                    table_view(input@),
                    j as nat,
                    sample_rate,
                    target_sample_rate,
                    channels as nat,
                    equilibrium,
                    blend,
                    #[trigger] out@[j]@,
                ),
        decreases len - i,
    {
        let f = get_sample(&input, i, sample_rate, target_sample_rate, channels, equilibrium, &blend);
        out.push(f);
        i += 1;
    }
    proof {
        if sample_rate == target_sample_rate {
            lemma_same_rate(n, sample_rate as nat);
            assert forall|j: int| 0 <= j < out.len() implies #[trigger] table_view(out@)[j]
                == table_view(input@)[j] by {
                lemma_same_rate(j as nat, sample_rate as nat);
                assert(resampled_frame(
                    table_view(input@),
                    j as nat,
                    sample_rate,
                    target_sample_rate,
                    channels as nat,
                    equilibrium,
                    blend,
                    out@[j]@,
                ));
            }
            assert(table_view(out@) =~= table_view(input@));
        }
    }
    out
}

proof fn lemma_whole_runs(n: int, c: int)
    requires
        c > 0,
        n >= 0,
    ensures
        (n + c - 1) / c == n / c || (n + c - 1) / c == n / c + 1,
        n / c <= (n + c - 1) / c,
{
    let q = n / c;
    let r = n % c;
    assert(n == q * c + r && 0 <= r < c) by (nonlinear_arith)
        requires
            c > 0,
            q == n / c,
            r == n % c,
    ;
    if r == 0 {
        assert((n + c - 1) / c == q) by (nonlinear_arith)
            requires
                c > 0,
                n + c - 1 == q * c + (c - 1),
        ;
    } else {
        assert((q + 1) * c == q * c + c) by (nonlinear_arith);
        assert((n + c - 1) / c == q + 1) by (nonlinear_arith)
            requires
                c > 0,
                0 <= r - 1 < c,
                n + c - 1 == (q + 1) * c + (r - 1),
        ;
    }
}

proof fn lemma_run_fits(i: int, n: int, c: int)
    requires
        c > 0,
        0 <= i < n / c,
    ensures
        i * c + c <= n,
        0 <= i * c,
{
    assert(i * c + c <= n && 0 <= i * c) by (nonlinear_arith)
        requires
            c > 0,
            0 <= i < n / c,
    {
        assert((n / c) * c <= n);
        assert(i + 1 <= n / c);
        assert((i + 1) * c <= (n / c) * c);
    }
}

/// Turns a recording, interleaved with `channels` samples per frame at
/// `sample_rate`, into a frame table at `target_sample_rate`.
pub fn prepare_note<T: Copy, F: Fn(T, T, u32, u32) -> T>(
    samples: Vec<T>,
    channels: usize,
    sample_rate: u32,
    target_sample_rate: u32,
    equilibrium: T,
    blend: F,
) -> (r: Vec<Vec<T>>)
    requires
        channels > 0,
        sample_rate > 0,
        target_sample_rate > 0,
        target_len((samples.len() / channels) as nat, sample_rate as nat, target_sample_rate as nat)
            <= usize::MAX,
        forall|a: T, b: T, num: u32, den: u32| blend.requires((a, b, num, den)),
    ensures
        r.len() == target_len(
            whole_frames(samples@, channels as nat).len(),
            sample_rate as nat,
            target_sample_rate as nat,
        ),
        forall|i: int|
            0 <= i < r.len() ==> resampled_frame(
                whole_frames(samples@, channels as nat),
                i as nat,
                sample_rate,
                target_sample_rate,
                channels as nat,
                equilibrium,
                blend,
                #[trigger] r@[i]@,
            ),
{
    let ghost s = samples@;
    let frames = frames_of(samples, channels);
    assert(frames@.map_values(|v: Vec<T>| v@).len() == frames.len());
    assert(frames.len() == s.len() / channels as nat);
    trans_sample(frames, sample_rate, target_sample_rate, channels, equilibrium, blend)
}

} // verus!
