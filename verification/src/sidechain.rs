//! What the processor measures of a chunk: the power of the monitored channels, and the
//! signals of the dialogue detector.
use crate::audiochunk::samples;
use crate::filters::Biquad;
use crate::fixed::{fx_add, fx_div, fx_mul, fx_whole, prod, quot, sum, whole, PrcFmt, HALF, ONE};
use vstd::prelude::*;

verus! {

/// The smaller of two numbers.
pub open spec fn at_most(a: int, b: int) -> int {
    if a < b {
        a
    } else {
        b
    }
}

/// The part of a channel that lies within the frames at hand.
pub open spec fn heard(wave: Seq<PrcFmt>, frames: int) -> Seq<PrcFmt> {
    wave.take(at_most(frames, wave.len() as int))
}

/// Whether every entry of a list is a channel.
pub open spec fn all_within(list: Seq<usize>, channels: int) -> bool {
    forall|i: int| 0 <= i < list.len() ==> (#[trigger] list[i]) < channels
}

/// The length of the first channel of `list`, from entry `n` on, that is not empty.
pub open spec fn first_length(list: Seq<usize>, waves: Seq<Seq<PrcFmt>>, n: int) -> Option<int>
    decreases list.len() - n,
{
    if n < 0 || n >= list.len() {
        None
    } else if waves[list[n] as int].len() > 0 {
        Some(waves[list[n] as int].len() as int)
    } else {
        first_length(list, waves, n + 1)
    }
}

/// How many of the first `n` channels of `list` are not empty.
pub open spec fn carrying(list: Seq<usize>, waves: Seq<Seq<PrcFmt>>, n: int) -> int
    decreases n,
{
    if n <= 0 {
        0
    } else if waves[list[n - 1] as int].len() > 0 {
        carrying(list, waves, n - 1) + 1
    } else {
        carrying(list, waves, n - 1)
    }
}

/// `v` divided by a number of channels.
pub open spec fn mean_of(v: PrcFmt, counted: int) -> PrcFmt {
    if counted > 1 {
        prod(v, quot(ONE, whole(counted)))
    } else {
        v
    }
}

/// Frame `j` of the summed powers of the first `n` channels of `list`, each filtered.
pub open spec fn power_sum(
    filters: Seq<Biquad>,
    list: Seq<usize>,
    waves: Seq<Seq<PrcFmt>>,
    frames: int,
    n: int,
    j: int,
) -> PrcFmt
    decreases n,
{
    if n <= 0 {
        0
    } else {
        let before = power_sum(filters, list, waves, frames, n - 1, j);
        let wave = heard(waves[list[n - 1] as int], frames);
        if j < wave.len() {
            let v = filters[n - 1].wave_output(wave, j);
            sum(before, prod(v, v))
        } else {
            before
        }
    }
}

/// Mean power of the monitored channels.
pub open spec fn power_of(
    filters: Seq<Biquad>,
    list: Seq<usize>,
    waves: Seq<Seq<PrcFmt>>,
    frames: int,
) -> Seq<PrcFmt> {
    Seq::new(
        frames as nat,
        |j: int|
            mean_of(
                power_sum(filters, list, waves, frames, list.len() as int, j),
                carrying(list, waves, list.len() as int),
            ),
    )
}

/// Filter `i` after channel `list[i]`, for each `i`.
pub open spec fn filters_after(
    filters: Seq<Biquad>,
    list: Seq<usize>,
    waves: Seq<Seq<PrcFmt>>,
    frames: int,
) -> Seq<Biquad> {
    Seq::new(
        filters.len(),
        |i: int| filters[i].after_all(heard(waves[list[i] as int], frames)),
    )
}

/// Frame `j` of the sum of the first `n` channels of `list`.
pub open spec fn mix_sum(
    list: Seq<usize>,
    waves: Seq<Seq<PrcFmt>>,
    n: int,
    j: int,
) -> PrcFmt
    decreases n,
{
    if n <= 0 {
        0
    } else {
        let before = mix_sum(list, waves, n - 1, j);
        let wave = waves[list[n - 1] as int];
        if j < wave.len() {
            sum(before, wave[j])
        } else {
            before
        }
    }
}

/// Mean of the dialogue channels.
pub open spec fn mix_of(list: Seq<usize>, waves: Seq<Seq<PrcFmt>>, frames: int) -> Seq<PrcFmt> {
    Seq::new(
        frames as nat,
        |j: int|
            mean_of(
                mix_sum(list, waves, list.len() as int, j),
                carrying(list, waves, list.len() as int),
            ),
    )
}

/// Nothing, for some frames.
pub open spec fn silence(frames: int) -> Seq<PrcFmt> {
    Seq::new(frames as nat, |j: int| 0)
}

/// Whether the detector has anything to hear.
pub open spec fn detectable(dialogue: Option<Seq<usize>>, waves: Seq<Seq<PrcFmt>>) -> bool {
    dialogue is Some || (waves[0].len() > 0 && waves[1].len() > 0)
}

/// The left side of the image.
pub open spec fn left_of(
    dialogue: Option<Seq<usize>>,
    waves: Seq<Seq<PrcFmt>>,
    frames: int,
) -> Seq<PrcFmt> {
    match dialogue {
        Some(list) => mix_of(list, waves, frames),
        None => waves[0].take(frames),
    }
}

/// The right side of the image. A discrete dialogue channel is centred by definition.
pub open spec fn right_of(
    dialogue: Option<Seq<usize>>,
    waves: Seq<Seq<PrcFmt>>,
    frames: int,
) -> Seq<PrcFmt> {
    match dialogue {
        Some(list) => mix_of(list, waves, frames),
        None => waves[1].take(frames),
    }
}

/// Full band power of the centre.
pub open spec fn mid_of(
    dialogue: Option<Seq<usize>>,
    waves: Seq<Seq<PrcFmt>>,
    frames: int,
) -> Seq<PrcFmt> {
    Seq::new(
        frames as nat,
        |j: int|
            {
                let mid = match dialogue {
                    Some(list) => mix_of(list, waves, frames)[j],
                    None => prod(HALF, sum(waves[0][j], waves[1][j])),
                };
                prod(mid, mid)
            },
    )
}

/// What a buffer holds after the first `n` channels of `list` have been filtered in it, each
/// over what was there before.
pub open spec fn swept(
    buffer: Seq<PrcFmt>,
    filters: Seq<Biquad>,
    list: Seq<usize>,
    waves: Seq<Seq<PrcFmt>>,
    frames: int,
    n: int,
) -> Seq<PrcFmt>
    decreases n,
{
    if n <= 0 {
        buffer
    } else {
        let wave = heard(waves[list[n - 1] as int], frames);
        filters[n - 1].filtered(wave) + swept(buffer, filters, list, waves, frames, n - 1).skip(
            wave.len() as int,
        )
    }
}

/// Copies the first `frames` samples of `from` over those of `to`.
pub fn copy_frames(to: &mut Vec<PrcFmt>, from: &Vec<PrcFmt>, frames: usize)
    requires
        frames <= old(to)@.len(),
        frames <= from@.len(),
    ensures
        final(to)@ == from@.take(frames as int) + old(to)@.skip(frames as int),
{
    let mut j: usize = 0;
    while j < frames
        invariant
            j <= frames <= old(to)@.len(),
            frames <= from@.len(),
            to@.len() == old(to)@.len(),
            forall|i: int| 0 <= i < j ==> #[trigger] to@[i] == from@[i],
            forall|i: int| j <= i < old(to)@.len() ==> #[trigger] to@[i] == old(to)@[i],
        decreases frames - j,
    {
        to.set(j, from[j]);
        j = j + 1;
    }
    assert(to@ =~= from@.take(frames as int) + old(to)@.skip(frames as int));
}

/// Silences the first `frames` samples.
pub fn silence_frames(wave: &mut Vec<PrcFmt>, frames: usize)
    requires
        frames <= old(wave)@.len(),
    ensures
        final(wave)@ == silence(frames as int) + old(wave)@.skip(frames as int),
{
    let mut j: usize = 0;
    while j < frames
        invariant
            j <= frames <= old(wave)@.len(),
            wave@.len() == old(wave)@.len(),
            forall|i: int| 0 <= i < j ==> #[trigger] wave@[i] == 0,
            forall|i: int| j <= i < old(wave)@.len() ==> #[trigger] wave@[i] == old(wave)@[i],
        decreases frames - j,
    {
        wave.set(j, 0);
        j = j + 1;
    }
    assert(wave@ =~= silence(frames as int) + old(wave)@.skip(frames as int));
}

/// Divides the first `frames` samples by a number of channels.
fn average_frames(wave: &mut Vec<PrcFmt>, frames: usize, counted: usize)
    requires
        frames <= old(wave)@.len(),
    ensures
        final(wave)@.len() == old(wave)@.len(),
        forall|i: int|
            0 <= i < frames ==> #[trigger] final(wave)@[i] == mean_of(
                old(wave)@[i],
                counted as int,
            ),
        forall|i: int|
            frames <= i < old(wave)@.len() ==> #[trigger] final(wave)@[i] == old(wave)@[i],
{
    if counted > 1 {
        let scale: PrcFmt = fx_div(ONE, fx_whole(counted));
        let mut j: usize = 0;
        while j < frames
            invariant
                counted > 1,
                scale == quot(ONE, whole(counted as int)),
                j <= frames <= old(wave)@.len(),
                wave@.len() == old(wave)@.len(),
                forall|i: int|
                    0 <= i < j ==> #[trigger] wave@[i] == mean_of(old(wave)@[i], counted as int),
                forall|i: int|
                    j <= i < old(wave)@.len() ==> #[trigger] wave@[i] == old(wave)@[i],
            decreases frames - j,
        {
            let mean: PrcFmt = fx_mul(wave[j], scale);
            wave.set(j, mean);
            j = j + 1;
        }
    }
}

/// The length of the first channel of `list` that is not empty.
pub fn find_length(list: &Vec<usize>, waves: &Vec<Vec<PrcFmt>>) -> (r: Option<usize>)
    requires
        all_within(list@, waves@.len() as int),
    ensures
        r is Some <==> first_length(list@, samples(*waves), 0) is Some,
        r matches Some(len) ==> first_length(list@, samples(*waves), 0) == Some(len as int),
{
    let mut i: usize = 0;
    while i < list.len()
        invariant
            i <= list@.len(),
            all_within(list@, waves@.len() as int),
            first_length(list@, samples(*waves), 0) == first_length(
                list@,
                samples(*waves),
                i as int,
            ),
        decreases list@.len() - i,
    {
        let ch: usize = list[i];
        let len: usize = waves[ch].len();
        if len > 0 {
            return Some(len);
        }
        i = i + 1;
    }
    None
}

/// Adds the power of a filtered channel to `acc`.
fn add_power(
    filter: &mut Biquad,
    wave: &Vec<PrcFmt>,
    tmp: &mut Vec<PrcFmt>,
    acc: &mut Vec<PrcFmt>,
    frames: usize,
)
    requires
        frames <= old(tmp)@.len(),
        frames <= old(acc)@.len(),
    ensures
        *final(filter) == old(filter).after_all(heard(wave@, frames as int)),
        final(tmp)@ == old(filter).filtered(heard(wave@, frames as int)) + old(tmp)@.skip(
            heard(wave@, frames as int).len() as int,
        ),
        final(acc)@.len() == old(acc)@.len(),
        forall|j: int|
            0 <= j < old(acc)@.len() ==> #[trigger] final(acc)@[j] == if j < heard(
                wave@,
                frames as int,
            ).len() {
                let v = old(filter).wave_output(heard(wave@, frames as int), j);
                sum(old(acc)@[j], prod(v, v))
            } else {
                old(acc)@[j]
            },
{
    let len: usize = if frames < wave.len() {
        frames
    } else {
        wave.len()
    };
    let ghost part = heard(wave@, frames as int);
    let ghost before = *filter;
    copy_frames(tmp, wave, len);
    assert(tmp@.take(len as int) =~= part);
    filter.process_waveform(tmp, len);
    assert(tmp@ =~= before.filtered(part) + old(tmp)@.skip(len as int));
    let mut j: usize = 0;
    while j < len
        invariant
            j <= len <= old(acc)@.len(),
            len == part.len(),
            len <= tmp@.len(),
            tmp@ == before.filtered(part) + old(tmp)@.skip(len as int),
            acc@.len() == old(acc)@.len(),
            forall|i: int| 0 <= i < len ==> #[trigger] tmp@[i] == before.wave_output(part, i),
            forall|i: int|
                0 <= i < j ==> #[trigger] acc@[i] == ({
                    let v = before.wave_output(part, i);
                    sum(old(acc)@[i], prod(v, v))
                }),
            forall|i: int| j <= i < old(acc)@.len() ==> #[trigger] acc@[i] == old(acc)@[i],
        decreases len - j,
    {
        let v: PrcFmt = tmp[j];
        let total: PrcFmt = fx_add(acc[j], fx_mul(v, v));
        acc.set(j, total);
        j = j + 1;
    }
}

/// Mean power of the monitored channels, written to `acc`. Power summed rather than
/// amplitude summed, so the result does not depend on whether the channels are correlated.
pub fn measure_powers(
    filters: &mut Vec<Biquad>,
    list: &Vec<usize>,
    waves: &Vec<Vec<PrcFmt>>,
    tmp: &mut Vec<PrcFmt>,
    acc: &mut Vec<PrcFmt>,
    frames: usize,
)
    requires
        old(filters)@.len() == list@.len(),
        all_within(list@, waves@.len() as int),
        frames <= old(tmp)@.len(),
        frames <= old(acc)@.len(),
    ensures
        final(filters)@ == filters_after(old(filters)@, list@, samples(*waves), frames as int),
        final(tmp)@ == swept(
            old(tmp)@,
            old(filters)@,
            list@,
            samples(*waves),
            frames as int,
            list@.len() as int,
        ),
        final(tmp)@.len() == old(tmp)@.len(),
        final(acc)@ == power_of(old(filters)@, list@, samples(*waves), frames as int)
            + old(acc)@.skip(frames as int),
{
    let ghost all = samples(*waves);
    let ghost before = filters@;
    silence_frames(acc, frames);
    let mut counted: usize = 0;
    let mut i: usize = 0;
    while i < list.len()
        invariant
            i <= list@.len(),
            counted <= i,
            all == samples(*waves),
            before == old(filters)@,
            before.len() == list@.len(),
            filters@.len() == list@.len(),
            all_within(list@, waves@.len() as int),
            frames <= tmp@.len(),
            frames <= acc@.len(),
            tmp@ == swept(old(tmp)@, before, list@, all, frames as int, i as int),
            tmp@.len() == old(tmp)@.len(),
            forall|j: int| frames <= j < acc@.len() ==> #[trigger] acc@[j] == old(acc)@[j],
            acc@.len() == old(acc)@.len(),
            counted == carrying(list@, all, i as int),
            forall|k: int|
                0 <= k < i ==> #[trigger] filters@[k] == before[k].after_all(
                    heard(all[list@[k] as int], frames as int),
                ),
            forall|k: int| i <= k < list@.len() ==> #[trigger] filters@[k] == before[k],
            forall|j: int|
                0 <= j < frames ==> #[trigger] acc@[j] == power_sum(
                    before,
                    list@,
                    all,
                    frames as int,
                    i as int,
                    j,
                ),
        decreases list@.len() - i,
    {
        let ch: usize = list[i];
        add_power(&mut filters[i], &waves[ch], tmp, acc, frames);
        if waves[ch].len() > 0 {
            counted = counted + 1;
        }
        i = i + 1;
    }
    average_frames(acc, frames, counted);
    assert(filters@ =~= filters_after(before, list@, all, frames as int));
    assert(acc@ =~= power_of(before, list@, all, frames as int) + old(acc)@.skip(frames as int));
}

/// Adds a channel to `acc`, as far as it goes.
fn add_wave(wave: &Vec<PrcFmt>, acc: &mut Vec<PrcFmt>, frames: usize)
    requires
        frames <= old(acc)@.len(),
    ensures
        final(acc)@.len() == old(acc)@.len(),
        forall|j: int|
            0 <= j < old(acc)@.len() ==> #[trigger] final(acc)@[j] == if j < frames && j
                < wave@.len() {
                sum(old(acc)@[j], wave@[j])
            } else {
                old(acc)@[j]
            },
{
    let len: usize = if frames < wave.len() {
        frames
    } else {
        wave.len()
    };
    let mut j: usize = 0;
    while j < len
        invariant
            j <= len <= wave@.len(),
            len <= acc@.len(),
            acc@.len() == old(acc)@.len(),
            forall|i: int| 0 <= i < j ==> #[trigger] acc@[i] == sum(old(acc)@[i], wave@[i]),
            forall|i: int| j <= i < old(acc)@.len() ==> #[trigger] acc@[i] == old(acc)@[i],
        decreases len - j,
    {
        let total: PrcFmt = fx_add(acc[j], wave[j]);
        acc.set(j, total);
        j = j + 1;
    }
}

/// Mean of the dialogue channels, written to `acc`.
pub fn mix_channels(
    list: &Vec<usize>,
    waves: &Vec<Vec<PrcFmt>>,
    acc: &mut Vec<PrcFmt>,
    frames: usize,
)
    requires
        all_within(list@, waves@.len() as int),
        frames <= old(acc)@.len(),
    ensures
        final(acc)@ == mix_of(list@, samples(*waves), frames as int) + old(acc)@.skip(
            frames as int,
        ),
{
    let ghost all = samples(*waves);
    silence_frames(acc, frames);
    let mut counted: usize = 0;
    let mut i: usize = 0;
    while i < list.len()
        invariant
            i <= list@.len(),
            counted <= i,
            all == samples(*waves),
            all_within(list@, waves@.len() as int),
            frames <= acc@.len(),
            acc@.len() == old(acc)@.len(),
            forall|j: int| frames <= j < acc@.len() ==> #[trigger] acc@[j] == old(acc)@[j],
            counted == carrying(list@, all, i as int),
            forall|j: int|
                0 <= j < frames ==> #[trigger] acc@[j] == mix_sum(list@, all, i as int, j),
        decreases list@.len() - i,
    {
        let ch: usize = list[i];
        add_wave(&waves[ch], acc, frames);
        if waves[ch].len() > 0 {
            counted = counted + 1;
        }
        i = i + 1;
    }
    average_frames(acc, frames, counted);
    assert(acc@ =~= mix_of(list@, all, frames as int) + old(acc)@.skip(frames as int));
}

/// The power of each of the first `frames` samples of `wave`, written to `power`.
pub fn square_frames(power: &mut Vec<PrcFmt>, wave: &Vec<PrcFmt>, frames: usize)
    requires
        frames <= old(power)@.len(),
        frames <= wave@.len(),
    ensures
        final(power)@.len() == old(power)@.len(),
        forall|j: int|
            0 <= j < frames ==> #[trigger] final(power)@[j] == prod(wave@[j], wave@[j]),
        forall|j: int|
            frames <= j < old(power)@.len() ==> #[trigger] final(power)@[j] == old(power)@[j],
{
    let mut j: usize = 0;
    while j < frames
        invariant
            j <= frames <= power@.len(),
            frames <= wave@.len(),
            power@.len() == old(power)@.len(),
            forall|i: int| 0 <= i < j ==> #[trigger] power@[i] == prod(wave@[i], wave@[i]),
            forall|i: int| j <= i < power@.len() ==> #[trigger] power@[i] == old(power)@[i],
        decreases frames - j,
    {
        let square: PrcFmt = fx_mul(wave[j], wave[j]);
        power.set(j, square);
        j = j + 1;
    }
}

/// The power of the centre of a stereo pair, written to `power`.
pub fn square_centre(
    power: &mut Vec<PrcFmt>,
    left: &Vec<PrcFmt>,
    right: &Vec<PrcFmt>,
    frames: usize,
)
    requires
        frames <= old(power)@.len(),
        frames <= left@.len(),
        frames <= right@.len(),
    ensures
        final(power)@.len() == old(power)@.len(),
        forall|j: int|
            0 <= j < frames ==> #[trigger] final(power)@[j] == ({
                let mid = prod(HALF, sum(left@[j], right@[j]));
                prod(mid, mid)
            }),
        forall|j: int|
            frames <= j < old(power)@.len() ==> #[trigger] final(power)@[j] == old(power)@[j],
{
    let mut j: usize = 0;
    while j < frames
        invariant
            j <= frames <= power@.len(),
            frames <= left@.len(),
            frames <= right@.len(),
            power@.len() == old(power)@.len(),
            forall|i: int|
                0 <= i < j ==> #[trigger] power@[i] == ({
                    let mid = prod(HALF, sum(left@[i], right@[i]));
                    prod(mid, mid)
                }),
            forall|i: int| j <= i < power@.len() ==> #[trigger] power@[i] == old(power)@[i],
        decreases frames - j,
    {
        let mid: PrcFmt = fx_mul(HALF, fx_add(left[j], right[j]));
        let square: PrcFmt = fx_mul(mid, mid);
        power.set(j, square);
        j = j + 1;
    }
}

/// Cut the first `frames` samples of a signal to a band, with entry `side` of two lists of
/// filters.
pub fn cut_to_band(
    highpass: &mut Vec<Biquad>,
    lowpass: &mut Vec<Biquad>,
    side: usize,
    signal: &mut Vec<PrcFmt>,
    frames: usize,
)
    requires
        side < old(highpass)@.len(),
        side < old(lowpass)@.len(),
        frames <= old(signal)@.len(),
    ensures
        ({
            let input = old(signal)@.take(frames as int);
            let high = old(highpass)@[side as int];
            let low = old(lowpass)@[side as int];
            let above = high.filtered(input);
            &&& final(highpass)@ == old(highpass)@.update(side as int, high.after_all(input))
            &&& final(lowpass)@ == old(lowpass)@.update(side as int, low.after_all(above))
            &&& final(signal)@ == low.filtered(above) + old(signal)@.skip(frames as int)
        }),
{
    let ghost input = signal@.take(frames as int);
    let ghost above = highpass@[side as int].filtered(input);
    highpass[side].process_waveform(signal, frames);
    assert(signal@.take(frames as int) =~= above);
    lowpass[side].process_waveform(signal, frames);
    assert(signal@ =~= old(lowpass)@[side as int].filtered(above) + old(signal)@.skip(
        frames as int,
    ));
}

} // verus!
