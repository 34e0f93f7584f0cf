use vstd::prelude::*;

verus! {

/// A salient point of the spectrogram: the frame time in milliseconds and
/// the index of the winning frequency bin.
#[derive(Debug, Clone, Copy, PartialEq, Eq, Structural)]
pub struct Peak {
    pub time_ms: u32,
    pub freq: u32,
}

/// The admitted power-of-two window lengths for the short-time transform.
#[derive(Debug, Clone, Copy)]
pub enum WindowSize {
    S2,
    S4,
    S8,
    S16,
    S32,
    S64,
    S128,
    S256,
    S512,
    S1024,
    S2048,
    S4096,
    S8192,
}

pub open spec fn window_size_of(w: WindowSize) -> usize {
    match w {
        WindowSize::S2 => 2,
        WindowSize::S4 => 4,
        WindowSize::S8 => 8,
        WindowSize::S16 => 16,
        WindowSize::S32 => 32,
        WindowSize::S64 => 64,
        WindowSize::S128 => 128,
        WindowSize::S256 => 256,
        WindowSize::S512 => 512,
        WindowSize::S1024 => 1024,
        WindowSize::S2048 => 2048,
        WindowSize::S4096 => 4096,
        WindowSize::S8192 => 8192,
    }
}

impl From<WindowSize> for usize {
    fn from(window_size: WindowSize) -> usize {
        match window_size {
            WindowSize::S2 => 2,
            WindowSize::S4 => 4,
            WindowSize::S8 => 8,
            WindowSize::S16 => 16,
            WindowSize::S32 => 32,
            WindowSize::S64 => 64,
            WindowSize::S128 => 128,
            WindowSize::S256 => 256,
            WindowSize::S512 => 512,
            WindowSize::S1024 => 1024,
            WindowSize::S2048 => 2048,
            WindowSize::S4096 => 4096,
            WindowSize::S8192 => 8192,
        }
    }
}

impl vstd::std_specs::convert::FromSpecImpl<WindowSize> for usize {
    open spec fn obeys_from_spec() -> bool {
        true
    }

    open spec fn from_spec(v: WindowSize) -> usize {
        window_size_of(v)
    }
}

/// One spectrogram frame: the sample index where its window starts, and the
/// squared magnitude of each frequency bin of its half spectrum.
#[derive(Debug)]
pub struct FFTWindow {
    pub start_idx: usize,
    pub data: Vec<u64>,
}

/// The window start indices that slicing a signal of length `len` into
/// windows of length `w` with overlap `ov` produces, beginning at `start`:
/// each next window begins `w - ov` samples later, and a window that would
/// run past the end is moved back flush with it and is the last.
pub open spec fn start_positions_from(start: int, len: int, w: int, ov: int) -> Seq<int>
    decreases len - start,
{
    if !(0 <= start < len && 0 < w <= len && 0 <= ov < w) {
        Seq::empty()
    } else {
        let s = if start + w > len {
            len - w
        } else {
            start
        };
        if s + w >= len {
            seq![s]
        } else {
            seq![s] + start_positions_from(s + (w - ov), len, w, ov)
        }
    }
}

/// Where each window of a spectrogram over a signal of length `len` starts.
/// Every returned position leaves room for a full window.
pub fn window_start_positions(len: usize, w_size: usize, overlap: usize) -> (r: Vec<usize>)
    requires
        0 < w_size <= len,
        overlap < w_size,
        len + w_size <= usize::MAX,
    ensures
        r@.map_values(|x: usize| x as int) == start_positions_from(
            0,
            len as int,
            w_size as int,
            overlap as int,
        ),
        forall|i: int| 0 <= i < r@.len() ==> #[trigger] r@[i] + w_size <= len,
{
    let ghost full = start_positions_from(0, len as int, w_size as int, overlap as int);
    let mut r: Vec<usize> = Vec::new();
    let mut start: usize = 0;
    while start < len
        invariant
            0 < w_size <= len,
            overlap < w_size,
            len + w_size <= usize::MAX,
            start <= len,
            full == start_positions_from(0, len as int, w_size as int, overlap as int),
            full =~= r@.map_values(|x: usize| x as int) + start_positions_from(
                start as int,
                len as int,
                w_size as int,
                overlap as int,
            ),
            forall|i: int| 0 <= i < r@.len() ==> #[trigger] r@[i] + w_size <= len,
        decreases len - start,
    {
        let ghost prev = r@;
        let s: usize = if start + w_size > len {
            len - w_size
        } else {
            start
        };
        r.push(s);
        assert(r@.map_values(|x: usize| x as int) =~= prev.map_values(|x: usize| x as int)
            + seq![s as int]);
        if s + w_size >= len {
            assert(start_positions_from(start as int, len as int, w_size as int, overlap as int)
                =~= seq![s as int]);
            start = len;
        } else {
            assert(start_positions_from(start as int, len as int, w_size as int, overlap as int)
                =~= seq![s as int] + start_positions_from(
                s + (w_size - overlap),
                len as int,
                w_size as int,
                overlap as int,
            ));
            start = s + (w_size - overlap);
        }
    }
    assert(start_positions_from(start as int, len as int, w_size as int, overlap as int)
        =~= Seq::empty());
    assert(r@.map_values(|x: usize| x as int) =~= full);
    r
}

/// The six fixed frequency bands the peak extractor scans, as inclusive
/// first and last bin: the half-open bands below 160, written with their
/// last member, and the closed top band, whose end is clamped to the
/// spectrum's length at use.
pub open spec fn band_bounds(k: int) -> (int, int) {
    if k == 0 {
        (0, 9)
    } else if k == 1 {
        (10, 19)
    } else if k == 2 {
        (20, 39)
    } else if k == 3 {
        (40, 79)
    } else if k == 4 {
        (80, 159)
    } else {
        (160, 511)
    }
}

fn band_bounds_exec(k: usize) -> (r: (usize, usize))
    requires
        k < 6,
    ensures
        r.0 as int == band_bounds(k as int).0,
        r.1 as int == band_bounds(k as int).1,
{
    if k == 0 {
        (0, 9)
    } else if k == 1 {
        (10, 19)
    } else if k == 2 {
        (20, 39)
    } else if k == 3 {
        (40, 79)
    } else if k == 4 {
        (80, 159)
    } else {
        (160, 511)
    }
}

/// The first bin of `[lo, hi]` whose energy no other bin of the range
/// exceeds: ties keep the earlier bin, and an all-quiet range yields `lo`.
pub open spec fn scan_max(data: Seq<u64>, lo: int, hi: int) -> int
    decreases hi - lo,
{
    if hi <= lo {
        lo
    } else {
        let p = scan_max(data, lo, hi - 1);
        if data[hi] > data[p] {
            hi
        } else {
            p
        }
    }
}

/// The end of band `k` clamped to the bins the window has.
pub open spec fn clamped_hi(data: Seq<u64>, k: int) -> int {
    if band_bounds(k).1 <= data.len() - 1 {
        band_bounds(k).1
    } else {
        data.len() - 1
    }
}

/// The winning bin of band `k` of a window.
pub open spec fn band_bin(w: FFTWindow, k: int) -> int {
    scan_max(w.data@, band_bounds(k).0, clamped_hi(w.data@, k))
}

/// The energy of band `k`'s winning bin.
pub open spec fn band_energy(w: FFTWindow, k: int) -> u64 {
    w.data@[band_bin(w, k)]
}

/// The sum of the first `k` band maxima's energies.
pub open spec fn six_sum_to(w: FFTWindow, k: int) -> int
    decreases k,
{
    if k <= 0 {
        0
    } else {
        six_sum_to(w, k - 1) + band_energy(w, k - 1)
    }
}

/// The adaptive per-window threshold base: the summed energy of all six
/// band maxima. A band's winner becomes a peak exactly when its energy
/// strictly exceeds the mean, that is when six times it exceeds this sum.
pub open spec fn six_energy_sum(w: FFTWindow) -> int {
    six_sum_to(w, 6)
}

/// The time of a window, rounded to the nearest millisecond.
pub open spec fn window_time_ms(w: FFTWindow, sample_rate: int) -> int {
    (w.start_idx * 1000 + sample_rate / 2) / sample_rate
}

/// The peaks the first `k` bands of a window contribute, in band order.
pub open spec fn window_peaks_to(w: FFTWindow, sample_rate: int, k: int) -> Seq<Peak>
    decreases k,
{
    if k <= 0 {
        Seq::empty()
    } else {
        window_peaks_to(w, sample_rate, k - 1) + (if 6 * band_energy(w, k - 1) > six_energy_sum(
            w,
        ) {
            seq![
                Peak {
                    time_ms: window_time_ms(w, sample_rate) as u32,
                    freq: band_bin(w, k - 1) as u32,
                },
            ]
        } else {
            Seq::empty()
        })
    }
}

/// The peaks one window contributes.
pub open spec fn window_peaks(w: FFTWindow, sample_rate: int) -> Seq<Peak> {
    window_peaks_to(w, sample_rate, 6)
}

/// The peaks of the whole spectrogram, in window order then band order.
pub open spec fn all_peaks(ws: Seq<FFTWindow>, sample_rate: int) -> Seq<Peak>
    decreases ws.len(),
{
    if ws.len() == 0 {
        Seq::empty()
    } else {
        all_peaks(ws.drop_last(), sample_rate) + window_peaks(ws.last(), sample_rate)
    }
}

fn band_max(data: &Vec<u64>, lo: usize, hi: usize) -> (b: usize)
    requires
        lo <= hi < data@.len(),
    ensures
        b as int == scan_max(data@, lo as int, hi as int),
        lo <= b <= hi,
{
    let n = data.len();
    let mut b = lo;
    let mut bin = lo + 1;
    while bin <= hi
        invariant
            lo <= b < bin <= hi + 1,
            hi < n == data@.len(),
            b as int == scan_max(data@, lo as int, bin - 1),
        decreases hi + 1 - bin,
    {
        if data[bin] > data[b] {
            b = bin;
        }
        bin += 1;
    }
    b
}

fn window_peaks_exec(w: &FFTWindow, sample_rate: usize) -> (ps: Vec<Peak>)
    requires
        sample_rate > 0,
        w.data@.len() > 160,
        w.start_idx * 1000 + sample_rate / 2 <= usize::MAX,
        (w.start_idx * 1000 + sample_rate / 2) / (sample_rate as int) <= u32::MAX,
    ensures
        ps@ == window_peaks(*w, sample_rate as int),
{
    let len = w.data.len();
    let mut bins: Vec<usize> = Vec::new();
    let mut k: usize = 0;
    while k < 6
        invariant
            bins@.len() == k <= 6,
            w.data@.len() > 160,
            len == w.data@.len(),
            forall|t: int| 0 <= t < k ==> #[trigger] bins@[t] as int == band_bin(*w, t),
            forall|t: int| 0 <= t < k ==> #[trigger] bins@[t] < w.data@.len(),
        decreases 6 - k,
    {
        let bounds = band_bounds_exec(k);
        let hi = if bounds.1 <= len - 1 {
            bounds.1
        } else {
            len - 1
        };
        let b = band_max(&w.data, bounds.0, hi);
        bins.push(b);
        k += 1;
    }
    let mut sum: u128 = 0;
    let mut k: usize = 0;
    while k < 6
        invariant
            bins@.len() == 6,
            len == w.data@.len() > 160,
            forall|t: int| 0 <= t < 6 ==> #[trigger] bins@[t] as int == band_bin(*w, t),
            forall|t: int| 0 <= t < 6 ==> #[trigger] bins@[t] < w.data@.len(),
            k <= 6,
            sum == six_sum_to(*w, k as int),
            sum <= k * 0xffff_ffff_ffff_ffffu128,
        decreases 6 - k,
    {
        sum = sum + (w.data[bins[k]] as u128);
        k += 1;
    }
    let t_ms: u32 = ((w.start_idx * 1000 + sample_rate / 2) / sample_rate) as u32;
    let mut ps: Vec<Peak> = Vec::new();
    let mut k: usize = 0;
    while k < 6
        invariant
            bins@.len() == 6,
            len == w.data@.len() > 160,
            sample_rate > 0,
            w.start_idx * 1000 + sample_rate / 2 <= usize::MAX,
            (w.start_idx * 1000 + sample_rate / 2) / (sample_rate as int) <= u32::MAX,
            t_ms as int == window_time_ms(*w, sample_rate as int),
            forall|t: int| 0 <= t < 6 ==> #[trigger] bins@[t] as int == band_bin(*w, t),
            forall|t: int| 0 <= t < 6 ==> #[trigger] bins@[t] < w.data@.len(),
            k <= 6,
            sum == six_energy_sum(*w),
            ps@ == window_peaks_to(*w, sample_rate as int, k as int),
        decreases 6 - k,
    {
        let e = w.data[bins[k]];
        if 6 * (e as u128) > sum {
            ps.push(Peak { time_ms: t_ms, freq: bins[k] as u32 });
            assert(ps@ =~= window_peaks_to(*w, sample_rate as int, k + 1));
        } else {
            assert(ps@ =~= window_peaks_to(*w, sample_rate as int, k + 1));
        }
        k += 1;
    }
    ps
}

/// The peak extractor: for each window, the six band maxima are found and
/// each becomes a peak exactly when its energy strictly exceeds the mean
/// energy of the six, an adaptive per-window threshold. A peak carries
/// the window's time in milliseconds and the winning bin index.
pub fn filter_spectrogram(spectrogram: &Vec<FFTWindow>, sample_rate: usize) -> (peaks: Vec<Peak>)
    requires
        sample_rate > 0,
        forall|i: int|
            0 <= i < spectrogram@.len() ==> (#[trigger] spectrogram@[i]).data@.len() > 160,
        forall|i: int|
            0 <= i < spectrogram@.len() ==> (#[trigger] spectrogram@[i]).start_idx * 1000
                + sample_rate / 2 <= usize::MAX,
        forall|i: int|
            0 <= i < spectrogram@.len() ==> ((#[trigger] spectrogram@[i]).start_idx * 1000
                + sample_rate / 2) / (sample_rate as int) <= u32::MAX,
    ensures
        peaks@ == all_peaks(spectrogram@, sample_rate as int),
{
    let mut peaks: Vec<Peak> = Vec::new();
    let mut i: usize = 0;
    while i < spectrogram.len()
        invariant
            i <= spectrogram@.len(),
            sample_rate > 0,
            forall|t: int|
                0 <= t < spectrogram@.len() ==> (#[trigger] spectrogram@[t]).data@.len() > 160,
            forall|t: int|
                0 <= t < spectrogram@.len() ==> (#[trigger] spectrogram@[t]).start_idx * 1000
                    + sample_rate / 2 <= usize::MAX,
            forall|t: int|
                0 <= t < spectrogram@.len() ==> ((#[trigger] spectrogram@[t]).start_idx * 1000
                    + sample_rate / 2) / (sample_rate as int) <= u32::MAX,
            peaks@ == all_peaks(spectrogram@.take(i as int), sample_rate as int),
        decreases spectrogram@.len() - i,
    {
        let mut ps = window_peaks_exec(&spectrogram[i], sample_rate);
        peaks.append(&mut ps);
        i += 1;
        assert(spectrogram@.take(i as int).drop_last() =~= spectrogram@.take(i - 1));
        assert(spectrogram@.take(i as int).last() == spectrogram@[i - 1]);
    }
    assert(spectrogram@.take(spectrogram@.len() as int) =~= spectrogram@);
    peaks
}

} // verus!
