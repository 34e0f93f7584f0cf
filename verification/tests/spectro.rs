use shezem_rs::spectrogram::{filter_spectrogram, window_start_positions, FFTWindow, Peak, WindowSize};

#[test]
fn window_sizes_convert_to_their_length() {
    assert_eq!(usize::from(WindowSize::S2), 2);
    assert_eq!(usize::from(WindowSize::S1024), 1024);
    assert_eq!(usize::from(WindowSize::S8192), 8192);
}

#[test]
fn start_positions_step_by_window_minus_overlap() {
    assert_eq!(window_start_positions(10, 4, 2), vec![0, 2, 4, 6]);
}

#[test]
fn last_window_is_clamped_flush_with_the_end() {
    assert_eq!(window_start_positions(10, 4, 0), vec![0, 4, 6]);
}

#[test]
fn exact_fit_emits_one_window() {
    assert_eq!(window_start_positions(8, 8, 3), vec![0]);
}

fn frame(start_idx: usize, energies: &[(usize, u64)]) -> FFTWindow {
    let mut data = vec![0u64; 200];
    for &(bin, e) in energies {
        data[bin] = e;
    }
    FFTWindow { start_idx, data }
}

#[test]
fn peaks_are_band_maxima_above_the_mean() {
    // Band maxima: 100, 90, 80 in the first three bands, 10 in the rest.
    // The mean of the six is 50: only the first three exceed it.
    let w = frame(
        1000,
        &[(5, 100), (15, 90), (25, 80), (45, 10), (85, 10), (165, 10)],
    );
    let peaks = filter_spectrogram(&vec![w], 1000);
    assert_eq!(
        peaks,
        vec![
            Peak { time_ms: 1000, freq: 5 },
            Peak { time_ms: 1000, freq: 15 },
            Peak { time_ms: 1000, freq: 25 },
        ]
    );
}

#[test]
fn uniformly_weak_bands_contribute_no_peaks() {
    // All six band maxima are equal, so none strictly exceeds the mean.
    let w = frame(0, &[(5, 7), (15, 7), (25, 7), (45, 7), (85, 7), (165, 7)]);
    let peaks = filter_spectrogram(&vec![w], 8000);
    assert_eq!(peaks, vec![]);
}

#[test]
fn silent_frame_contributes_no_peaks() {
    let w = frame(0, &[]);
    let peaks = filter_spectrogram(&vec![w], 8000);
    assert_eq!(peaks, vec![]);
}

#[test]
fn band_ties_keep_the_lowest_bin() {
    // Two equal maxima inside one band: the earlier bin wins; a single
    // loud band beats the mean of the six.
    let w = frame(500, &[(11, 50), (12, 50)]);
    let peaks = filter_spectrogram(&vec![w], 1000);
    assert_eq!(peaks, vec![Peak { time_ms: 500, freq: 11 }]);
}

#[test]
fn boundary_bin_belongs_to_one_band() {
    // Bin 10 is the first bin of the second band and no member of the
    // first: a lone maximum there yields exactly one peak.
    let w = frame(0, &[(10, 50)]);
    let peaks = filter_spectrogram(&vec![w], 8000);
    assert_eq!(peaks, vec![Peak { time_ms: 0, freq: 10 }]);
}

#[test]
fn peak_time_is_start_index_in_milliseconds() {
    let w = frame(22050, &[(5, 100)]);
    let peaks = filter_spectrogram(&vec![w], 44100);
    assert_eq!(peaks, vec![Peak { time_ms: 500, freq: 5 }]);
}

#[test]
fn peak_time_rounds_to_the_nearest_millisecond() {
    // 2 samples at 3000 Hz is two thirds of a millisecond: rounded up.
    let w = frame(2, &[(5, 100)]);
    let peaks = filter_spectrogram(&vec![w], 3000);
    assert_eq!(peaks, vec![Peak { time_ms: 1, freq: 5 }]);
}
