use shezem_rs::fingerprint::{build_address, generate_fingerprint};
use shezem_rs::spectrogram::Peak;

fn peak(time_ms: u32, freq: u32) -> Peak {
    Peak { time_ms, freq }
}

#[test]
fn address_packs_three_fields() {
    let a = build_address(&peak(0, 3), &peak(100, 7));
    assert_eq!(a, (3 << 23) | (7 << 14) | 100);
}

#[test]
fn address_is_deterministic() {
    let a1 = build_address(&peak(40, 17), &peak(90, 300));
    let a2 = build_address(&peak(40, 17), &peak(90, 300));
    assert_eq!(a1, a2);
}

#[test]
fn address_truncates_frequency_to_nine_bits() {
    // 515 = 3 mod 512: only the low nine bits of a bin survive.
    let a = build_address(&peak(0, 515), &peak(100, 7));
    assert_eq!(a, (3 << 23) | (7 << 14) | 100);
}

#[test]
fn address_truncates_delta_to_fourteen_bits() {
    let a = build_address(&peak(0, 3), &peak(20000, 7));
    assert_eq!(a, (3 << 23) | (7 << 14) | (20000 & 0x3fff));
}

#[test]
fn address_clamps_negative_delta_to_zero() {
    let a = build_address(&peak(500, 3), &peak(100, 7));
    assert_eq!(a, (3 << 23) | (7 << 14));
}

#[test]
fn address_fields_stay_in_their_bits() {
    // Varying only the time delta moves only the low fourteen bits.
    let a1 = build_address(&peak(0, 3), &peak(100, 7));
    let a2 = build_address(&peak(0, 3), &peak(9999, 7));
    assert_eq!(a1 >> 14, a2 >> 14);
    assert_eq!(a1 & 0x3fff, 100);
    assert_eq!(a2 & 0x3fff, 9999);
    // Varying only the second frequency moves only its nine bits.
    let b1 = build_address(&peak(0, 3), &peak(100, 7));
    let b2 = build_address(&peak(0, 3), &peak(100, 8));
    assert_eq!(b1 >> 23, b2 >> 23);
    assert_eq!(b1 & 0x3fff, b2 & 0x3fff);
}

#[test]
fn too_few_peaks_yield_no_fingerprints() {
    let peaks = vec![
        peak(0, 1),
        peak(10, 2),
        peak(20, 3),
        peak(30, 4),
        peak(40, 5),
    ];
    assert_eq!(generate_fingerprint(peaks).len(), 0);
}

#[test]
fn one_anchor_emits_a_full_neighborhood() {
    let peaks = vec![
        peak(0, 1),
        peak(10, 2),
        peak(20, 3),
        peak(30, 4),
        peak(40, 5),
        peak(50, 6),
    ];
    let fps = generate_fingerprint(peaks);
    assert_eq!(fps.len(), 5);
    let anchor_address = build_address(&peak(0, 1), &peak(50, 6));
    for (j, fp) in fps.iter().enumerate() {
        assert_eq!(fp.anchor_address, anchor_address);
        assert_eq!(fp.anchor_time, 0);
        let target = peak(10 * (j as u32), (j + 1) as u32);
        assert_eq!(fp.address, build_address(&peak(0, 1), &target));
    }
}

#[test]
fn each_eligible_anchor_emits_five_fingerprints() {
    let mut peaks = Vec::new();
    for i in 0..12u32 {
        peaks.push(peak(100 * i, i));
    }
    let fps = generate_fingerprint(peaks);
    assert_eq!(fps.len(), 7 * 5);
    for a in 0..7usize {
        let block = &fps[a * 5..(a + 1) * 5];
        for fp in block {
            assert_eq!(fp.anchor_address, block[0].anchor_address);
            assert_eq!(fp.anchor_time, 100 * (a as u32));
        }
    }
}

#[test]
fn generator_sorts_unsorted_peaks_first() {
    let sorted = vec![
        peak(0, 1),
        peak(10, 2),
        peak(20, 3),
        peak(30, 4),
        peak(40, 5),
        peak(50, 6),
    ];
    let mut shuffled = sorted.clone();
    shuffled.reverse();
    let a = generate_fingerprint(sorted);
    let b = generate_fingerprint(shuffled);
    assert_eq!(a.len(), b.len());
    for (x, y) in a.iter().zip(b.iter()) {
        assert_eq!(x.address, y.address);
        assert_eq!(x.anchor_address, y.anchor_address);
        assert_eq!(x.anchor_time, y.anchor_time);
    }
}
