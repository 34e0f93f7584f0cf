use vstd::prelude::*;
use vstd::relations::{sorted_by, total_ordering};
use vstd::seq_lib::group_to_multiset_ensures;
use vstd::seq_lib::lemma_sorted_unique;

use crate::spectrogram::Peak;
use crate::NEIGHBORHOOD_SIZE;

verus! {

/// The persisted unit: the pair hash, the hash of the whole neighborhood,
/// and the anchor peak's time in milliseconds.
#[derive(Debug, Clone, Copy, PartialEq, Eq, Structural)]
pub struct Fingerprint {
    pub address: u32,
    pub anchor_address: u32,
    pub anchor_time: u32,
}

/// A fingerprint together with the song it belongs to.
#[derive(Debug, Clone, Copy, PartialEq, Eq, Structural)]
pub struct FingerprintData {
    pub fingerprint: Fingerprint,
    pub song_id: i32,
}

/// Milliseconds from `pa` to `pb`; zero when `pb` is not later.
pub open spec fn delta_ms(pa: Peak, pb: Peak) -> u32 {
    if pa.time_ms <= pb.time_ms {
        (pb.time_ms - pa.time_ms) as u32
    } else {
        0u32
    }
}

/// The 32-bit locality hash of a peak pair: bits 23..32 hold the first
/// peak's frequency bin, bits 14..23 the second's, bits 0..14 the time
/// delta in milliseconds. Each field is truncated to its own width, so
/// none can spill into another's range.
pub open spec fn address_of(pa: Peak, pb: Peak) -> u32 {
    (((pa.freq & 0x1ff) << 23) | ((pb.freq & 0x1ff) << 14)) | (delta_ms(pa, pb) & 0x3fff)
}

/// The locality hash of the pair `(peak_a, peak_b)`. The result is a pure
/// function of the two peaks, so identical pairs always hash alike.
pub fn build_address(peak_a: &Peak, peak_b: &Peak) -> (r: u32)
    ensures
        r == address_of(*peak_a, *peak_b),
{
    let delta_time: u32 = if peak_a.time_ms <= peak_b.time_ms {
        peak_b.time_ms - peak_a.time_ms
    } else {
        0
    };
    (((peak_a.freq & 0x1ff) << 23u32) | ((peak_b.freq & 0x1ff) << 14u32)) | (delta_time & 0x3fff)
}

/// The three fields of an address stay in their own bit ranges: each is
/// recovered by masking its range, the high 18 bits are a function of the
/// two frequency bins alone, and the low 14 bits of the time delta alone.
pub proof fn lemma_address_fields(pa: Peak, pb: Peak)
    ensures
        address_of(pa, pb) >> 23 == pa.freq & 0x1ff,
        (address_of(pa, pb) >> 14) & 0x1ff == pb.freq & 0x1ff,
        address_of(pa, pb) & 0x3fff == delta_ms(pa, pb) & 0x3fff,
        address_of(pa, pb) >> 14 == ((pa.freq & 0x1ff) << 9) | (pb.freq & 0x1ff),
{
    let f1 = pa.freq;
    let f2 = pb.freq;
    let d = delta_ms(pa, pb);
    assert(((((f1 & 0x1ff) << 23) | ((f2 & 0x1ff) << 14)) | (d & 0x3fff)) >> 23 == f1 & 0x1ff)
        by (bit_vector);
    assert((((((f1 & 0x1ff) << 23) | ((f2 & 0x1ff) << 14)) | (d & 0x3fff)) >> 14) & 0x1ff == f2
        & 0x1ff) by (bit_vector);
    assert(((((f1 & 0x1ff) << 23) | ((f2 & 0x1ff) << 14)) | (d & 0x3fff)) & 0x3fff == d & 0x3fff)
        by (bit_vector);
    assert(((((f1 & 0x1ff) << 23) | ((f2 & 0x1ff) << 14)) | (d & 0x3fff)) >> 14 == ((f1 & 0x1ff)
        << 9) | (f2 & 0x1ff)) by (bit_vector);
}

/// Varying one input field of the address moves only its designated bits:
/// the frequency bins alone fix the high 18 bits, and the time delta alone
/// fixes the low 14 bits.
pub proof fn lemma_address_field_independence(pa: Peak, pb: Peak, qa: Peak, qb: Peak)
    ensures
        pa.freq == qa.freq && pb.freq == qb.freq ==> address_of(pa, pb) >> 14 == address_of(qa, qb)
            >> 14,
        delta_ms(pa, pb) == delta_ms(qa, qb) ==> address_of(pa, pb) & 0x3fff == address_of(qa, qb)
            & 0x3fff,
{
    lemma_address_fields(pa, pb);
    lemma_address_fields(qa, qb);
}

/// The order the generator sorts peaks in: by time, then by frequency.
pub open spec fn peak_le(a: Peak, b: Peak) -> bool {
    a.time_ms < b.time_ms || (a.time_ms == b.time_ms && a.freq <= b.freq)
}

pub open spec fn sorted_peaks(s: Seq<Peak>) -> bool {
    sorted_by(s, |a: Peak, b: Peak| peak_le(a, b))
}

/// The peak sequence reordered by (time, then frequency).
pub open spec fn sorted_version(s: Seq<Peak>) -> Seq<Peak> {
    s.sort_by(|a: Peak, b: Peak| peak_le(a, b))
}

proof fn lemma_peak_le_total()
    ensures
        total_ordering(|a: Peak, b: Peak| peak_le(a, b)),
{
    let leq = |a: Peak, b: Peak| peak_le(a, b);
    assert forall|a: Peak, b: Peak| #[trigger] leq(a, b) && #[trigger] leq(b, a) implies a == b by {
        assert(a.time_ms == b.time_ms && a.freq == b.freq);
    }
    assert forall|a: Peak, b: Peak| #[trigger] leq(a, b) || #[trigger] leq(b, a) by {
        assert(peak_le(a, b) || peak_le(b, a));
    }
}

/// A peak sequence already in (time, then frequency) order is its own
/// sorted version: on sorted input the generator emits exactly
/// `fingerprints_of` of the input itself.
pub proof fn lemma_sorted_version_of_sorted(s: Seq<Peak>)
    requires
        sorted_peaks(s),
    ensures
        sorted_version(s) == s,
{
    lemma_peak_le_total();
    let leq = |a: Peak, b: Peak| peak_le(a, b);
    s.lemma_sort_by_ensures(leq);
    lemma_sorted_unique(s, s.sort_by(leq), leq);
}

/// Selection sort of the peaks by (time, then frequency).
fn sort_peaks(input: Vec<Peak>) -> (r: Vec<Peak>)
    ensures
        r@ == sorted_version(input@),
{
    broadcast use group_to_multiset_ensures;

    let ghost orig = input@;
    let mut rest = input;
    let mut out: Vec<Peak> = Vec::new();
    assert(out@.to_multiset().add(rest@.to_multiset()) =~= orig.to_multiset());
    while rest.len() > 0
        invariant
            out@.to_multiset().add(rest@.to_multiset()) == orig.to_multiset(),
            sorted_peaks(out@),
            forall|i: int, j: int|
                0 <= i < out@.len() && 0 <= j < rest@.len() ==> peak_le(out@[i], rest@[j]),
        decreases rest.len(),
    {
        broadcast use group_to_multiset_ensures;

        let mut m: usize = 0;
        let mut k: usize = 1;
        while k < rest.len()
            invariant
                m < k <= rest.len(),
                rest@.len() > 0,
                forall|t: int| 0 <= t < k ==> peak_le(rest@[m as int], rest@[t]),
            decreases rest.len() - k,
        {
            if rest[k].time_ms < rest[m].time_ms || (rest[k].time_ms == rest[m].time_ms
                && rest[k].freq < rest[m].freq) {
                m = k;
            }
            k += 1;
        }
        let ghost out0 = out@;
        let ghost rest0 = rest@;
        let x = rest.remove(m);
        out.push(x);
        proof {
            assert(rest0.contains(x));
            assert(out@.to_multiset() =~= out0.to_multiset().insert(x));
            assert(rest@.to_multiset() =~= rest0.to_multiset().remove(x));
            assert(out@.to_multiset().add(rest@.to_multiset()) =~= orig.to_multiset());
            assert forall|i: int, j: int|
                0 <= i < out@.len() && 0 <= j < rest@.len() implies peak_le(
                out@[i],
                rest@[j],
            ) by {
                let jj = if j < m { j } else { j + 1 };
                assert(rest@[j] == rest0[jj]);
                assert(peak_le(x, rest0[jj]));
            }
            assert(sorted_peaks(out@));
        }
    }
    proof {
        lemma_peak_le_total();
        let leq = |a: Peak, b: Peak| peak_le(a, b);
        orig.lemma_sort_by_ensures(leq);
        assert(out@.to_multiset() =~= orig.to_multiset());
        lemma_sorted_unique(out@, orig.sort_by(leq), leq);
        assert(out@ =~= sorted_version(orig));
    }
    out
}

/// The fingerprint that anchor `i` of the sorted peaks `sp` derives from
/// target peak `j` of its zone.
pub open spec fn fingerprint_at(sp: Seq<Peak>, i: int, j: int) -> Fingerprint {
    Fingerprint {
        address: address_of(sp[i], sp[j]),
        anchor_address: address_of(sp[i], sp[i + NEIGHBORHOOD_SIZE as int]),
        anchor_time: sp[i].time_ms,
    }
}

/// The NEIGHBORHOOD_SIZE fingerprints anchored at peak `i`.
pub open spec fn anchor_block(sp: Seq<Peak>, i: int) -> Seq<Fingerprint> {
    Seq::new(NEIGHBORHOOD_SIZE as nat, |j: int| fingerprint_at(sp, i, i + j))
}

/// The fingerprints of all anchors before index `i`, in anchor order.
pub open spec fn blocks_to(sp: Seq<Peak>, i: int) -> Seq<Fingerprint>
    decreases i,
{
    if i <= 0 {
        Seq::empty()
    } else {
        blocks_to(sp, i - 1) + anchor_block(sp, i - 1)
    }
}

/// How many peaks of a clip of `n` peaks are eligible anchors: those whose
/// full target zone of NEIGHBORHOOD_SIZE later peaks exists.
pub open spec fn num_anchors(n: int) -> int {
    if n > NEIGHBORHOOD_SIZE as int {
        n - NEIGHBORHOOD_SIZE as int
    } else {
        0
    }
}

/// All fingerprints of a sorted peak sequence.
pub open spec fn fingerprints_of(sp: Seq<Peak>) -> Seq<Fingerprint> {
    blocks_to(sp, num_anchors(sp.len() as int))
}

/// Sorts the peaks by (time, then frequency) and derives the fingerprints:
/// each eligible anchor `i` is paired with every peak of its target zone
/// `[i, i + NEIGHBORHOOD_SIZE)`, and its anchor address with the zone's
/// boundary peak `i + NEIGHBORHOOD_SIZE`. A clip with too few peaks yields
/// no fingerprints.
pub fn generate_fingerprint(peaks: Vec<Peak>) -> (r: Vec<Fingerprint>)
    ensures
        r@ == fingerprints_of(sorted_version(peaks@)),
{
    let ghost orig = peaks@;
    let peaks = sort_peaks(peaks);
    let ghost sp = peaks@;
    let mut addresses: Vec<Fingerprint> = Vec::new();
    if peaks.len() <= NEIGHBORHOOD_SIZE {
        assert(fingerprints_of(sp) =~= addresses@);
        return addresses;
    }
    let bound = peaks.len() - NEIGHBORHOOD_SIZE;
    let mut i: usize = 0;
    while i < bound
        invariant
            sp == peaks@,
            NEIGHBORHOOD_SIZE < peaks.len(),
            bound == peaks.len() - NEIGHBORHOOD_SIZE,
            i <= bound,
            addresses@ == blocks_to(sp, i as int),
        decreases bound - i,
    {
        let anchor_address = build_address(&peaks[i], &peaks[i + NEIGHBORHOOD_SIZE]);
        let ghost before = addresses@;
        let mut j = i;
        while j < i + NEIGHBORHOOD_SIZE
            invariant
                sp == peaks@,
                NEIGHBORHOOD_SIZE < peaks.len(),
                bound == peaks.len() - NEIGHBORHOOD_SIZE,
                i < bound,
                i <= j <= i + NEIGHBORHOOD_SIZE,
                anchor_address == address_of(sp[i as int], sp[i + NEIGHBORHOOD_SIZE as int]),
                addresses@ == before + Seq::new(
                    (j - i) as nat,
                    |k: int| fingerprint_at(sp, i as int, i + k),
                ),
            decreases i + NEIGHBORHOOD_SIZE - j,
        {
            let address = build_address(&peaks[i], &peaks[j]);
            addresses.push(
                Fingerprint { address, anchor_address, anchor_time: peaks[i].time_ms },
            );
            j += 1;
            assert(addresses@ =~= before + Seq::new(
                (j - i) as nat,
                |k: int| fingerprint_at(sp, i as int, i + k),
            ));
        }
        i += 1;
        assert(addresses@ =~= blocks_to(sp, i as int)) by {
            assert(Seq::new(
                NEIGHBORHOOD_SIZE as nat,
                |k: int| fingerprint_at(sp, (i - 1) as int, i - 1 + k),
            ) =~= anchor_block(sp, i - 1));
        }
    }
    assert(addresses@ == fingerprints_of(sp));
    addresses
}

/// Each eligible anchor emits exactly NEIGHBORHOOD_SIZE fingerprints, and
/// all of them share that anchor's address hash and time.
pub proof fn lemma_fingerprints_per_anchor(sp: Seq<Peak>, i: int)
    requires
        0 <= i < num_anchors(sp.len() as int),
    ensures
        fingerprints_of(sp).len() == num_anchors(sp.len() as int) * NEIGHBORHOOD_SIZE,
        forall|k: int|
            0 <= k < NEIGHBORHOOD_SIZE ==> #[trigger] fingerprints_of(sp)[i * NEIGHBORHOOD_SIZE
                + k] == fingerprint_at(sp, i, i + k),
        forall|k: int|
            0 <= k < NEIGHBORHOOD_SIZE ==> (#[trigger] fingerprints_of(sp)[i * NEIGHBORHOOD_SIZE
                + k]).anchor_address == address_of(sp[i], sp[i + NEIGHBORHOOD_SIZE as int]),
        forall|k: int|
            0 <= k < NEIGHBORHOOD_SIZE ==> (#[trigger] fingerprints_of(sp)[i * NEIGHBORHOOD_SIZE
                + k]).anchor_time == sp[i].time_ms,
{
    lemma_blocks_to_len(sp, num_anchors(sp.len() as int));
    lemma_blocks_to_index(sp, num_anchors(sp.len() as int), i);
}

proof fn lemma_blocks_to_len(sp: Seq<Peak>, n: int)
    requires
        n >= 0,
    ensures
        blocks_to(sp, n).len() == n * NEIGHBORHOOD_SIZE,
    decreases n,
{
    if n > 0 {
        lemma_blocks_to_len(sp, n - 1);
        assert((n - 1) * NEIGHBORHOOD_SIZE + NEIGHBORHOOD_SIZE == n * NEIGHBORHOOD_SIZE)
            by (nonlinear_arith);
    }
}

proof fn lemma_blocks_to_index(sp: Seq<Peak>, n: int, i: int)
    requires
        0 <= i < n,
    ensures
        forall|k: int|
            0 <= k < NEIGHBORHOOD_SIZE ==> #[trigger] blocks_to(sp, n)[i * NEIGHBORHOOD_SIZE + k]
                == fingerprint_at(sp, i, i + k),
    decreases n,
{
    lemma_blocks_to_len(sp, n);
    if i == n - 1 {
        lemma_blocks_to_len(sp, n - 1);
        assert forall|k: int| 0 <= k < NEIGHBORHOOD_SIZE implies #[trigger] blocks_to(sp, n)[i
            * NEIGHBORHOOD_SIZE + k] == fingerprint_at(sp, i, i + k) by {
            assert(i * NEIGHBORHOOD_SIZE + k == (n - 1) * NEIGHBORHOOD_SIZE + k);
            assert(blocks_to(sp, n)[(n - 1) * NEIGHBORHOOD_SIZE + k] == anchor_block(sp, n - 1)[k]);
        }
    } else {
        lemma_blocks_to_index(sp, n - 1, i);
        lemma_blocks_to_len(sp, n - 1);
        assert forall|k: int| 0 <= k < NEIGHBORHOOD_SIZE implies #[trigger] blocks_to(sp, n)[i
            * NEIGHBORHOOD_SIZE + k] == fingerprint_at(sp, i, i + k) by {
            assert(i * NEIGHBORHOOD_SIZE + k < (n - 1) * NEIGHBORHOOD_SIZE) by (nonlinear_arith)
                requires 0 <= k < NEIGHBORHOOD_SIZE, 0 <= i < n - 1;
            assert(blocks_to(sp, n)[i * NEIGHBORHOOD_SIZE + k] == blocks_to(sp, n - 1)[i
                * NEIGHBORHOOD_SIZE + k]);
        }
    }
}

} // verus!
