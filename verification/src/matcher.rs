use vstd::prelude::*;
use vstd::seq_lib::group_to_multiset_ensures;

use crate::fingerprint::{Fingerprint, FingerprintData};
use crate::utils::{
    chain_values, is_index_chain, longest_increasing_subsequence, non_decreasing,
    strictly_increasing,
};
use crate::NEIGHBORHOOD_SIZE;

verus! {

/// The grouping key of the neighborhood-completeness filter: one anchor of
/// one song, as seen in the retrieved records.
#[derive(Debug, Clone, Copy, PartialEq, Eq, Hash, Structural)]
pub struct Couples {
    pub anchor_address: u32,
    pub anchor_time: u32,
    pub song_id: i32,
}

pub open spec fn couple_of(r: FingerprintData) -> Couples {
    Couples {
        anchor_address: r.fingerprint.anchor_address,
        anchor_time: r.fingerprint.anchor_time,
        song_id: r.song_id,
    }
}

/// How many records of `recs` carry the couple `c`.
pub open spec fn couple_count(recs: Seq<FingerprintData>, c: Couples) -> nat
    decreases recs.len(),
{
    if recs.len() == 0 {
        0
    } else {
        couple_count(recs.drop_last(), c) + (if couple_of(recs.last()) == c {
            1nat
        } else {
            0nat
        })
    }
}

/// The records that pass the neighborhood-completeness filter, in retrieval
/// order: a record is kept exactly when it is the NEIGHBORHOOD_SIZE-th
/// occurrence of its couple, so each couple is kept at most once, and only
/// once its whole neighborhood has collided.
pub open spec fn accepted_list(recs: Seq<FingerprintData>) -> Seq<FingerprintData>
    decreases recs.len(),
{
    if recs.len() == 0 {
        Seq::empty()
    } else {
        accepted_list(recs.drop_last()) + (if couple_count(recs, couple_of(recs.last()))
            == NEIGHBORHOOD_SIZE {
            seq![recs.last()]
        } else {
            Seq::empty()
        })
    }
}

/// A couple that collides fewer than NEIGHBORHOOD_SIZE times contributes
/// nothing: no accepted record carries it, even if some of its sub-hashes
/// collided.
pub proof fn lemma_neighborhood_filter(recs: Seq<FingerprintData>, c: Couples)
    requires
        couple_count(recs, c) < NEIGHBORHOOD_SIZE,
    ensures
        forall|k: int|
            0 <= k < accepted_list(recs).len() ==> couple_of(#[trigger] accepted_list(recs)[k])
                != c,
    decreases recs.len(),
{
    if recs.len() > 0 {
        lemma_neighborhood_filter(recs.drop_last(), c);
        let pre = accepted_list(recs.drop_last());
        assert forall|k: int| 0 <= k < accepted_list(recs).len() implies couple_of(
            #[trigger] accepted_list(recs)[k],
        ) != c by {
            if k < pre.len() {
                assert(accepted_list(recs)[k] == pre[k]);
            } else {
                assert(accepted_list(recs)[k] == recs.last());
                assert(couple_count(recs, couple_of(recs.last())) == NEIGHBORHOOD_SIZE);
            }
        }
    }
}

/// A couple that collides NEIGHBORHOOD_SIZE or more times is accepted
/// exactly once, whatever order the records arrive in; one that falls
/// short is never accepted.
pub proof fn lemma_complete_neighborhood_accepted_once(recs: Seq<FingerprintData>, c: Couples)
    ensures
        couple_count(accepted_list(recs), c) == if couple_count(recs, c) >= NEIGHBORHOOD_SIZE {
            1nat
        } else {
            0nat
        },
    decreases recs.len(),
{
    if recs.len() > 0 {
        let pre = recs.drop_last();
        let last = recs.last();
        lemma_complete_neighborhood_accepted_once(pre, c);
        if couple_count(recs, couple_of(last)) == NEIGHBORHOOD_SIZE {
            assert(accepted_list(recs) =~= accepted_list(pre).push(last));
            assert(accepted_list(recs).drop_last() =~= accepted_list(pre));
        } else {
            assert(accepted_list(recs) =~= accepted_list(pre));
        }
    }
}

/// The neighborhood-completeness filter. Couples are counted across the
/// retrieved records; a record is emitted exactly when its couple's count
/// reaches NEIGHBORHOOD_SIZE.
pub fn accepted_records(records: &Vec<FingerprintData>) -> (acc: Vec<FingerprintData>)
    ensures
        acc@ == accepted_list(records@),
{
    let mut acc: Vec<FingerprintData> = Vec::new();
    let mut i: usize = 0;
    while i < records.len()
        invariant
            i <= records@.len(),
            acc@ == accepted_list(records@.take(i as int)),
        decreases records@.len() - i,
    {
        let r = records[i];
        let c = Couples {
            anchor_address: r.fingerprint.anchor_address,
            anchor_time: r.fingerprint.anchor_time,
            song_id: r.song_id,
        };
        assert(c == couple_of(r));
        let mut cnt: usize = 0;
        let mut t: usize = 0;
        while t <= i
            invariant
                t <= i + 1,
                i < records@.len(),
                records@.len() <= usize::MAX,
                cnt == couple_count(records@.take(t as int), c),
                cnt <= t,
            decreases i + 1 - t,
        {
            let s = records[t];
            let sc = Couples {
                anchor_address: s.fingerprint.anchor_address,
                anchor_time: s.fingerprint.anchor_time,
                song_id: s.song_id,
            };
            assert(records@.take(t + 1).drop_last() =~= records@.take(t as int));
            assert(records@.take(t + 1).last() == s);
            if sc.anchor_address == c.anchor_address && sc.anchor_time == c.anchor_time
                && sc.song_id == c.song_id {
                cnt = cnt + 1;
                assert(couple_of(s) == c);
            } else {
                assert(couple_of(s) != c);
            }
            t += 1;
        }
        assert(records@.take(i + 1).drop_last() =~= records@.take(i as int));
        assert(records@.take(i + 1).last() == r);
        if cnt == NEIGHBORHOOD_SIZE {
            acc.push(r);
            assert(acc@ =~= accepted_list(records@.take(i + 1)));
        } else {
            assert(acc@ =~= accepted_list(records@.take(i + 1)));
        }
        i += 1;
    }
    assert(records@.take(records@.len() as int) =~= records@);
    acc
}

/// The distinct song ids of the accepted records, in order of first
/// acceptance.
pub open spec fn song_ids(acc: Seq<FingerprintData>) -> Seq<i32>
    decreases acc.len(),
{
    if acc.len() == 0 {
        Seq::empty()
    } else {
        let pre = song_ids(acc.drop_last());
        if pre.contains(acc.last().song_id) {
            pre
        } else {
            pre.push(acc.last().song_id)
        }
    }
}

/// The fingerprints of the accepted records of one song, in acceptance
/// order.
pub open spec fn fps_of_song(acc: Seq<FingerprintData>, sid: i32) -> Seq<Fingerprint>
    decreases acc.len(),
{
    if acc.len() == 0 {
        Seq::empty()
    } else {
        fps_of_song(acc.drop_last(), sid) + (if acc.last().song_id == sid {
            seq![acc.last().fingerprint]
        } else {
            Seq::empty()
        })
    }
}

/// Each accepted song is listed once.
proof fn lemma_song_ids_distinct(acc: Seq<FingerprintData>)
    ensures
        forall|i: int, j: int|
            0 <= i < j < song_ids(acc).len() ==> song_ids(acc)[i] != song_ids(acc)[j],
    decreases acc.len(),
{
    if acc.len() > 0 {
        let pre = song_ids(acc.drop_last());
        let sid = acc.last().song_id;
        lemma_song_ids_distinct(acc.drop_last());
        if !pre.contains(sid) {
            assert forall|i: int, j: int|
                0 <= i < j < song_ids(acc).len() implies song_ids(acc)[i] != song_ids(
                acc,
            )[j] by {
                if j == song_ids(acc).len() - 1 {
                    assert(song_ids(acc)[i] == pre[i]);
                    assert(!pre.contains(sid));
                }
            }
        }
    }
}

fn song_id_list(acc: &Vec<FingerprintData>) -> (ids: Vec<i32>)
    ensures
        ids@ == song_ids(acc@),
{
    let mut ids: Vec<i32> = Vec::new();
    let mut i: usize = 0;
    while i < acc.len()
        invariant
            i <= acc@.len(),
            ids@ == song_ids(acc@.take(i as int)),
        decreases acc@.len() - i,
    {
        let sid = acc[i].song_id;
        let mut seen = false;
        let mut t: usize = 0;
        while t < ids.len()
            invariant
                t <= ids@.len(),
                seen <==> exists|u: int| 0 <= u < t && ids@[u] == sid,
            decreases ids@.len() - t,
        {
            if ids[t] == sid {
                seen = true;
            }
            t += 1;
        }
        assert(seen <==> ids@.contains(sid));
        assert(acc@.take(i + 1).drop_last() =~= acc@.take(i as int));
        assert(acc@.take(i + 1).last() == acc@[i as int]);
        if !seen {
            ids.push(sid);
        }
        i += 1;
    }
    assert(acc@.take(acc@.len() as int) =~= acc@);
    ids
}

fn fingerprints_for_song(acc: &Vec<FingerprintData>, sid: i32) -> (fps: Vec<Fingerprint>)
    ensures
        fps@ == fps_of_song(acc@, sid),
{
    let mut fps: Vec<Fingerprint> = Vec::new();
    let mut i: usize = 0;
    while i < acc.len()
        invariant
            i <= acc@.len(),
            fps@ == fps_of_song(acc@.take(i as int), sid),
        decreases acc@.len() - i,
    {
        assert(acc@.take(i + 1).drop_last() =~= acc@.take(i as int));
        assert(acc@.take(i + 1).last() == acc@[i as int]);
        if acc[i].song_id == sid {
            fps.push(acc[i].fingerprint);
            assert(fps@ =~= fps_of_song(acc@.take(i + 1), sid));
        } else {
            assert(fps@ =~= fps_of_song(acc@.take(i + 1), sid));
        }
        i += 1;
    }
    assert(acc@.take(acc@.len() as int) =~= acc@);
    fps
}

/// The position of the last query fingerprint whose address is `addr`, or
/// -1 when no query fingerprint carries it. Matches how the position index
/// is built: a later duplicate address overwrites an earlier one.
pub open spec fn last_index_of(q: Seq<Fingerprint>, addr: u32) -> int
    decreases q.len(),
{
    if q.len() == 0 {
        -1
    } else if q.last().address == addr {
        q.len() - 1
    } else {
        last_index_of(q.drop_last(), addr)
    }
}

fn find_last_index(q: &Vec<Fingerprint>, addr: u32) -> (r: (bool, usize))
    ensures
        r.0 <==> last_index_of(q@, addr) >= 0,
        r.0 ==> r.1 as int == last_index_of(q@, addr),
{
    let mut found = false;
    let mut idx: usize = 0;
    let mut t: usize = 0;
    while t < q.len()
        invariant
            t <= q@.len(),
            found <==> last_index_of(q@.take(t as int), addr) >= 0,
            found ==> idx as int == last_index_of(q@.take(t as int), addr),
        decreases q@.len() - t,
    {
        assert(q@.take(t + 1).drop_last() =~= q@.take(t as int));
        assert(q@.take(t + 1).last() == q@[t as int]);
        if q[t].address == addr {
            found = true;
            idx = t;
        }
        t += 1;
    }
    assert(q@.take(q@.len() as int) =~= q@);
    (found, idx)
}

/// The fingerprints whose address occurs somewhere in the query, in their
/// incoming order.
pub open spec fn present_fps(fps: Seq<Fingerprint>, q: Seq<Fingerprint>) -> Seq<Fingerprint>
    decreases fps.len(),
{
    if fps.len() == 0 {
        Seq::empty()
    } else {
        present_fps(fps.drop_last(), q) + (if last_index_of(q, fps.last().address) >= 0 {
            seq![fps.last()]
        } else {
            Seq::empty()
        })
    }
}

/// `a` comes no later than `b` in the query's own timeline.
pub open spec fn query_order_le(a: Fingerprint, b: Fingerprint, q: Seq<Fingerprint>) -> bool {
    last_index_of(q, a.address) <= last_index_of(q, b.address)
}

/// Keeps the fingerprints whose address the query contains and sorts them
/// by where that address occurs in the query, reconstructing the query's
/// playback order among the matches.
pub fn order_by_query(fps: Vec<Fingerprint>, q: &Vec<Fingerprint>) -> (r: Vec<Fingerprint>)
    ensures
        r@.to_multiset() == present_fps(fps@, q@).to_multiset(),
        forall|i: int, j: int| 0 <= i < j < r@.len() ==> query_order_le(r@[i], r@[j], q@),
{
    broadcast use group_to_multiset_ensures;

    let mut kept: Vec<Fingerprint> = Vec::new();
    let mut i: usize = 0;
    while i < fps.len()
        invariant
            i <= fps@.len(),
            kept@ == present_fps(fps@.take(i as int), q@),
            forall|k: int|
                0 <= k < kept@.len() ==> last_index_of(q@, #[trigger] kept@[k].address) >= 0,
        decreases fps@.len() - i,
    {
        assert(fps@.take(i + 1).drop_last() =~= fps@.take(i as int));
        assert(fps@.take(i + 1).last() == fps@[i as int]);
        let f = fps[i];
        let fo = find_last_index(q, f.address);
        if fo.0 {
            kept.push(f);
            assert(kept@ =~= present_fps(fps@.take(i + 1), q@));
        } else {
            assert(kept@ =~= present_fps(fps@.take(i + 1), q@));
        }
        i += 1;
    }
    assert(fps@.take(fps@.len() as int) =~= fps@);
    let ghost orig = kept@;
    let mut rest = kept;
    let mut out: Vec<Fingerprint> = Vec::new();
    assert(out@.to_multiset().add(rest@.to_multiset()) =~= orig.to_multiset());
    while rest.len() > 0
        invariant
            out@.to_multiset().add(rest@.to_multiset()) == orig.to_multiset(),
            forall|i2: int, j2: int|
                0 <= i2 < j2 < out@.len() ==> query_order_le(out@[i2], out@[j2], q@),
            forall|i2: int, j2: int|
                0 <= i2 < out@.len() && 0 <= j2 < rest@.len() ==> query_order_le(
                    out@[i2],
                    rest@[j2],
                    q@,
                ),
            forall|k: int|
                0 <= k < rest@.len() ==> last_index_of(q@, #[trigger] rest@[k].address) >= 0,
        decreases rest.len(),
    {
        broadcast use group_to_multiset_ensures;

        let mut m: usize = 0;
        let mut k: usize = 1;
        while k < rest.len()
            invariant
                m < k <= rest@.len(),
                rest@.len() > 0,
                forall|t: int| 0 <= t < k ==> query_order_le(rest@[m as int], rest@[t], q@),
                forall|t: int|
                    0 <= t < rest@.len() ==> last_index_of(q@, #[trigger] rest@[t].address) >= 0,
            decreases rest@.len() - k,
        {
            let pk = find_last_index(q, rest[k].address);
            let pm = find_last_index(q, rest[m].address);
            if pk.1 < pm.1 {
                m = k;
            }
            k += 1;
        }
        let ghost out0 = out@;
        let ghost rest0 = rest@;
        let x = rest.remove(m);
        out.push(x);
        proof {
            assert(rest0.contains(x));
            assert(out@.to_multiset() =~= out0.to_multiset().insert(x));
            assert(rest@.to_multiset() =~= rest0.to_multiset().remove(x));
            assert(out@.to_multiset().add(rest@.to_multiset()) =~= orig.to_multiset());
            assert forall|i2: int, j2: int|
                0 <= i2 < out@.len() && 0 <= j2 < rest@.len() implies query_order_le(
                out@[i2],
                rest@[j2],
                q@,
            ) by {
                let jj = if j2 < m { j2 } else { j2 + 1 };
                assert(rest@[j2] == rest0[jj]);
                assert(query_order_le(x, rest0[jj], q@));
            }
            assert forall|k2: int| 0 <= k2 < rest@.len() implies last_index_of(
                q@,
                #[trigger] rest@[k2].address,
            ) >= 0 by {
                let jj = if k2 < m { k2 } else { k2 + 1 };
                assert(rest@[k2] == rest0[jj]);
            }
        }
    }
    proof {
        assert(out@.to_multiset() =~= orig.to_multiset());
    }
    out
}

fn anchor_times(fps: &Vec<Fingerprint>) -> (r: Vec<u32>)
    ensures
        r@ == fps@.map_values(|f: Fingerprint| f.anchor_time),
{
    let mut r: Vec<u32> = Vec::new();
    let mut i: usize = 0;
    while i < fps.len()
        invariant
            i <= fps@.len(),
            r@ == fps@.take(i as int).map_values(|f: Fingerprint| f.anchor_time),
        decreases fps@.len() - i,
    {
        r.push(fps[i].anchor_time);
        i += 1;
        assert(r@ =~= fps@.take(i as int).map_values(|f: Fingerprint| f.anchor_time));
    }
    assert(fps@.take(fps@.len() as int) =~= fps@);
    r
}

/// `[l, r]` is a window of `s` whose time span stays within `dur`.
pub open spec fn valid_window(s: Seq<u32>, dur: u32, l: int, r: int) -> bool {
    0 <= l <= r < s.len() && s[r] - s[l] <= dur
}

/// The sliding-window relevance score: the greatest number of aligned
/// matches whose times fit together inside a window of span at most
/// `sample_duration`.
pub fn sliding_window_score(times: &Vec<u32>, sample_duration: u32) -> (score: usize)
    requires
        non_decreasing(times@),
    ensures
        times@.len() == 0 ==> score == 0,
        times@.len() > 0 ==> exists|l: int, r: int|
            #[trigger] valid_window(times@, sample_duration, l, r) && score == r - l + 1,
        forall|l: int, r: int|
            #[trigger] valid_window(times@, sample_duration, l, r) ==> r - l + 1 <= score,
{
    let n = times.len();
    let mut l: usize = 0;
    let mut score: usize = 0;
    let mut r: usize = 0;
    while r < n
        invariant
            n == times@.len(),
            non_decreasing(times@),
            l <= r <= n,
            l == 0 || (r >= 1 && times@[r - 1] - times@[l - 1] > sample_duration),
            forall|l2: int, r2: int|
                #[trigger] valid_window(times@, sample_duration, l2, r2) && r2 < r ==> r2 - l2 + 1
                    <= score,
            r == 0 ==> score == 0 && l == 0,
            r > 0 ==> exists|l2: int, r2: int|
                #[trigger] valid_window(times@, sample_duration, l2, r2) && r2 < r && score == r2
                    - l2 + 1,
        decreases n - r,
    {
        let ghost l_entry = l;
        while times[r] - times[l] > sample_duration
            invariant
                l_entry <= l <= r < n,
                n == times@.len(),
                non_decreasing(times@),
                l == l_entry || times@[r as int] - times@[l - 1] > sample_duration,
            decreases r - l,
        {
            l += 1;
        }
        proof {
            if l > 0 {
                if l == l_entry {
                    assert(r >= 1 && times@[r - 1] - times@[l - 1] > sample_duration);
                    assert(times@[r - 1] <= times@[r as int]);
                }
                assert(times@[r as int] - times@[l - 1] > sample_duration);
            }
        }
        let cur = r - l + 1;
        if cur > score {
            score = cur;
        }
        proof {
            assert(valid_window(times@, sample_duration, l as int, r as int));
            assert forall|l2: int, r2: int|
                #[trigger] valid_window(times@, sample_duration, l2, r2) && r2 < r + 1 implies r2
                - l2 + 1 <= score by {
                if r2 == r {
                    if l2 < l {
                        assert(times@[l2] <= times@[l - 1]);
                        assert(false);
                    }
                }
            }
        }
        r += 1;
    }
    score
}

/// When the whole aligned run spans no more than the sample duration, the
/// sliding window covers all of it and the score is its full length. The
/// last two premises are what `sliding_window_score` ensures of its
/// result.
pub proof fn lemma_full_span_scores_full_length(s: Seq<u32>, dur: u32, score: int)
    requires
        s.len() > 0,
        s[s.len() - 1] - s[0] <= dur,
        exists|l: int, r: int| #[trigger] valid_window(s, dur, l, r) && score == r - l + 1,
        forall|l: int, r: int| #[trigger] valid_window(s, dur, l, r) ==> r - l + 1 <= score,
    ensures
        score == s.len(),
{
    assert(valid_window(s, dur, 0, s.len() - 1));
}

pub open spec fn sorted_desc(s: Seq<(i32, i32)>) -> bool {
    forall|i: int, j: int| 0 <= i < j < s.len() ==> s[i].1 >= s[j].1
}

/// `res` keeps the best of `all`: it is a prefix of some score-descending
/// rearrangement of `all`, so no dropped entry outscores a kept one.
pub open spec fn is_top_of(res: Seq<(i32, i32)>, all: Seq<(i32, i32)>) -> bool {
    exists|s: Seq<(i32, i32)>|
        #[trigger] sorted_desc(s) && s.to_multiset() == all.to_multiset() && res.len() <= s.len()
            && res == s.take(res.len() as int)
}

/// A coherent song's ranked entry carries exactly its match count: with
/// matches that agree with the query's order and fit one window, the
/// legitimate score behind the entry is the full count, and it is small
/// enough not to saturate.
pub proof fn lemma_coherent_entry_scores_match_count(
    q: Seq<Fingerprint>,
    records: Seq<FingerprintData>,
    dur: u32,
    e: (i32, i32),
)
    requires
        scored_entry_ok(q, records, dur, e),
        time_coherent(matched_fps(records, e.0, q), q, dur),
        matched_fps(records, e.0, q).len() <= i32::MAX,
    ensures
        e.1 == matched_fps(records, e.0, q).len(),
{
    reveal(scored_entry_ok);
    let sc = choose|sc: int| #[trigger] valid_score(q, records, dur, e.0, sc) && e.1
        == clamp_score(sc);
    lemma_coherent_song_scores_all(q, records, dur, e.0, sc);
}

/// The strictly best-scoring song is ranked first: when one entry of the
/// full scoring strictly outscores every other, any non-empty kept
/// prefix of a score-descending rearrangement starts with it. Together
/// with `lemma_coherent_song_scores_all` this puts a fully coherent
/// match of the query at the top of the ranking, with its full score.
pub proof fn lemma_strict_best_ranks_first(res: Seq<(i32, i32)>, all: Seq<(i32, i32)>, w: int)
    requires
        is_top_of(res, all),
        res.len() >= 1,
        0 <= w < all.len(),
        forall|k: int| 0 <= k < all.len() && k != w ==> (#[trigger] all[k]).1 < all[w].1,
    ensures
        res[0] == all[w],
{
    broadcast use group_to_multiset_ensures;

    let s = choose|s: Seq<(i32, i32)>|
        #[trigger] sorted_desc(s) && s.to_multiset() == all.to_multiset() && res.len() <= s.len()
            && res == s.take(res.len() as int);
    assert(res[0] == s[0]);
    if s[0] != all[w] {
        assert(all.contains(all[w]));
        assert(s.to_multiset().count(all[w]) > 0);
        assert(s.contains(all[w]));
        let j = choose|j: int| 0 <= j < s.len() && s[j] == all[w];
        assert(s[0].1 >= s[j].1);
        assert(s.contains(s[0]));
        assert(all.to_multiset().count(s[0]) > 0);
        assert(all.contains(s[0]));
        let k0 = choose|k0: int| 0 <= k0 < all.len() && all[k0] == s[0];
        assert(all[k0] != all[w]);
        assert(k0 != w);
        assert(all[k0].1 < all[w].1);
        assert(false);
    }
}

/// `all` scores every song that survived the neighborhood filter, in
/// first-acceptance order, each with a legitimate score.
pub open spec fn full_scoring(
    q: Seq<Fingerprint>,
    records: Seq<FingerprintData>,
    dur: u32,
    all: Seq<(i32, i32)>,
) -> bool {
    &&& all.len() == song_ids(accepted_list(records)).len()
    &&& forall|k: int|
        0 <= k < all.len() ==> (#[trigger] all[k]).0 == song_ids(accepted_list(records))[k]
            && scored_entry_ok(q, records, dur, all[k])
}

/// Sorts the scored songs by descending score and keeps the best `rank`.
/// The result is a prefix of some score-descending rearrangement of the
/// input; equal scores carry no promised order.
pub fn rank_songs(scored: Vec<(i32, i32)>, rank: usize) -> (r: Vec<(i32, i32)>)
    ensures
        sorted_desc(r@),
        r@.len() == if rank <= scored@.len() {
            rank as int
        } else {
            scored@.len() as int
        },
        forall|k: int| 0 <= k < r@.len() ==> scored@.to_multiset().contains(#[trigger] r@[k]),
        is_top_of(r@, scored@),
        (forall|i: int, j: int|
            0 <= i < j < scored@.len() ==> (#[trigger] scored@[i]).0 != (#[trigger] scored@[j]).0)
            ==> (forall|i: int, j: int|
            0 <= i < j < r@.len() ==> (#[trigger] r@[i]).0 != (#[trigger] r@[j]).0),
{
    broadcast use group_to_multiset_ensures;

    let ghost orig = scored@;
    let mut rest = scored;
    let mut out: Vec<(i32, i32)> = Vec::new();
    assert(out@.to_multiset().add(rest@.to_multiset()) =~= orig.to_multiset());
    while rest.len() > 0
        invariant
            out@.to_multiset().add(rest@.to_multiset()) == orig.to_multiset(),
            out@.len() + rest@.len() == orig.len(),
            sorted_desc(out@),
            forall|i: int, j: int|
                0 <= i < out@.len() && 0 <= j < rest@.len() ==> out@[i].1 >= rest@[j].1,
        decreases rest.len(),
    {
        broadcast use group_to_multiset_ensures;

        let mut m: usize = 0;
        let mut k: usize = 1;
        while k < rest.len()
            invariant
                m < k <= rest@.len(),
                rest@.len() > 0,
                forall|t: int| 0 <= t < k ==> rest@[m as int].1 >= rest@[t].1,
            decreases rest@.len() - k,
        {
            if rest[k].1 > rest[m].1 {
                m = k;
            }
            k += 1;
        }
        let ghost out0 = out@;
        let ghost rest0 = rest@;
        let x = rest.remove(m);
        out.push(x);
        proof {
            assert(rest0.contains(x));
            assert(out@.to_multiset() =~= out0.to_multiset().insert(x));
            assert(rest@.to_multiset() =~= rest0.to_multiset().remove(x));
            assert(out@.to_multiset().add(rest@.to_multiset()) =~= orig.to_multiset());
            assert forall|i2: int, j2: int|
                0 <= i2 < out@.len() && 0 <= j2 < rest@.len() implies out@[i2].1 >= rest@[j2].1 by {
                let jj = if j2 < m { j2 } else { j2 + 1 };
                assert(rest@[j2] == rest0[jj]);
                assert(x.1 >= rest0[jj].1);
            }
            assert(sorted_desc(out@));
        }
    }
    proof {
        assert(out@.to_multiset() =~= orig.to_multiset());
    }
    let ghost sorted_full = out@;
    let mut out = out;
    out.truncate(rank);
    proof {
        if rank <= sorted_full.len() {
            assert(out@ =~= sorted_full.take(rank as int));
        } else {
            assert(out@ =~= sorted_full.take(sorted_full.len() as int));
        }
        assert(out@ =~= sorted_full.take(out@.len() as int));
        assert(sorted_desc(sorted_full));
        assert(is_top_of(out@, orig));
        assert forall|k: int| 0 <= k < out@.len() implies orig.to_multiset().contains(
            #[trigger] out@[k],
        ) by {
            assert(out@[k] == sorted_full[k]);
            assert(sorted_full.contains(sorted_full[k]));
        }
        if forall|i: int, j: int|
            0 <= i < j < orig.len() ==> (#[trigger] orig[i]).0 != (#[trigger] orig[j]).0 {
            assert(orig.no_duplicates()) by {
                assert forall|i: int, j: int|
                    0 <= i < orig.len() && 0 <= j < orig.len() && i != j implies orig[i]
                    != orig[j] by {
                    if i < j {
                        assert(orig[i].0 != orig[j].0);
                    } else {
                        assert(orig[j].0 != orig[i].0);
                    }
                }
            }
            orig.lemma_multiset_has_no_duplicates();
            assert forall|x: (i32, i32)| sorted_full.to_multiset().contains(x) implies
                sorted_full.to_multiset().count(x) == 1 by {
                assert(sorted_full.to_multiset() == orig.to_multiset());
            }
            sorted_full.lemma_multiset_has_no_duplicates_conv();
            assert forall|i: int, j: int|
                0 <= i < j < out@.len() implies (#[trigger] out@[i]).0 != (#[trigger] out@[j]).0 by {
                let p1 = out@[i];
                let p2 = out@[j];
                assert(p1 == sorted_full[i] && p2 == sorted_full[j]);
                assert(p1 != p2);
                if p1.0 == p2.0 {
                    assert(sorted_full.contains(p1));
                    assert(sorted_full.contains(p2));
                    assert(orig.contains(p1));
                    assert(orig.contains(p2));
                    let k1 = choose|k: int| 0 <= k < orig.len() && orig[k] == p1;
                    let k2 = choose|k: int| 0 <= k < orig.len() && orig[k] == p2;
                    assert(orig[k1].0 == orig[k2].0 && k1 != k2);
                    assert(false);
                }
            }
        }
    }
    out
}

/// `sc` is the greatest number of elements of `lis` that fit together in
/// a window of span at most `dur`; zero when `lis` is empty.
pub open spec fn max_window_count(lis: Seq<u32>, dur: u32, sc: int) -> bool {
    if lis.len() == 0 {
        sc == 0
    } else {
        (exists|l: int, r: int| #[trigger] valid_window(lis, dur, l, r) && sc == r - l + 1)
            && (forall|l: int, r: int|
            #[trigger] valid_window(lis, dur, l, r) ==> r - l + 1 <= sc)
    }
}

/// `ordered` is `fps` restricted to addresses the query holds, arranged
/// by their position in the query's own timeline.
pub open spec fn is_query_ordering(
    ordered: Seq<Fingerprint>,
    fps: Seq<Fingerprint>,
    q: Seq<Fingerprint>,
) -> bool {
    &&& ordered.to_multiset() == present_fps(fps, q).to_multiset()
    &&& forall|i: int, j: int|
        0 <= i < j < ordered.len() ==> query_order_le(ordered[i], ordered[j], q)
}

/// `lis` is a longest strictly increasing subsequence of `times`.
pub open spec fn is_lis_of(lis: Seq<u32>, times: Seq<u32>) -> bool {
    &&& exists|idx: Seq<int>| is_index_chain(idx, times) && chain_values(idx, times) == lis
    &&& forall|idx: Seq<int>| #[trigger] is_index_chain(idx, times) ==> idx.len() <= lis.len()
}

/// A score too large for the result field saturates at i32::MAX.
pub open spec fn clamp_score(sc: int) -> int {
    if sc > i32::MAX as int {
        i32::MAX as int
    } else {
        sc
    }
}

/// `sc` is a legitimate relevance score for song `sid` against the
/// retrieved records: the song's accepted fingerprints, put in query
/// order, admit a longest strictly increasing subsequence of their anchor
/// times whose densest `dur`-window holds exactly `sc` matches.
#[verifier::opaque]
pub open spec fn valid_score(
    q: Seq<Fingerprint>,
    records: Seq<FingerprintData>,
    dur: u32,
    sid: i32,
    sc: int,
) -> bool {
    exists|ordered: Seq<Fingerprint>, lis: Seq<u32>|
        {
            &&& #[trigger] is_query_ordering(
                ordered,
                fps_of_song(accepted_list(records), sid),
                q,
            )
            &&& is_lis_of(lis, ordered.map_values(|f: Fingerprint| f.anchor_time))
            &&& #[trigger] max_window_count(lis, dur, sc)
        }
}

/// One scored entry carries a legitimate score for its song, saturated to
/// the field's width.
#[verifier::opaque]
pub open spec fn scored_entry_ok(
    q: Seq<Fingerprint>,
    records: Seq<FingerprintData>,
    dur: u32,
    e: (i32, i32),
) -> bool {
    exists|sc: int| #[trigger] valid_score(q, records, dur, e.0, sc) && e.1 == clamp_score(sc)
}

/// The fingerprints of song `sid` that survive the neighborhood filter
/// and whose address the query holds.
pub open spec fn matched_fps(
    records: Seq<FingerprintData>,
    sid: i32,
    q: Seq<Fingerprint>,
) -> Seq<Fingerprint> {
    present_fps(fps_of_song(accepted_list(records), sid), q)
}

/// The matches agree strictly with the query's own timeline: no match is
/// repeated, distinct matches sit at distinct query positions, a later
/// query position means a strictly later stored time, and no two stored
/// times lie further apart than `dur`.
pub open spec fn time_coherent(fps: Seq<Fingerprint>, q: Seq<Fingerprint>, dur: u32) -> bool {
    &&& fps.no_duplicates()
    &&& forall|f1: Fingerprint, f2: Fingerprint|
        #[trigger] fps.contains(f1) && #[trigger] fps.contains(f2) ==> (f1 != f2
            ==> last_index_of(q, f1.address) != last_index_of(q, f2.address)) && (last_index_of(
            q,
            f1.address,
        ) < last_index_of(q, f2.address) ==> f1.anchor_time < f2.anchor_time) && f2.anchor_time
            - f1.anchor_time <= dur
}

/// An unmodified excerpt scores its full match count: when a song's
/// matches agree with the query's order and all fit in one
/// sample-duration window, every legitimate score for it equals the
/// number of matched fingerprints.
pub proof fn lemma_coherent_song_scores_all(
    q: Seq<Fingerprint>,
    records: Seq<FingerprintData>,
    dur: u32,
    sid: i32,
    sc: int,
)
    requires
        valid_score(q, records, dur, sid, sc),
        time_coherent(matched_fps(records, sid, q), q, dur),
    ensures
        sc == matched_fps(records, sid, q).len(),
{
    broadcast use group_to_multiset_ensures;

    reveal(valid_score);
    let fps = matched_fps(records, sid, q);
    let (ordered, lis) = choose|ordered: Seq<Fingerprint>, lis: Seq<u32>|
        {
            &&& #[trigger] is_query_ordering(ordered, fps_of_song(accepted_list(records), sid), q)
            &&& is_lis_of(lis, ordered.map_values(|f: Fingerprint| f.anchor_time))
            &&& #[trigger] max_window_count(lis, dur, sc)
        };
    assert(ordered.to_multiset() == fps.to_multiset());
    assert(ordered.len() == ordered.to_multiset().len());
    assert(fps.len() == fps.to_multiset().len());
    assert(ordered.len() == fps.len());
    assert forall|k: int| 0 <= k < ordered.len() implies fps.contains(#[trigger] ordered[k]) by {
        assert(ordered.contains(ordered[k]));
        assert(fps.to_multiset().count(ordered[k]) > 0);
    }
    assert forall|x: Fingerprint| ordered.to_multiset().contains(x) implies
        ordered.to_multiset().count(x) == 1 by {
        fps.lemma_multiset_has_no_duplicates();
        assert(ordered.to_multiset() == fps.to_multiset());
    }
    ordered.lemma_multiset_has_no_duplicates_conv();
    let times = ordered.map_values(|f: Fingerprint| f.anchor_time);
    assert forall|i: int, j: int| 0 <= i < j < times.len() implies times[i] < times[j] by {
        assert(query_order_le(ordered[i], ordered[j], q));
        assert(ordered[i] != ordered[j]);
        assert(fps.contains(ordered[i]) && fps.contains(ordered[j]));
        assert(last_index_of(q, ordered[i].address) < last_index_of(q, ordered[j].address));
    }
    assert(strictly_increasing(times));
    crate::utils::lemma_lis_of_sorted_is_whole(times, lis);
    if times.len() == 0 {
        assert(sc == 0);
    } else {
        assert(fps.contains(ordered[0]) && fps.contains(ordered[times.len() - 1]));
        assert(times[times.len() - 1] - times[0] <= dur);
        lemma_full_span_scores_full_length(lis, dur, sc);
    }
}

/// Scores every song that survives the neighborhood-completeness filter
/// and returns the best `rank` of them, highest score first. A song's
/// accepted fingerprints are put in the query's own order, their anchor
/// times are reduced to a longest strictly increasing subsequence, and the song
/// is scored by the densest window of that subsequence whose span is at
/// most `sample_duration`.
#[verifier::rlimit(60)]
pub fn rank_matches(
    query: &Vec<Fingerprint>,
    records: &Vec<FingerprintData>,
    sample_duration: u32,
    rank: usize,
) -> (res: Vec<(i32, i32)>)
    ensures
        sorted_desc(res@),
        res@.len() == if rank as int <= song_ids(accepted_list(records@)).len() {
            rank as int
        } else {
            song_ids(accepted_list(records@)).len() as int
        },
        forall|k: int|
            0 <= k < res@.len() ==> song_ids(accepted_list(records@)).contains(
                (#[trigger] res@[k]).0,
            ) && res@[k].1 >= 0,
        forall|k1: int, k2: int|
            0 <= k1 < k2 < res@.len() ==> (#[trigger] res@[k1]).0 != (#[trigger] res@[k2]).0,
        forall|k: int|
            0 <= k < res@.len() ==> scored_entry_ok(
                query@,
                records@,
                sample_duration,
                #[trigger] res@[k],
            ),
        exists|all: Seq<(i32, i32)>|
            #[trigger] full_scoring(query@, records@, sample_duration, all) && is_top_of(
                res@,
                all,
            ),
{
    broadcast use group_to_multiset_ensures;

    let acc = accepted_records(records);
    let ids = song_id_list(&acc);
    let mut scored: Vec<(i32, i32)> = Vec::new();
    let mut i: usize = 0;
    while i < ids.len()
        invariant
            scored@.len() == i,
            i <= ids@.len(),
            acc@ == accepted_list(records@),
            ids@ == song_ids(accepted_list(records@)),
            forall|k: int|
                0 <= k < i ==> (#[trigger] scored@[k]).0 == ids@[k] && scored@[k].1 >= 0,
            forall|k: int|
                0 <= k < i ==> scored_entry_ok(
                    query@,
                    records@,
                    sample_duration,
                    #[trigger] scored@[k],
                ),
        decreases ids@.len() - i,
    {
        let sid = ids[i];
        let fps = fingerprints_for_song(&acc, sid);
        let ordered = order_by_query(fps, query);
        let times = anchor_times(&ordered);
        let lis = longest_increasing_subsequence(&times);
        assert(non_decreasing(lis@));
        let score = sliding_window_score(&lis, sample_duration);
        let sc: i32 = if score > (i32::MAX as usize) {
            i32::MAX
        } else {
            score as i32
        };
        scored.push((sid, sc));
        proof {
            reveal(valid_score);
            reveal(scored_entry_ok);
            assert(is_query_ordering(
                ordered@,
                fps_of_song(accepted_list(records@), sid),
                query@,
            ));
            assert(is_lis_of(lis@, ordered@.map_values(|f: Fingerprint| f.anchor_time)));
            assert(max_window_count(lis@, sample_duration, score as int));
            let e = (sid, sc);
            assert(valid_score(query@, records@, sample_duration, e.0, score as int));
            assert(e.1 == clamp_score(score as int));
            assert(scored_entry_ok(query@, records@, sample_duration, e));
        }
        i += 1;
    }
    let res = rank_songs(scored, rank);
    proof {
        assert(full_scoring(query@, records@, sample_duration, scored@));
        assert(is_top_of(res@, scored@));
        lemma_song_ids_distinct(accepted_list(records@));
        assert forall|i2: int, j2: int|
            0 <= i2 < j2 < scored@.len() implies (#[trigger] scored@[i2]).0
            != (#[trigger] scored@[j2]).0 by {
            assert(scored@[i2].0 == ids@[i2] && scored@[j2].0 == ids@[j2]);
        }
        assert forall|k: int| 0 <= k < res@.len() implies song_ids(
            accepted_list(records@),
        ).contains((#[trigger] res@[k]).0) && res@[k].1 >= 0 && scored_entry_ok(
            query@,
            records@,
            sample_duration,
            res@[k],
        ) by {
            assert(scored@.to_multiset().contains(res@[k]));
            assert(scored@.contains(res@[k]));
            let w = choose|w: int| 0 <= w < scored@.len() && scored@[w] == res@[k];
            assert(ids@[w] == res@[k].0);
            assert(scored_entry_ok(query@, records@, sample_duration, scored@[w]));
        }
    }
    res
}

} // verus!
