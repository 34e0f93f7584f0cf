use vstd::prelude::*;

verus! {

/// `idx` lists positions of `a` in strictly increasing order whose values
/// strictly grow: the index form of a strictly increasing subsequence.
pub open spec fn is_index_chain(idx: Seq<int>, a: Seq<u32>) -> bool {
    &&& forall|k: int| 0 <= k < idx.len() ==> 0 <= #[trigger] idx[k] < a.len()
    &&& forall|k: int|
        0 < k < idx.len() ==> idx[k - 1] < #[trigger] idx[k] && a[idx[k - 1]] < a[idx[k]]
}

/// The values of `a` that an index chain selects.
pub open spec fn chain_values(idx: Seq<int>, a: Seq<u32>) -> Seq<u32> {
    idx.map(|_k: int, i: int| a[i])
}

pub open spec fn non_decreasing(s: Seq<u32>) -> bool {
    forall|i: int, j: int| 0 <= i < j < s.len() ==> s[i] <= s[j]
}

pub open spec fn strictly_increasing(s: Seq<u32>) -> bool {
    forall|i: int, j: int| 0 <= i < j < s.len() ==> s[i] < s[j]
}

/// A non-empty index chain whose last position is `i`.
pub open spec fn chain_ending(idx: Seq<int>, a: Seq<u32>, i: int) -> bool {
    is_index_chain(idx, a) && idx.len() > 0 && idx.last() == i
}

/// Along a chain, positions grow, and the values they select grow
/// strictly.
proof fn lemma_chain_monotone(idx: Seq<int>, a: Seq<u32>, i: int, j: int)
    requires
        is_index_chain(idx, a),
        0 <= i <= j < idx.len(),
    ensures
        idx[i] <= idx[j],
        a[idx[i]] <= a[idx[j]],
        i < j ==> a[idx[i]] < a[idx[j]],
    decreases j - i,
{
    if i < j {
        lemma_chain_monotone(idx, a, i, j - 1);
    }
}

proof fn lemma_chain_index_lower(idx: Seq<int>, a: Seq<u32>, k: int)
    requires
        is_index_chain(idx, a),
        0 <= k < idx.len(),
    ensures
        idx[k] >= k,
    decreases k,
{
    if k > 0 {
        lemma_chain_index_lower(idx, a, k - 1);
    }
}

proof fn lemma_chain_index_upper(idx: Seq<int>, a: Seq<u32>, k: int)
    requires
        is_index_chain(idx, a),
        0 <= k < idx.len(),
    ensures
        idx[k] <= a.len() - idx.len() + k,
    decreases idx.len() - k,
{
    if k < idx.len() - 1 {
        lemma_chain_index_upper(idx, a, k + 1);
    }
}

/// Over input that is already strictly increasing, any longest strictly
/// increasing subsequence is the input itself: a fully aligned match
/// keeps its whole length. The two premises are what
/// `longest_increasing_subsequence` ensures of its result.
pub proof fn lemma_lis_of_sorted_is_whole(a: Seq<u32>, r: Seq<u32>)
    requires
        strictly_increasing(a),
        exists|idx: Seq<int>| is_index_chain(idx, a) && chain_values(idx, a) == r,
        forall|idx: Seq<int>| #[trigger] is_index_chain(idx, a) ==> idx.len() <= r.len(),
    ensures
        r == a,
{
    let whole = Seq::new(a.len(), |k: int| k);
    assert(is_index_chain(whole, a));
    assert(a.len() <= r.len());
    let idx = choose|idx: Seq<int>| is_index_chain(idx, a) && chain_values(idx, a) == r;
    assert(r.len() == idx.len());
    if idx.len() > 0 {
        lemma_chain_index_lower(idx, a, idx.len() - 1);
        assert(idx.len() - 1 <= idx.last() < a.len());
    }
    assert(idx.len() == a.len());
    assert forall|k: int| 0 <= k < idx.len() implies idx[k] == k by {
        lemma_chain_index_lower(idx, a, k);
        lemma_chain_index_upper(idx, a, k);
    }
    assert(r =~= a);
}

fn copy_u32_vec(v: &Vec<u32>) -> (r: Vec<u32>)
    ensures
        r@ == v@,
{
    let mut r: Vec<u32> = Vec::new();
    let mut t: usize = 0;
    while t < v.len()
        invariant
            t <= v@.len(),
            r@ == v@.take(t as int),
        decreases v@.len() - t,
    {
        r.push(v[t]);
        t += 1;
        assert(r@ =~= v@.take(t as int));
    }
    assert(r@ =~= v@);
    r
}

/// A longest strictly increasing subsequence of `a`: the result is one of
/// `a`'s strictly increasing subsequences, and no such subsequence is
/// longer.
pub fn longest_increasing_subsequence(a: &Vec<u32>) -> (r: Vec<u32>)
    ensures
        exists|idx: Seq<int>| is_index_chain(idx, a@) && chain_values(idx, a@) == r@,
        forall|idx: Seq<int>| #[trigger] is_index_chain(idx, a@) ==> idx.len() <= r@.len(),
        strictly_increasing(r@),
{
    let n = a.len();
    if n == 0 {
        let r: Vec<u32> = Vec::new();
        proof {
            let idx0: Seq<int> = Seq::empty();
            assert(is_index_chain(idx0, a@));
            assert(chain_values(idx0, a@) =~= r@);
            assert forall|idx: Seq<int>| #[trigger] is_index_chain(idx, a@) implies idx.len()
                <= r@.len() by {
                if idx.len() > 0 {
                    assert(0 <= idx[0] < a@.len());
                }
            }
        }
        return r;
    }
    // chains[t] is a longest strictly increasing subsequence ending at
    // position t, dp[t] its length, w[t] its index form.
    let mut chains: Vec<Vec<u32>> = Vec::new();
    let mut dp: Vec<usize> = Vec::new();
    let ghost mut w: Seq<Seq<int>> = Seq::empty();
    let mut i: usize = 0;
    while i < n
        invariant
            i <= n,
            n == a@.len(),
            dp@.len() == i,
            chains@.len() == i,
            w.len() == i,
            forall|t: int| 0 <= t < i ==> 1 <= #[trigger] dp@[t] <= t + 1,
            forall|t: int|
                0 <= t < i ==> chain_ending(#[trigger] w[t], a@, t) && w[t].len() == dp@[t]
                    && chain_values(w[t], a@) == chains@[t]@,
            forall|t: int, idx: Seq<int>|
                0 <= t < i && #[trigger] chain_ending(idx, a@, t) ==> idx.len() <= dp@[t],
        decreases n - i,
    {
        let mut best_len: usize = 1;
        let mut best_chain: Vec<u32> = Vec::new();
        best_chain.push(a[i]);
        let ghost mut wit: Seq<int> = seq![i as int];
        proof {
            assert(chain_values(wit, a@) =~= best_chain@);
        }
        let mut j: usize = 0;
        while j < i
            invariant
                j <= i < n,
                n == a@.len(),
                dp@.len() == i,
                chains@.len() == i,
                w.len() == i,
                forall|t: int| 0 <= t < i ==> 1 <= #[trigger] dp@[t] <= t + 1,
                forall|t: int|
                    0 <= t < i ==> chain_ending(#[trigger] w[t], a@, t) && w[t].len() == dp@[t]
                        && chain_values(w[t], a@) == chains@[t]@,
                1 <= best_len <= i + 1,
                chain_ending(wit, a@, i as int),
                wit.len() == best_len,
                chain_values(wit, a@) == best_chain@,
                forall|t: int|
                    0 <= t < j && a@[t] < a@[i as int] ==> #[trigger] dp@[t] + 1 <= best_len,
            decreases i - j,
        {
            if a[j] < a[i] && dp[j] + 1 > best_len {
                best_len = dp[j] + 1;
                let mut c = copy_u32_vec(&chains[j]);
                c.push(a[i]);
                best_chain = c;
                proof {
                    let prev = w[j as int];
                    wit = prev.push(i as int);
                    assert(chain_values(wit, a@) =~= chain_values(prev, a@).push(
                        a@[i as int],
                    ));
                    assert(wit.last() == i as int);
                    assert forall|k: int| 0 < k < wit.len() implies wit[k - 1] < #[trigger] wit[k]
                        && a@[wit[k - 1]] < a@[wit[k]] by {
                        if k < wit.len() - 1 {
                            assert(wit[k - 1] == prev[k - 1] && wit[k] == prev[k]);
                        } else {
                            assert(wit[k - 1] == prev.last());
                            assert(prev.last() == j as int);
                        }
                    }
                }
            }
            j += 1;
        }
        dp.push(best_len);
        chains.push(best_chain);
        proof {
            w = w.push(wit);
            assert forall|idx: Seq<int>| #[trigger] chain_ending(idx, a@, i as int) implies
                idx.len() <= best_len by {
                if idx.len() >= 2 {
                    let prev = idx.drop_last();
                    let t2 = idx[idx.len() - 2];
                    assert(forall|k: int| 0 <= k < prev.len() ==> prev[k] == idx[k]);
                    assert(prev.last() == t2);
                    assert(idx.last() == i as int);
                    assert(t2 < i as int && a@[t2] < a@[i as int]);
                    assert(chain_ending(prev, a@, t2));
                    assert(prev.len() <= dp@[t2]);
                    assert(dp@[t2] + 1 <= best_len);
                }
            }
        }
        i += 1;
    }
    let mut bi: usize = 0;
    let mut t: usize = 1;
    while t < n
        invariant
            1 <= t <= n,
            bi < t,
            n == dp@.len(),
            forall|u: int| 0 <= u < t ==> #[trigger] dp@[u] <= dp@[bi as int],
        decreases n - t,
    {
        if dp[t] > dp[bi] {
            bi = t;
        }
        t += 1;
    }
    let r = copy_u32_vec(&chains[bi]);
    proof {
        let best = w[bi as int];
        assert(is_index_chain(best, a@) && chain_values(best, a@) == r@);
        assert forall|idx: Seq<int>| #[trigger] is_index_chain(idx, a@) implies idx.len()
            <= r@.len() by {
            if idx.len() > 0 {
                let last = idx.last();
                assert(0 <= last < n);
                assert(chain_ending(idx, a@, last));
                assert(idx.len() <= dp@[last]);
            }
            assert(r@.len() == chain_values(best, a@).len());
        }
        assert forall|p: int, q: int| 0 <= p < q < r@.len() implies r@[p] < r@[q] by {
            lemma_chain_monotone(best, a@, p, q);
            assert(r@[p] == a@[best[p]] && r@[q] == a@[best[q]]);
        }
    }
    r
}

} // verus!
