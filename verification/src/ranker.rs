use vstd::prelude::*;

verus! {

/// Whether the word `a` is ranked before the word `b`: by the greater score,
/// and among equal scores by the smaller identifier.
pub open spec fn ranks_before(scores: Seq<u32>, a: int, b: int) -> bool {
    scores[a] > scores[b] || (scores[a] == scores[b] && a < b)
}

/// Whether `res` lists the first `k` words of the ranking, or all of them
/// where there are fewer: in the order of the ranking, with every word that
/// is ranked before a listed one listed before it.
pub open spec fn is_top(scores: Seq<u32>, k: nat, res: Seq<usize>) -> bool {
    &&& res.len() == if k < scores.len() {
        k
    } else {
        scores.len()
    }
    &&& listed_in_order(scores, res)
}

/// Whether `res` is a beginning of the ranking.
pub open spec fn listed_in_order(scores: Seq<u32>, res: Seq<usize>) -> bool {
    &&& forall|r: int| 0 <= r < res.len() ==> #[trigger] res[r] < scores.len()
    &&& forall|r: int, s: int|
        0 <= r < s < res.len() ==> ranks_before(scores, #[trigger] res[r] as int, #[trigger] res[s] as int)
    &&& forall|i: int, r: int|
        0 <= i < scores.len() && 0 <= r < res.len() && #[trigger] ranks_before(
            scores,
            i,
            res[r] as int,
        ) ==> exists|s: int| 0 <= s < r && #[trigger] res[s] == i
}

/// Whether the word `m` may follow the words of `listed` in the ranking:
/// nothing is listed yet, or the last listed word is ranked before it.
pub open spec fn may_follow(scores: Seq<u32>, listed: Seq<usize>, m: int) -> bool {
    listed.len() == 0 || ranks_before(scores, listed[listed.len() - 1] as int, m)
}

/// Whether `m` is none of the numbers of `res`.
pub open spec fn left_out(res: Seq<usize>, m: int) -> bool {
    forall|r: int| 0 <= r < res.len() ==> #[trigger] res[r] != m
}

/// Fewer than `n` different numbers below `n` leave one below `n` out.
pub proof fn lemma_one_left(res: Seq<usize>, n: nat)
    requires
        res.len() < n,
        forall|r: int| 0 <= r < res.len() ==> #[trigger] res[r] < n,
        forall|r: int, s: int| 0 <= r < s < res.len() ==> #[trigger] res[r] != #[trigger] res[s],
    ensures
        exists|m: int| 0 <= m < n && #[trigger] left_out(res, m),
    decreases n,
{
    let top = n - 1;
    if exists|p: int| 0 <= p < res.len() && #[trigger] res[p] == top {
        let p = choose|p: int| 0 <= p < res.len() && #[trigger] res[p] == top;
        let rest = res.remove(p);
        assert forall|r: int| 0 <= r < rest.len() implies #[trigger] rest[r] < top by {
            if r < p {
                assert(rest[r] == res[r]);
            } else {
                assert(rest[r] == res[r + 1]);
            }
        }
        assert forall|r: int, s: int| 0 <= r < s < rest.len() implies #[trigger] rest[r]
            != #[trigger] rest[s] by {
            let r0 = if r < p {
                r
            } else {
                r + 1
            };
            let s0 = if s < p {
                s
            } else {
                s + 1
            };
            assert(rest[r] == res[r0] && rest[s] == res[s0]);
        }
        lemma_one_left(rest, top as nat);
        let m = choose|m: int| 0 <= m < top && #[trigger] left_out(rest, m);
        assert forall|r: int| 0 <= r < res.len() implies #[trigger] res[r] != m by {
            if r < p {
                assert(rest[r] == res[r]);
            } else if r > p {
                assert(rest[r - 1] == res[r]);
            }
        }
        assert(left_out(res, m));
    } else {
        assert(left_out(res, top));
    }
}

/// The identifiers of the `k` words with the greatest scores, the greatest
/// first; words of one score keep the order of their identifiers. Where
/// there are fewer than `k` words, all are listed.
pub fn top_k(scores: &[u32], k: usize) -> (res: Vec<usize>)
    ensures
        is_top(scores@, k as nat, res@),
{
    let n = scores.len();
    let want = if k < n {
        k
    } else {
        n
    };
    let mut res: Vec<usize> = Vec::new();
    while res.len() < want
        invariant
            res@.len() <= want <= n,
            n == scores@.len(),
            listed_in_order(scores@, res@),
        decreases want - res@.len(),
    {
        let r = res.len();
        let ghost listed = res@;
        let mut best: usize = n;
        let mut i: usize = 0;
        while i < n
            invariant
                i <= n,
                best <= n,
                n == scores@.len(),
                r == res@.len(),
                res@ == listed,
                listed_in_order(scores@, listed),
                best < n ==> may_follow(scores@, listed, best as int),
                forall|m: int|
                    0 <= m < i && #[trigger] may_follow(scores@, listed, m) ==> best < n && (best
                        == m || ranks_before(scores@, best as int, m)),
            decreases n - i,
        {
            let open = if r == 0 {
                true
            } else {
                let last = res[r - 1];
                scores[last] > scores[i] || (scores[last] == scores[i] && last < i)
            };
            if open {
                if best == n {
                    best = i;
                } else if scores[i] > scores[best] || (scores[i] == scores[best] && i < best) {
                    best = i;
                }
            }
            i = i + 1;
        }
        proof {
            lemma_one_left(listed, n as nat);
            let m = choose|m: int| 0 <= m < n && #[trigger] left_out(listed, m);
            if r > 0 {
                assert(listed[r - 1] != m);
                if ranks_before(scores@, m, listed[r - 1] as int) {
                    let s = choose|s: int| 0 <= s < r - 1 && #[trigger] listed[s] == m;
                    assert(false);
                }
                assert(ranks_before(scores@, listed[r - 1] as int, m));
            }
            assert(may_follow(scores@, listed, m));
            assert(best < n);
        }
        res.push(best);
        proof {
            let now = res@;
            assert forall|a: int, b: int| 0 <= a < b < now.len() implies ranks_before(
                scores@,
                #[trigger] now[a] as int,
                #[trigger] now[b] as int,
            ) by {
                if b == r {
                    if a < r - 1 {
                        assert(ranks_before(scores@, listed[a] as int, listed[r - 1] as int));
                    }
                } else {
                    assert(now[a] == listed[a] && now[b] == listed[b]);
                }
            }
            assert forall|i: int, t: int|
                0 <= i < scores@.len() && 0 <= t < now.len() && #[trigger] ranks_before(
                    scores@,
                    i,
                    now[t] as int,
                ) implies exists|s: int| 0 <= s < t && #[trigger] now[s] == i by {
                if t < r {
                    assert(now[t] == listed[t]);
                    let s = choose|s: int| 0 <= s < t && #[trigger] listed[s] == i;
                    assert(now[s] == i);
                } else if r > 0 {
                    let last = listed[r - 1] as int;
                    if i == last {
                        assert(now[r - 1] == i);
                    } else if ranks_before(scores@, i, last) {
                        let s = choose|s: int| 0 <= s < r - 1 && #[trigger] listed[s] == i;
                        assert(now[s] == i);
                    } else {
                        assert(may_follow(scores@, listed, i));
                        assert(false);
                    }
                } else {
                    assert(may_follow(scores@, listed, i));
                    assert(false);
                }
            }
        }
    }
    res
}

/// The ranking is a strict total order of the words: of two different words
/// exactly one is ranked before the other, and the order carries over from
/// word to word.
pub proof fn lemma_ranking_total(scores: Seq<u32>, a: int, b: int, c: int)
    ensures
        !ranks_before(scores, a, a),
        a != b ==> (ranks_before(scores, a, b) <==> !ranks_before(scores, b, a)),
        ranks_before(scores, a, b) && ranks_before(scores, b, c) ==> ranks_before(scores, a, c),
{
}

/// The ranking is never one of a worse score before a better one.
pub proof fn lemma_top_descending(scores: Seq<u32>, k: nat, res: Seq<usize>, r: int, s: int)
    requires
        is_top(scores, k, res),
        0 <= r <= s < res.len(),
    ensures
        scores[res[r] as int] >= scores[res[s] as int],
{
}

} // verus!
