use vstd::prelude::*;

use crate::store::StoreView;
use crate::store::VectorStore;

verus! {

/// Maps the bit pattern of an IEEE 754 single-precision value to an unsigned
/// key whose integer order agrees with the total order of the represented
/// values: patterns with the sign bit clear (non-negative values) are moved
/// above all patterns with the sign bit set, and the latter are reversed,
/// since a greater magnitude means a smaller negative value.
pub open spec fn sort_key(bits: u32) -> u32 {
    if bits < 0x8000_0000 {
        (bits + 0x8000_0000) as u32
    } else {
        (0xFFFF_FFFFu32 - bits) as u32
    }
}

/// Executable form of [`sort_key`].
fn score_key(bits: u32) -> (k: u32)
    ensures
        k == sort_key(bits),
{
    if bits < 0x8000_0000 {
        bits + 0x8000_0000
    } else {
        0xFFFF_FFFF - bits
    }
}

/// The strict total order in which ranked results are emitted: chunk `i`
/// comes before chunk `j` when its score key is greater, with ties broken by
/// insertion order.
pub open spec fn precedes(scores: Seq<u32>, i: int, j: int) -> bool {
    ||| sort_key(scores[i]) > sort_key(scores[j])
    ||| (sort_key(scores[i]) == sort_key(scores[j]) && i < j)
}

/// Inserts index `i` into `order` directly after every index that precedes it.
pub open spec fn insert_ranked(order: Seq<int>, scores: Seq<u32>, i: int) -> Seq<int>
    decreases order.len(),
{
    if order.len() == 0 {
        seq![i]
    } else if precedes(scores, order[0], i) {
        seq![order[0]] + insert_ranked(order.drop_first(), scores, i)
    } else {
        seq![i] + order
    }
}

/// The ranking of the first `n` chunk indices, built by stable insertion.
pub open spec fn rank_order_up_to(scores: Seq<u32>, n: int) -> Seq<int>
    decreases n,
{
    if n <= 0 {
        Seq::empty()
    } else {
        insert_ranked(rank_order_up_to(scores, n - 1), scores, n - 1)
    }
}

/// The order in which all chunk indices are emitted by a search.
pub open spec fn rank_order(scores: Seq<u32>) -> Seq<int> {
    rank_order_up_to(scores, scores.len() as int)
}

/// How many results a search returns: `top_k`, capped at the chunk count.
pub open spec fn take_count(top_k: int, n: int) -> int {
    if top_k <= n {
        top_k
    } else {
        n
    }
}

/// What a search returns: the first `top_k` ranked chunks, each as its score
/// paired with its content.
pub open spec fn search_spec(s: StoreView, scores: Seq<u32>, top_k: int) -> Seq<(u32, Seq<char>)> {
    let order = rank_order(scores).take(take_count(top_k, scores.len() as int));
    Seq::new(order.len(), |k: int| (scores[order[k]], s.chunks[order[k]].content))
}

proof fn lemma_insert_ranked_membership(order: Seq<int>, scores: Seq<u32>, i: int)
    ensures
        insert_ranked(order, scores, i).len() == order.len() + 1,
        forall|j: int|
            insert_ranked(order, scores, i).contains(j) <==> (order.contains(j) || j == i),
    decreases order.len(),
{
    broadcast use vstd::seq_lib::lemma_seq_contains;
    broadcast use vstd::seq_lib::lemma_seq_concat_contains_all_elements;

    let res = insert_ranked(order, scores, i);
    if order.len() == 0 {
        assert(res == seq![i]);
        assert(seq![i][0] == i);
        assert forall|j: int| res.contains(j) <==> (order.contains(j) || j == i) by {
            assert(!order.contains(j));
        }
    } else if precedes(scores, order[0], i) {
        lemma_insert_ranked_membership(order.drop_first(), scores, i);
        let rec = insert_ranked(order.drop_first(), scores, i);
        assert(res == seq![order[0]] + rec);
        assert(order =~= seq![order[0]] + order.drop_first());
        assert(seq![order[0]][0] == order[0]);
        assert forall|j: int| res.contains(j) <==> (order.contains(j) || j == i) by {
            assert(res.contains(j) <==> seq![order[0]].contains(j) || rec.contains(j));
            assert(order.contains(j) <==> seq![order[0]].contains(j) || order.drop_first().contains(
                j,
            ));
            assert(seq![order[0]].contains(j) <==> j == order[0]);
        }
    } else {
        assert(res == seq![i] + order);
        assert(seq![i][0] == i);
        assert forall|j: int| res.contains(j) <==> (order.contains(j) || j == i) by {
            assert(res.contains(j) <==> seq![i].contains(j) || order.contains(j));
            assert(seq![i].contains(j) <==> j == i);
        }
    }
}

proof fn lemma_insert_ranked_sorted(order: Seq<int>, scores: Seq<u32>, i: int)
    requires
        forall|k1: int, k2: int|
            0 <= k1 < k2 < order.len() ==> precedes(scores, order[k1], order[k2]),
        !order.contains(i),
    ensures
        forall|k1: int, k2: int|
            0 <= k1 < k2 < insert_ranked(order, scores, i).len() ==> precedes(
                scores,
                insert_ranked(order, scores, i)[k1],
                insert_ranked(order, scores, i)[k2],
            ),
    decreases order.len(),
{
    let res = insert_ranked(order, scores, i);
    if order.len() == 0 {
    } else if precedes(scores, order[0], i) {
        assert(forall|k: int| 0 <= k < order.drop_first().len() ==> order.drop_first()[k] == order[k + 1]);
        assert(!order.drop_first().contains(i)) by {
            if order.drop_first().contains(i) {
                let m = choose|m: int|
                    0 <= m < order.drop_first().len() && order.drop_first()[m] == i;
                assert(order[m + 1] == i);
            }
        }
        lemma_insert_ranked_sorted(order.drop_first(), scores, i);
        lemma_insert_ranked_membership(order.drop_first(), scores, i);
        let rec = insert_ranked(order.drop_first(), scores, i);
        assert(res == seq![order[0]] + rec);
        assert forall|k1: int, k2: int| 0 <= k1 < k2 < res.len() implies precedes(
            scores,
            res[k1],
            res[k2],
        ) by {
            if k1 == 0 {
                assert(res[0] == order[0]);
                assert(rec.contains(rec[k2 - 1]));
                let j = rec[k2 - 1];
                if j == i {
                    assert(precedes(scores, order[0], i));
                } else {
                    assert(order.drop_first().contains(j));
                    let m = choose|m: int|
                        0 <= m < order.drop_first().len() && order.drop_first()[m] == j;
                    assert(order[m + 1] == j);
                    assert(precedes(scores, order[0], order[m + 1]));
                }
            } else {
                assert(res[k1] == rec[k1 - 1]);
                assert(res[k2] == rec[k2 - 1]);
            }
        }
    } else {
        // i must strictly precede order[0] and, by transitivity, every element.
        assert(order[0] != i) by {
            assert(order.contains(order[0]));
        }
        assert(precedes(scores, i, order[0]));
        assert(res == seq![i] + order);
        assert forall|k1: int, k2: int| 0 <= k1 < k2 < res.len() implies precedes(
            scores,
            res[k1],
            res[k2],
        ) by {
            if k1 == 0 {
                if k2 == 1 {
                    assert(res[k2] == order[0]);
                } else {
                    assert(res[k2] == order[k2 - 1]);
                    assert(precedes(scores, order[0], order[k2 - 1]));
                }
            } else {
                assert(res[k1] == order[k1 - 1]);
                assert(res[k2] == order[k2 - 1]);
            }
        }
    }
}

/// The ranking of `n` indices is a permutation of `0..n`, strictly sorted by
/// [`precedes`].
pub proof fn lemma_rank_order_up_to_properties(scores: Seq<u32>, n: int)
    requires
        0 <= n,
    ensures
        rank_order_up_to(scores, n).len() == n,
        forall|k: int| 0 <= k < n ==> 0 <= #[trigger] rank_order_up_to(scores, n)[k] < n,
        forall|j: int| 0 <= j < n ==> rank_order_up_to(scores, n).contains(j),
        rank_order_up_to(scores, n).no_duplicates(),
        forall|k1: int, k2: int|
            0 <= k1 < k2 < n ==> precedes(
                scores,
                rank_order_up_to(scores, n)[k1],
                rank_order_up_to(scores, n)[k2],
            ),
    decreases n,
{
    if n > 0 {
        lemma_rank_order_up_to_properties(scores, n - 1);
        let prev = rank_order_up_to(scores, n - 1);
        let cur = rank_order_up_to(scores, n);
        assert(!prev.contains(n - 1)) by {
            if prev.contains(n - 1) {
                let k = choose|k: int| 0 <= k < prev.len() && prev[k] == n - 1;
            }
        }
        lemma_insert_ranked_membership(prev, scores, n - 1);
        lemma_insert_ranked_sorted(prev, scores, n - 1);
        assert(cur == insert_ranked(prev, scores, n - 1));
        assert forall|k: int| 0 <= k < n implies 0 <= #[trigger] cur[k] < n by {
            assert(cur.contains(cur[k]));
            if cur[k] == n - 1 {
            } else {
                assert(prev.contains(cur[k]));
                let m = choose|m: int| 0 <= m < prev.len() && prev[m] == cur[k];
            }
        }
        assert forall|j: int| 0 <= j < n implies cur.contains(j) by {
            if j < n - 1 {
                assert(prev.contains(j));
            }
        }
        assert(cur.no_duplicates()) by {
            assert forall|k1: int, k2: int|
                0 <= k1 < cur.len() && 0 <= k2 < cur.len() && k1 != k2 implies cur[k1]
                != cur[k2] by {
                if k1 < k2 {
                    assert(precedes(scores, cur[k1], cur[k2]));
                } else {
                    assert(precedes(scores, cur[k2], cur[k1]));
                }
            }
        }
    }
}

/// A sequence strictly sorted by [`precedes`] is determined by its members:
/// two sorted rankings with the same members are equal. With
/// [`lemma_rank_order_up_to_properties`] this makes the order of search
/// results unique, hence deterministic across runs on identical input.
pub proof fn lemma_ranked_order_unique(scores: Seq<u32>, o1: Seq<int>, o2: Seq<int>)
    requires
        forall|k1: int, k2: int| 0 <= k1 < k2 < o1.len() ==> precedes(scores, o1[k1], o1[k2]),
        forall|k1: int, k2: int| 0 <= k1 < k2 < o2.len() ==> precedes(scores, o2[k1], o2[k2]),
        forall|j: int| o1.contains(j) <==> o2.contains(j),
    ensures
        o1 == o2,
    decreases o1.len(),
{
    if o1.len() == 0 {
        if o2.len() > 0 {
            assert(o2.contains(o2[0]));
        }
        assert(o1 =~= o2);
    } else {
        assert(o1.contains(o1[0]));
        assert(o2.contains(o1[0]));
        assert(o2.len() > 0);
        assert(o1.contains(o2[0]));
        let k = choose|k: int| 0 <= k < o2.len() && o2[k] == o1[0];
        let m = choose|m: int| 0 <= m < o1.len() && o1[m] == o2[0];
        assert(o1[0] == o2[0]) by {
            if k > 0 && m > 0 {
                assert(precedes(scores, o2[0], o2[k]));
                assert(precedes(scores, o1[0], o1[m]));
            }
        }
        let t1 = o1.drop_first();
        let t2 = o2.drop_first();
        assert(forall|k: int| 0 <= k < t1.len() ==> t1[k] == o1[k + 1]);
        assert(forall|k: int| 0 <= k < t2.len() ==> t2[k] == o2[k + 1]);
        assert forall|j: int| t1.contains(j) <==> t2.contains(j) by {
            if t1.contains(j) {
                let a = choose|a: int| 0 <= a < t1.len() && t1[a] == j;
                assert(o1[a + 1] == j);
                assert(precedes(scores, o1[0], j));
                assert(j != o1[0]);
                assert(o2.contains(j));
                let b = choose|b: int| 0 <= b < o2.len() && o2[b] == j;
                assert(b != 0);
                assert(t2[b - 1] == j);
            }
            if t2.contains(j) {
                let a = choose|a: int| 0 <= a < t2.len() && t2[a] == j;
                assert(o2[a + 1] == j);
                assert(precedes(scores, o2[0], j));
                assert(j != o2[0]);
                assert(o1.contains(j));
                let b = choose|b: int| 0 <= b < o1.len() && o1[b] == j;
                assert(b != 0);
                assert(t1[b - 1] == j);
            }
        }
        lemma_ranked_order_unique(scores, t1, t2);
        assert(o1.len() == o2.len());
        assert forall|k: int| 0 <= k < o1.len() implies o1[k] == o2[k] by {
            if k > 0 {
                assert(o1[k] == t1[k - 1]);
                assert(o2[k] == t2[k - 1]);
            }
        }
        assert(o1 =~= o2);
    }
}

proof fn lemma_insert_ranked_at_position(order: Seq<int>, scores: Seq<u32>, i: int, pos: int)
    requires
        0 <= pos <= order.len(),
        forall|k: int| 0 <= k < pos ==> precedes(scores, order[k], i),
        pos < order.len() ==> !precedes(scores, order[pos], i),
    ensures
        insert_ranked(order, scores, i) =~= order.take(pos) + seq![i] + order.skip(pos),
    decreases order.len(),
{
    if pos == 0 {
        if order.len() == 0 {
            assert(insert_ranked(order, scores, i) =~= order.take(0) + seq![i] + order.skip(0));
        } else {
            assert(insert_ranked(order, scores, i) == seq![i] + order);
            assert(seq![i] + order =~= order.take(0) + seq![i] + order.skip(0));
        }
    } else {
        assert(precedes(scores, order[0], i));
        let tail = order.drop_first();
        assert(forall|k: int| 0 <= k < tail.len() ==> tail[k] == order[k + 1]);
        lemma_insert_ranked_at_position(tail, scores, i, pos - 1);
        assert(insert_ranked(order, scores, i) == seq![order[0]] + insert_ranked(
            tail,
            scores,
            i,
        ));
        assert(seq![order[0]] + (tail.take(pos - 1) + seq![i] + tail.skip(pos - 1)) =~= order.take(
            pos,
        ) + seq![i] + order.skip(pos));
    }
}

/// The view of a ranking held in an executable vector of indices.
pub open spec fn order_view(o: Seq<usize>) -> Seq<int> {
    o.map_values(|x: usize| x as int)
}

impl VectorStore {
    /// Returns the `top_k` best-scoring chunks, each as its score paired with
    /// its content, sorted by descending score key with ties in insertion
    /// order. `scores[i]` is the caller's similarity score for chunk `i`, as
    /// the bit pattern of an IEEE 754 single-precision value; the caller of a
    /// semantic search computes it as the cosine similarity between its query
    /// embedding and the chunk's embedding.
    ///
    /// A `top_k` beyond the chunk count returns all chunks; in particular a
    /// search of an empty store returns the empty vector for any `top_k`.
    pub fn search(&self, scores: &Vec<u32>, top_k: usize) -> (r: Vec<(u32, String)>)
        requires
            scores@.len() == self@.chunks.len(),
        ensures
            r.deep_view() == search_spec(self@, scores@, top_k as int),
            r@.len() == take_count(top_k as int, self@.chunks.len() as int),
    {
        let n = scores.len();
        let ghost gscores = scores@;
        let mut order: Vec<usize> = Vec::new();
        let mut i: usize = 0;
        proof {
            assert(order_view(order@) =~= rank_order_up_to(gscores, 0));
        }
        while i < n
            invariant
                i <= n,
                n == gscores.len(),
                gscores == scores@,
                order@.len() == i,
                order_view(order@) == rank_order_up_to(gscores, i as int),
            decreases n - i,
        {
            proof {
                lemma_rank_order_up_to_properties(gscores, i as int);
                assert forall|k: int| 0 <= k < i implies #[trigger] order@[k] < i by {
                    assert(order_view(order@)[k] == order@[k] as int);
                    assert(0 <= rank_order_up_to(gscores, i as int)[k] < i);
                }
            }
            let ki = score_key(scores[i]);
            let mut pos: usize = 0;
            while pos < order.len() && score_key(scores[order[pos]]) >= ki
                invariant
                    pos <= order.len(),
                    i < n,
                    ki == sort_key(gscores[i as int]),
                    n == gscores.len(),
                    gscores == scores@,
                    order@.len() == i,
                    order_view(order@) == rank_order_up_to(gscores, i as int),
                    forall|k: int| 0 <= k < i ==> #[trigger] order@[k] < i,
                    forall|k: int|
                        0 <= k < pos ==> precedes(scores@, #[trigger] order@[k] as int, i as int),
                decreases order.len() - pos,
            {
                proof {
                    assert(order@[pos as int] as int == order_view(order@)[pos as int]);
                    assert(order@[pos as int] < i);
                    assert(sort_key(gscores[order@[pos as int] as int]) >= sort_key(
                        gscores[i as int],
                    ));
                    assert(precedes(gscores, order@[pos as int] as int, i as int));
                }
                pos = pos + 1;
            }
            proof {
                if pos < order.len() {
                    assert(order@[pos as int] as int == order_view(order@)[pos as int]);
                    assert(!precedes(gscores, order@[pos as int] as int, i as int));
                }
            }
            let ghost prior = order_view(order@);
            order.insert(pos, i);
            proof {
                lemma_insert_ranked_at_position(prior, gscores, i as int, pos as int);
                assert(order_view(order@) =~= prior.take(pos as int) + seq![i as int] + prior.skip(
                    pos as int,
                ));
                assert(order_view(order@) == rank_order_up_to(gscores, i + 1 as int));
            }
            i = i + 1;
        }
        proof {
            lemma_rank_order_up_to_properties(gscores, n as int);
            assert(order_view(order@) == rank_order(gscores));
            assert forall|j: int| 0 <= j < n implies #[trigger] order@[j] < n by {
                assert(order_view(order@)[j] == order@[j] as int);
                assert(0 <= rank_order_up_to(gscores, n as int)[j] < n);
            }
        }
        let m = if top_k < n {
            top_k
        } else {
            n
        };
        let mut out: Vec<(u32, String)> = Vec::new();
        let mut k: usize = 0;
        while k < m
            invariant
                k <= m,
                m as int == take_count(top_k as int, gscores.len() as int),
                m <= n,
                n == gscores.len(),
                gscores == scores@,
                n == self@.chunks.len(),
                order@.len() == n,
                order_view(order@) == rank_order(gscores),
                forall|j: int| 0 <= j < n ==> #[trigger] order@[j] < n,
                out@.len() == k,
                forall|j: int|
                    0 <= j < k ==> (#[trigger] out@[j]).0 == gscores[rank_order(gscores)[j]]
                        && out@[j].1@ == self@.chunks[rank_order(gscores)[j]].content,
            decreases m - k,
        {
            let idx = order[k];
            proof {
                assert(order@[k as int] as int == order_view(order@)[k as int]);
                assert(rank_order(gscores)[k as int] == idx as int);
            }
            let content = self.chunks[idx].content.clone();
            out.push((scores[idx], content));
            k = k + 1;
        }
        proof {
            let spec_r = search_spec(self@, scores@, top_k as int);
            assert(rank_order(gscores).take(m as int).len() == m);
            assert forall|j: int| 0 <= j < m implies out.deep_view()[j] == spec_r[j] by {
                assert(rank_order(gscores).take(m as int)[j] == rank_order(gscores)[j]);
                assert(out.deep_view()[j] == (out@[j].0, out@[j].1@));
            }
            assert(out.deep_view() =~~= spec_r);
        }
        out
    }
}

/// Search results are sorted non-increasing by score key: a result's score
/// never ranks below a later result's score.
pub proof fn lemma_search_results_sorted(s: StoreView, scores: Seq<u32>, top_k: int)
    requires
        top_k >= 0,
    ensures
        forall|k1: int, k2: int|
            0 <= k1 < k2 < search_spec(s, scores, top_k).len() ==> sort_key(
                #[trigger] search_spec(s, scores, top_k)[k1].0,
            ) >= sort_key(#[trigger] search_spec(s, scores, top_k)[k2].0),
{
    let n = scores.len() as int;
    lemma_rank_order_up_to_properties(scores, n);
    let res = search_spec(s, scores, top_k);
    let order = rank_order(scores).take(take_count(top_k, n));
    assert(rank_order(scores).len() == n);
    assert(order.len() == take_count(top_k, n));
    assert(res.len() == order.len());
    assert forall|k1: int, k2: int| 0 <= k1 < k2 < res.len() implies sort_key(
        #[trigger] res[k1].0,
    ) >= sort_key(#[trigger] res[k2].0) by {
        assert(order[k1] == rank_order(scores)[k1]);
        assert(order[k2] == rank_order(scores)[k2]);
        assert(precedes(scores, rank_order(scores)[k1], rank_order(scores)[k2]));
        assert(res[k1].0 == scores[rank_order(scores)[k1]]);
        assert(res[k2].0 == scores[rank_order(scores)[k2]]);
    }
}

/// With `top_k` at least the chunk count, a search returns every chunk
/// exactly once: the emitted positions are a duplicate-free ranking of all
/// chunk indices, and each result carries that chunk's score and content.
pub proof fn lemma_search_exhaustive(s: StoreView, scores: Seq<u32>, top_k: int)
    requires
        top_k >= scores.len(),
    ensures
        search_spec(s, scores, top_k).len() == scores.len(),
        rank_order(scores).len() == scores.len(),
        rank_order(scores).no_duplicates(),
        forall|i: int| 0 <= i < scores.len() ==> rank_order(scores).contains(i),
        forall|k: int|
            0 <= k < scores.len() ==> #[trigger] search_spec(s, scores, top_k)[k] == (
            scores[rank_order(scores)[k]],
            s.chunks[rank_order(scores)[k]].content,
            ),
{
    let n = scores.len() as int;
    lemma_rank_order_up_to_properties(scores, n);
    assert(rank_order(scores).take(take_count(top_k, n)) =~= rank_order(scores));
}

} // verus!
