//! Counting adjacent pairs of symbols and choosing the pair to merge.
//!
//! The pair that wins a round is the one with the highest count; among pairs
//! that share the highest count, the lexicographically smallest one wins.

use std::collections::HashMap;
use vstd::prelude::*;

verus! {

/// The pair of symbols that starts at position `i` of `ids`.
pub open spec fn window(ids: Seq<u32>, i: int) -> (u32, u32) {
    (ids[i], ids[i + 1])
}

/// No window of `ids` holds `pair`.
pub open spec fn pair_absent(ids: Seq<u32>, pair: (u32, u32)) -> bool {
    forall|i: int| 0 <= i && i + 1 < ids.len() ==> #[trigger] window(ids, i) != pair
}

/// Number of positions below `n` at which `pair` starts.
pub open spec fn count_upto(ids: Seq<u32>, pair: (u32, u32), n: nat) -> nat
    decreases n,
{
    if n == 0 {
        0
    } else {
        count_upto(ids, pair, (n - 1) as nat) + if window(ids, n - 1) == pair {
            1nat
        } else {
            0nat
        }
    }
}

/// Number of windows of `ids`: one less than its length, and none where
/// it has fewer than two symbols.
pub open spec fn window_total(ids: Seq<u32>) -> nat {
    if ids.len() < 2 {
        0
    } else {
        (ids.len() - 1) as nat
    }
}

/// Number of windows of `ids` that hold `pair`. Windows overlap: a sequence
/// of length `L` has `L - 1` of them, so `(a, a, a)` holds `(a, a)` twice.
pub open spec fn pair_count(ids: Seq<u32>, pair: (u32, u32)) -> nat {
    count_upto(ids, pair, window_total(ids))
}

/// Lexicographic order on pairs: `a` is `b` or comes before it.
pub open spec fn pair_le(a: (u32, u32), b: (u32, u32)) -> bool {
    a.0 < b.0 || (a.0 == b.0 && a.1 <= b.1)
}

/// `a` is at least as good a choice over `ids` as `b`: it occurs more often,
/// or it occurs as often and is lexicographically at or before `b`.
pub open spec fn prefers(ids: Seq<u32>, a: (u32, u32), b: (u32, u32)) -> bool {
    pair_count(ids, b) < pair_count(ids, a) || (pair_count(ids, b) == pair_count(ids, a)
        && pair_le(a, b))
}

/// `pair` wins the selection over `ids`: it occurs, and it is at least as
/// good a choice as every other pair. So no pair occurs more often, and
/// every pair that occurs as often is lexicographically after it.
pub open spec fn is_best_pair(ids: Seq<u32>, pair: (u32, u32)) -> bool {
    &&& pair_count(ids, pair) > 0
    &&& forall|other: (u32, u32)| #[trigger] prefers(ids, pair, other)
}

/// The winner of the selection over `ids`, where there is one (that is,
/// where `ids` has at least two symbols).
pub open spec fn best_pair(ids: Seq<u32>) -> (u32, u32) {
    choose|pair: (u32, u32)| is_best_pair(ids, pair)
}

/// The key under which the tally holds the count of `pair`.
pub open spec fn pair_key(pair: (u32, u32)) -> u64 {
    (pair.0 * 0x1_0000_0000 + pair.1) as u64
}

/// `counts` holds, for every pair, the number of its occurrences among the
/// first `n` windows of `ids`, and no entry for a pair that has none.
pub open spec fn is_tally(counts: Map<u64, usize>, ids: Seq<u32>, n: nat) -> bool {
    forall|pair: (u32, u32)|
        {
            let key = #[trigger] pair_key(pair);
            &&& counts.contains_key(key) <==> count_upto(ids, pair, n) > 0
            &&& counts.contains_key(key) ==> counts[key] == count_upto(ids, pair, n)
        }
}

/// Packs a pair of symbols into the key of the tally.
pub fn pack_pair(left: u32, right: u32) -> (key: u64)
    ensures
        key == pair_key((left, right)),
{
    (left as u64) * 0x1_0000_0000 + (right as u64)
}

/// Tallies every adjacent pair of `ids`.
pub fn count_pairs(ids: &Vec<u32>) -> (counts: HashMap<u64, usize>)
    ensures
        is_tally(counts@, ids@, window_total(ids@)),
{
    let mut counts: HashMap<u64, usize> = HashMap::new();
    if ids.len() < 2 {
        return counts;
    }
    let windows: usize = ids.len() - 1;
    let mut i: usize = 0;
    while i < windows
        invariant
            windows == ids.len() - 1,
            i <= windows,
            is_tally(counts@, ids@, i as nat),
        decreases windows - i,
    {
        let key = pack_pair(ids[i], ids[i + 1]);
        let ghost here = window(ids@, i as int);
        let ghost before = counts@;
        let seen: usize = match counts.get(&key) {
            Some(c) => *c,
            None => 0,
        };
        proof {
            lemma_count_upto_bound(ids@, here, i as nat);
            assert(pair_key(here) == key);
            assert(seen == count_upto(ids@, here, i as nat));
        }
        counts.insert(key, seen + 1);
        i += 1;
        assert forall|pair: (u32, u32)|
            {
                let k = #[trigger] pair_key(pair);
                &&& counts@.contains_key(k) <==> count_upto(ids@, pair, i as nat) > 0
                &&& counts@.contains_key(k) ==> counts@[k] == count_upto(ids@, pair, i as nat)
            } by {
            if pair != here {
                if pair_key(pair) == key {
                    lemma_pair_key_injective(pair, here);
                }
                assert(before.contains_key(pair_key(pair)) <==> count_upto(
                    ids@,
                    pair,
                    (i - 1) as nat,
                ) > 0);
            }
        }
    }
    counts
}

/// Looks up, in the tally of `ids`, the count of the pair that starts at
/// position `at`.
fn tally_at(counts: &HashMap<u64, usize>, ids: &Vec<u32>, at: usize) -> (n: usize)
    requires
        at + 1 < ids.len(),
        is_tally(counts@, ids@, window_total(ids@)),
    ensures
        n == pair_count(ids@, window(ids@, at as int)),
        n > 0,
{
    proof {
        lemma_window_is_counted(ids@, at as int);
    }
    let key = pack_pair(ids[at], ids[at + 1]);
    match counts.get(&key) {
        Some(c) => *c,
        None => 0,
    }
}

/// Selects the pair to merge: the most frequent adjacent pair of `ids`, and
/// among equally frequent pairs the lexicographically smallest. There is
/// none where `ids` has fewer than two symbols.
pub fn most_frequent_pair(ids: &Vec<u32>) -> (best: Option<(u32, u32)>)
    ensures
        best is None <==> ids@.len() < 2,
        best matches Some(pair) ==> is_best_pair(ids@, pair) && pair == best_pair(ids@),
{
    if ids.len() < 2 {
        return None;
    }
    let counts = count_pairs(ids);
    let windows: usize = ids.len() - 1;
    let mut best: (u32, u32) = (ids[0], ids[1]);
    let mut best_count: usize = tally_at(&counts, ids, 0);
    let mut i: usize = 1;
    while i < windows
        invariant
            ids@.len() >= 2,
            windows == ids.len() - 1,
            1 <= i <= windows,
            is_tally(counts@, ids@, window_total(ids@)),
            best_count == pair_count(ids@, best),
            best_count > 0,
            forall|j: int| 0 <= j < i ==> prefers(ids@, best, #[trigger] window(ids@, j)),
        decreases windows - i,
    {
        let left = ids[i];
        let right = ids[i + 1];
        let count = tally_at(&counts, ids, i);
        if count > best_count || (count == best_count && (left < best.0 || (left == best.0 && right
            < best.1))) {
            best = (left, right);
            best_count = count;
        }
        i += 1;
    }
    proof {
        lemma_best_of_windows(ids@, best);
    }
    Some(best)
}

/// No more than `n` of the first `n` windows hold a given pair.
pub proof fn lemma_count_upto_bound(ids: Seq<u32>, pair: (u32, u32), n: nat)
    ensures
        count_upto(ids, pair, n) <= n,
    decreases n,
{
    if n > 0 {
        lemma_count_upto_bound(ids, pair, (n - 1) as nat);
    }
}

/// Counting further windows never lowers the count.
pub proof fn lemma_count_upto_monotone(ids: Seq<u32>, pair: (u32, u32), m: nat, n: nat)
    requires
        m <= n,
    ensures
        count_upto(ids, pair, m) <= count_upto(ids, pair, n),
    decreases n,
{
    if m < n {
        lemma_count_upto_monotone(ids, pair, m, (n - 1) as nat);
    }
}

/// The pair in any window has a positive count.
pub proof fn lemma_window_is_counted(ids: Seq<u32>, i: int)
    requires
        0 <= i,
        i + 1 < ids.len(),
    ensures
        pair_count(ids, window(ids, i)) > 0,
{
    let pair = window(ids, i);
    assert(count_upto(ids, pair, (i + 1) as nat) > 0);
    lemma_count_upto_monotone(ids, pair, (i + 1) as nat, window_total(ids));
}

/// A pair counted among the first `n` windows starts at one of them.
pub proof fn lemma_counted_has_window(ids: Seq<u32>, pair: (u32, u32), n: nat) -> (i: int)
    requires
        count_upto(ids, pair, n) > 0,
    ensures
        0 <= i < n,
        window(ids, i) == pair,
    decreases n,
{
    if window(ids, n - 1) == pair {
        n - 1
    } else {
        lemma_counted_has_window(ids, pair, (n - 1) as nat)
    }
}

/// Two winners of one selection are the same pair.
pub proof fn lemma_best_pair_unique(ids: Seq<u32>, a: (u32, u32), b: (u32, u32))
    requires
        is_best_pair(ids, a),
        is_best_pair(ids, b),
    ensures
        a == b,
{
    assert(prefers(ids, a, b));
    assert(prefers(ids, b, a));
}

/// A pair that occurs, and is at least as good a choice as the pair of
/// every window, wins the selection.
pub proof fn lemma_best_of_windows(ids: Seq<u32>, pair: (u32, u32))
    requires
        pair_count(ids, pair) > 0,
        forall|i: int| 0 <= i < window_total(ids) ==> prefers(ids, pair, #[trigger] window(ids, i)),
    ensures
        is_best_pair(ids, pair),
        pair == best_pair(ids),
{
    assert forall|other: (u32, u32)| #[trigger] prefers(ids, pair, other) by {
        if pair_count(ids, other) > 0 {
            let i = lemma_counted_has_window(ids, other, window_total(ids));
            assert(prefers(ids, pair, window(ids, i)));
        }
    }
    lemma_best_pair_unique(ids, pair, best_pair(ids));
}

/// The key of a pair determines the pair.
pub proof fn lemma_pair_key_injective(a: (u32, u32), b: (u32, u32))
    requires
        pair_key(a) == pair_key(b),
    ensures
        a == b,
{
}

/// A winner among the pairs of the first `n` windows of `ids`.
proof fn lemma_best_among(ids: Seq<u32>, n: nat) -> (best: (u32, u32))
    requires
        1 <= n < ids.len(),
    ensures
        pair_count(ids, best) > 0,
        forall|j: int| 0 <= j < n ==> prefers(ids, best, #[trigger] window(ids, j)),
    decreases n,
{
    let last = window(ids, n - 1);
    lemma_window_is_counted(ids, n - 1);
    if n == 1 {
        last
    } else {
        let earlier = lemma_best_among(ids, (n - 1) as nat);
        if prefers(ids, earlier, last) {
            earlier
        } else {
            assert(prefers(ids, last, earlier));
            last
        }
    }
}

/// Every sequence of at least two symbols has a winner, and `best_pair` is it.
pub proof fn lemma_best_pair_exists(ids: Seq<u32>)
    requires
        ids.len() >= 2,
    ensures
        is_best_pair(ids, best_pair(ids)),
{
    let best = lemma_best_among(ids, window_total(ids));
    lemma_best_of_windows(ids, best);
}

} // verus!
