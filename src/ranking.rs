//! Ranking: a bounded, descending list of candidates by relevance, then
//! confidence and popularity relative to the candidate set.
use std::collections::HashMap;

use vstd::prelude::*;

use crate::cache::{CachedCrate, CachedCrateView, Snapshot};
use crate::score::SCALE;

verus! {

broadcast use vstd::std_specs::hash::group_hash_axioms;

/// The most candidates a query keeps.
pub const RESULT_LIMIT: usize = 1000;

/// Descending by score.
pub open spec fn sorted_desc<T>(s: Seq<(u128, T)>) -> bool {
    forall|i: int, j: int| 0 <= i < j < s.len() ==> #[trigger] s[i].0 >= #[trigger] s[j].0
}

/// Where a new entry of `score` goes in a descending list: after every entry
/// that scores at least as much.
pub open spec fn insert_position<T>(s: Seq<(u128, T)>, score: u128) -> int
    decreases s.len(),
{
    if s.len() == 0 {
        0
    } else if s.last().0 >= score {
        s.len() as int
    } else {
        insert_position(s.drop_last(), score)
    }
}

/// The list after a candidate is ranked into it and the list is cut back to
/// `RESULT_LIMIT` entries.
pub open spec fn ranked_insert(s: Seq<(u128, u64)>, score: u128, id: u64) -> Seq<(u128, u64)> {
    let t = s.insert(insert_position(s, score), (score, id));
    if t.len() > RESULT_LIMIT {
        t.take(RESULT_LIMIT as int)
    } else {
        t
    }
}

/// The list that ranking `entries` one after the other builds.
pub open spec fn top_list(entries: Seq<(u128, u64)>) -> Seq<(u128, u64)>
    decreases entries.len(),
{
    if entries.len() == 0 {
        Seq::empty()
    } else {
        let e = entries.last();
        ranked_insert(top_list(entries.drop_last()), e.0, e.1)
    }
}

pub proof fn lemma_insert_position<T>(s: Seq<(u128, T)>, score: u128)
    requires
        sorted_desc(s),
    ensures
        0 <= insert_position(s, score) <= s.len(),
        forall|i: int| 0 <= i < insert_position(s, score) ==> s[i].0 >= score,
        forall|i: int| insert_position(s, score) <= i < s.len() ==> s[i].0 < score,
    decreases s.len(),
{
    if s.len() > 0 {
        if s.last().0 < score {
            let p = s.drop_last();
            assert(sorted_desc(p));
            lemma_insert_position(p, score);
            assert forall|i: int| 0 <= i < s.len() - 1 implies s[i] == p[i] by {}
        } else {
            assert forall|i: int| 0 <= i < s.len() implies s[i].0 >= score by {
                if i < s.len() - 1 {
                    assert(s[i].0 >= s[s.len() - 1].0);
                }
            }
        }
    }
}

proof fn lemma_sorted_insert<T>(s: Seq<(u128, T)>, x: (u128, T))
    requires
        sorted_desc(s),
    ensures
        sorted_desc(s.insert(insert_position(s, x.0), x)),
{
    lemma_insert_position(s, x.0);
    let p = insert_position(s, x.0);
    let t = s.insert(p, x);
    assert forall|i: int, j: int| 0 <= i < j < t.len() implies #[trigger] t[i].0 >= #[trigger] t[j].0 by {
        if i < p && j > p {
            assert(t[j] == s[j - 1]);
        } else if i > p {
            assert(t[i] == s[i - 1] && t[j] == s[j - 1]);
        }
    }
}

proof fn lemma_ranked_insert(s: Seq<(u128, u64)>, score: u128, id: u64)
    requires
        sorted_desc(s),
        s.len() <= RESULT_LIMIT,
    ensures
        sorted_desc(ranked_insert(s, score, id)),
        ranked_insert(s, score, id).len() <= RESULT_LIMIT,
{
    lemma_sorted_insert(s, (score, id));
}

/// However many candidates are ranked, the list keeps at most
/// `RESULT_LIMIT` entries and stays in descending order of score.
pub proof fn lemma_top_list_bounded_sorted(entries: Seq<(u128, u64)>)
    ensures
        top_list(entries).len() <= RESULT_LIMIT,
        sorted_desc(top_list(entries)),
    decreases entries.len(),
{
    if entries.len() > 0 {
        lemma_top_list_bounded_sorted(entries.drop_last());
        let e = entries.last();
        lemma_ranked_insert(top_list(entries.drop_last()), e.0, e.1);
    }
}

/// Inserts `x` into a descending list after every entry that scores at
/// least as much, by binary search.
pub fn insert_by_score<T>(v: &mut Vec<(u128, T)>, x: (u128, T))
    requires
        sorted_desc(old(v)@),
    ensures
        final(v)@ == old(v)@.insert(insert_position(old(v)@, x.0), x),
        sorted_desc(final(v)@),
{
    proof {
        lemma_insert_position(v@, x.0);
        lemma_sorted_insert(v@, x);
    }
    let ghost s = v@;
    let score = x.0;
    let mut lo: usize = 0;
    let mut hi: usize = v.len();
    while lo < hi
        invariant
            s == v@,
            sorted_desc(s),
            0 <= lo <= hi <= s.len(),
            forall|i: int| 0 <= i < lo ==> s[i].0 >= score,
            forall|i: int| hi <= i < s.len() ==> s[i].0 < score,
        decreases hi - lo,
    {
        let mid = lo + (hi - lo) / 2;
        if v[mid].0 >= score {
            assert forall|i: int| 0 <= i <= mid implies s[i].0 >= score by {
                if i < mid {
                    assert(s[i].0 >= s[mid as int].0);
                }
            }
            lo = mid + 1;
        } else {
            assert forall|i: int| mid <= i < s.len() implies s[i].0 < score by {
                if i > mid {
                    assert(s[mid as int].0 >= s[i].0);
                }
            }
            hi = mid;
        }
    }
    let ghost p = insert_position(s, score);
    assert(lo == p) by {
        if lo < p {
            assert(s[lo as int].0 >= score);
        }
        if lo > p {
            assert(s[p].0 < score);
        }
    }
    v.insert(lo, x);
}

/// Ranks a candidate into a descending list capped at `RESULT_LIMIT`
/// entries.
pub fn insert_ranked(results: &mut Vec<(u128, u64)>, score: u128, id: u64)
    requires
        sorted_desc(old(results)@),
        old(results)@.len() <= RESULT_LIMIT,
    ensures
        final(results)@ == ranked_insert(old(results)@, score, id),
        sorted_desc(final(results)@),
        final(results)@.len() <= RESULT_LIMIT,
{
    proof {
        lemma_ranked_insert(results@, score, id);
    }
    let ghost s = results@;
    insert_by_score(results, (score, id));
    if results.len() > RESULT_LIMIT {
        results.truncate(RESULT_LIMIT);
    }
    assert(results@ =~= ranked_insert(s, score, id));
}

/// A relevance value saturated into `u64`.
pub open spec fn capped(x: u128) -> u128 {
    if x > u64::MAX as u128 {
        u64::MAX as u128
    } else {
        x
    }
}

/// `raw / max` in fixed point; every candidate is a best match when the best
/// relevance is zero.
pub open spec fn confidence_spec(raw: int, max: int) -> int {
    if max == 0 {
        SCALE as int
    } else {
        raw * (SCALE as int) / max
    }
}

/// `x / total` in fixed point, zero for an empty total.
pub open spec fn share_spec(x: int, total: int) -> int {
    if total == 0 {
        0
    } else {
        x * (SCALE as int) / total
    }
}

/// Recent downloads weigh four times the all-time downloads.
pub open spec fn popularity_spec(recent: int, total_recent: int, all: int, total_all: int) -> int {
    (4 * share_spec(recent, total_recent) + share_spec(all, total_all)) / 5
}

/// `confidence * popularity / maximum_popularity` in fixed point; where no
/// candidate has any popularity, the confidence alone.
pub open spec fn order_key_spec(conf: int, pop: int, max_pop: int) -> int {
    if max_pop == 0 {
        conf * (SCALE as int)
    } else {
        conf * pop * (SCALE as int) / max_pop
    }
}

/// The entries whose crate the snapshot holds, in order.
pub open spec fn present(top: Seq<(u128, u64)>, m: Map<u64, CachedCrateView>) -> Seq<(u128, u64)>
    decreases top.len(),
{
    if top.len() == 0 {
        Seq::empty()
    } else {
        let p = present(top.drop_last(), m);
        if m.contains_key(top.last().1) {
            p.push(top.last())
        } else {
            p
        }
    }
}

pub open spec fn sum_downloads(s: Seq<(u128, u64)>, m: Map<u64, CachedCrateView>) -> int
    decreases s.len(),
{
    if s.len() == 0 {
        0
    } else {
        sum_downloads(s.drop_last(), m) + m[s.last().1].downloads
    }
}

pub open spec fn sum_recent(s: Seq<(u128, u64)>, m: Map<u64, CachedCrateView>) -> int
    decreases s.len(),
{
    if s.len() == 0 {
        0
    } else {
        sum_recent(s.drop_last(), m) + m[s.last().1].recent_downloads
    }
}

/// A crate's popularity relative to the candidates `s`.
pub open spec fn popularity_in(id: u64, s: Seq<(u128, u64)>, m: Map<u64, CachedCrateView>) -> int {
    popularity_spec(
        m[id].recent_downloads as int,
        sum_recent(s, m),
        m[id].downloads as int,
        sum_downloads(s, m),
    )
}

/// The largest popularity among the entries `t`, relative to `s`.
pub open spec fn max_popularity(
    t: Seq<(u128, u64)>,
    s: Seq<(u128, u64)>,
    m: Map<u64, CachedCrateView>,
) -> int
    decreases t.len(),
{
    if t.len() == 0 {
        0
    } else {
        let rest = max_popularity(t.drop_last(), s, m);
        let p = popularity_in(t.last().1, s, m);
        if p > rest {
            p
        } else {
            rest
        }
    }
}

/// Each candidate with its order key, confidence, popularity and id.
pub open spec fn scored(s: Seq<(u128, u64)>, m: Map<u64, CachedCrateView>, max_conf: u128) -> Seq<
    (u128, (u64, u64, u64)),
> {
    s.map_values(
        |e: (u128, u64)|
            {
                let conf = confidence_spec(e.0 as int, max_conf as int);
                let pop = popularity_in(e.1, s, m);
                (
                    order_key_spec(conf, pop, max_popularity(s, s, m)) as u128,
                    (conf as u64, pop as u64, e.1),
                )
            },
    )
}

/// A query result: relevance relative to the best match, popularity relative
/// to the other results (both in fixed point), and the crate.
#[derive(Debug)]
pub struct RankedCrate {
    pub id: u64,
    pub confidence: u64,
    pub popularity: u64,
    pub result: CachedCrate,
}

/// `r` is the ranking of the list `top` against the snapshot's crates `m`:
/// the candidates that `m` holds, with confidence and popularity, in
/// descending order of their order key.
pub open spec fn is_ranking(r: Seq<RankedCrate>, top: Seq<(u128, u64)>, m: Map<u64, CachedCrateView>) -> bool {
    &&& top.len() == 0 ==> r.len() == 0
    &&& top.len() > 0 ==> exists|order: Seq<(u128, (u64, u64, u64))>|
        {
            &&& sorted_desc(order)
            &&& order.to_multiset() == scored(present(top, m), m, top[0].0).to_multiset()
            &&& r.len() == order.len()
            &&& forall|i: int|
                0 <= i < order.len() ==> {
                    &&& (#[trigger] r[i]).id == order[i].1.2
                    &&& r[i].confidence == order[i].1.0
                    &&& r[i].popularity == order[i].1.1
                    &&& r[i].result@ == m[order[i].1.2]
                }
        }
}

/// The best relevance gets a confidence of exactly 1.0.
pub proof fn lemma_top_confidence(max: u128)
    ensures
        confidence_spec(max as int, max as int) == SCALE,
{
    if max != 0 {
        assert(max as int * (SCALE as int) / max as int == SCALE as int) by (nonlinear_arith)
            requires
                max as int > 0,
        ;
    }
}

/// Relevance relative to the best, in fixed point.
pub fn confidence(raw: u128, max: u128) -> (r: u64)
    requires
        raw <= max,
        max <= u64::MAX,
    ensures
        r == confidence_spec(raw as int, max as int),
        r <= SCALE,
{
    if max == 0 {
        SCALE
    } else {
        assert(raw as int * 1000000 / max as int <= 1000000) by (nonlinear_arith)
            requires
                raw <= max,
                max > 0,
        ;
        assert(raw as int * 1000000 <= u64::MAX as int * 1000000) by (nonlinear_arith)
            requires
                raw <= max,
                max <= u64::MAX,
        ;
        (raw * (SCALE as u128) / max) as u64
    }
}

/// `x / total` in fixed point.
fn share(x: u128, total: u128) -> (r: u128)
    requires
        x <= total,
        x <= u64::MAX,
    ensures
        r == share_spec(x as int, total as int),
        r <= SCALE,
{
    if total == 0 {
        0
    } else {
        assert(x as int * 1000000 / total as int <= 1000000) by (nonlinear_arith)
            requires
                x <= total,
                total > 0,
        ;
        assert(x as int * 1000000 <= u64::MAX as int * 1000000) by (nonlinear_arith)
            requires
                x <= u64::MAX,
        ;
        x * (SCALE as u128) / total
    }
}

/// A crate's popularity among the candidates, from its downloads and the
/// candidates' totals.
pub fn popularity(recent: u64, total_recent: u128, downloads: u64, total_downloads: u128) -> (r: u64)
    requires
        recent <= total_recent,
        downloads <= total_downloads,
    ensures
        r == popularity_spec(recent as int, total_recent as int, downloads as int, total_downloads as int),
        r <= SCALE,
{
    let recent_share = share(recent as u128, total_recent);
    let all_time_share = share(downloads as u128, total_downloads);
    ((recent_share * 4 + all_time_share) / 5) as u64
}

/// The final sort key.
fn order_key(conf: u64, pop: u64, max_pop: u64) -> (r: u128)
    requires
        conf <= SCALE,
        pop <= max_pop,
        max_pop <= SCALE,
    ensures
        r == order_key_spec(conf as int, pop as int, max_pop as int),
{
    if max_pop == 0 {
        assert(conf as int * 1000000 <= 1000000 * 1000000) by (nonlinear_arith)
            requires
                conf <= 1000000,
        ;
        (conf as u128) * (SCALE as u128)
    } else {
        assert(conf as int * pop as int * 1000000 <= 1000000 * 1000000 * 1000000) by (
        nonlinear_arith)
            requires
                conf <= 1000000,
                pop <= 1000000,
        ;
        assert(0 <= conf as int * pop as int) by (nonlinear_arith);
        (conf as u128) * (pop as u128) * (SCALE as u128) / (max_pop as u128)
    }
}

proof fn lemma_present(top: Seq<(u128, u64)>, m: Map<u64, CachedCrateView>, bound: u128)
    requires
        forall|i: int| 0 <= i < top.len() ==> (#[trigger] top[i]).0 <= bound,
    ensures
        present(top, m).len() <= top.len(),
        forall|i: int| 0 <= i < present(top, m).len() ==> exists|j: int| 0 <= j < top.len() && top[j] == #[trigger] present(top, m)[i],
        forall|i: int| 0 <= i < present(top, m).len() ==> m.contains_key((#[trigger] present(top, m)[i]).1),
        forall|i: int| 0 <= i < present(top, m).len() ==> (#[trigger] present(top, m)[i]).0 <= bound,
    decreases top.len(),
{
    if top.len() > 0 {
        let t = top.drop_last();
        assert forall|i: int| 0 <= i < t.len() implies (#[trigger] t[i]).0 <= bound by {
            assert(t[i] == top[i]);
        }
        lemma_present(t, m, bound);
        assert forall|i: int| 0 <= i < present(top, m).len() implies exists|j: int| 0 <= j < top.len() && top[j] == #[trigger] present(top, m)[i] by {
            if i < present(t, m).len() {
                let j = choose|j: int| 0 <= j < t.len() && t[j] == present(t, m)[i];
                assert(top[j] == t[j]);
            } else {
                assert(top[top.len() - 1] == present(top, m)[i]);
            }
        }
    }
}

proof fn lemma_sums(s: Seq<(u128, u64)>, m: Map<u64, CachedCrateView>)
    ensures
        0 <= sum_downloads(s, m) <= s.len() * (u64::MAX as int),
        0 <= sum_recent(s, m) <= s.len() * (u64::MAX as int),
        forall|i: int| 0 <= i < s.len() ==> m[(#[trigger] s[i]).1].downloads <= sum_downloads(s, m),
        forall|i: int| 0 <= i < s.len() ==> m[(#[trigger] s[i]).1].recent_downloads <= sum_recent(s, m),
    decreases s.len(),
{
    if s.len() > 0 {
        let t = s.drop_last();
        lemma_sums(t, m);
        assert forall|i: int| 0 <= i < s.len() - 1 implies s[i] == t[i] by {}
    }
}

proof fn lemma_max_popularity(t: Seq<(u128, u64)>, s: Seq<(u128, u64)>, m: Map<u64, CachedCrateView>)
    requires
        forall|i: int| 0 <= i < t.len() ==> 0 <= popularity_in((#[trigger] t[i]).1, s, m) <= SCALE,
    ensures
        0 <= max_popularity(t, s, m) <= SCALE,
        forall|i: int| 0 <= i < t.len() ==> popularity_in((#[trigger] t[i]).1, s, m) <= max_popularity(t, s, m),
    decreases t.len(),
{
    if t.len() > 0 {
        let u = t.drop_last();
        assert forall|i: int| 0 <= i < u.len() implies 0 <= popularity_in((#[trigger] u[i]).1, s, m) <= SCALE by {
            assert(u[i] == t[i]);
        }
        lemma_max_popularity(u, s, m);
        assert forall|i: int| 0 <= i < t.len() - 1 implies t[i] == u[i] by {}
    }
}

/// The entries of `top` whose crate the snapshot holds.
fn present_entries(top: &Vec<(u128, u64)>, crates: &HashMap<u64, CachedCrate>) -> (r: Vec<(u128, u64)>)
    ensures
        r@ == present(top@, Map::new(|id: u64| crates@.contains_key(id), |id: u64| crates@[id]@)),
{
    let ghost m = Map::new(|id: u64| crates@.contains_key(id), |id: u64| crates@[id]@);
    let mut out: Vec<(u128, u64)> = Vec::new();
    let mut i: usize = 0;
    while i < top.len()
        invariant
            i <= top@.len(),
            m == Map::new(|id: u64| crates@.contains_key(id), |id: u64| crates@[id]@),
            out@ == present(top@.subrange(0, i as int), m),
        decreases top@.len() - i,
    {
        let e = top[i];
        let ghost prefix = top@.subrange(0, i as int + 1);
        assert(prefix.drop_last() =~= top@.subrange(0, i as int));
        if crates.contains_key(&e.1) {
            out.push(e);
        }
        i = i + 1;
    }
    assert(top@.subrange(0, i as int) =~= top@);
    out
}

/// Orders the ranked candidates for output. Candidates missing from the
/// snapshot are left out. Confidence is relevance relative to the first
/// (best) entry of `top`; popularity is relative to the candidates' download
/// totals; the order is descending by `order_key_spec` (the order of equal
/// keys is left open).
pub fn rank_results(top: &Vec<(u128, u64)>, snapshot: &Snapshot) -> (r: Vec<RankedCrate>)
    requires
        sorted_desc(top@),
        top@.len() <= RESULT_LIMIT,
        forall|i: int| 0 <= i < top@.len() ==> (#[trigger] top@[i]).0 <= u64::MAX,
    ensures
        is_ranking(r@, top@, snapshot.crates_view()),
        forall|i: int| 0 <= i < r@.len() ==> exists|j: int| 0 <= j < top@.len() && top@[j].1 == (#[trigger] r@[i]).id,
{
    let ghost m = snapshot.crates_view();
    if top.len() == 0 {
        return Vec::new();
    }
    let crates = &snapshot.crates;
    let max_conf = top[0].0;
    assert forall|i: int| 0 <= i < top@.len() implies (#[trigger] top@[i]).0 <= max_conf by {
        if i > 0 {
            assert(top@[0].0 >= top@[i].0);
        }
    }
    let s = present_entries(top, crates);
    proof {
        lemma_present(top@, m, max_conf);
        lemma_sums(s@, m);
    }
    let mut total_downloads: u128 = 0;
    let mut total_recent: u128 = 0;
    let mut i: usize = 0;
    while i < s.len()
        invariant
            i <= s@.len() <= RESULT_LIMIT,
            m == Map::new(|id: u64| crates@.contains_key(id), |id: u64| crates@[id]@),
            forall|k: int| 0 <= k < s@.len() ==> m.contains_key((#[trigger] s@[k]).1),
            total_downloads == sum_downloads(s@.subrange(0, i as int), m),
            total_recent == sum_recent(s@.subrange(0, i as int), m),
        decreases s@.len() - i,
    {
        let id = s[i].1;
        let c = crates.get(&id).unwrap();
        let ghost prefix = s@.subrange(0, i as int + 1);
        assert(prefix.drop_last() =~= s@.subrange(0, i as int));
        proof {
            lemma_sums(s@.subrange(0, i as int), m);
        }
        total_downloads = total_downloads + c.downloads as u128;
        total_recent = total_recent + c.recent_downloads as u128;
        i = i + 1;
    }
    assert(s@.subrange(0, i as int) =~= s@);
    let mut pops: Vec<u64> = Vec::new();
    let mut max_pop: u64 = 0;
    i = 0;
    while i < s.len()
        invariant
            i <= s@.len() <= RESULT_LIMIT,
            m == Map::new(|id: u64| crates@.contains_key(id), |id: u64| crates@[id]@),
            forall|k: int| 0 <= k < s@.len() ==> m.contains_key((#[trigger] s@[k]).1),
            forall|k: int| 0 <= k < s@.len() ==> m[(#[trigger] s@[k]).1].downloads <= sum_downloads(s@, m),
            forall|k: int| 0 <= k < s@.len() ==> m[(#[trigger] s@[k]).1].recent_downloads <= sum_recent(s@, m),
            total_downloads == sum_downloads(s@, m),
            total_recent == sum_recent(s@, m),
            pops@.len() == i,
            forall|k: int| 0 <= k < i ==> #[trigger] pops@[k] == popularity_in(s@[k].1, s@, m),
            forall|k: int| 0 <= k < i ==> 0 <= popularity_in((#[trigger] s@[k]).1, s@, m) <= SCALE,
            max_pop == max_popularity(s@.subrange(0, i as int), s@, m),
        decreases s@.len() - i,
    {
        let id = s[i].1;
        let c = crates.get(&id).unwrap();
        let p = popularity(c.recent_downloads, total_recent, c.downloads, total_downloads);
        let ghost prefix = s@.subrange(0, i as int + 1);
        assert(prefix.drop_last() =~= s@.subrange(0, i as int));
        pops.push(p);
        if p > max_pop {
            max_pop = p;
        }
        i = i + 1;
    }
    assert(s@.subrange(0, i as int) =~= s@);
    proof {
        lemma_max_popularity(s@, s@, m);
    }
    let ghost sc = scored(s@, m, max_conf);
    let mut order: Vec<(u128, (u64, u64, u64))> = Vec::new();
    i = 0;
    assert(order@ =~= sc.subrange(0, 0));
    while i < s.len()
        invariant
            i <= s@.len() <= RESULT_LIMIT,
            sc == scored(s@, m, max_conf),
            m == Map::new(|id: u64| crates@.contains_key(id), |id: u64| crates@[id]@),
            forall|k: int| 0 <= k < s@.len() ==> m.contains_key((#[trigger] s@[k]).1),
            forall|k: int| 0 <= k < s@.len() ==> (#[trigger] s@[k]).0 <= max_conf,
            max_conf <= u64::MAX,
            pops@.len() == s@.len(),
            forall|k: int| 0 <= k < s@.len() ==> #[trigger] pops@[k] == popularity_in(s@[k].1, s@, m),
            forall|k: int| 0 <= k < s@.len() ==> popularity_in((#[trigger] s@[k]).1, s@, m) <= max_pop,
            max_pop == max_popularity(s@, s@, m),
            max_pop <= SCALE,
            sorted_desc(order@),
            forall|k: int| 0 <= k < s@.len() ==> exists|j: int| 0 <= j < top@.len() && top@[j] == #[trigger] s@[k],
            forall|k: int| 0 <= k < order@.len() ==> exists|j: int| 0 <= j < top@.len() && top@[j].1 == (#[trigger] order@[k]).1.2,
            order@.to_multiset() == sc.subrange(0, i as int).to_multiset(),
            forall|k: int| 0 <= k < order@.len() ==> m.contains_key((#[trigger] order@[k]).1.2),
        decreases s@.len() - i,
    {
        let e = s[i];
        let conf = confidence(e.0, max_conf);
        let p = pops[i];
        let key = order_key(conf, p, max_pop);
        let x = (key, (conf, p, e.1));
        assert(x == sc[i as int]);
        let ghost before = order@;
        insert_by_score(&mut order, x);
        proof {
            let pos = insert_position(before, x.0);
            lemma_insert_position(before, x.0);
            vstd::seq_lib::to_multiset_insert(before, pos, x);
            assert(sc.subrange(0, i as int + 1) =~= sc.subrange(0, i as int).push(x));
            vstd::seq_lib::to_multiset_build(sc.subrange(0, i as int), x);
            assert forall|k: int| 0 <= k < order@.len() implies m.contains_key((#[trigger] order@[k]).1.2) by {
                if k < pos {
                    assert(order@[k] == before[k]);
                } else if k > pos {
                    assert(order@[k] == before[k - 1]);
                }
            }
            assert forall|k: int| 0 <= k < order@.len() implies exists|j: int| 0 <= j < top@.len() && top@[j].1 == (#[trigger] order@[k]).1.2 by {
                if k < pos {
                    assert(order@[k] == before[k]);
                } else if k > pos {
                    assert(order@[k] == before[k - 1]);
                } else {
                    assert(order@[k].1.2 == s@[i as int].1);
                }
            }
        }
        i = i + 1;
    }
    assert(sc.subrange(0, i as int) =~= sc);
    let mut out: Vec<RankedCrate> = Vec::new();
    i = 0;
    while i < order.len()
        invariant
            i <= order@.len(),
            m == Map::new(|id: u64| crates@.contains_key(id), |id: u64| crates@[id]@),
            forall|k: int| 0 <= k < order@.len() ==> m.contains_key((#[trigger] order@[k]).1.2),
            forall|k: int| 0 <= k < order@.len() ==> exists|j: int| 0 <= j < top@.len() && top@[j].1 == (#[trigger] order@[k]).1.2,
            out@.len() == i,
            forall|k: int|
                0 <= k < i ==> {
                    &&& (#[trigger] out@[k]).id == order@[k].1.2
                    &&& out@[k].confidence == order@[k].1.0
                    &&& out@[k].popularity == order@[k].1.1
                    &&& out@[k].result@ == m[order@[k].1.2]
                },
        decreases order@.len() - i,
    {
        let (_, (conf, p, id)) = order[i];
        let c = crates.get(&id).unwrap().clone();
        out.push(RankedCrate { id, confidence: conf, popularity: p, result: c });
        i = i + 1;
    }
    assert(m == snapshot.crates_view());
    out
}

/// The ordered results number no more than the ranked list.
pub proof fn lemma_scored_len(
    top: Seq<(u128, u64)>,
    m: Map<u64, CachedCrateView>,
    order: Seq<(u128, (u64, u64, u64))>,
)
    requires
        top.len() > 0,
        order.to_multiset() == scored(present(top, m), m, top[0].0).to_multiset(),
    ensures
        order.len() <= top.len(),
{
    lemma_present(top, m, u128::MAX);
    vstd::seq_lib::to_multiset_len(order);
    vstd::seq_lib::to_multiset_len(scored(present(top, m), m, top[0].0));
}

proof fn lemma_present_first(top: Seq<(u128, u64)>, m: Map<u64, CachedCrateView>)
    requires
        top.len() > 0,
        m.contains_key(top[0].1),
    ensures
        present(top, m).len() > 0,
        present(top, m)[0] == top[0],
    decreases top.len(),
{
    if top.len() > 1 {
        let t = top.drop_last();
        assert(t[0] == top[0]);
        lemma_present_first(t, m);
        if m.contains_key(top.last().1) {
            assert(present(t, m).push(top.last())[0] == present(t, m)[0]);
        }
    } else {
        assert(present(top.drop_last(), m) =~= Seq::<(u128, u64)>::empty());
        assert(top.last() == top[0]);
        assert(present(top, m) == Seq::<(u128, u64)>::empty().push(top[0]));
    }
}

/// Before popularity is weighed in, the best candidate (the first of the
/// ranked list), where the snapshot holds it, has a confidence of exactly
/// 1.0.
pub proof fn lemma_best_candidate_confidence(top: Seq<(u128, u64)>, m: Map<u64, CachedCrateView>)
    requires
        top.len() > 0,
        m.contains_key(top[0].1),
    ensures
        scored(present(top, m), m, top[0].0).len() > 0,
        scored(present(top, m), m, top[0].0)[0].1.0 == SCALE,
        scored(present(top, m), m, top[0].0)[0].1.2 == top[0].1,
{
    lemma_present_first(top, m);
    lemma_top_confidence(top[0].0);
}

/// `x` is in `top`, or `top` is full of entries that score at least as much.
pub open spec fn kept_or_beaten(top: Seq<(u128, u64)>, x: (u128, u64)) -> bool {
    top.contains(x) || (top.len() == RESULT_LIMIT && forall|j: int|
        0 <= j < top.len() ==> (#[trigger] top[j]).0 >= x.0)
}

proof fn lemma_ranked_insert_keeps(t: Seq<(u128, u64)>, e: (u128, u64), x: (u128, u64))
    requires
        sorted_desc(t),
        t.len() <= RESULT_LIMIT,
        kept_or_beaten(t, x) || x == e,
    ensures
        kept_or_beaten(ranked_insert(t, e.0, e.1), x),
{
    lemma_insert_position(t, e.0);
    lemma_sorted_insert(t, e);
    let pos = insert_position(t, e.0);
    let u = t.insert(pos, e);
    let t2 = ranked_insert(t, e.0, e.1);
    assert(u.len() == t.len() + 1);
    assert forall|i: int| 0 <= i < t2.len() implies t2[i] == u[i] by {}
    if x == e {
        if pos < t2.len() {
            assert(t2[pos] == e);
        } else {
            assert(pos == RESULT_LIMIT && t.len() == RESULT_LIMIT);
            assert(t2 =~= t);
            assert forall|j: int| 0 <= j < t2.len() implies (#[trigger] t2[j]).0 >= x.0 by {
                assert(t[j].0 >= e.0);
            }
        }
    } else if t.contains(x) {
        let j = choose|j: int| 0 <= j < t.len() && t[j] == x;
        let j2 = if j < pos { j } else { j + 1 };
        assert(u[j2] == x);
        if j2 < t2.len() {
            assert(t2[j2] == x);
        } else {
            assert(j2 == RESULT_LIMIT);
            assert forall|i: int| 0 <= i < t2.len() implies (#[trigger] t2[i]).0 >= x.0 by {
                assert(u[i].0 >= u[j2].0);
            }
        }
    } else {
        assert(t.len() == RESULT_LIMIT);
        assert forall|i: int| 0 <= i < t2.len() implies (#[trigger] t2[i]).0 >= x.0 by {
            if i < pos {
                assert(u[i] == t[i]);
            } else if i > pos {
                assert(u[i] == t[i - 1]);
            } else {
                assert(t[pos].0 < e.0);
                assert(t[pos].0 >= x.0);
            }
        }
    }
}

/// The bounded list keeps the best candidates: every candidate ranked
/// into it is still in it, or the list holds `RESULT_LIMIT` entries that all
/// score at least as much as that candidate.
pub proof fn lemma_top_list_keeps_best(entries: Seq<(u128, u64)>)
    ensures
        forall|k: int| 0 <= k < entries.len() ==> kept_or_beaten(top_list(entries), #[trigger] entries[k]),
    decreases entries.len(),
{
    if entries.len() > 0 {
        let p = entries.drop_last();
        lemma_top_list_keeps_best(p);
        lemma_top_list_bounded_sorted(p);
        let e = entries.last();
        assert forall|k: int| 0 <= k < entries.len() implies kept_or_beaten(top_list(entries), #[trigger] entries[k]) by {
            if k < entries.len() - 1 {
                assert(entries[k] == p[k]);
                lemma_ranked_insert_keeps(top_list(p), e, entries[k]);
            } else {
                lemma_ranked_insert_keeps(top_list(p), e, e);
            }
        }
    }
}

} // verus!
