//! Free-text search over the snapshot: words of the query matched against
//! normalized crate names and keywords, plus optional full-text hits.
use std::collections::HashMap;

use vstd::prelude::*;
use vstd::utf8::encode_utf8;

use crate::cache::Snapshot;
use crate::ranking::{capped, insert_ranked, is_ranking, rank_results, ranked_insert, sorted_desc, top_list, RankedCrate, RESULT_LIMIT};
use crate::schema::{normalized, Crate};
use crate::score::{all_wf, text_score_spec, QueryScore, ScoreWeights, TextScore};
use crate::text::{ascii_lower, ascii_lowercase_range, chars_of, is_ascii_whitespace, same_chars, string_from_chars};

verus! {

broadcast use vstd::std_specs::hash::group_hash_axioms;

/// The words of `s`: maximal runs of characters other than ASCII whitespace.
pub open spec fn split_words(s: Seq<char>) -> Seq<Seq<char>>
    decreases s.len(),
{
    if s.len() == 0 {
        Seq::empty()
    } else {
        let w = split_words(s.drop_last());
        let c = s.last();
        if is_ascii_whitespace(c) {
            w
        } else if s.len() > 1 && !is_ascii_whitespace(s[s.len() - 2]) {
            w.update(w.len() - 1, w.last().push(c))
        } else {
            w.push(seq![c])
        }
    }
}

/// The words in order of first appearance, each once.
pub open spec fn distinct_words(ws: Seq<Seq<char>>) -> Seq<Seq<char>>
    decreases ws.len(),
{
    if ws.len() == 0 {
        Seq::empty()
    } else {
        let d = distinct_words(ws.drop_last());
        if d.contains(ws.last()) {
            d
        } else {
            d.push(ws.last())
        }
    }
}

/// A keyword that starts with a query word, and the crates that carry it.
#[derive(Debug)]
pub struct KeywordHit {
    pub keyword: String,
    pub crates: Vec<u64>,
}

/// The score of text `needle` against text `haystack`, by their UTF-8 bytes.
pub open spec fn chars_score(needle: Seq<char>, haystack: Seq<char>) -> Option<TextScore> {
    text_score_spec(encode_utf8(needle), encode_utf8(haystack))
}

/// Query word `t` matches crate `id`: its normalized form occurs in one of
/// the crate's normalized names, or the word occurs in a keyword that the
/// crate carries.
pub open spec fn word_matches(
    words: Seq<String>,
    names: Seq<(String, u64)>,
    hits: Seq<Vec<KeywordHit>>,
    t: int,
    id: u64,
) -> bool {
    ||| exists|j: int|
        0 <= j < names.len() && (#[trigger] names[j]).1 == id && chars_score(
            normalized(words[t]@),
            names[j].0@,
        ) is Some
    ||| exists|h: int, c: int|
        0 <= h < hits[t]@.len() && 0 <= c < hits[t]@[h].crates@.len() && (
        #[trigger] hits[t]@[h].crates@[c]) == id && chars_score(
            words[t]@,
            hits[t]@[h].keyword@,
        ) is Some
}

/// The full-text engine returned `id` with score `v`.
pub open spec fn full_text_hit(full_text: Seq<(u64, u64)>, id: u64, v: u64) -> bool {
    exists|k: int| 0 <= k < full_text.len() && #[trigger] full_text[k] == (id, v)
}

/// A crate survives the filter: every query word matched it by name or
/// keyword, or the full-text engine returned it.
pub open spec fn survives(
    words: Seq<String>,
    names: Seq<(String, u64)>,
    hits: Seq<Vec<KeywordHit>>,
    full_text: Seq<(u64, u64)>,
    id: u64,
) -> bool {
    (forall|t: int| 0 <= t < words.len() ==> word_matches(words, names, hits, t, id)) || exists|
        v: u64,
    | full_text_hit(full_text, id, v)
}

/// What a query knows of one candidate, as plain values.
pub struct ScoreView {
    pub matched_words: Seq<usize>,
    pub index_score: Option<u64>,
    pub name: Seq<TextScore>,
    pub keywords: Seq<TextScore>,
    pub category: Seq<TextScore>,
}

pub open spec fn score_view(q: QueryScore) -> ScoreView {
    ScoreView {
        matched_words: q.matched_words@,
        index_score: q.index_score,
        name: q.name@,
        keywords: q.keywords@,
        category: q.category@,
    }
}

/// The candidates of a query: ids in order of first match, and their scores.
pub struct CandidateState {
    pub order: Seq<u64>,
    pub scores: Map<u64, ScoreView>,
}

pub open spec fn no_score() -> ScoreView {
    ScoreView {
        matched_words: Seq::empty(),
        index_score: None,
        name: Seq::empty(),
        keywords: Seq::empty(),
        category: Seq::empty(),
    }
}

/// The score of `id` so far, empty for a crate not yet a candidate.
pub open spec fn score_of(st: CandidateState, id: u64) -> ScoreView {
    if st.scores.contains_key(id) {
        st.scores[id]
    } else {
        no_score()
    }
}

/// Lists `id` as a candidate, if it is not one yet, with score `sv`.
pub open spec fn with_score(st: CandidateState, id: u64, sv: ScoreView) -> CandidateState {
    CandidateState {
        order: if st.scores.contains_key(id) {
            st.order
        } else {
            st.order.push(id)
        },
        scores: st.scores.insert(id, sv),
    }
}

/// Word `t` matched crate `id` with `score`, by name or by keyword.
pub open spec fn apply_match(st: CandidateState, id: u64, t: usize, score: TextScore, by_name: bool) -> CandidateState {
    let sv = score_of(st, id);
    let m = sv.matched_words;
    with_score(
        st,
        id,
        ScoreView {
            matched_words: if m.len() > 0 && m.last() == t {
                m
            } else {
                m.push(t)
            },
            name: if by_name {
                sv.name.push(score)
            } else {
                sv.name
            },
            keywords: if by_name {
                sv.keywords
            } else {
                sv.keywords.push(score)
            },
            ..sv
        },
    )
}

/// Word `t` (normalized: `needle`) against the first `j` names.
pub open spec fn names_pass(st: CandidateState, t: usize, needle: Seq<char>, names: Seq<(String, u64)>, j: int) -> CandidateState
    decreases j,
{
    if j <= 0 {
        st
    } else {
        let p = names_pass(st, t, needle, names, j - 1);
        match chars_score(needle, names[j - 1].0@) {
            Some(score) => apply_match(p, names[j - 1].1, t, score, true),
            None => p,
        }
    }
}

/// A keyword match of word `t` for the first `c` crates carrying it.
pub open spec fn crates_pass(st: CandidateState, t: usize, score: TextScore, crates: Seq<u64>, c: int) -> CandidateState
    decreases c,
{
    if c <= 0 {
        st
    } else {
        apply_match(crates_pass(st, t, score, crates, c - 1), crates[c - 1], t, score, false)
    }
}

/// Word `t` against the first `h` keyword hits.
pub open spec fn hits_pass(st: CandidateState, t: usize, word: Seq<char>, hits: Seq<KeywordHit>, h: int) -> CandidateState
    decreases h,
{
    if h <= 0 {
        st
    } else {
        let p = hits_pass(st, t, word, hits, h - 1);
        match chars_score(word, hits[h - 1].keyword@) {
            Some(score) => crates_pass(p, t, score, hits[h - 1].crates@, hits[h - 1].crates@.len() as int),
            None => p,
        }
    }
}

/// The first `t` words against the names and their keyword hits.
pub open spec fn words_pass(words: Seq<String>, names: Seq<(String, u64)>, hits: Seq<Vec<KeywordHit>>, t: int) -> CandidateState
    decreases t,
{
    if t <= 0 {
        CandidateState { order: Seq::empty(), scores: Map::empty() }
    } else {
        let p = words_pass(words, names, hits, t - 1);
        let q = names_pass(p, (t - 1) as usize, normalized(words[t - 1]@), names, names.len() as int);
        hits_pass(q, (t - 1) as usize, words[t - 1]@, hits[t - 1]@, hits[t - 1]@.len() as int)
    }
}

/// The first `k` full-text hits attached.
pub open spec fn full_text_pass(st: CandidateState, full_text: Seq<(u64, u64)>, k: int) -> CandidateState
    decreases k,
{
    if k <= 0 {
        st
    } else {
        let p = full_text_pass(st, full_text, k - 1);
        let (id, v) = full_text[k - 1];
        with_score(p, id, ScoreView { index_score: Some(v), ..score_of(p, id) })
    }
}

/// The candidates of a query.
pub open spec fn candidates_spec(
    words: Seq<String>,
    names: Seq<(String, u64)>,
    hits: Seq<Vec<KeywordHit>>,
    full_text: Seq<(u64, u64)>,
) -> CandidateState {
    full_text_pass(words_pass(words, names, hits, words.len() as int), full_text, full_text.len() as int)
}

/// The weighted sum of a candidate's matches.
pub open spec fn combined_view(sv: ScoreView, w: ScoreWeights) -> int {
    w.name * crate::score::weight_sum(sv.name, w.text) + w.keyword * crate::score::weight_sum(sv.keywords, w.text)
        + w.category * crate::score::weight_sum(sv.category, w.text) + w.full_text * match sv.index_score {
        Some(s) => s as int,
        None => 0int,
    }
}

/// The first `i` candidates that survive the filter, with their relevance
/// saturated into `u64`.
pub open spec fn survivor_entries(st: CandidateState, total_words: int, w: ScoreWeights, i: int) -> Seq<(u128, u64)>
    decreases i,
{
    if i <= 0 {
        Seq::empty()
    } else {
        let p = survivor_entries(st, total_words, w, i - 1);
        let id = st.order[i - 1];
        let sv = st.scores[id];
        if sv.matched_words.len() == total_words || sv.index_score is Some {
            p.push((capped(combined_view(sv, w) as u128), id))
        } else {
            p
        }
    }
}

/// The bounded list of a query: its surviving candidates ranked in order.
pub open spec fn query_top(
    words: Seq<String>,
    names: Seq<(String, u64)>,
    hits: Seq<Vec<KeywordHit>>,
    full_text: Seq<(u64, u64)>,
    w: ScoreWeights,
) -> Seq<(u128, u64)> {
    let st = candidates_spec(words, names, hits, full_text);
    top_list(survivor_entries(st, words.len() as int, w, st.order.len() as int))
}

/// What a query found out about each candidate.
pub struct Candidates {
    /// Candidate ids in order of first match.
    pub order: Vec<u64>,
    pub scores: HashMap<u64, QueryScore>,
}

impl Candidates {
    pub open spec fn state(&self) -> CandidateState {
        CandidateState {
            order: self.order@,
            scores: Map::new(|id: u64| self.scores@.contains_key(id), |id: u64| score_view(self.scores@[id])),
        }
    }

    /// Every candidate is listed once, and its score is well formed and
    /// records only real matches of words before `t_end`.
    pub open spec fn sound(
        &self,
        words: Seq<String>,
        names: Seq<(String, u64)>,
        hits: Seq<Vec<KeywordHit>>,
        full_text: Seq<(u64, u64)>,
        t_end: int,
    ) -> bool {
        &&& forall|i: int, j: int|
            0 <= i < j < self.order@.len() ==> #[trigger] self.order@[i] != #[trigger] self.order@[j]
        &&& forall|i: int| 0 <= i < self.order@.len() ==> self.scores@.contains_key(#[trigger] self.order@[i])
        &&& forall|id: u64| #[trigger] self.scores@.contains_key(id) ==> self.order@.contains(id)
        &&& forall|id: u64| #[trigger]
            self.scores@.contains_key(id) ==> {
                let s = self.scores@[id];
                &&& s.wf()
                &&& forall|k: int|
                    0 <= k < s.matched_words@.len() ==> {
                        &&& (#[trigger] s.matched_words@[k]) < t_end
                        &&& word_matches(words, names, hits, s.matched_words@[k] as int, id)
                    }
                &&& s.index_score matches Some(v) ==> full_text_hit(full_text, id, v)
            }
    }

    /// Takes out the score of `id`, or a fresh one, listing `id` if new.
    fn take(&mut self, id: u64) -> (r: QueryScore)
        ensures
            final(self).order@ == if old(self).scores@.contains_key(id) {
                old(self).order@
            } else {
                old(self).order@.push(id)
            },
            final(self).scores@ == old(self).scores@.remove(id),
            old(self).scores@.contains_key(id) ==> r == old(self).scores@[id],
            !old(self).scores@.contains_key(id) ==> {
                &&& r.wf()
                &&& r.matched_words@.len() == 0
                &&& r.index_score is None
                &&& score_view(r) == no_score()
            },
    {
        match self.scores.remove(&id) {
            Some(s) => s,
            None => {
                self.order.push(id);
                let q = QueryScore::new();
                assert(q.matched_words@ =~= Seq::<usize>::empty());
                assert(q.name@ =~= Seq::<TextScore>::empty());
                assert(q.keywords@ =~= Seq::<TextScore>::empty());
                assert(q.category@ =~= Seq::<TextScore>::empty());
                assert(score_view(q) == no_score());
                q
            },
        }
    }
}

/// Splits a query into its distinct words, on ASCII whitespace.
pub fn query_words(text: &str) -> (r: Vec<String>)
    ensures
        r@.len() == distinct_words(split_words(text@)).len(),
        forall|i: int| 0 <= i < r@.len() ==> (#[trigger] r@[i])@ == distinct_words(split_words(text@))[i],
{
    let s = chars_of(text);
    let mut words: Vec<Vec<char>> = Vec::new();
    let mut current: Vec<char> = Vec::new();
    let mut i: usize = 0;
    while i < s.len()
        invariant
            i <= s@.len(),
            s@ == text@,
            i > 0 && !is_ascii_whitespace(s@[i - 1]) ==> current@.len() > 0 && split_words(
                s@.subrange(0, i as int),
            ) == words@.map_values(|w: Vec<char>| w@).push(current@),
            !(i > 0 && !is_ascii_whitespace(s@[i - 1])) ==> current@.len() == 0 && split_words(
                s@.subrange(0, i as int),
            ) == words@.map_values(|w: Vec<char>| w@),
        decreases s@.len() - i,
    {
        let c = s[i];
        let ghost prefix = s@.subrange(0, i as int + 1);
        assert(prefix.drop_last() =~= s@.subrange(0, i as int));
        let ws = c == ' ' || c == '\t' || c == '\n' || c == '\x0C' || c == '\r';
        if ws {
            if current.len() > 0 {
                let ghost old_view = words@.map_values(|w: Vec<char>| w@);
                let w = current;
                current = Vec::new();
                words.push(w);
                assert(words@.map_values(|w: Vec<char>| w@) =~= old_view.push(w@));
            }
        } else {
            let ghost before = current@;
            current.push(c);
            proof {
                let wv = words@.map_values(|w: Vec<char>| w@);
                if i > 0 && !is_ascii_whitespace(s@[i - 1]) {
                    assert(prefix[prefix.len() - 2] == s@[i - 1]);
                    assert(split_words(prefix.drop_last()) == wv.push(before));
                    assert(split_words(prefix) == wv.push(before).update(wv.len() as int, before.push(c)));
                    assert(split_words(prefix) =~= wv.push(current@));
                } else {
                    if i > 0 {
                        assert(prefix[prefix.len() - 2] == s@[i - 1]);
                    }
                    assert(current@ =~= seq![c]);
                    assert(split_words(prefix) =~= wv.push(current@));
                }
            }
        }
        i = i + 1;
    }
    if current.len() > 0 {
        words.push(current);
    }
    assert(s@.subrange(0, i as int) =~= s@);
    let ghost all = words@.map_values(|w: Vec<char>| w@);
    assert(all == split_words(text@));
    let mut distinct: Vec<String> = Vec::new();
    let mut k: usize = 0;
    while k < words.len()
        invariant
            k <= words@.len(),
            all == words@.map_values(|w: Vec<char>| w@),
            distinct@.len() == distinct_words(all.subrange(0, k as int)).len(),
            forall|j: int|
                0 <= j < distinct@.len() ==> (#[trigger] distinct@[j])@ == distinct_words(
                    all.subrange(0, k as int),
                )[j],
        decreases words@.len() - k,
    {
        let ghost d = distinct_words(all.subrange(0, k as int));
        let ghost prefix = all.subrange(0, k as int + 1);
        assert(prefix.drop_last() =~= all.subrange(0, k as int));
        let mut seen = false;
        let mut j: usize = 0;
        while j < distinct.len()
            invariant
                j <= distinct@.len(),
                k < words@.len(),
                distinct@.len() == d.len(),
                forall|x: int| 0 <= x < distinct@.len() ==> (#[trigger] distinct@[x])@ == d[x],
                seen == exists|x: int| 0 <= x < j && d[x] == words@[k as int]@,
            decreases distinct@.len() - j,
        {
            let w = chars_of(distinct[j].as_str());
            if same_chars(&w, &words[k]) {
                seen = true;
            }
            j = j + 1;
        }
        assert(seen == d.contains(all[k as int]));
        if !seen {
            let w = string_from_chars(&words[k]);
            distinct.push(w);
        }
        k = k + 1;
    }
    assert(all.subrange(0, k as int) =~= all);
    distinct
}

/// Records a match of word `t` on crate `id`, by name or by keyword.
fn record_match(
    cands: &mut Candidates,
    id: u64,
    t: usize,
    score: TextScore,
    by_name: bool,
    Ghost(words): Ghost<Seq<String>>,
    Ghost(names): Ghost<Seq<(String, u64)>>,
    Ghost(hits): Ghost<Seq<Vec<KeywordHit>>>,
    Ghost(full_text): Ghost<Seq<(u64, u64)>>,
)
    requires
        old(cands).sound(words, names, hits, full_text, t + 1),
        score.wf(),
        word_matches(words, names, hits, t as int, id),
    ensures
        final(cands).sound(words, names, hits, full_text, t + 1),
        final(cands).state() == apply_match(old(cands).state(), id, t, score, by_name),
{
    let ghost before = cands.scores@;
    let mut q = cands.take(id);
    let ghost old_q = q;
    if by_name {
        q.name.push(score);
    } else {
        q.keywords.push(score);
    }
    q.mark_word(t);
    cands.scores.insert(id, q);
    proof {
        let st = old(cands).state();
        assert(score_of(st, id) == score_view(old_q));
        assert(cands.state().scores =~= apply_match(st, id, t, score, by_name).scores);
        assert(all_wf(q.name@));
        assert forall|i: int, j: int| 0 <= i < j < cands.order@.len() implies #[trigger] cands.order@[i]
            != #[trigger] cands.order@[j] by {
            if !before.contains_key(id) && j == cands.order@.len() - 1 {
                assert(cands.order@[i] == old(cands).order@[i]);
                assert(before.contains_key(old(cands).order@[i]));
            }
        }
        assert forall|x: u64| #[trigger] cands.scores@.contains_key(x) implies cands.order@.contains(x) by {
            if x != id {
                let k = choose|k: int| 0 <= k < old(cands).order@.len() && old(cands).order@[k] == x;
                assert(cands.order@[k] == x);
            } else if !before.contains_key(id) {
                assert(cands.order@[cands.order@.len() - 1] == id);
            }
        }
    }
}

/// Matches every query word against the crate names and the keyword hits,
/// and attaches the full-text scores. `hits[t]` holds the keywords that
/// start with the lowercase form of word `t`.
pub fn collect_candidates(
    words: &Vec<String>,
    names: &Vec<(String, u64)>,
    hits: &Vec<Vec<KeywordHit>>,
    full_text: &Vec<(u64, u64)>,
) -> (r: Candidates)
    requires
        hits@.len() == words@.len(),
    ensures
        r.sound(words@, names@, hits@, full_text@, words@.len() as int),
        r.state() == candidates_spec(words@, names@, hits@, full_text@),
{
    let mut cands = Candidates { order: Vec::new(), scores: HashMap::new() };
    assert(cands.state().scores =~= Map::<u64, ScoreView>::empty());
    let mut t: usize = 0;
    while t < words.len()
        invariant
            t <= words@.len(),
            hits@.len() == words@.len(),
            cands.sound(words@, names@, hits@, full_text@, t as int),
            cands.state() == words_pass(words@, names@, hits@, t as int),
        decreases words@.len() - t,
    {
        let word = &words[t];
        let normalized_word = Crate::normalized_name(word.as_str());
        let ghost start = cands.state();
        let mut j: usize = 0;
        while j < names.len()
            invariant
                t < words@.len(),
                hits@.len() == words@.len(),
                j <= names@.len(),
                normalized_word@ == normalized(words@[t as int]@),
                cands.sound(words@, names@, hits@, full_text@, t + 1),
                cands.state() == names_pass(start, t, normalized(words@[t as int]@), names@, j as int),
            decreases names@.len() - j,
        {
            let (name, id) = (&names[j].0, names[j].1);
            if let Some(score) = TextScore::score(normalized_word.as_str(), name.as_str()) {
                assert(word_matches(words@, names@, hits@, t as int, id)) by {
                    assert(names@[j as int].1 == id);
                }
                record_match(&mut cands, id, t, score, true, Ghost(words@), Ghost(names@), Ghost(hits@), Ghost(full_text@));
            }
            j = j + 1;
        }
        let word_hits = &hits[t];
        let ghost after_names = cands.state();
        let mut h: usize = 0;
        while h < word_hits.len()
            invariant
                t < words@.len(),
                hits@.len() == words@.len(),
                *word_hits == hits@[t as int],
                *word == words@[t as int],
                h <= word_hits@.len(),
                cands.sound(words@, names@, hits@, full_text@, t + 1),
                cands.state() == hits_pass(after_names, t, words@[t as int]@, word_hits@, h as int),
            decreases word_hits@.len() - h,
        {
            let hit = &word_hits[h];
            let word_text = word.as_str();
            let keyword_text = hit.keyword.as_str();
            assert(word_text@ == words@[t as int]@);
            assert(keyword_text@ == hit.keyword@);
            let ghost before_hit = cands.state();
            if let Some(score) = TextScore::score(word_text, keyword_text) {
                let mut c: usize = 0;
                while c < hit.crates.len()
                    invariant
                        cands.state() == crates_pass(before_hit, t, score, hit.crates@, c as int),
                        t < words@.len(),
                        hits@.len() == words@.len(),
                        *word_hits == hits@[t as int],
                        h < word_hits@.len(),
                        *hit == word_hits@[h as int],
                        score.wf(),
                        chars_score(words@[t as int]@, hit.keyword@) == Some(score),
                        c <= hit.crates@.len(),
                        cands.sound(words@, names@, hits@, full_text@, t + 1),
                    decreases hit.crates@.len() - c,
                {
                    let id = hit.crates[c];
                    assert(word_matches(words@, names@, hits@, t as int, id)) by {
                        assert(hits@[t as int]@[h as int].crates@[c as int] == id);
                    }
                    record_match(&mut cands, id, t, score, false, Ghost(words@), Ghost(names@), Ghost(hits@), Ghost(full_text@));
                    c = c + 1;
                }
            }
            h = h + 1;
        }
        t = t + 1;
    }
    let ghost all_words = cands.state();
    let mut k: usize = 0;
    while k < full_text.len()
        invariant
            k <= full_text@.len(),
            cands.sound(words@, names@, hits@, full_text@, words@.len() as int),
            all_words == words_pass(words@, names@, hits@, words@.len() as int),
            cands.state() == full_text_pass(all_words, full_text@, k as int),
        decreases full_text@.len() - k,
    {
        let (id, v) = full_text[k];
        let ghost before = cands.scores@;
        let ghost old_order = cands.order@;
        let ghost st = cands.state();
        let mut q = cands.take(id);
        let ghost old_q = q;
        q.index_score = Some(v);
        cands.scores.insert(id, q);
        proof {
            assert(score_of(st, id) == score_view(old_q));
            assert(cands.state().scores =~= with_score(st, id, ScoreView { index_score: Some(v), ..score_of(st, id) }).scores);
            assert(full_text@[k as int] == (id, v));
            assert(full_text_hit(full_text@, id, v)) by {
                assert(full_text@[k as int] == (id, v));
            }
            assert forall|i: int, j: int| 0 <= i < j < cands.order@.len() implies #[trigger] cands.order@[i]
                != #[trigger] cands.order@[j] by {
                if !before.contains_key(id) && j == cands.order@.len() - 1 {
                    assert(cands.order@[i] == old_order[i]);
                    assert(before.contains_key(old_order[i]));
                }
            }
            assert forall|x: u64| #[trigger] cands.scores@.contains_key(x) implies cands.order@.contains(x) by {
                if x == id && !before.contains_key(id) {
                    assert(cands.order@[cands.order@.len() - 1] == id);
                } else if x != id {
                    assert(before.contains_key(x));
                    let j = choose|j: int| 0 <= j < old_order.len() && old_order[j] == x;
                    assert(cands.order@[j] == x);
                }
            }
        }
        k = k + 1;
    }
    cands
}

proof fn lemma_increasing_lower(m: Seq<usize>, k: int)
    requires
        forall|i: int, j: int| 0 <= i < j < m.len() ==> #[trigger] m[i] < #[trigger] m[j],
        0 <= k < m.len(),
    ensures
        m[k] >= k,
    decreases k,
{
    if k > 0 {
        lemma_increasing_lower(m, k - 1);
        assert(m[k - 1] < m[k]);
    }
}

proof fn lemma_increasing_upper(m: Seq<usize>, k: int, n: int)
    requires
        forall|i: int, j: int| 0 <= i < j < m.len() ==> #[trigger] m[i] < #[trigger] m[j],
        forall|i: int| 0 <= i < m.len() ==> #[trigger] m[i] < n,
        0 <= k < m.len(),
    ensures
        m[k] + (m.len() - k) <= n,
    decreases m.len() - k,
{
    if k < m.len() - 1 {
        lemma_increasing_upper(m, k + 1, n);
        assert(m[k] < m[k + 1]);
    }
}

/// A candidate whose distinct matched words number as many as the query's
/// words matched every word.
proof fn lemma_all_words_matched(
    q: QueryScore,
    words: Seq<String>,
    names: Seq<(String, u64)>,
    hits: Seq<Vec<KeywordHit>>,
    id: u64,
)
    requires
        q.wf(),
        q.matched_words@.len() == words.len(),
        forall|k: int|
            0 <= k < q.matched_words@.len() ==> {
                &&& (#[trigger] q.matched_words@[k]) < words.len()
                &&& word_matches(words, names, hits, q.matched_words@[k] as int, id)
            },
    ensures
        forall|t: int| 0 <= t < words.len() ==> word_matches(words, names, hits, t, id),
{
    let m = q.matched_words@;
    assert forall|t: int| 0 <= t < words.len() implies word_matches(words, names, hits, t, id) by {
        lemma_increasing_lower(m, t);
        lemma_increasing_upper(m, t, words.len() as int);
        assert(m[t] == t);
    }
}

proof fn lemma_ranked_insert_members(s: Seq<(u128, u64)>, score: u128, id: u64)
    requires
        sorted_desc(s),
    ensures
        forall|k: int|
            0 <= k < ranked_insert(s, score, id).len() ==> #[trigger] ranked_insert(s, score, id)[k] == (
            score,
            id,
        ) || exists|j: int| 0 <= j < s.len() && s[j] == ranked_insert(s, score, id)[k],
{
    let p = crate::ranking::insert_position(s, score);
    crate::ranking::lemma_insert_position(s, score);
    let r = ranked_insert(s, score, id);
    assert forall|k: int| 0 <= k < r.len() implies #[trigger] r[k] == (score, id) || exists|j: int|
        0 <= j < s.len() && s[j] == r[k] by {
        if k < p {
            assert(s[k] == r[k]);
        } else if k > p {
            assert(s[k - 1] == r[k]);
        }
    }
}

/// The candidates that survive the filter, ranked into the bounded list by
/// their relevance (saturated into `u64`).
fn select_top(
    cands: &Candidates,
    total_words: usize,
    weights: &ScoreWeights,
    Ghost(words): Ghost<Seq<String>>,
    Ghost(names): Ghost<Seq<(String, u64)>>,
    Ghost(hits): Ghost<Seq<Vec<KeywordHit>>>,
    Ghost(full_text): Ghost<Seq<(u64, u64)>>,
) -> (r: Vec<(u128, u64)>)
    requires
        cands.sound(words, names, hits, full_text, words.len() as int),
        total_words == words.len(),
    ensures
        sorted_desc(r@),
        r@.len() <= RESULT_LIMIT,
        forall|k: int| 0 <= k < r@.len() ==> (#[trigger] r@[k]).0 <= u64::MAX,
        forall|k: int| 0 <= k < r@.len() ==> survives(words, names, hits, full_text, (#[trigger] r@[k]).1),
        r@ == top_list(survivor_entries(cands.state(), words.len() as int, *weights, cands.order@.len() as int)),
{
    let mut results: Vec<(u128, u64)> = Vec::new();
    let mut i: usize = 0;
    while i < cands.order.len()
        invariant
            i <= cands.order@.len(),
            total_words == words.len(),
            cands.sound(words, names, hits, full_text, words.len() as int),
            sorted_desc(results@),
            results@.len() <= RESULT_LIMIT,
            forall|k: int| 0 <= k < results@.len() ==> (#[trigger] results@[k]).0 <= u64::MAX,
            forall|k: int| 0 <= k < results@.len() ==> survives(words, names, hits, full_text, (#[trigger] results@[k]).1),
            results@ == top_list(survivor_entries(cands.state(), words.len() as int, *weights, i as int)),
        decreases cands.order@.len() - i,
    {
        let id = cands.order[i];
        let ghost entries = survivor_entries(cands.state(), words.len() as int, *weights, i as int);
        assert(cands.scores@.contains_key(cands.order@[i as int]));
        let q = cands.scores.get(&id).unwrap();
        if q.matched_words.len() == total_words || q.index_score.is_some() {
            proof {
                if q.matched_words@.len() == words.len() {
                    lemma_all_words_matched(*q, words, names, hits, id);
                } else {
                    let v = q.index_score.unwrap();
                    assert(full_text_hit(full_text, id, v));
                }
                assert(survives(words, names, hits, full_text, id));
            }
            let score = q.calculated_score(weights);
            let relevance: u128 = if score > u64::MAX as u128 {
                u64::MAX as u128
            } else {
                score
            };
            let ghost before = results@;
            insert_ranked(&mut results, relevance, id);
            proof {
                assert(cands.state().scores[id] == score_view(*q));
                assert(entries.push((relevance, id)).drop_last() =~= entries);
                lemma_ranked_insert_members(before, relevance, id);
                assert forall|k: int| 0 <= k < results@.len() implies (#[trigger] results@[k]).0 <= u64::MAX
                    && survives(words, names, hits, full_text, results@[k].1) by {
                    if results@[k] != (relevance, id) {
                        let j = choose|j: int| 0 <= j < before.len() && before[j] == results@[k];
                        assert(before[j].0 <= u64::MAX);
                    }
                }
            }
        }
        i = i + 1;
    }
    results
}

/// Answers a query given as its distinct words (`query_words`): candidates
/// by name, keyword (`hits[t]` for word `t`) and full-text hits, filtered,
/// ranked into the bounded list, then ordered by confidence and popularity.
pub fn query(
    words: &Vec<String>,
    snapshot: &Snapshot,
    hits: &Vec<Vec<KeywordHit>>,
    full_text: &Vec<(u64, u64)>,
    weights: &ScoreWeights,
) -> (r: Vec<RankedCrate>)
    requires
        hits@.len() == words@.len(),
    ensures
        r@.len() <= RESULT_LIMIT,
        is_ranking(r@, query_top(words@, snapshot.crates_by_name@, hits@, full_text@, *weights), snapshot.crates_view()),
        forall|i: int|
            0 <= i < r@.len() ==> survives(
                words@,
                snapshot.crates_by_name@,
                hits@,
                full_text@,
                (#[trigger] r@[i]).id,
            ),
{
    let cands = collect_candidates(words, &snapshot.crates_by_name, hits, full_text);
    let top = select_top(&cands, words.len(), weights, Ghost(words@), Ghost(snapshot.crates_by_name@), Ghost(hits@), Ghost(full_text@));
    let r = rank_results(&top, snapshot);
    proof {
        assert forall|i: int| 0 <= i < r@.len() implies survives(
            words@,
            snapshot.crates_by_name@,
            hits@,
            full_text@,
            (#[trigger] r@[i]).id,
        ) by {
            let j = choose|j: int| 0 <= j < top@.len() && top@[j].1 == r@[i].id;
            assert(survives(words@, snapshot.crates_by_name@, hits@, full_text@, top@[j].1));
        }
        if top@.len() > 0 {
            let order = choose|order: Seq<(u128, (u64, u64, u64))>| {
                &&& sorted_desc(order)
                &&& order.to_multiset() == crate::ranking::scored(
                    crate::ranking::present(top@, snapshot.crates_view()),
                    snapshot.crates_view(),
                    top@[0].0,
                ).to_multiset()
                &&& r@.len() == order.len()
                &&& forall|i: int|
                    0 <= i < order.len() ==> {
                        &&& (#[trigger] r@[i]).id == order[i].1.2
                        &&& r@[i].confidence == order[i].1.0
                        &&& r@[i].popularity == order[i].1.1
                        &&& r@[i].result@ == snapshot.crates_view()[order[i].1.2]
                    }
            };
            crate::ranking::lemma_scored_len(top@, snapshot.crates_view(), order);
        }
    }
    r
}

/// A query word as the keyword index is searched by: ASCII letters
/// lowercased.
pub fn keyword_prefix(word: &str) -> (r: String)
    ensures
        r@ == word@.map_values(|c: char| ascii_lower(c)),
{
    let chars = chars_of(word);
    let lower = ascii_lowercase_range(&chars, 0, chars.len());
    assert(chars@.subrange(0, chars@.len() as int) =~= chars@);
    string_from_chars(&lower)
}

/// The list a query ranks (see `query`) keeps its best survivors: each
/// surviving candidate, with its relevance, is in the list, or the list holds
/// `RESULT_LIMIT` entries that all score at least as much.
pub proof fn lemma_query_top_keeps_best(
    words: Seq<String>,
    names: Seq<(String, u64)>,
    hits: Seq<Vec<KeywordHit>>,
    full_text: Seq<(u64, u64)>,
    w: ScoreWeights,
)
    ensures
        ({
            let st = candidates_spec(words, names, hits, full_text);
            let entries = survivor_entries(st, words.len() as int, w, st.order.len() as int);
            forall|k: int|
                0 <= k < entries.len() ==> crate::ranking::kept_or_beaten(
                    query_top(words, names, hits, full_text, w),
                    #[trigger] entries[k],
                )
        }),
{
    let st = candidates_spec(words, names, hits, full_text);
    crate::ranking::lemma_top_list_keeps_best(survivor_entries(st, words.len() as int, w, st.order.len() as int));
}

} // verus!
