//! Text relevance of a query word against a name or keyword, and the
//! per-crate accumulation of such scores.
//!
//! Scores are fixed-point integers: `SCALE` stands for 1.0.
use vstd::prelude::*;
use vstd::string::*;

verus! {

/// The fixed-point unit: a score or ratio of `SCALE` means 1.0.
pub const SCALE: u64 = 1000000;

/// `needle` occurs in `haystack` at byte offset `i`.
pub open spec fn occurs_at(needle: Seq<u8>, haystack: Seq<u8>, i: int) -> bool {
    0 <= i && i + needle.len() <= haystack.len() && haystack.subrange(i, i + needle.len())
        == needle
}

/// The first offset at or after `i` where `needle` occurs in `haystack`.
pub open spec fn first_occurrence_from(needle: Seq<u8>, haystack: Seq<u8>, i: int) -> Option<int>
    decreases haystack.len() + 1 - i,
{
    if i < 0 || i + needle.len() > haystack.len() {
        None
    } else if occurs_at(needle, haystack, i) {
        Some(i)
    } else {
        first_occurrence_from(needle, haystack, i + 1)
    }
}

pub open spec fn first_occurrence(needle: Seq<u8>, haystack: Seq<u8>) -> Option<int> {
    first_occurrence_from(needle, haystack, 0)
}

/// How a word occurs in a text. The ratio of a partial match is
/// `needle_len / haystack_len`.
#[derive(Clone, Copy, Debug, PartialEq, Eq, Structural)]
pub enum TextScore {
    ExactMatch,
    StartsWith { needle_len: usize, haystack_len: usize },
    EndsWith { needle_len: usize, haystack_len: usize },
    Contains { needle_len: usize, haystack_len: usize },
}

/// Which curve turns the match ratio into a weight.
#[derive(Clone, Copy, Debug, PartialEq, Eq, Structural)]
pub enum Weighting {
    /// StartsWith/EndsWith weigh `25 * ratio`, Contains weighs `ratio`.
    Linear,
    /// StartsWith/EndsWith weigh `10 * ratio²`, Contains weighs `ratio²`.
    Squared,
}

/// The classification of a match at `offset` of a needle of `n` bytes in a
/// haystack of `h` bytes.
pub open spec fn classify(offset: int, n: int, h: int) -> TextScore {
    if offset == 0 {
        if n == h {
            TextScore::ExactMatch
        } else {
            TextScore::StartsWith { needle_len: n as usize, haystack_len: h as usize }
        }
    } else if offset == h - n {
        TextScore::EndsWith { needle_len: n as usize, haystack_len: h as usize }
    } else {
        TextScore::Contains { needle_len: n as usize, haystack_len: h as usize }
    }
}

/// The score of `needle` against `haystack`: none where it does not occur,
/// else the classification of its first occurrence.
pub open spec fn text_score_spec(needle: Seq<u8>, haystack: Seq<u8>) -> Option<TextScore> {
    match first_occurrence(needle, haystack) {
        Some(offset) => Some(classify(offset, needle.len() as int, haystack.len() as int)),
        None => None,
    }
}

/// The match ratio in fixed point.
pub open spec fn ratio_spec(n: int, h: int) -> int {
    n * (SCALE as int) / h
}

impl TextScore {
    /// Partial matches cover a non-empty haystack with a needle no longer
    /// than it.
    pub open spec fn wf(self) -> bool {
        match self {
            TextScore::ExactMatch => true,
            TextScore::StartsWith { needle_len, haystack_len }
            | TextScore::EndsWith { needle_len, haystack_len }
            | TextScore::Contains { needle_len, haystack_len } => 0 < haystack_len
                && needle_len <= haystack_len,
        }
    }

    pub open spec fn weight_spec(self, weighting: Weighting) -> int {
        match self {
            TextScore::ExactMatch => 100 * (SCALE as int),
            TextScore::StartsWith { needle_len, haystack_len }
            | TextScore::EndsWith { needle_len, haystack_len } => {
                let p = ratio_spec(needle_len as int, haystack_len as int);
                match weighting {
                    Weighting::Linear => 25 * p,
                    Weighting::Squared => 10 * p * p / (SCALE as int),
                }
            },
            TextScore::Contains { needle_len, haystack_len } => {
                let p = ratio_spec(needle_len as int, haystack_len as int);
                match weighting {
                    Weighting::Linear => p,
                    Weighting::Squared => p * p / (SCALE as int),
                }
            },
        }
    }

    /// Scores `needle` against `haystack`, by bytes.
    pub fn score(needle: &str, haystack: &str) -> (r: Option<TextScore>)
        ensures
            r == text_score_spec(needle.spec_bytes(), haystack.spec_bytes()),
            r matches Some(s) ==> s.wf(),
    {
        let n = needle.as_bytes();
        let h = haystack.as_bytes();
        match find_bytes(n, h) {
            Some(offset) => Some(Self::score_offset(offset, n.len() == h.len(), h.len(), n.len())),
            None => None,
        }
    }

    /// Classifies a match found at `offset`.
    pub fn score_offset(offset: usize, same_length: bool, haystack_len: usize, needle_len: usize) -> (r:
        TextScore)
        requires
            offset + needle_len <= haystack_len,
            same_length == (needle_len == haystack_len),
        ensures
            r == classify(offset as int, needle_len as int, haystack_len as int),
            r.wf(),
    {
        if offset == 0 {
            if same_length {
                TextScore::ExactMatch
            } else {
                TextScore::StartsWith { needle_len, haystack_len }
            }
        } else if offset == haystack_len - needle_len {
            TextScore::EndsWith { needle_len, haystack_len }
        } else {
            TextScore::Contains { needle_len, haystack_len }
        }
    }

    /// The weight of this match, in fixed point.
    pub fn calculated_score(&self, weighting: Weighting) -> (r: u64)
        requires
            self.wf(),
        ensures
            r == self.weight_spec(weighting),
            r <= 100 * SCALE,
    {
        match *self {
            TextScore::ExactMatch => 100 * SCALE,
            TextScore::StartsWith { needle_len, haystack_len }
            | TextScore::EndsWith { needle_len, haystack_len } => {
                let p = ratio(needle_len, haystack_len);
                match weighting {
                    Weighting::Linear => 25 * p,
                    Weighting::Squared => {
                        proof {
                            lemma_square_scaled(p as int, 10);
                        }
                        10 * p * p / SCALE
                    },
                }
            },
            TextScore::Contains { needle_len, haystack_len } => {
                let p = ratio(needle_len, haystack_len);
                match weighting {
                    Weighting::Linear => p,
                    Weighting::Squared => {
                        proof {
                            lemma_square_scaled(p as int, 1);
                        }
                        p * p / SCALE
                    },
                }
            },
        }
    }
}

proof fn lemma_square_scaled(p: int, k: int)
    requires
        0 <= p <= 1000000,
        0 <= k <= 10,
    ensures
        0 <= k * p * p <= k * 1000000 * 1000000,
        k * p * p / 1000000 <= k * 1000000,
{
    assert(0 <= k * p * p <= k * 1000000 * 1000000) by (nonlinear_arith)
        requires
            0 <= p <= 1000000,
            0 <= k <= 10,
    ;
    assert(k * p * p / 1000000 <= k * 1000000) by (nonlinear_arith)
        requires
            0 <= k * p * p <= k * 1000000 * 1000000,
            0 <= k <= 10,
    ;
}

/// `n / h` in fixed point.
fn ratio(n: usize, h: usize) -> (r: u64)
    requires
        0 < h,
        n <= h,
    ensures
        r == ratio_spec(n as int, h as int),
        r <= SCALE,
{
    assert(n as int * 1000000 / h as int <= 1000000) by (nonlinear_arith)
        requires
            0 < h,
            n <= h,
    ;
    ((n as u128) * (SCALE as u128) / (h as u128)) as u64
}

/// Whether `needle` occurs in `haystack` at offset `i`.
fn occurs_at_exec(needle: &[u8], haystack: &[u8], i: usize) -> (r: bool)
    requires
        i + needle@.len() <= haystack@.len(),
    ensures
        r == occurs_at(needle@, haystack@, i as int),
{
    let hl = haystack.len();
    let mut j: usize = 0;
    while j < needle.len()
        invariant
            hl == haystack@.len(),
            j <= needle@.len(),
            i + needle@.len() <= haystack@.len(),
            forall|k: int| 0 <= k < j ==> haystack@[i + k] == needle@[k],
        decreases needle@.len() - j,
    {
        if haystack[i + j] != needle[j] {
            assert(haystack@.subrange(i as int, i + needle@.len())[j as int] != needle@[j as int]);
            return false;
        }
        j = j + 1;
    }
    assert(haystack@.subrange(i as int, i + needle@.len()) =~= needle@);
    true
}

/// The first offset where `needle` occurs in `haystack`.
pub fn find_bytes(needle: &[u8], haystack: &[u8]) -> (r: Option<usize>)
    ensures
        r matches Some(i) ==> i + needle@.len() <= haystack@.len(),
        r matches Some(i) ==> first_occurrence(needle@, haystack@) == Some(i as int),
        r is None ==> first_occurrence(needle@, haystack@) is None,
{
    if needle.len() > haystack.len() {
        return None;
    }
    if needle.len() == 0 {
        assert(haystack@.subrange(0, 0) =~= needle@);
        return Some(0);
    }
    let hl = haystack.len();
    let last = hl - needle.len();
    let mut i: usize = 0;
    while i <= last
        invariant
            hl == haystack@.len(),
            last == haystack@.len() - needle@.len(),
            needle@.len() > 0,
            i <= last + 1,
            first_occurrence(needle@, haystack@) == first_occurrence_from(needle@, haystack@, i as int),
        decreases last + 1 - i,
    {
        if occurs_at_exec(needle, haystack, i) {
            return Some(i);
        }
        i = i + 1;
    }
    None
}

/// The summed weights of a list of matches.
pub open spec fn weight_sum(s: Seq<TextScore>, weighting: Weighting) -> int
    decreases s.len(),
{
    if s.len() == 0 {
        0
    } else {
        weight_sum(s.drop_last(), weighting) + s.last().weight_spec(weighting)
    }
}

pub open spec fn all_wf(s: Seq<TextScore>) -> bool {
    forall|i: int| 0 <= i < s.len() ==> (#[trigger] s[i]).wf()
}

/// How much each match path counts towards a crate's relevance.
#[derive(Clone, Copy, Debug, PartialEq, Eq, Structural)]
pub struct ScoreWeights {
    pub name: u32,
    pub keyword: u32,
    pub category: u32,
    pub full_text: u32,
    pub text: Weighting,
}

impl ScoreWeights {
    /// Name matches far above keyword matches, keyword matches above
    /// category matches; a full-text score adds as is.
    pub fn name_and_keyword() -> (r: ScoreWeights)
        ensures
            r == (ScoreWeights {
                name: 100,
                keyword: 50,
                category: 25,
                full_text: 1,
                text: Weighting::Linear,
            }),
    {
        ScoreWeights { name: 100, keyword: 50, category: 25, full_text: 1, text: Weighting::Linear }
    }

    /// Relevance from the full-text engine alone.
    pub fn full_text_only() -> (r: ScoreWeights)
        ensures
            r == (ScoreWeights {
                name: 0,
                keyword: 0,
                category: 0,
                full_text: 1,
                text: Weighting::Squared,
            }),
    {
        ScoreWeights { name: 0, keyword: 0, category: 0, full_text: 1, text: Weighting::Squared }
    }
}

/// What a query has found out about one crate so far.
#[derive(Debug)]
pub struct QueryScore {
    /// Positions of the distinct query words that matched, increasing.
    pub matched_words: Vec<usize>,
    /// The full-text engine's relevance, in fixed point.
    pub index_score: Option<u64>,
    pub name: Vec<TextScore>,
    pub keywords: Vec<TextScore>,
    pub category: Vec<TextScore>,
}

impl QueryScore {
    pub open spec fn wf(&self) -> bool {
        &&& all_wf(self.name@)
        &&& all_wf(self.keywords@)
        &&& all_wf(self.category@)
        &&& forall|i: int, j: int|
            0 <= i < j < self.matched_words@.len() ==> #[trigger] self.matched_words@[i]
                < #[trigger] self.matched_words@[j]
    }

    /// The weighted sum of every path's matches.
    pub open spec fn combined_spec(&self, w: ScoreWeights) -> int {
        w.name * weight_sum(self.name@, w.text) + w.keyword * weight_sum(self.keywords@, w.text)
            + w.category * weight_sum(self.category@, w.text) + w.full_text * match self.index_score {
            Some(s) => s as int,
            None => 0int,
        }
    }

    /// A score with nothing matched on any path.
    pub fn new() -> (r: QueryScore)
        ensures
            r.wf(),
            r.matched_words@.len() == 0,
            r.index_score is None,
            r.name@.len() == 0,
            r.keywords@.len() == 0,
            r.category@.len() == 0,
    {
        QueryScore {
            matched_words: Vec::new(),
            index_score: None,
            name: Vec::new(),
            keywords: Vec::new(),
            category: Vec::new(),
        }
    }

    /// Notes that query word `word` matched, once however often it does.
    pub fn mark_word(&mut self, word: usize)
        requires
            old(self).wf(),
            forall|i: int| 0 <= i < old(self).matched_words@.len() ==> old(self).matched_words@[i] <= word,
        ensures
            final(self).wf(),
            final(self).name == old(self).name,
            final(self).keywords == old(self).keywords,
            final(self).category == old(self).category,
            final(self).index_score == old(self).index_score,
            final(self).matched_words@ == if old(self).matched_words@.len() > 0
                && old(self).matched_words@.last() == word {
                old(self).matched_words@
            } else {
                old(self).matched_words@.push(word)
            },
    {
        let n = self.matched_words.len();
        if n == 0 || self.matched_words[n - 1] != word {
            self.matched_words.push(word);
        }
    }

    /// Combines the scores of all paths into one relevance value.
    pub fn calculated_score(&self, w: &ScoreWeights) -> (r: u128)
        requires
            self.wf(),
        ensures
            r == self.combined_spec(*w),
    {
        let name = sum_weights(&self.name, w.text);
        let keywords = sum_weights(&self.keywords, w.text);
        let category = sum_weights(&self.category, w.text);
        let index = match self.index_score {
            Some(s) => s as u128,
            None => 0,
        };
        proof {
            lemma_weighted_bound(w.name as int, name as int);
            lemma_weighted_bound(w.keyword as int, keywords as int);
            lemma_weighted_bound(w.category as int, category as int);
            lemma_weighted_bound(w.full_text as int, index as int);
        }
        (w.name as u128) * name + (w.keyword as u128) * keywords + (w.category as u128) * category
            + (w.full_text as u128) * index
    }
}

proof fn lemma_weighted_bound(w: int, s: int)
    requires
        0 <= w < 0x1_0000_0000,
        0 <= s <= 0x1_0000_0000_0000_0000 * 100000000,
    ensures
        0 <= w * s <= 0x1_0000_0000 * 0x1_0000_0000_0000_0000 * 100000000,
{
    assert(0 <= w * s <= 0x1_0000_0000 * (0x1_0000_0000_0000_0000 * 100000000))
        by (nonlinear_arith)
        requires
            0 <= w < 0x1_0000_0000,
            0 <= s <= 0x1_0000_0000_0000_0000 * 100000000,
    ;
}

/// The summed weights of `v`.
fn sum_weights(v: &Vec<TextScore>, weighting: Weighting) -> (r: u128)
    requires
        all_wf(v@),
    ensures
        r == weight_sum(v@, weighting),
        r <= 0x1_0000_0000_0000_0000 * 100000000,
{
    let mut total: u128 = 0;
    let mut i: usize = 0;
    while i < v.len()
        invariant
            i <= v@.len(),
            all_wf(v@),
            total == weight_sum(v@.subrange(0, i as int), weighting),
            total <= i * 100000000,
        decreases v@.len() - i,
    {
        let ghost before = v@.subrange(0, i as int);
        let x = v[i].calculated_score(weighting);
        total = total + x as u128;
        i = i + 1;
        assert(v@.subrange(0, i as int).drop_last() =~= before);
    }
    assert(v@.subrange(0, i as int) =~= v@);
    assert(i * 100000000 <= 0x1_0000_0000_0000_0000 * 100000000);
    total
}

} // verus!
