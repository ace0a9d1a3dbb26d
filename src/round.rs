use vstd::prelude::*;
use crate::model::ConstraintModel;
use crate::rank::{Scored, dedup_totals, distinct_totals, sort_scores, sorted_by, top_entries, TOP_COUNT};
use crate::scoring::{
    Score, all_len, best_overlap, best_remaining, opt_nat, score_word, score_word_fast,
    total_overlap, total_remaining, words_of, worst_overlap, worst_remaining,
};

verus! {

/// Pool size above which the fast scoring is used by default.
pub const FAST_THRESHOLD: usize = 1600;

/// Which scoring strategy a round uses.
#[derive(PartialEq, Eq, Structural, Clone, Copy, Debug)]
pub enum Mode {
    Comprehensive,
    Fast,
}

/// Fast scoring for pools larger than `threshold`, comprehensive scoring otherwise.
pub fn choose_mode(pool_len: usize, threshold: usize) -> (r: Mode)
    ensures
        r == (if pool_len > threshold { Mode::Fast } else { Mode::Comprehensive }),
{
    if pool_len > threshold {
        Mode::Fast
    } else {
        Mode::Comprehensive
    }
}

/// Which pool a round scores, and how.
#[derive(PartialEq, Eq, Structural, Clone, Copy, Debug)]
pub struct RoundPlan {
    pub use_seed: bool,
    pub mode: Mode,
}

/// On the first round, a pool that would need the fast scoring is replaced by the seed list,
/// whose own size then picks the mode; every other round scores the live pool.
pub fn plan_round(pool_len: usize, seed_len: usize, first_round: bool, threshold: usize) -> (r: RoundPlan)
    ensures
        r.use_seed == (first_round && pool_len > threshold),
        r.mode == (if (if r.use_seed { seed_len } else { pool_len }) > threshold {
            Mode::Fast
        } else {
            Mode::Comprehensive
        }),
{
    let mode = choose_mode(pool_len, threshold);
    if first_round && mode == Mode::Fast {
        RoundPlan { use_seed: true, mode: choose_mode(seed_len, threshold) }
    } else {
        RoundPlan { use_seed: false, mode }
    }
}

pub open spec fn is_common(c: char) -> bool {
    c == 'e' || c == 't' || c == 'o' || c == 'a' || c == 'i'
}

pub open spec fn is_uncommon(c: char) -> bool {
    c == 'q' || c == 'z' || c == 'x' || c == 'j' || c == 'v'
}

/// A word fit for the opening seed list: of length `n`, holding a common symbol, no rare
/// symbol, and no symbol twice.
pub open spec fn is_seed_word(w: Seq<char>, n: nat) -> bool {
    &&& w.len() == n
    &&& exists|i: int| 0 <= i < w.len() && is_common(#[trigger] w[i])
    &&& forall|i: int| 0 <= i < w.len() ==> !is_uncommon(#[trigger] w[i])
    &&& forall|i: int, j: int| 0 <= i < j < w.len() ==> w[i] != w[j]
}

/// Whether `word` belongs in the opening seed list for words of `word_len` symbols.
pub fn init_filter(word: &[char], word_len: usize) -> (r: bool)
    ensures
        r == is_seed_word(word@, word_len as nat),
{
    if word.len() != word_len {
        return false;
    }
    let mut has_common = false;
    let mut i: usize = 0;
    while i < word.len()
        invariant
            i <= word@.len(),
            has_common == exists|k: int| 0 <= k < i && is_common(#[trigger] word@[k]),
            forall|k: int| 0 <= k < i ==> !is_uncommon(#[trigger] word@[k]),
            forall|a: int, b: int| 0 <= a < b < i ==> word@[a] != word@[b],
        decreases word.len() - i,
    {
        let c = word[i];
        if c == 'q' || c == 'z' || c == 'x' || c == 'j' || c == 'v' {
            assert(is_uncommon(word@[i as int]));
            return false;
        }
        let mut j: usize = 0;
        while j < i
            invariant
                j <= i,
                i < word@.len(),
                c == word@[i as int],
                forall|k: int| 0 <= k < j ==> word@[k] != c,
            decreases i - j,
        {
            if word[j] == c {
                return false;
            }
            j += 1;
        }
        if c == 'e' || c == 't' || c == 'o' || c == 'a' || c == 'i' {
            has_common = true;
        }
        i += 1;
    }
    has_common
}

/// The words of `pool` fit for the opening seed list.
pub fn seed_pool(pool: &[Vec<char>], word_len: usize) -> (r: Vec<Vec<char>>)
    ensures
        words_of(r@) == words_of(pool@).filter(|w: Seq<char>| is_seed_word(w, word_len as nat)),
{
    let ghost ws = words_of(pool@);
    let ghost f = |w: Seq<char>| is_seed_word(w, word_len as nat);
    let mut r: Vec<Vec<char>> = Vec::new();
    let mut i: usize = 0;
    while i < pool.len()
        invariant
            ws == words_of(pool@),
            f == (|w: Seq<char>| is_seed_word(w, word_len as nat)),
            i <= pool@.len(),
            words_of(r@) == ws.subrange(0, i as int).filter(f),
        decreases pool.len() - i,
    {
        proof {
            assert(ws.subrange(0, i + 1).drop_last() =~= ws.subrange(0, i as int));
            reveal(Seq::filter);
        }
        if init_filter(pool[i].as_slice(), word_len) {
            let w = pool[i].clone();
            let ghost before = r@;
            r.push(w);
            assert(words_of(r@) =~= words_of(before).push(ws[i as int]));
        }
        i += 1;
    }
    assert(ws.subrange(0, pool@.len() as int) =~= ws);
    r
}

/// The score that `mode` gives the guess `g` over the pool `ws` under the model `m`.
pub open spec fn score_of(
    mode: Mode,
    g: Seq<char>,
    ws: Seq<Seq<char>>,
    m: crate::model::ModelView,
    s: Score,
) -> bool {
    match mode {
        Mode::Comprehensive => {
            &&& s.total as nat == total_remaining(g, ws, ws, m)
            &&& opt_nat(s.worst) == worst_remaining(g, ws, ws, m)
            &&& opt_nat(s.best) == best_remaining(g, ws, ws, m)
        },
        Mode::Fast => {
            &&& s.total as nat == total_overlap(g, ws)
            &&& opt_nat(s.worst) == worst_overlap(g, ws)
            &&& opt_nat(s.best) == best_overlap(g, ws)
        },
    }
}

/// Scores every word of the pool as a guess, in pool order.
pub fn score_pool(pool: &[Vec<char>], model: &ConstraintModel, mode: Mode) -> (r: Vec<Scored>)
    requires
        model.wf(),
        model.fixed_at@.len() <= u32::MAX,
        all_len(words_of(pool@), model.fixed_at@.len() as nat),
        pool@.len() <= u32::MAX,
    ensures
        r@.len() == pool@.len(),
        forall|i: int|
            0 <= i < r@.len() ==> (#[trigger] r@[i]).index == i && score_of(
                mode,
                words_of(pool@)[i],
                words_of(pool@),
                model.spec_view(),
                r@[i].score,
            ),
{
    let ghost ws = words_of(pool@);
    let mut r: Vec<Scored> = Vec::new();
    let mut i: usize = 0;
    while i < pool.len()
        invariant
            model.wf(),
            ws == words_of(pool@),
            model.fixed_at@.len() <= u32::MAX,
            all_len(ws, model.fixed_at@.len() as nat),
            pool@.len() <= u32::MAX,
            i <= pool@.len(),
            r@.len() == i,
            forall|k: int|
                0 <= k < i ==> (#[trigger] r@[k]).index == k && score_of(
                    mode,
                    ws[k],
                    ws,
                    model.spec_view(),
                    r@[k].score,
                ),
        decreases pool.len() - i,
    {
        let guess = pool[i].as_slice();
        assert(ws[i as int].len() == model.fixed_at@.len());
        let score = match mode {
            Mode::Comprehensive => score_word(guess, pool, model),
            Mode::Fast => score_word_fast(guess, pool),
        };
        r.push(Scored { index: i, score });
        i += 1;
    }
    r
}

/// The first `TOP_COUNT` entries of `s`, or all of them when there are fewer.
pub open spec fn top_of(s: Seq<Scored>) -> Seq<Scored> {
    s.take(if s.len() < TOP_COUNT { s.len() as int } else { TOP_COUNT as int })
}

/// What is shown of a list in ranking order: for the fast mode, runs of equal totals are
/// collapsed to their first entry.
pub open spec fn ranked(s: Seq<Scored>, mode: Mode) -> Seq<Scored> {
    top_of(if mode == Mode::Fast { distinct_totals(s) } else { s })
}

/// Orders scored guesses for display: comprehensive scores ascending; fast scores descending,
/// with entries of equal total collapsed to the first; then the first `TOP_COUNT`.
pub fn rank_scores(scored: &Vec<Scored>, mode: Mode) -> (r: Vec<Scored>)
    ensures
        r@.len() <= TOP_COUNT,
        mode == Mode::Comprehensive ==> sorted_by(r@, false) && r@.len() == (if scored@.len()
            < TOP_COUNT {
            scored@.len()
        } else {
            TOP_COUNT as nat
        }),
        mode == Mode::Fast ==> sorted_by(r@, true),
        exists|s: Seq<Scored>|
            s.to_multiset() == scored@.to_multiset() && sorted_by(s, mode == Mode::Fast) && r@
                == #[trigger] ranked(s, mode),
{
    match mode {
        Mode::Comprehensive => {
            let sorted = sort_scores(scored, false);
            let r = top_entries(&sorted);
            assert(forall|i: int, j: int| 0 <= i < j < r@.len() ==> r@[i] == sorted@[i] && r@[j] == sorted@[j]);
            assert(r@ == ranked(sorted@, mode));
            r
        },
        Mode::Fast => {
            let sorted = sort_scores(scored, true);
            let d = dedup_totals(&sorted);
            proof {
                crate::rank::lemma_distinct_sorted(sorted@);
            }
            let r = top_entries(&d);
            assert(forall|i: int, j: int| 0 <= i < j < r@.len() ==> r@[i] == d@[i] && r@[j] == d@[j]);
            assert(r@ == ranked(sorted@, mode));
            r
        },
    }
}

} // verus!
