use vstd::prelude::*;
use crate::feedback::nat_max;
use crate::model::{ConstraintModel, ModelView, word_matches};
use crate::simulate::{simulate, simulated};

verus! {

/// The words of a pool, as sequences of symbols.
pub open spec fn words_of(pool: Seq<Vec<char>>) -> Seq<Seq<char>> {
    pool.map_values(|w: Vec<char>| w@)
}

/// Number of words of `ws` consistent with `m`.
pub open spec fn count_matching(ws: Seq<Seq<char>>, m: ModelView) -> nat
    decreases ws.len(),
{
    if ws.len() == 0 {
        0
    } else {
        count_matching(ws.drop_last(), m) + if word_matches(ws.last(), m) {
            1nat
        } else {
            0nat
        }
    }
}

/// The words of `ws` consistent with `m`, in their order.
pub open spec fn matching_words(ws: Seq<Seq<char>>, m: ModelView) -> Seq<Seq<char>>
    decreases ws.len(),
{
    if ws.len() == 0 {
        seq![]
    } else if word_matches(ws.last(), m) {
        matching_words(ws.drop_last(), m).push(ws.last())
    } else {
        matching_words(ws.drop_last(), m)
    }
}

/// Size of the pool `ws` that would remain after playing `g` against the answer `a`.
pub open spec fn remaining_after(g: Seq<char>, a: Seq<char>, ws: Seq<Seq<char>>, m: ModelView) -> nat {
    count_matching(ws, simulated(g, a, m))
}

pub open spec fn nat_min(a: nat, b: nat) -> nat {
    if a <= b {
        a
    } else {
        b
    }
}

/// Sum over the answers of the pool that would remain after `g`.
pub open spec fn total_remaining(
    g: Seq<char>,
    answers: Seq<Seq<char>>,
    ws: Seq<Seq<char>>,
    m: ModelView,
) -> nat
    decreases answers.len(),
{
    if answers.len() == 0 {
        0
    } else {
        total_remaining(g, answers.drop_last(), ws, m) + remaining_after(g, answers.last(), ws, m)
    }
}

/// Largest remaining pool over the answers other than `g` itself.
pub open spec fn worst_remaining(
    g: Seq<char>,
    answers: Seq<Seq<char>>,
    ws: Seq<Seq<char>>,
    m: ModelView,
) -> Option<nat>
    decreases answers.len(),
{
    if answers.len() == 0 {
        None
    } else {
        let p = worst_remaining(g, answers.drop_last(), ws, m);
        if answers.last() == g {
            p
        } else {
            let x = remaining_after(g, answers.last(), ws, m);
            Some(
                match p {
                    Some(y) => nat_max(y, x),
                    None => x,
                },
            )
        }
    }
}

/// Smallest remaining pool over the answers other than `g` itself.
pub open spec fn best_remaining(
    g: Seq<char>,
    answers: Seq<Seq<char>>,
    ws: Seq<Seq<char>>,
    m: ModelView,
) -> Option<nat>
    decreases answers.len(),
{
    if answers.len() == 0 {
        None
    } else {
        let p = best_remaining(g, answers.drop_last(), ws, m);
        if answers.last() == g {
            p
        } else {
            let x = remaining_after(g, answers.last(), ws, m);
            Some(
                match p {
                    Some(y) => nat_min(y, x),
                    None => x,
                },
            )
        }
    }
}

/// Number of symbols of `g` (counted with repetition) that occur anywhere in `a`.
pub open spec fn overlap(g: Seq<char>, a: Seq<char>) -> nat
    decreases g.len(),
{
    if g.len() == 0 {
        0
    } else {
        overlap(g.drop_last(), a) + if a.contains(g.last()) {
            1nat
        } else {
            0nat
        }
    }
}

pub open spec fn total_overlap(g: Seq<char>, answers: Seq<Seq<char>>) -> nat
    decreases answers.len(),
{
    if answers.len() == 0 {
        0
    } else {
        total_overlap(g, answers.drop_last()) + overlap(g, answers.last())
    }
}

/// Smallest overlap with an answer other than `g` itself.
pub open spec fn worst_overlap(g: Seq<char>, answers: Seq<Seq<char>>) -> Option<nat>
    decreases answers.len(),
{
    if answers.len() == 0 {
        None
    } else {
        let p = worst_overlap(g, answers.drop_last());
        if answers.last() == g {
            p
        } else {
            let x = overlap(g, answers.last());
            Some(
                match p {
                    Some(y) => nat_min(y, x),
                    None => x,
                },
            )
        }
    }
}

/// Largest overlap with an answer other than `g` itself.
pub open spec fn best_overlap(g: Seq<char>, answers: Seq<Seq<char>>) -> Option<nat>
    decreases answers.len(),
{
    if answers.len() == 0 {
        None
    } else {
        let p = best_overlap(g, answers.drop_last());
        if answers.last() == g {
            p
        } else {
            let x = overlap(g, answers.last());
            Some(
                match p {
                    Some(y) => nat_max(y, x),
                    None => x,
                },
            )
        }
    }
}

/// Aggregated figures of one candidate guess over every assumed answer: a sum whose
/// quotient by the pool size is the average, and the worst and best case among the answers
/// other than the guess itself (`None` when there is no such answer).
#[derive(PartialEq, Eq, Structural, Clone, Copy, Debug)]
pub struct Score {
    pub total: u64,
    pub worst: Option<u64>,
    pub best: Option<u64>,
}

pub open spec fn opt_nat(o: Option<u64>) -> Option<nat> {
    match o {
        Some(x) => Some(x as nat),
        None => None,
    }
}

pub open spec fn all_len(ws: Seq<Seq<char>>, n: nat) -> bool {
    forall|k: int| 0 <= k < ws.len() ==> (#[trigger] ws[k]).len() == n
}

/// Whether two words are equal.
pub fn same_word(a: &[char], b: &[char]) -> (r: bool)
    ensures
        r == (a@ == b@),
{
    if a.len() != b.len() {
        return false;
    }
    let mut i: usize = 0;
    while i < a.len()
        invariant
            a@.len() == b@.len(),
            i <= a@.len(),
            forall|k: int| 0 <= k < i ==> a@[k] == b@[k],
        decreases a.len() - i,
    {
        if a[i] != b[i] {
            return false;
        }
        i += 1;
    }
    assert(a@ =~= b@);
    true
}

/// Number of words of the pool consistent with the model.
pub fn count_matches(pool: &[Vec<char>], model: &ConstraintModel) -> (r: usize)
    requires
        model.wf(),
    ensures
        r as nat == count_matching(words_of(pool@), model.spec_view()),
        r <= pool@.len(),
{
    let ghost ws = words_of(pool@);
    let mut n: usize = 0;
    let mut i: usize = 0;
    while i < pool.len()
        invariant
            model.wf(),
            ws == words_of(pool@),
            i <= pool@.len(),
            n <= i,
            n as nat == count_matching(ws.subrange(0, i as int), model.spec_view()),
        decreases pool.len() - i,
    {
        assert(ws.subrange(0, i + 1).drop_last() =~= ws.subrange(0, i as int));
        if model.matches(pool[i].as_slice()) {
            n += 1;
        }
        i += 1;
    }
    assert(ws.subrange(0, pool@.len() as int) =~= ws);
    n
}

/// The words of the pool consistent with the model, in their order.
pub fn filter_pool(pool: &[Vec<char>], model: &ConstraintModel) -> (r: Vec<Vec<char>>)
    requires
        model.wf(),
    ensures
        words_of(r@) == matching_words(words_of(pool@), model.spec_view()),
{
    let ghost ws = words_of(pool@);
    let mut r: Vec<Vec<char>> = Vec::new();
    let mut i: usize = 0;
    while i < pool.len()
        invariant
            model.wf(),
            ws == words_of(pool@),
            i <= pool@.len(),
            words_of(r@) == matching_words(ws.subrange(0, i as int), model.spec_view()),
        decreases pool.len() - i,
    {
        assert(ws.subrange(0, i + 1).drop_last() =~= ws.subrange(0, i as int));
        if model.matches(pool[i].as_slice()) {
            let w = pool[i].clone();
            let ghost before = r@;
            r.push(w);
            assert(words_of(r@) =~= words_of(before).push(ws[i as int]));
        }
        i += 1;
    }
    assert(ws.subrange(0, pool@.len() as int) =~= ws);
    r
}

/// Comprehensive score of `guess`: for each assumed answer of the pool, the size of the pool
/// that would remain after playing `guess` against it.
pub fn score_word(guess: &[char], pool: &[Vec<char>], model: &ConstraintModel) -> (r: Score)
    requires
        model.wf(),
        guess@.len() == model.fixed_at@.len(),
        all_len(words_of(pool@), guess@.len()),
        pool@.len() <= u32::MAX,
    ensures
        r.total as nat == total_remaining(guess@, words_of(pool@), words_of(pool@), model.spec_view()),
        opt_nat(r.worst) == worst_remaining(guess@, words_of(pool@), words_of(pool@), model.spec_view()),
        opt_nat(r.best) == best_remaining(guess@, words_of(pool@), words_of(pool@), model.spec_view()),
{
    let ghost ws = words_of(pool@);
    let ghost m = model.spec_view();
    let mut total: u64 = 0;
    let mut worst: Option<u64> = None;
    let mut best: Option<u64> = None;
    let mut j: usize = 0;
    while j < pool.len()
        invariant
            model.wf(),
            m == model.spec_view(),
            ws == words_of(pool@),
            guess@.len() == model.fixed_at@.len(),
            all_len(ws, guess@.len()),
            pool@.len() <= u32::MAX,
            j <= pool@.len(),
            total as nat == total_remaining(guess@, ws.subrange(0, j as int), ws, m),
            total <= j * pool@.len(),
            opt_nat(worst) == worst_remaining(guess@, ws.subrange(0, j as int), ws, m),
            opt_nat(best) == best_remaining(guess@, ws.subrange(0, j as int), ws, m),
        decreases pool.len() - j,
    {
        let ghost pre = ws.subrange(0, j as int);
        assert(ws.subrange(0, j + 1).drop_last() =~= pre);
        assert(ws.subrange(0, j + 1).last() == ws[j as int]);
        let answer = pool[j].as_slice();
        assert(ws[j as int].len() == guess@.len());
        let sim = simulate(guess, answer, model);
        let n = count_matches(pool, &sim);
        assert(n as nat == remaining_after(guess@, ws[j as int], ws, m));
        proof {
            assert((j + 1) * pool@.len() == j * pool@.len() + pool@.len()) by (nonlinear_arith);
            assert((j + 1) * pool@.len() <= u32::MAX * u32::MAX) by (nonlinear_arith)
                requires
                    j + 1 <= u32::MAX,
                    pool@.len() <= u32::MAX,
            ;
        }
        total = total + n as u64;
        if !same_word(answer, guess) {
            let x = n as u64;
            worst = match worst {
                Some(y) => Some(if y >= x { y } else { x }),
                None => Some(x),
            };
            best = match best {
                Some(y) => Some(if y <= x { y } else { x }),
                None => Some(x),
            };
        }
        j += 1;
    }
    assert(ws.subrange(0, pool@.len() as int) =~= ws);
    Score { total, worst, best }
}

/// Number of symbols of `guess` (with repetition) that occur anywhere in `answer`.
pub fn count_overlap(guess: &[char], answer: &[char]) -> (r: usize)
    ensures
        r as nat == overlap(guess@, answer@),
        r <= guess@.len(),
{
    let mut n: usize = 0;
    let mut i: usize = 0;
    while i < guess.len()
        invariant
            i <= guess@.len(),
            n <= i,
            n as nat == overlap(guess@.subrange(0, i as int), answer@),
        decreases guess.len() - i,
    {
        assert(guess@.subrange(0, i + 1).drop_last() =~= guess@.subrange(0, i as int));
        if contains_symbol(answer, guess[i]) {
            n += 1;
        }
        i += 1;
    }
    assert(guess@.subrange(0, guess@.len() as int) =~= guess@);
    n
}

/// Whether `c` occurs in `w`.
pub fn contains_symbol(w: &[char], c: char) -> (r: bool)
    ensures
        r == w@.contains(c),
{
    let mut i: usize = 0;
    while i < w.len()
        invariant
            i <= w@.len(),
            forall|k: int| 0 <= k < i ==> w@[k] != c,
        decreases w.len() - i,
    {
        if w[i] == c {
            assert(w@[i as int] == c);
            return true;
        }
        i += 1;
    }
    false
}

/// Fast score of `guess`: for each assumed answer of the pool, how many symbols of `guess`
/// occur anywhere in it, ignoring position and multiplicity.
pub fn score_word_fast(guess: &[char], pool: &[Vec<char>]) -> (r: Score)
    requires
        guess@.len() <= u32::MAX,
        pool@.len() <= u32::MAX,
    ensures
        r.total as nat == total_overlap(guess@, words_of(pool@)),
        opt_nat(r.worst) == worst_overlap(guess@, words_of(pool@)),
        opt_nat(r.best) == best_overlap(guess@, words_of(pool@)),
{
    let ghost ws = words_of(pool@);
    let mut total: u64 = 0;
    let mut worst: Option<u64> = None;
    let mut best: Option<u64> = None;
    let mut j: usize = 0;
    while j < pool.len()
        invariant
            ws == words_of(pool@),
            guess@.len() <= u32::MAX,
            pool@.len() <= u32::MAX,
            j <= pool@.len(),
            total as nat == total_overlap(guess@, ws.subrange(0, j as int)),
            total <= j * guess@.len(),
            opt_nat(worst) == worst_overlap(guess@, ws.subrange(0, j as int)),
            opt_nat(best) == best_overlap(guess@, ws.subrange(0, j as int)),
        decreases pool.len() - j,
    {
        let ghost pre = ws.subrange(0, j as int);
        assert(ws.subrange(0, j + 1).drop_last() =~= pre);
        assert(ws.subrange(0, j + 1).last() == ws[j as int]);
        let answer = pool[j].as_slice();
        let n = count_overlap(guess, answer);
        proof {
            assert((j + 1) * guess@.len() == j * guess@.len() + guess@.len()) by (nonlinear_arith);
            assert((j + 1) * guess@.len() <= u32::MAX * u32::MAX) by (nonlinear_arith)
                requires
                    j + 1 <= u32::MAX,
                    guess@.len() <= u32::MAX,
            ;
        }
        total = total + n as u64;
        if !same_word(answer, guess) {
            let x = n as u64;
            worst = match worst {
                Some(y) => Some(if y <= x { y } else { x }),
                None => Some(x),
            };
            best = match best {
                Some(y) => Some(if y >= x { y } else { x }),
                None => Some(x),
            };
        }
        j += 1;
    }
    assert(ws.subrange(0, pool@.len() as int) =~= ws);
    Score { total, worst, best }
}

} // verus!
