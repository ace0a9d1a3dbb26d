use vstd::prelude::*;
use crate::feedback::{Event, Mark, Tally, apply_events, positions_in_range, tally_bounded, tally_of};
use crate::model::{ConstraintModel, ModelView, count_in, count_symbol};

verus! {

/// Number of events for `c` that were coloured correct or present.
pub open spec fn hits(evs: Seq<Event>, c: char) -> nat
    decreases evs.len(),
{
    if evs.len() == 0 {
        0
    } else {
        hits(evs.drop_last(), c) + if evs.last().symbol == c && evs.last().mark != Mark::Absent {
            1nat
        } else {
            0nat
        }
    }
}

/// The colour of symbol `c` at position `i` of a guess played against the answer `a`,
/// given the colours `prev` of the symbols before it: correct where the symbols agree, else
/// present while fewer occurrences have been coloured than `a` holds, else absent.
pub open spec fn classify_next(prev: Seq<Event>, c: char, i: int, a: Seq<char>) -> Event {
    Event {
        mark: if c == a[i] {
            Mark::Correct
        } else if hits(prev, c) < count_in(a, c) {
            Mark::Present
        } else {
            Mark::Absent
        },
        pos: i as usize,
        symbol: c,
    }
}

/// The colour of each symbol of `g` played against the answer `a`.
pub open spec fn classify(g: Seq<char>, a: Seq<char>) -> Seq<Event>
    decreases g.len(),
{
    if g.len() == 0 {
        seq![]
    } else {
        classify(g.drop_last(), a).push(
            classify_next(classify(g.drop_last(), a), g.last(), g.len() - 1, a),
        )
    }
}

/// The model that playing `g` against the answer `a` would turn `m` into.
pub open spec fn simulated(g: Seq<char>, a: Seq<char>, m: ModelView) -> ModelView {
    apply_events((m, Map::empty()), classify(g, a), true).0
}

proof fn lemma_push_hits(evs: Seq<Event>, e: Event)
    ensures
        evs.push(e).drop_last() == evs,
        evs.push(e).len() == evs.len() + 1,
        evs.push(e)[evs.len() as int] == e,
        forall|k: int| 0 <= k < evs.len() ==> evs.push(e)[k] == evs[k],
        forall|c: char|
            #[trigger] hits(evs.push(e), c) == hits(evs, c) + if e.symbol == c && e.mark
                != Mark::Absent {
                1nat
            } else {
                0nat
            },
{
    assert(evs.push(e).drop_last() =~= evs);
}

/// The classified symbols of `guess` played against `answer`.
pub fn classify_guess(guess: &[char], answer: &[char]) -> (r: Vec<Event>)
    requires
        guess@.len() == answer@.len(),
    ensures
        r@ == classify(guess@, answer@),
        positions_in_range(r@, guess@.len() as nat),
{
    let mut events: Vec<Event> = Vec::new();
    let mut seen = Tally::new();
    let mut i: usize = 0;
    while i < guess.len()
        invariant
            guess@.len() == answer@.len(),
            i <= guess@.len(),
            seen.wf(),
            events@ == classify(guess@.subrange(0, i as int), answer@),
            events@.len() == i,
            forall|k: int| 0 <= k < i ==> (#[trigger] events@[k]).pos == k,
            forall|c: char| tally_of(seen.spec_view(), c) == #[trigger] hits(events@, c),
            tally_bounded(seen.spec_view(), i as nat),
        decreases guess.len() - i,
    {
        let c = guess[i];
        assert(guess@.subrange(0, i + 1).drop_last() =~= guess@.subrange(0, i as int));
        let ghost before = events@;
        let ghost seen0 = seen.spec_view();
        let mark = if c == answer[i] {
            Mark::Correct
        } else if seen.get(c) < count_symbol(answer, c) {
            Mark::Present
        } else {
            Mark::Absent
        };
        if mark != Mark::Absent {
            proof {
                if seen0.contains_key(c) {
                    assert(seen0[c] <= i);
                }
            }
            seen.increment(c);
        }
        let e = Event { mark, pos: i, symbol: c };
        events.push(e);
        proof {
            lemma_push_hits(before, e);
        }
        assert forall|c2: char| tally_of(seen.spec_view(), c2) == #[trigger] hits(events@, c2) by {
            assert(hits(before, c2) == tally_of(seen0, c2));
        }
        assert forall|c2: char| #[trigger] seen.spec_view().contains_key(c2) implies seen.spec_view()[c2] <= i + 1 by {
            if seen0.contains_key(c2) {
                assert(seen0[c2] <= i);
            }
        }
        assert forall|k: int| 0 <= k < i + 1 implies (#[trigger] events@[k]).pos == k by {
            if k < i {
                assert(events@[k] == before[k]);
            } else {
                assert(events@[k] == e);
            }
        }
        i += 1;
    }
    assert(guess@.subrange(0, guess@.len() as int) =~= guess@);
    events
}

/// The model that playing `guess` against `answer` would turn `base` into; `base` itself
/// is left untouched.
pub fn simulate(guess: &[char], answer: &[char], base: &ConstraintModel) -> (r: ConstraintModel)
    requires
        base.wf(),
        guess@.len() == base.fixed_at@.len(),
        answer@.len() == guess@.len(),
    ensures
        r.wf(),
        r.spec_view() == simulated(guess@, answer@, base.spec_view()),
{
    let evs = classify_guess(guess, answer);
    let mut r = base.clone_model();
    let mut tally = Tally::new();
    r.apply_events(&mut tally, &evs, true);
    r
}

impl ConstraintModel {
    /// An independent copy of the model.
    pub fn clone_model(&self) -> (r: ConstraintModel)
        ensures
            r.fixed_at@ == self.fixed_at@,
            r.letters@.len() == self.letters@.len(),
            forall|k: int|
                0 <= k < self.letters@.len() ==> (#[trigger] r.letters@[k]).symbol
                    == self.letters@[k].symbol && r.letters@[k].spec_view()
                    == self.letters@[k].spec_view(),
            r.wf() == self.wf(),
            self.wf() ==> r.spec_view() == self.spec_view(),
    {
        let fixed_at = self.fixed_at.clone();
        let mut letters: Vec<crate::model::LetterRule> = Vec::new();
        let mut k: usize = 0;
        while k < self.letters.len()
            invariant
                k <= self.letters@.len(),
                letters@.len() == k,
                forall|j: int|
                    0 <= j < k ==> (#[trigger] letters@[j]).symbol == self.letters@[j].symbol
                        && letters@[j].spec_view() == self.letters@[j].spec_view(),
            decreases self.letters.len() - k,
        {
            let src = &self.letters[k];
            let forbidden = src.forbidden.clone();
            letters.push(
                crate::model::LetterRule {
                    symbol: src.symbol,
                    forbidden,
                    min_count: src.min_count,
                    max_count: src.max_count,
                },
            );
            k += 1;
        }
        let r = ConstraintModel { fixed_at, letters };
        proof {
            crate::model::lemma_same_letters(r.letters@, self.letters@);
        }
        r
    }
}

} // verus!
