use vstd::prelude::*;
use crate::feedback::{Event, Mark, apply_events, fixed_tally, positions_in_range, step, tally_of};
use crate::parse::{after_feedback, lemma_scan_len, scan};
use crate::model::{ModelView, count_in, word_matches};
use crate::scoring::{best_remaining, worst_remaining};
use crate::simulate::{classify, classify_next, hits, simulated};

verus! {

/// A word that the predicate accepts meets every single constraint of the model: each fixed
/// symbol is in place, no symbol stands at a position forbidden to it, and the count of each
/// constrained symbol lies within its bounds.
pub proof fn lemma_match_sound(w: Seq<char>, m: ModelView)
    requires
        word_matches(w, m),
    ensures
        w.len() == m.fixed.len(),
        forall|i: int| 0 <= i < w.len() && m.fixed[i] is Some ==> m.fixed[i] == Some(w[i]),
        forall|i: int|
            0 <= i < w.len() && #[trigger] m.letters.contains_key(w[i])
                ==> !m.letters[w[i]].forbidden.contains(i as usize),
        forall|c: char|
            #[trigger] m.letters.contains_key(c) ==> count_in(w, c) >= m.letters[c].min_count,
        forall|c: char|
            #[trigger] m.letters.contains_key(c) && m.letters[c].max_count is Some ==> count_in(w, c)
                <= m.letters[c].max_count->0,
{
}

proof fn lemma_self_prefix(g: Seq<char>, m: ModelView, j: int)
    requires
        m.fixed.len() == g.len(),
        g.len() <= usize::MAX,
        0 <= j <= g.len(),
    ensures
        classify(g.subrange(0, j), g).len() == j,
        forall|k: int|
            0 <= k < j ==> #[trigger] classify(g.subrange(0, j), g)[k] == (Event {
                mark: Mark::Correct,
                pos: k as usize,
                symbol: g[k],
            }),
        apply_events((m, Map::empty()), classify(g.subrange(0, j), g), true).0.fixed.len()
            == g.len(),
        forall|k: int|
            0 <= k < g.len() ==> #[trigger] apply_events(
                (m, Map::empty()),
                classify(g.subrange(0, j), g),
                true,
            ).0.fixed[k] == if k < j {
                Some(g[k])
            } else {
                m.fixed[k]
            },
    decreases j,
{
    if j > 0 {
        let p = g.subrange(0, j);
        assert(p.drop_last() =~= g.subrange(0, j - 1));
        lemma_self_prefix(g, m, j - 1);
        let prev = classify(g.subrange(0, j - 1), g);
        let e = Event { mark: Mark::Correct, pos: (j - 1) as usize, symbol: g[j - 1] };
        assert(p.len() == j);
        assert(p.last() == g[j - 1]);
        assert(classify(p.drop_last(), g) == prev);
        assert(classify(p, g) == prev.push(e));
        crate::model::lemma_push(prev, e);
        let s = apply_events((m, Map::empty()), prev, true);
        assert(apply_events((m, Map::empty()), classify(p, g), true) == step(s, e, true));
        assert(step(s, e, true).0.fixed == s.0.fixed.update(j - 1, Some(g[j - 1])));
        assert forall|k: int| 0 <= k < g.len() implies #[trigger] apply_events(
            (m, Map::empty()),
            classify(p, g),
            true,
        ).0.fixed[k] == if k < j {
            Some(g[k])
        } else {
            m.fixed[k]
        } by {
            assert(s.0.fixed[k] == if k < j - 1 {
                Some(g[k])
            } else {
                m.fixed[k]
            });
        }
        assert forall|k: int| 0 <= k < j implies #[trigger] classify(p, g)[k] == (Event {
            mark: Mark::Correct,
            pos: k as usize,
            symbol: g[k],
        }) by {
            if k < j - 1 {
                assert(classify(p, g)[k] == prev[k]);
            }
        }
    } else {
        assert(g.subrange(0, 0) =~= Seq::<char>::empty());
    }
}

/// Playing a guess against itself colours every position correct: the simulated model has
/// the guess's symbol fixed at every position.
pub proof fn lemma_simulate_self(g: Seq<char>, m: ModelView)
    requires
        m.fixed.len() == g.len(),
        g.len() <= usize::MAX,
    ensures
        simulated(g, g, m).fixed == g.map_values(|c: char| Some(c)),
{
    lemma_self_prefix(g, m, g.len() as int);
    assert(g.subrange(0, g.len() as int) =~= g);
    assert(simulated(g, g, m).fixed =~= g.map_values(|c: char| Some(c)));
}

/// The best and worst cases of a comprehensive score ignore every assumed answer equal to
/// the guess itself: they are those of the answers with such entries taken out.
pub proof fn lemma_self_excluded(g: Seq<char>, answers: Seq<Seq<char>>, ws: Seq<Seq<char>>, m: ModelView)
    ensures
        worst_remaining(g, answers, ws, m) == worst_remaining(
            g,
            answers.filter(|a: Seq<char>| a != g),
            ws,
            m,
        ),
        best_remaining(g, answers, ws, m) == best_remaining(
            g,
            answers.filter(|a: Seq<char>| a != g),
            ws,
            m,
        ),
    decreases answers.len(),
{
    reveal(Seq::filter);
    let f = |a: Seq<char>| a != g;
    if answers.len() > 0 {
        lemma_self_excluded(g, answers.drop_last(), ws, m);
        let sub = answers.drop_last().filter(f);
        if answers.last() != g {
            assert(answers.filter(f) == sub.push(answers.last()));
            assert(sub.push(answers.last()).drop_last() =~= sub);
        } else {
            assert(answers.filter(f) == sub);
        }
    } else {
        assert(answers.filter(f) =~= answers);
    }
}

proof fn lemma_classify_prefix(g: Seq<char>, a: Seq<char>, k: int)
    requires
        0 <= k <= g.len(),
    ensures
        classify(g, a).len() == g.len(),
        classify(g.subrange(0, k), a) == classify(g, a).subrange(0, k),
    decreases g.len(),
{
    if g.len() > 0 {
        let d = g.drop_last();
        let prev = classify(d, a);
        let x = classify_next(prev, g.last(), g.len() - 1, a);
        crate::model::lemma_push(prev, x);
        if k == g.len() {
            lemma_classify_prefix(d, a, k - 1);
            assert(g.subrange(0, k) =~= g);
            assert(classify(g, a).subrange(0, k) =~= classify(g, a));
        } else {
            lemma_classify_prefix(d, a, k);
            assert(d.subrange(0, k) =~= g.subrange(0, k));
            assert(prev.push(x).subrange(0, k) =~= prev.subrange(0, k));
        }
    } else {
        assert(g.subrange(0, k) =~= g);
        assert(classify(g, a).subrange(0, k) =~= classify(g, a));
    }
}

proof fn lemma_classify_at(g: Seq<char>, a: Seq<char>, k: int)
    requires
        0 <= k < g.len(),
    ensures
        classify(g, a)[k] == classify_next(classify(g.subrange(0, k), a), g[k], k, a),
{
    lemma_classify_prefix(g, a, k + 1);
    let p = g.subrange(0, k + 1);
    assert(p.drop_last() =~= g.subrange(0, k));
    let prev = classify(g.subrange(0, k), a);
    let x = classify_next(prev, g[k], k, a);
    assert(classify(p, a) == prev.push(x));
    crate::model::lemma_push(prev, x);
    assert(classify(g, a).subrange(0, k + 1)[k] == classify(g, a)[k]);
}

proof fn lemma_hits_bounded(h: Seq<char>, a: Seq<char>, c: char)
    ensures
        hits(classify(h, a), c) <= count_in(h, c),
    decreases h.len(),
{
    if h.len() > 0 {
        let prev = classify(h.drop_last(), a);
        let x = classify_next(prev, h.last(), h.len() - 1, a);
        lemma_hits_bounded(h.drop_last(), a, c);
        crate::model::lemma_push(prev, x);
    }
}

proof fn lemma_hits_witness(evs: Seq<Event>, c: char, k: int)
    requires
        0 <= k < evs.len(),
        evs[k].symbol == c,
        evs[k].mark != Mark::Absent,
    ensures
        hits(evs, c) >= 1,
    decreases evs.len(),
{
    if k < evs.len() - 1 {
        lemma_hits_witness(evs.drop_last(), c, k);
    }
}

proof fn lemma_count_step(g: Seq<char>, c: char, k: int)
    requires
        0 <= k < g.len(),
    ensures
        count_in(g.subrange(0, k + 1), c) == count_in(g.subrange(0, k), c) + if g[k] == c {
            1nat
        } else {
            0nat
        },
{
    assert(g.subrange(0, k + 1).drop_last() =~= g.subrange(0, k));
}

proof fn lemma_count_mono(g: Seq<char>, c: char, k1: int, k2: int)
    requires
        0 <= k1 <= k2 <= g.len(),
    ensures
        count_in(g.subrange(0, k1), c) <= count_in(g.subrange(0, k2), c),
    decreases k2 - k1,
{
    if k1 < k2 {
        lemma_count_mono(g, c, k1, k2 - 1);
        lemma_count_step(g, c, k2 - 1);
    }
}

/// A symbol that occurs once in the answer and twice in the guess is coloured correct or
/// present at exactly one of the two positions, and absent at the other, provided the later
/// of the two is not where the answer holds it. (Where it is, the earlier occurrence has
/// already been coloured present when the later one is found correct.)
pub proof fn lemma_single_occurrence_coloured_once(g: Seq<char>, a: Seq<char>, c: char, i: int, j: int)
    requires
        g.len() == a.len(),
        0 <= i < j < g.len(),
        g[i] == c,
        g[j] == c,
        count_in(g, c) == 2,
        count_in(a, c) == 1,
        a[j] != c,
    ensures
        classify(g, a)[i].mark != Mark::Absent,
        classify(g, a)[j].mark == Mark::Absent,
{
    lemma_count_step(g, c, i);
    lemma_count_step(g, c, j);
    lemma_count_mono(g, c, i + 1, j);
    lemma_count_mono(g, c, j + 1, g.len() as int);
    assert(g.subrange(0, g.len() as int) =~= g);
    lemma_hits_bounded(g.subrange(0, i), a, c);
    lemma_classify_at(g, a, i);
    lemma_classify_at(g, a, j);
    lemma_classify_prefix(g, a, j);
    lemma_classify_prefix(g, a, i);
    let pj = classify(g.subrange(0, j), a);
    assert(pj[i] == classify(g, a)[i]);
    assert(pj[i].symbol == c) by {
        assert(classify(g, a)[i].symbol == g[i]);
    }
    lemma_hits_witness(pj, c, i);
}

/// `new` records at least what `old` does: the same fixed symbols, every constrained symbol
/// with no fewer forbidden positions, no lower minimum and no higher maximum.
pub open spec fn narrows(new: ModelView, old: ModelView) -> bool {
    &&& new.fixed.len() == old.fixed.len()
    &&& forall|i: int| 0 <= i < old.fixed.len() && (#[trigger] old.fixed[i]) is Some ==> new.fixed[i] == old.fixed[i]
    &&& forall|c: char| #[trigger] old.letters.contains_key(c) ==> {
        &&& new.letters.contains_key(c)
        &&& forall|p: usize| old.letters[c].forbidden.contains(p) ==> #[trigger] new.letters[c].forbidden.contains(p)
        &&& new.letters[c].min_count >= old.letters[c].min_count
        &&& (old.letters[c].max_count is Some ==> new.letters[c].max_count is Some
            && new.letters[c].max_count->0 <= old.letters[c].max_count->0)
    }
}

/// A model that records at least what another does accepts no word the other rejects.
pub proof fn lemma_narrowing_accepts_less(w: Seq<char>, new: ModelView, old: ModelView)
    requires
        narrows(new, old),
        word_matches(w, new),
    ensures
        word_matches(w, old),
{
    assert forall|i: int|
        0 <= i < w.len() && #[trigger] old.letters.contains_key(w[i]) implies !old.letters[w[i]].forbidden.contains(
        i as usize) by {
        assert(new.letters.contains_key(w[i]));
        if old.letters[w[i]].forbidden.contains(i as usize) {
            assert(new.letters[w[i]].forbidden.contains(i as usize));
        }
    }
    assert forall|c: char| #[trigger] old.letters.contains_key(c) implies crate::model::count_fits(
        w,
        old.letters[c],
        c,
    ) by {
        assert(new.letters.contains_key(c));
        assert(crate::model::count_fits(w, new.letters[c], c));
    }
    assert forall|i: int| 0 <= i < w.len() && old.fixed[i] is Some implies old.fixed[i] == Some(w[i]) by {
        assert(new.fixed[i] == old.fixed[i]);
    }
}

/// One event loosens nothing already recorded: a correct symbol does not replace a different
/// fixed one, and a present or absent symbol does not push a recorded maximum upwards.
pub open spec fn step_keeps(s: (ModelView, Map<char, nat>), e: Event, count_every_correct: bool) -> bool {
    let (m, t) = s;
    let c = e.symbol;
    match e.mark {
        Mark::Correct => m.fixed[e.pos as int] is None || m.fixed[e.pos as int] == Some(c),
        Mark::Present => m.letters.contains_key(c) && m.letters[c].max_count is Some ==> tally_of(t, c) + 1
            <= m.letters[c].max_count->0,
        Mark::Absent => m.letters.contains_key(c) && m.letters[c].max_count is Some ==> tally_of(t, c)
            <= m.letters[c].max_count->0,
    }
}

/// Every event of `evs`, applied in order from `s`, loosens nothing already recorded.
pub open spec fn keeps_knowledge(s: (ModelView, Map<char, nat>), evs: Seq<Event>, f: bool) -> bool
    decreases evs.len(),
{
    if evs.len() == 0 {
        true
    } else {
        keeps_knowledge(s, evs.drop_last(), f) && step_keeps(apply_events(s, evs.drop_last(), f), evs.last(), f)
    }
}

proof fn lemma_step_narrows(s: (ModelView, Map<char, nat>), e: Event, f: bool)
    requires
        step_keeps(s, e, f),
        e.mark == Mark::Correct ==> e.pos < s.0.fixed.len(),
    ensures
        narrows(step(s, e, f).0, s.0),
{
    let r = step(s, e, f).0;
    let m = s.0;
    assert forall|c: char| #[trigger] m.letters.contains_key(c) implies {
        &&& r.letters.contains_key(c)
        &&& forall|p: usize| m.letters[c].forbidden.contains(p) ==> #[trigger] r.letters[c].forbidden.contains(p)
        &&& r.letters[c].min_count >= m.letters[c].min_count
        &&& (m.letters[c].max_count is Some ==> r.letters[c].max_count is Some
            && r.letters[c].max_count->0 <= m.letters[c].max_count->0)
    } by {
        if c == e.symbol && e.mark == Mark::Present {
            assert forall|p: usize| m.letters[c].forbidden.contains(p) implies #[trigger] r.letters[c].forbidden.contains(p) by {
                let k = choose|k: int| 0 <= k < m.letters[c].forbidden.len() && m.letters[c].forbidden[k] == p;
                assert(r.letters[c].forbidden[k] == p);
            }
        }
    }
}

proof fn lemma_narrows_trans(a: ModelView, b: ModelView, c: ModelView)
    requires
        narrows(a, b),
        narrows(b, c),
    ensures
        narrows(a, c),
{
    assert forall|x: char| #[trigger] c.letters.contains_key(x) implies {
        &&& a.letters.contains_key(x)
        &&& forall|p: usize| c.letters[x].forbidden.contains(p) ==> #[trigger] a.letters[x].forbidden.contains(p)
        &&& a.letters[x].min_count >= c.letters[x].min_count
        &&& (c.letters[x].max_count is Some ==> a.letters[x].max_count is Some
            && a.letters[x].max_count->0 <= c.letters[x].max_count->0)
    } by {
        assert(b.letters.contains_key(x));
        assert forall|p: usize| c.letters[x].forbidden.contains(p) implies #[trigger] a.letters[x].forbidden.contains(p) by {
            assert(b.letters[x].forbidden.contains(p));
        }
    }
    assert forall|i: int| 0 <= i < c.fixed.len() && (#[trigger] c.fixed[i]) is Some implies a.fixed[i] == c.fixed[i] by {
        assert(b.fixed[i] == c.fixed[i]);
    }
}

proof fn lemma_events_narrow(s: (ModelView, Map<char, nat>), evs: Seq<Event>, f: bool)
    requires
        keeps_knowledge(s, evs, f),
        positions_in_range(evs, s.0.fixed.len()),
    ensures
        narrows(apply_events(s, evs, f).0, s.0),
    decreases evs.len(),
{
    if evs.len() == 0 {
        assert forall|c: char| #[trigger] s.0.letters.contains_key(c) implies {
            &&& s.0.letters.contains_key(c)
            &&& forall|p: usize| s.0.letters[c].forbidden.contains(p) ==> #[trigger] s.0.letters[c].forbidden.contains(p)
            &&& s.0.letters[c].min_count >= s.0.letters[c].min_count
            &&& (s.0.letters[c].max_count is Some ==> s.0.letters[c].max_count is Some
                && s.0.letters[c].max_count->0 <= s.0.letters[c].max_count->0)
        } by {}
    } else {
        let d = evs.drop_last();
        assert(positions_in_range(d, s.0.fixed.len())) by {
            assert forall|k: int| 0 <= k < d.len() && (#[trigger] d[k]).mark != Mark::Absent implies d[k].pos < s.0.fixed.len() by {
                assert(d[k] == evs[k]);
            }
        }
        lemma_events_narrow(s, d, f);
        let mid = apply_events(s, d, f);
        assert(evs[evs.len() - 1] == evs.last());
        lemma_step_narrows(mid, evs.last(), f);
        lemma_narrows_trans(step(mid, evs.last(), f).0, mid.0, s.0);
    }
}

/// Reading feedback into a model never makes it accept a word it rejected before, as long as
/// the feedback loosens nothing already recorded (see `step_keeps`).
pub proof fn lemma_feedback_monotone(m: ModelView, t: Seq<char>, w: Seq<char>)
    requires
        keeps_knowledge((m, fixed_tally(m.fixed)), scan(t, m.fixed.len()).events, false),
        word_matches(w, after_feedback(m, t)),
    ensures
        word_matches(w, m),
{
    lemma_scan_len(t, m.fixed.len());
    lemma_events_narrow((m, fixed_tally(m.fixed)), scan(t, m.fixed.len()).events, false);
    lemma_narrowing_accepts_less(w, after_feedback(m, t), m);
}

} // verus!
