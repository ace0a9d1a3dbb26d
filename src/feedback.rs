use vstd::prelude::*;
use crate::model::{ConstraintModel, LetterRule, LetterSpec, ModelView, letters_map, lemma_letters_map, lemma_letters_map_update};

verus! {

/// How one symbol of a guess was coloured.
#[derive(PartialEq, Eq, Structural, Clone, Copy, Debug)]
pub enum Mark {
    Correct,
    Present,
    Absent,
}

/// One classified symbol of feedback: its colour, its position, and the symbol.
#[derive(PartialEq, Eq, Structural, Clone, Copy, Debug)]
pub struct Event {
    pub mark: Mark,
    pub pos: usize,
    pub symbol: char,
}

pub open spec fn tally_of(t: Map<char, nat>, c: char) -> nat {
    if t.contains_key(c) {
        t[c]
    } else {
        0
    }
}

pub open spec fn nat_max(a: nat, b: nat) -> nat {
    if a >= b {
        a
    } else {
        b
    }
}

pub open spec fn with_rule(m: ModelView, c: char, r: LetterSpec) -> ModelView {
    ModelView { fixed: m.fixed, letters: m.letters.insert(c, r) }
}

/// `c` is present, though not at `pos`, and occurs at least `n` times.
pub open spec fn after_present(m: ModelView, c: char, pos: usize, n: nat) -> ModelView {
    with_rule(
        m,
        c,
        if m.letters.contains_key(c) {
            let r = m.letters[c];
            LetterSpec {
                forbidden: r.forbidden.push(pos),
                min_count: nat_max(r.min_count, n),
                max_count: match r.max_count {
                    Some(x) => Some(nat_max(x, n)),
                    None => None,
                },
            }
        } else {
            LetterSpec { forbidden: seq![pos], min_count: n, max_count: None }
        },
    )
}

/// `c` occurs no more than the `n` times already confirmed.
pub open spec fn after_absent(m: ModelView, c: char, n: nat) -> ModelView {
    with_rule(
        m,
        c,
        if m.letters.contains_key(c) {
            let r = m.letters[c];
            LetterSpec {
                forbidden: r.forbidden,
                min_count: r.min_count,
                max_count: Some(
                    match r.max_count {
                        Some(x) => nat_max(x, n),
                        None => n,
                    },
                ),
            }
        } else {
            LetterSpec { forbidden: seq![], min_count: 0, max_count: Some(n) }
        },
    )
}

/// The effect of one event on a model and the running tally of confirmed occurrences.
/// A correct symbol counts towards the tally when `count_every_correct` holds, or else
/// only when its position was not fixed before.
pub open spec fn step(
    s: (ModelView, Map<char, nat>),
    e: Event,
    count_every_correct: bool,
) -> (ModelView, Map<char, nat>) {
    let (m, t) = s;
    let c = e.symbol;
    match e.mark {
        Mark::Correct => {
            let counted = count_every_correct || m.fixed[e.pos as int] is None;
            (
                ModelView { fixed: m.fixed.update(e.pos as int, Some(c)), letters: m.letters },
                if counted {
                    t.insert(c, tally_of(t, c) + 1)
                } else {
                    t
                },
            )
        },
        Mark::Present => {
            let n = tally_of(t, c) + 1;
            (after_present(m, c, e.pos, n), t.insert(c, n))
        },
        Mark::Absent => (after_absent(m, c, tally_of(t, c)), t),
    }
}

pub open spec fn apply_events(
    s: (ModelView, Map<char, nat>),
    evs: Seq<Event>,
    count_every_correct: bool,
) -> (ModelView, Map<char, nat>)
    decreases evs.len(),
{
    if evs.len() == 0 {
        s
    } else {
        step(apply_events(s, evs.drop_last(), count_every_correct), evs.last(), count_every_correct)
    }
}

pub open spec fn tally_bounded(t: Map<char, nat>, b: nat) -> bool {
    forall|c: char| #[trigger] t.contains_key(c) ==> t[c] <= b
}

pub open spec fn positions_in_range(evs: Seq<Event>, n: nat) -> bool {
    forall|k: int| 0 <= k < evs.len() && (#[trigger] evs[k]).mark != Mark::Absent ==> evs[k].pos < n
}

pub open spec fn tally_map(es: Seq<(char, usize)>) -> Map<char, nat>
    decreases es.len(),
{
    if es.len() == 0 {
        Map::empty()
    } else {
        tally_map(es.drop_last()).insert(es.last().0, es.last().1 as nat)
    }
}

pub open spec fn unique_keys(es: Seq<(char, usize)>) -> bool {
    forall|i: int, j: int| 0 <= i < es.len() && 0 <= j < es.len() && es[i].0 == es[j].0 ==> i == j
}

proof fn lemma_tally_map(es: Seq<(char, usize)>)
    requires
        unique_keys(es),
    ensures
        forall|k: int|
            0 <= k < es.len() ==> tally_map(es).contains_key(#[trigger] es[k].0) && tally_map(
                es,
            )[es[k].0] == es[k].1 as nat,
        forall|c: char|
            tally_map(es).contains_key(c) ==> exists|k: int| 0 <= k < es.len() && #[trigger] es[k].0 == c,
    decreases es.len(),
{
    if es.len() > 0 {
        let p = es.drop_last();
        lemma_tally_map(p);
        assert forall|k: int| 0 <= k < es.len() implies tally_map(es).contains_key(
            #[trigger] es[k].0,
        ) && tally_map(es)[es[k].0] == es[k].1 as nat by {
            if k < es.len() - 1 {
                assert(p[k] == es[k]);
                assert(es[k].0 != es.last().0);
            }
        }
        assert forall|c: char| tally_map(es).contains_key(c) implies exists|k: int|
            0 <= k < es.len() && #[trigger] es[k].0 == c by {
            if c != es.last().0 {
                assert(tally_map(p).contains_key(c));
                let k = choose|k: int| 0 <= k < p.len() && #[trigger] p[k].0 == c;
                assert(p[k] == es[k]);
                assert(es[k].0 == c);
            } else {
                assert(es[es.len() - 1].0 == c);
            }
        }
    }
}

proof fn lemma_tally_map_update(es: Seq<(char, usize)>, k: int, v: usize)
    requires
        unique_keys(es),
        0 <= k < es.len(),
    ensures
        unique_keys(es.update(k, (es[k].0, v))),
        tally_map(es.update(k, (es[k].0, v))) == tally_map(es).insert(es[k].0, v as nat),
    decreases es.len(),
{
    let u = es.update(k, (es[k].0, v));
    if k == es.len() - 1 {
        assert(u.drop_last() =~= es.drop_last());
        assert(tally_map(u) =~= tally_map(es).insert(es[k].0, v as nat));
    } else {
        lemma_tally_map_update(es.drop_last(), k, v);
        assert(u.drop_last() =~= es.drop_last().update(k, (es[k].0, v)));
        assert(es.last().0 != es[k].0);
        assert(tally_map(u) =~= tally_map(es).insert(es[k].0, v as nat));
    }
}

/// Per-symbol count of occurrences confirmed so far in one pass over feedback.
pub struct Tally {
    pub entries: Vec<(char, usize)>,
}

impl Tally {
    pub open spec fn wf(&self) -> bool {
        unique_keys(self.entries@)
    }

    pub open spec fn spec_view(&self) -> Map<char, nat> {
        tally_map(self.entries@)
    }

    pub fn new() -> (r: Tally)
        ensures
            r.wf(),
            r.spec_view() == Map::<char, nat>::empty(),
    {
        let r = Tally { entries: Vec::new() };
        assert(tally_map(r.entries@) =~= Map::<char, nat>::empty());
        r
    }

    pub fn get(&self, c: char) -> (r: usize)
        requires
            self.wf(),
        ensures
            r as nat == tally_of(self.spec_view(), c),
    {
        proof {
            lemma_tally_map(self.entries@);
        }
        let mut k: usize = 0;
        while k < self.entries.len()
            invariant
                self.wf(),
                k <= self.entries@.len(),
                forall|j: int| 0 <= j < k ==> self.entries@[j].0 != c,
            decreases self.entries.len() - k,
        {
            proof {
                lemma_tally_map(self.entries@);
            }
            if self.entries[k].0 == c {
                return self.entries[k].1;
            }
            k += 1;
        }
        0
    }

    /// Adds one to the count of `c` and returns the new count.
    pub fn increment(&mut self, c: char) -> (r: usize)
        requires
            old(self).wf(),
            tally_of(old(self).spec_view(), c) < usize::MAX,
        ensures
            final(self).wf(),
            r as nat == tally_of(old(self).spec_view(), c) + 1,
            final(self).spec_view() == old(self).spec_view().insert(c, r as nat),
    {
        proof {
            lemma_tally_map(self.entries@);
        }
        let mut k: usize = 0;
        while k < self.entries.len()
            invariant
                self.wf(),
                self.entries@ == old(self).entries@,
                tally_of(self.spec_view(), c) < usize::MAX,
                k <= self.entries@.len(),
                forall|j: int| 0 <= j < k ==> self.entries@[j].0 != c,
                forall|j: int|
                    0 <= j < self.entries@.len() ==> tally_map(self.entries@).contains_key(
                        #[trigger] self.entries@[j].0,
                    ) && tally_map(self.entries@)[self.entries@[j].0] == self.entries@[j].1 as nat,
                forall|c2: char|
                    tally_map(self.entries@).contains_key(c2) ==> exists|j: int|
                        0 <= j < self.entries@.len() && #[trigger] self.entries@[j].0 == c2,
            decreases self.entries.len() - k,
        {
            if self.entries[k].0 == c {
                let v = self.entries[k].1 + 1;
                proof {
                    lemma_tally_map_update(self.entries@, k as int, v);
                }
                self.entries.set(k, (c, v));
                return v;
            }
            k += 1;
        }
        proof {
            lemma_tally_map(self.entries@);
        }
        self.entries.push((c, 1));
        assert(self.entries@.drop_last() =~= old(self).entries@);
        assert(unique_keys(self.entries@));
        1
    }

    /// Occurrences of each symbol among the fixed positions of a model.
    pub fn of_fixed(fixed: &Vec<Option<char>>) -> (r: Tally)
        ensures
            r.wf(),
            r.spec_view() == fixed_tally(fixed@),
            tally_bounded(r.spec_view(), fixed@.len() as nat),
    {
        let mut t = Tally::new();
        let mut i: usize = 0;
        while i < fixed.len()
            invariant
                i <= fixed@.len(),
                t.wf(),
                t.spec_view() == fixed_tally(fixed@.subrange(0, i as int)),
                tally_bounded(t.spec_view(), i as nat),
            decreases fixed.len() - i,
        {
            assert(fixed@.subrange(0, i + 1).drop_last() =~= fixed@.subrange(0, i as int));
            if let Some(c) = fixed[i] {
                t.increment(c);
            }
            i += 1;
        }
        assert(fixed@.subrange(0, fixed@.len() as int) =~= fixed@);
        t
    }
}

/// How often each symbol stands at a fixed position.
pub open spec fn fixed_tally(fixed: Seq<Option<char>>) -> Map<char, nat>
    decreases fixed.len(),
{
    if fixed.len() == 0 {
        Map::empty()
    } else {
        let t = fixed_tally(fixed.drop_last());
        match fixed.last() {
            Some(c) => t.insert(c, tally_of(t, c) + 1),
            None => t,
        }
    }
}

impl ConstraintModel {
    /// Applies one classified symbol of feedback, updating the running tally.
    pub fn apply_event(&mut self, tally: &mut Tally, e: Event, count_every_correct: bool)
        requires
            old(self).wf(),
            old(tally).wf(),
            e.mark == Mark::Correct ==> e.pos < old(self).fixed_at@.len(),
            tally_of(old(tally).spec_view(), e.symbol) < usize::MAX,
        ensures
            final(self).wf(),
            final(tally).wf(),
            (final(self).spec_view(), final(tally).spec_view()) == step(
                (old(self).spec_view(), old(tally).spec_view()),
                e,
                count_every_correct,
            ),
    {
        let c = e.symbol;
        match e.mark {
            Mark::Correct => {
                let was_unset = self.fixed_at[e.pos].is_none();
                self.fixed_at.set(e.pos, Some(c));
                assert(self.letters@ == old(self).letters@);
                if count_every_correct || was_unset {
                    tally.increment(c);
                }
                assert(self.spec_view().fixed == old(self).spec_view().fixed.update(e.pos as int, Some(c)));
                assert(self.wf());
                assert(self.spec_view().letters == old(self).spec_view().letters);
            },
            Mark::Present => {
                let n = tally.increment(c);
                match self.find_letter(c) {
                    Some(k) => {
                        let ghost before = self.letters@;
                        let mut r = LetterRule {
                            symbol: c,
                            forbidden: Vec::new(),
                            min_count: 0,
                            max_count: None,
                        };
                        std::mem::swap(&mut r, &mut self.letters[k]);
                        let ghost r0 = r;
                        assert(r0 == before[k as int]);
                        proof {
                            lemma_letters_map(before);
                        }
                        r.forbidden.push(e.pos);
                        assert(r.forbidden@ =~= r0.forbidden@.push(e.pos));
                        if r.min_count < n {
                            r.min_count = n;
                        }
                        if let Some(x) = r.max_count {
                            if x < n {
                                r.max_count = Some(n);
                            }
                        }
                        proof {
                            lemma_letters_map_update(before, k as int, r);
                        }
                        self.letters.set(k, r);
                        assert(self.letters@ == before.update(k as int, r));
                        assert(self.wf());
                        assert(self.spec_view() == after_present(old(self).spec_view(), c, e.pos, n as nat));
                    },
                    None => {
                        proof {
                            lemma_letters_map(self.letters@);
                        }
                        let mut forbidden: Vec<usize> = Vec::new();
                        forbidden.push(e.pos);
                        self.letters.push(
                            LetterRule { symbol: c, forbidden, min_count: n, max_count: None },
                        );
                        assert(forbidden@ =~= seq![e.pos]);
                        assert(self.letters@.drop_last() =~= old(self).letters@);
                        assert(self.spec_view().letters =~= old(self).spec_view().letters.insert(
                            c,
                            LetterSpec { forbidden: seq![e.pos], min_count: n as nat, max_count: None },
                        ));
                        assert(self.wf());
                        assert(self.spec_view() == after_present(old(self).spec_view(), c, e.pos, n as nat));
                    },
                }
            },
            Mark::Absent => {
                let n = tally.get(c);
                match self.find_letter(c) {
                    Some(k) => {
                        let ghost before = self.letters@;
                        let mut r = LetterRule {
                            symbol: c,
                            forbidden: Vec::new(),
                            min_count: 0,
                            max_count: None,
                        };
                        std::mem::swap(&mut r, &mut self.letters[k]);
                        assert(r == before[k as int]);
                        proof {
                            lemma_letters_map(before);
                        }
                        match r.max_count {
                            Some(x) => {
                                if x < n {
                                    r.max_count = Some(n);
                                }
                            },
                            None => {
                                r.max_count = Some(n);
                            },
                        }
                        proof {
                            lemma_letters_map_update(before, k as int, r);
                        }
                        self.letters.set(k, r);
                        assert(self.letters@ == before.update(k as int, r));
                        assert(self.wf());
                        assert(self.spec_view() == after_absent(old(self).spec_view(), c, n as nat));
                    },
                    None => {
                        proof {
                            lemma_letters_map(self.letters@);
                        }
                        let forbidden: Vec<usize> = Vec::new();
                        self.letters.push(
                            LetterRule { symbol: c, forbidden, min_count: 0, max_count: Some(n) },
                        );
                        assert(forbidden@ =~= Seq::<usize>::empty());
                        assert(self.letters@.drop_last() =~= old(self).letters@);
                        assert(self.spec_view().letters =~= old(self).spec_view().letters.insert(
                            c,
                            LetterSpec { forbidden: seq![], min_count: 0, max_count: Some(n as nat) },
                        ));
                        assert(self.wf());
                        assert(self.spec_view() == after_absent(old(self).spec_view(), c, n as nat));
                    },
                }
            },
        }
    }
}

proof fn lemma_step_bounded(s: (ModelView, Map<char, nat>), e: Event, f: bool, b: nat)
    requires
        tally_bounded(s.1, b),
    ensures
        tally_bounded(step(s, e, f).1, b + 1),
{
}

proof fn lemma_step_len(s: (ModelView, Map<char, nat>), e: Event, f: bool)
    requires
        e.mark == Mark::Correct ==> e.pos < s.0.fixed.len(),
    ensures
        step(s, e, f).0.fixed.len() == s.0.fixed.len(),
{
}

impl ConstraintModel {
    /// Applies a sequence of classified symbols in order.
    pub fn apply_events(&mut self, tally: &mut Tally, evs: &Vec<Event>, count_every_correct: bool)
        requires
            old(self).wf(),
            old(tally).wf(),
            positions_in_range(evs@, old(self).fixed_at@.len() as nat),
            tally_bounded(old(tally).spec_view(), (usize::MAX - evs@.len()) as nat),
        ensures
            final(self).wf(),
            final(tally).wf(),
            (final(self).spec_view(), final(tally).spec_view()) == apply_events(
                (old(self).spec_view(), old(tally).spec_view()),
                evs@,
                count_every_correct,
            ),
    {
        let ghost s0 = (self.spec_view(), tally.spec_view());
        let ghost n0 = self.fixed_at@.len();
        let mut i: usize = 0;
        while i < evs.len()
            invariant
                i <= evs@.len(),
                self.wf(),
                tally.wf(),
                self.fixed_at@.len() == n0,
                positions_in_range(evs@, n0 as nat),
                (self.spec_view(), tally.spec_view()) == apply_events(
                    s0,
                    evs@.subrange(0, i as int),
                    count_every_correct,
                ),
                tally_bounded(tally.spec_view(), (usize::MAX - evs@.len() + i) as nat),
            decreases evs.len() - i,
        {
            let e = evs[i];
            assert(evs@.subrange(0, i + 1).drop_last() =~= evs@.subrange(0, i as int));
            proof {
                lemma_step_bounded(
                    (self.spec_view(), tally.spec_view()),
                    e,
                    count_every_correct,
                    (usize::MAX - evs@.len() + i) as nat,
                );
                lemma_step_len((self.spec_view(), tally.spec_view()), e, count_every_correct);
                assert(evs@[i as int] == e);
                if tally.spec_view().contains_key(e.symbol) {
                    assert(tally.spec_view()[e.symbol] <= (usize::MAX - evs@.len() + i) as nat);
                }
            }
            self.apply_event(tally, e, count_every_correct);
            i += 1;
        }
        assert(evs@.subrange(0, evs@.len() as int) =~= evs@);
    }
}

} // verus!
