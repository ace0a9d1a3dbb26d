use vstd::prelude::*;

verus! {

/// Number of occurrences of `c` in `w`.
pub open spec fn count_in(w: Seq<char>, c: char) -> nat
    decreases w.len(),
{
    if w.len() == 0 {
        0
    } else {
        count_in(w.drop_last(), c) + if w.last() == c { 1nat } else { 0nat }
    }
}

/// What is known of one symbol: positions where it is absent, and bounds on its multiplicity.
pub struct LetterSpec {
    pub forbidden: Seq<usize>,
    pub min_count: nat,
    pub max_count: Option<nat>,
}

/// The mathematical content of a constraint model.
pub struct ModelView {
    pub fixed: Seq<Option<char>>,
    pub letters: Map<char, LetterSpec>,
}

pub open spec fn fits_fixed(w: Seq<char>, m: ModelView) -> bool {
    forall|i: int| 0 <= i < w.len() && m.fixed[i] is Some ==> m.fixed[i] == Some(w[i])
}

pub open spec fn avoids_forbidden(w: Seq<char>, m: ModelView) -> bool {
    forall|i: int|
        0 <= i < w.len() && #[trigger] m.letters.contains_key(w[i])
            ==> !m.letters[w[i]].forbidden.contains(i as usize)
}

pub open spec fn count_fits(w: Seq<char>, r: LetterSpec, c: char) -> bool {
    count_in(w, c) >= r.min_count && (r.max_count is Some ==> count_in(w, c) <= r.max_count->0)
}

pub open spec fn counts_fit(w: Seq<char>, m: ModelView) -> bool {
    forall|c: char| #[trigger] m.letters.contains_key(c) ==> count_fits(w, m.letters[c], c)
}

/// A word is consistent with a model: right length, fixed symbols in place, no symbol at a
/// position forbidden to it, and every constrained symbol's count within its bounds.
pub open spec fn word_matches(w: Seq<char>, m: ModelView) -> bool {
    &&& w.len() == m.fixed.len()
    &&& fits_fixed(w, m)
    &&& avoids_forbidden(w, m)
    &&& counts_fit(w, m)
}

/// Knowledge about one symbol of the alphabet.
pub struct LetterRule {
    pub symbol: char,
    pub forbidden: Vec<usize>,
    pub min_count: usize,
    pub max_count: Option<usize>,
}

impl LetterRule {
    pub open spec fn spec_view(&self) -> LetterSpec {
        LetterSpec {
            forbidden: self.forbidden@,
            min_count: self.min_count as nat,
            max_count: match self.max_count {
                Some(x) => Some(x as nat),
                None => None,
            },
        }
    }
}

pub open spec fn letters_map(ls: Seq<LetterRule>) -> Map<char, LetterSpec>
    decreases ls.len(),
{
    if ls.len() == 0 {
        Map::empty()
    } else {
        letters_map(ls.drop_last()).insert(ls.last().symbol, ls.last().spec_view())
    }
}

pub open spec fn unique_symbols(ls: Seq<LetterRule>) -> bool {
    forall|i: int, j: int|
        0 <= i < ls.len() && 0 <= j < ls.len() && ls[i].symbol == ls[j].symbol ==> i == j
}

pub proof fn lemma_letters_map(ls: Seq<LetterRule>)
    requires
        unique_symbols(ls),
    ensures
        forall|k: int|
            0 <= k < ls.len() ==> letters_map(ls).contains_key(#[trigger] ls[k].symbol)
                && letters_map(ls)[ls[k].symbol] == ls[k].spec_view(),
        forall|c: char|
            letters_map(ls).contains_key(c) ==> exists|k: int|
                0 <= k < ls.len() && #[trigger] ls[k].symbol == c,
    decreases ls.len(),
{
    if ls.len() > 0 {
        let p = ls.drop_last();
        lemma_letters_map(p);
        assert forall|k: int| 0 <= k < ls.len() implies letters_map(ls).contains_key(
            #[trigger] ls[k].symbol,
        ) && letters_map(ls)[ls[k].symbol] == ls[k].spec_view() by {
            if k < ls.len() - 1 {
                assert(p[k] == ls[k]);
                assert(ls[k].symbol != ls.last().symbol);
            }
        }
        assert forall|c: char| letters_map(ls).contains_key(c) implies exists|k: int|
            0 <= k < ls.len() && #[trigger] ls[k].symbol == c by {
            if c != ls.last().symbol {
                let k = choose|k: int| 0 <= k < p.len() && #[trigger] p[k].symbol == c;
                assert(ls[k].symbol == c);
            } else {
                assert(ls[ls.len() - 1].symbol == c);
            }
        }
    }
}

pub proof fn lemma_letters_map_update(ls: Seq<LetterRule>, k: int, r: LetterRule)
    requires
        unique_symbols(ls),
        0 <= k < ls.len(),
        r.symbol == ls[k].symbol,
    ensures
        unique_symbols(ls.update(k, r)),
        letters_map(ls.update(k, r)) == letters_map(ls).insert(r.symbol, r.spec_view()),
    decreases ls.len(),
{
    let u = ls.update(k, r);
    if k == ls.len() - 1 {
        assert(u.drop_last() =~= ls.drop_last());
        assert(letters_map(u) =~= letters_map(ls).insert(r.symbol, r.spec_view()));
    } else {
        lemma_letters_map_update(ls.drop_last(), k, r);
        assert(u.drop_last() =~= ls.drop_last().update(k, r));
        assert(ls.last().symbol != r.symbol);
        assert(letters_map(u) =~= letters_map(ls).insert(r.symbol, r.spec_view()));
    }
}

/// Accumulated knowledge about the hidden answer.
pub struct ConstraintModel {
    pub fixed_at: Vec<Option<char>>,
    pub letters: Vec<LetterRule>,
}

impl ConstraintModel {
    pub open spec fn wf(&self) -> bool {
        unique_symbols(self.letters@)
    }

    pub open spec fn spec_view(&self) -> ModelView {
        ModelView { fixed: self.fixed_at@, letters: letters_map(self.letters@) }
    }

    /// The empty model for words of `word_len` symbols.
    pub fn new(word_len: usize) -> (r: ConstraintModel)
        ensures
            r.wf(),
            r.spec_view().fixed == Seq::new(word_len as nat, |i: int| None::<char>),
            r.spec_view().letters == Map::<char, LetterSpec>::empty(),
    {
        let mut fixed_at: Vec<Option<char>> = Vec::new();
        let mut i: usize = 0;
        while i < word_len
            invariant
                i <= word_len,
                fixed_at@ == Seq::new(i as nat, |j: int| None::<char>),
            decreases word_len - i,
        {
            fixed_at.push(None);
            i += 1;
            assert(fixed_at@ =~= Seq::new(i as nat, |j: int| None::<char>));
        }
        let r = ConstraintModel { fixed_at, letters: Vec::new() };
        assert(letters_map(r.letters@) =~= Map::<char, LetterSpec>::empty());
        r
    }

    pub fn word_len(&self) -> (r: usize)
        ensures
            r == self.spec_view().fixed.len(),
    {
        self.fixed_at.len()
    }

    /// Index of the rule for `c`, if there is one.
    pub fn find_letter(&self, c: char) -> (r: Option<usize>)
        requires
            self.wf(),
        ensures
            match r {
                Some(k) => k < self.letters@.len() && self.letters@[k as int].symbol == c,
                None => !self.spec_view().letters.contains_key(c),
            },
    {
        proof {
            lemma_letters_map(self.letters@);
        }
        let mut k: usize = 0;
        while k < self.letters.len()
            invariant
                k <= self.letters@.len(),
                forall|j: int| 0 <= j < k ==> self.letters@[j].symbol != c,
            decreases self.letters.len() - k,
        {
            if self.letters[k].symbol == c {
                return Some(k);
            }
            k += 1;
        }
        None
    }

    /// Whether `word` is consistent with everything the model records.
    pub fn matches(&self, word: &[char]) -> (r: bool)
        requires
            self.wf(),
        ensures
            r == word_matches(word@, self.spec_view()),
    {
        let m = Ghost(self.spec_view());
        if word.len() != self.fixed_at.len() {
            return false;
        }
        proof {
            lemma_letters_map(self.letters@);
        }
        let mut i: usize = 0;
        while i < word.len()
            invariant
                self.wf(),
                m@ == self.spec_view(),
                word@.len() == self.fixed_at@.len(),
                i <= word@.len(),
                forall|j: int| 0 <= j < i && m@.fixed[j] is Some ==> m@.fixed[j] == Some(word@[j]),
                forall|j: int|
                    0 <= j < i && #[trigger] m@.letters.contains_key(word@[j])
                        ==> !m@.letters[word@[j]].forbidden.contains(j as usize),
            decreases word.len() - i,
        {
            proof {
                lemma_letters_map(self.letters@);
            }
            if let Some(c) = self.fixed_at[i] {
                if c != word[i] {
                    assert(!fits_fixed(word@, m@));
                    return false;
                }
            }
            match self.find_letter(word[i]) {
                Some(k) => {
                    assert(self.letters@[k as int].symbol == word@[i as int]);
                    if contains_position(&self.letters[k].forbidden, i) {
                        assert(!avoids_forbidden(word@, m@));
                        return false;
                    }
                },
                None => {},
            }
            i += 1;
        }
        let mut k: usize = 0;
        while k < self.letters.len()
            invariant
                self.wf(),
                m@ == self.spec_view(),
                k <= self.letters@.len(),
                forall|j: int|
                    0 <= j < k ==> count_fits(
                        word@,
                        #[trigger] self.letters@[j].spec_view(),
                        self.letters@[j].symbol,
                    ),
            decreases self.letters.len() - k,
        {
            proof {
                lemma_letters_map(self.letters@);
            }
            let rule = &self.letters[k];
            let n = count_symbol(word, rule.symbol);
            if n < rule.min_count {
                assert(m@.letters.contains_key(rule.symbol));
                return false;
            }
            if let Some(mx) = rule.max_count {
                if n > mx {
                    assert(m@.letters.contains_key(rule.symbol));
                    return false;
                }
            }
            k += 1;
        }
        proof {
            lemma_letters_map(self.letters@);
        }
        assert forall|c: char| #[trigger] m@.letters.contains_key(c) implies count_fits(
            word@,
            m@.letters[c],
            c,
        ) by {
            let j = choose|j: int| 0 <= j < self.letters@.len() && #[trigger] self.letters@[j].symbol == c;
            assert(count_fits(word@, self.letters@[j].spec_view(), self.letters@[j].symbol));
        }
        true
    }
}

pub fn contains_position(v: &Vec<usize>, p: usize) -> (r: bool)
    ensures
        r == v@.contains(p),
{
    let mut i: usize = 0;
    while i < v.len()
        invariant
            i <= v@.len(),
            forall|j: int| 0 <= j < i ==> v@[j] != p,
        decreases v.len() - i,
    {
        if v[i] == p {
            return true;
        }
        i += 1;
    }
    false
}

/// Number of occurrences of `c` in `w`.
pub fn count_symbol(w: &[char], c: char) -> (r: usize)
    ensures
        r == count_in(w@, c),
{
    let mut n: usize = 0;
    let mut i: usize = 0;
    while i < w.len()
        invariant
            i <= w@.len(),
            n == count_in(w@.subrange(0, i as int), c),
            n <= i,
        decreases w.len() - i,
    {
        assert(w@.subrange(0, i + 1).drop_last() =~= w@.subrange(0, i as int));
        if w[i] == c {
            n += 1;
        }
        i += 1;
    }
    assert(w@.subrange(0, w@.len() as int) =~= w@);
    n
}

pub proof fn lemma_same_letters(a: Seq<LetterRule>, b: Seq<LetterRule>)
    requires
        a.len() == b.len(),
        forall|k: int|
            0 <= k < a.len() ==> (#[trigger] a[k]).symbol == b[k].symbol && a[k].spec_view()
                == b[k].spec_view(),
    ensures
        letters_map(a) == letters_map(b),
        unique_symbols(a) == unique_symbols(b),
    decreases a.len(),
{
    if a.len() > 0 {
        lemma_same_letters(a.drop_last(), b.drop_last());
        assert(a.last().symbol == b.last().symbol);
    }
    assert forall|i: int, j: int|
        0 <= i < a.len() && 0 <= j < a.len() implies (a[i].symbol == a[j].symbol) == (b[i].symbol
        == b[j].symbol) by {
        assert(a[i].symbol == b[i].symbol);
        assert(a[j].symbol == b[j].symbol);
    }
}

/// What pushing onto a sequence keeps and adds.
pub proof fn lemma_push<A>(s: Seq<A>, x: A)
    ensures
        s.push(x).drop_last() == s,
        s.push(x).len() == s.len() + 1,
        s.push(x).last() == x,
        forall|k: int| 0 <= k < s.len() ==> s.push(x)[k] == s[k],
{
    assert(s.push(x).drop_last() =~= s);
}

} // verus!
