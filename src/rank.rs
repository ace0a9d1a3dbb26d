use vstd::prelude::*;
use vstd::seq_lib::{to_multiset_build, to_multiset_insert};
use crate::scoring::Score;

verus! {

/// A candidate guess, by its index in the pool, with its score.
#[derive(PartialEq, Eq, Structural, Clone, Copy, Debug)]
pub struct Scored {
    pub index: usize,
    pub score: Score,
}

/// How many ranked entries are shown.
pub const TOP_COUNT: usize = 10;

pub open spec fn opt_key(o: Option<u64>) -> int {
    match o {
        Some(x) => x as int,
        None => -1,
    }
}

/// The sort key of a score: ascending on (total, worst, best), or descending on it.
pub open spec fn rank_key(s: Score, descending: bool) -> (int, int, int) {
    if descending {
        (-(s.total as int), -opt_key(s.worst), -opt_key(s.best))
    } else {
        (s.total as int, opt_key(s.worst), opt_key(s.best))
    }
}

pub open spec fn key_lt(a: (int, int, int), b: (int, int, int)) -> bool {
    a.0 < b.0 || (a.0 == b.0 && (a.1 < b.1 || (a.1 == b.1 && a.2 < b.2)))
}

pub open spec fn ranks_before(a: Scored, b: Scored, descending: bool) -> bool {
    !key_lt(rank_key(b.score, descending), rank_key(a.score, descending))
}

pub open spec fn sorted_by(s: Seq<Scored>, descending: bool) -> bool {
    forall|i: int, j: int| 0 <= i < j < s.len() ==> ranks_before(#[trigger] s[i], #[trigger] s[j], descending)
}

fn opt_lt(a: Option<u64>, b: Option<u64>) -> (r: bool)
    ensures
        r == (opt_key(a) < opt_key(b)),
{
    match (a, b) {
        (None, Some(_)) => true,
        (Some(x), Some(y)) => x < y,
        _ => false,
    }
}

/// Whether `a` comes strictly before `b` in the ranking order.
pub fn strictly_before(a: &Score, b: &Score, descending: bool) -> (r: bool)
    ensures
        r == key_lt(rank_key(*a, descending), rank_key(*b, descending)),
{
    let (x, y) = if descending {
        (b, a)
    } else {
        (a, b)
    };
    if x.total != y.total {
        x.total < y.total
    } else if x.worst != y.worst {
        opt_lt(x.worst, y.worst)
    } else {
        opt_lt(x.best, y.best)
    }
}

/// The entries in ranking order, each kept as often as it occurs.
pub fn sort_scores(v: &Vec<Scored>, descending: bool) -> (r: Vec<Scored>)
    ensures
        sorted_by(r@, descending),
        r@.to_multiset() == v@.to_multiset(),
        r@.len() == v@.len(),
{
    let mut r: Vec<Scored> = Vec::new();
    let mut i: usize = 0;
    assert(v@.subrange(0, 0) =~= r@);
    while i < v.len()
        invariant
            i <= v@.len(),
            r@.len() == i,
            sorted_by(r@, descending),
            r@.to_multiset() == v@.subrange(0, i as int).to_multiset(),
        decreases v.len() - i,
    {
        let x = v[i];
        let mut p: usize = 0;
        while p < r.len() && !strictly_before(&x.score, &r[p].score, descending)
            invariant
                p <= r@.len(),
                forall|k: int| 0 <= k < p ==> ranks_before(#[trigger] r@[k], x, descending),
            decreases r.len() - p,
        {
            p += 1;
        }
        let ghost before = r@;
        r.insert(p, x);
        proof {
            to_multiset_insert(before, p as int, x);
            assert(v@.subrange(0, i + 1) =~= v@.subrange(0, i as int).push(x));
            to_multiset_build(v@.subrange(0, i as int), x);
            assert forall|a: int, b: int| 0 <= a < b < r@.len() implies ranks_before(
                #[trigger] r@[a],
                #[trigger] r@[b],
                descending,
            ) by {
                if b < p {
                    assert(r@[a] == before[a] && r@[b] == before[b]);
                } else if b == p {
                    assert(r@[a] == before[a]);
                } else if a == p {
                    assert(r@[b] == before[b - 1]);
                    if p < before.len() {
                        assert(ranks_before(before[p as int], before[b - 1], descending) || p == b - 1);
                    }
                } else if a < p {
                    assert(r@[a] == before[a] && r@[b] == before[b - 1]);
                } else {
                    assert(r@[a] == before[a - 1] && r@[b] == before[b - 1]);
                }
            }
        }
        i += 1;
    }
    assert(v@.subrange(0, v@.len() as int) =~= v@);
    r
}

/// Entries whose total differs from that of the entry kept before them: in a sorted list,
/// the first of each run of equal totals.
pub open spec fn distinct_totals(s: Seq<Scored>) -> Seq<Scored>
    decreases s.len(),
{
    if s.len() == 0 {
        seq![]
    } else {
        let p = distinct_totals(s.drop_last());
        if p.len() > 0 && p.last().score.total == s.last().score.total {
            p
        } else {
            p.push(s.last())
        }
    }
}

/// Keeps the first of each run of entries with equal totals.
pub fn dedup_totals(v: &Vec<Scored>) -> (r: Vec<Scored>)
    ensures
        r@ == distinct_totals(v@),
{
    let mut r: Vec<Scored> = Vec::new();
    let mut i: usize = 0;
    while i < v.len()
        invariant
            i <= v@.len(),
            r@ == distinct_totals(v@.subrange(0, i as int)),
        decreases v.len() - i,
    {
        assert(v@.subrange(0, i + 1).drop_last() =~= v@.subrange(0, i as int));
        let x = v[i];
        let n = r.len();
        if n > 0 && r[n - 1].score.total == x.score.total {
        } else {
            r.push(x);
        }
        i += 1;
    }
    assert(v@.subrange(0, v@.len() as int) =~= v@);
    r
}

/// The first `TOP_COUNT` entries, or all of them when there are fewer.
pub fn top_entries(v: &Vec<Scored>) -> (r: Vec<Scored>)
    ensures
        r@ == v@.take(if v@.len() < TOP_COUNT { v@.len() as int } else { TOP_COUNT as int }),
{
    let n = if v.len() < TOP_COUNT {
        v.len()
    } else {
        TOP_COUNT
    };
    let mut r: Vec<Scored> = Vec::new();
    let mut i: usize = 0;
    while i < n
        invariant
            n <= v@.len(),
            i <= n,
            r@ == v@.take(i as int),
        decreases n - i,
    {
        r.push(v[i]);
        i += 1;
        assert(r@ =~= v@.take(i as int));
    }
    r
}

/// Collapsing runs of equal totals keeps a list sorted.
pub proof fn lemma_distinct_sorted(s: Seq<Scored>)
    requires
        sorted_by(s, true),
    ensures
        sorted_by(distinct_totals(s), true),
        forall|k: int|
            0 <= k < distinct_totals(s).len() ==> exists|j: int|
                0 <= j < s.len() && s[j] == #[trigger] distinct_totals(s)[k],
    decreases s.len(),
{
    if s.len() > 0 {
        let p = s.drop_last();
        assert(sorted_by(p, true)) by {
            assert forall|i: int, j: int| 0 <= i < j < p.len() implies ranks_before(
                #[trigger] p[i],
                #[trigger] p[j],
                true,
            ) by {
                assert(p[i] == s[i] && p[j] == s[j]);
            }
        }
        lemma_distinct_sorted(p);
        let d = distinct_totals(p);
        assert forall|k: int| 0 <= k < d.len() implies ranks_before(
            #[trigger] d[k],
            s.last(),
            true,
        ) by {
            let j = choose|j: int| 0 <= j < p.len() && p[j] == #[trigger] d[k];
            assert(p[j] == s[j]);
            assert(ranks_before(s[j], s[s.len() - 1], true));
        }
        assert forall|k: int| 0 <= k < distinct_totals(s).len() implies exists|j: int|
            0 <= j < s.len() && s[j] == #[trigger] distinct_totals(s)[k] by {
            if k < d.len() {
                let j = choose|j: int| 0 <= j < p.len() && p[j] == #[trigger] d[k];
                assert(p[j] == s[j]);
                assert(distinct_totals(s)[k] == d[k]);
            } else {
                assert(distinct_totals(s)[k] == s[s.len() - 1]);
            }
        }
    }
}

} // verus!
