use vstd::prelude::*;
use crate::feedback::{Event, Mark, Tally, apply_events, fixed_tally, positions_in_range, tally_bounded};
use crate::model::{ConstraintModel, ModelView};

verus! {

/// Why a feedback text was refused.
#[derive(PartialEq, Eq, Structural, Clone, Copy, Debug)]
pub enum FeedbackError {
    /// The text holds more than three comma-separated fields.
    TooManyFields,
    /// A placement field reaches past the last position of the word.
    PositionOutOfRange { field: usize, index: usize },
}

/// The placeholder for "no information at this position".
pub const PLACEHOLDER: char = '?';

/// The field separator.
pub const SEPARATOR: char = ',';

/// Progress of a left-to-right reading of feedback text.
pub struct Scan {
    pub events: Seq<Event>,
    pub field: nat,
    pub index: nat,
    pub error: Option<FeedbackError>,
}

pub open spec fn field_mark(field: nat) -> Mark {
    if field == 0 {
        Mark::Correct
    } else if field == 1 {
        Mark::Present
    } else {
        Mark::Absent
    }
}

/// Reads one more character `c` of feedback text for words of `n` symbols. The first error
/// ends the reading.
pub open spec fn scan_step(s: Scan, c: char, n: nat) -> Scan {
    if s.error is Some {
        s
    } else if c == SEPARATOR {
        if s.field >= 2 {
            Scan { error: Some(FeedbackError::TooManyFields), ..s }
        } else {
            Scan { field: s.field + 1, index: 0, ..s }
        }
    } else if s.field < 2 && s.index >= n {
        Scan {
            error: Some(
                FeedbackError::PositionOutOfRange { field: s.field as usize, index: s.index as usize },
            ),
            ..s
        }
    } else if c == PLACEHOLDER {
        Scan { index: s.index + 1, ..s }
    } else {
        Scan {
            events: s.events.push(Event { mark: field_mark(s.field), pos: s.index as usize, symbol: c }),
            index: s.index + 1,
            ..s
        }
    }
}

/// Reads `t` as `place,needed,avoid` for words of `n` symbols: the first field gives
/// symbols known at their position, the second symbols present but not at their position,
/// the third symbols that occur no more often than confirmed.
pub open spec fn scan(t: Seq<char>, n: nat) -> Scan
    decreases t.len(),
{
    if t.len() == 0 {
        Scan { events: seq![], field: 0, index: 0, error: None }
    } else {
        scan_step(scan(t.drop_last(), n), t.last(), n)
    }
}

/// The model after reading feedback text `t` into `m`; the tally of confirmed occurrences
/// starts from the fixed positions, and a correct symbol counts only at a position not fixed before.
pub open spec fn after_feedback(m: ModelView, t: Seq<char>) -> ModelView {
    apply_events((m, fixed_tally(m.fixed)), scan(t, m.fixed.len()).events, false).0
}

/// The characters of `s`, in order.
pub fn chars_of(s: &str) -> (r: Vec<char>)
    ensures
        r@ == s@,
{
    let n = s.unicode_len();
    let mut r: Vec<char> = Vec::new();
    let mut i: usize = 0;
    while i < n
        invariant
            n == s@.len(),
            i <= n,
            r@ == s@.subrange(0, i as int),
        decreases n - i,
    {
        r.push(s.get_char(i));
        i += 1;
        assert(r@ =~= s@.subrange(0, i as int));
    }
    assert(s@.subrange(0, n as int) =~= s@);
    r
}

/// The classified symbols of feedback text for words of `word_len` symbols, or its first error.
pub fn feedback_events(text: &[char], word_len: usize) -> (r: Result<Vec<Event>, FeedbackError>)
    ensures
        match scan(text@, word_len as nat).error {
            Some(e) => r == Err::<Vec<Event>, FeedbackError>(e),
            None => r is Ok && r->Ok_0@ == scan(text@, word_len as nat).events,
        },
        positions_in_range(scan(text@, word_len as nat).events, word_len as nat),
{
    let ghost n = word_len as nat;
    let mut events: Vec<Event> = Vec::new();
    let mut field: usize = 0;
    let mut index: usize = 0;
    let mut error: Option<FeedbackError> = None;
    let mut i: usize = 0;
    while i < text.len()
        invariant
            i <= text@.len(),
            n == word_len as nat,
            index <= i,
            field <= 2,
            ({
                let s = scan(text@.subrange(0, i as int), n);
                s.events == events@ && s.field == field as nat && s.index == index as nat
                    && s.error == error
            }),
        decreases text.len() - i,
    {
        let c = text[i];
        assert(text@.subrange(0, i + 1).drop_last() =~= text@.subrange(0, i as int));
        assert(scan(text@.subrange(0, i + 1), n) == scan_step(
            scan(text@.subrange(0, i as int), n),
            c,
            n,
        ));
        if error.is_some() {
        } else if c == SEPARATOR {
            if field >= 2 {
                error = Some(FeedbackError::TooManyFields);
            } else {
                field += 1;
                index = 0;
            }
        } else if field < 2 && index >= word_len {
            error = Some(FeedbackError::PositionOutOfRange { field, index });
        } else if c == PLACEHOLDER {
            index += 1;
        } else {
            let mark = if field == 0 {
                Mark::Correct
            } else if field == 1 {
                Mark::Present
            } else {
                Mark::Absent
            };
            events.push(Event { mark, pos: index, symbol: c });
            index += 1;
        }
        i += 1;
    }
    assert(text@.subrange(0, text@.len() as int) =~= text@);
    proof {
        lemma_scan_len(text@, n);
    }
    match error {
        Some(e) => Err(e),
        None => Ok(events),
    }
}

impl ConstraintModel {
    /// Reads feedback text in the form `place,needed,avoid` (for example `a??b?,?c???,d`)
    /// into the model. On an error the model is left as it was.
    pub fn parse_input(&mut self, text: &str) -> (r: Result<(), FeedbackError>)
        requires
            old(self).wf(),
            old(self).fixed_at@.len() + text@.len() <= usize::MAX,
        ensures
            final(self).wf(),
            match scan(text@, old(self).fixed_at@.len() as nat).error {
                Some(e) => r == Err::<(), FeedbackError>(e) && *final(self) == *old(self),
                None => r is Ok && final(self).spec_view() == after_feedback(
                    old(self).spec_view(),
                    text@,
                ),
            },
    {
        let chars = chars_of(text);
        let evs = feedback_events(&chars, self.fixed_at.len());
        match evs {
            Err(e) => Err(e),
            Ok(evs) => {
                proof {
                    lemma_scan_len(text@, self.fixed_at@.len() as nat);
                }
                let mut tally = Tally::of_fixed(&self.fixed_at);
                self.apply_events(&mut tally, &evs, false);
                Ok(())
            },
        }
    }
}

proof fn lemma_scan_step(s: Scan, c: char, n: nat)
    requires
        positions_in_range(s.events, n),
        s.field <= 2,
    ensures
        scan_step(s, c, n).events.len() <= s.events.len() + 1,
        positions_in_range(scan_step(s, c, n).events, n),
        scan_step(s, c, n).field <= 2,
{
    let r = scan_step(s, c, n);
    if s.error is None && c != SEPARATOR && !(s.field < 2 && s.index >= n) && c != PLACEHOLDER {
        let e = Event { mark: field_mark(s.field), pos: s.index as usize, symbol: c };
        assert(r.events == s.events.push(e));
        assert forall|k: int| 0 <= k < r.events.len() && (#[trigger] r.events[k]).mark != Mark::Absent implies r.events[k].pos < n by {
            if k < s.events.len() {
                assert(r.events[k] == s.events[k]);
            } else {
                assert(r.events[k] == e);
            }
        }
    } else {
        assert(r.events == s.events);
    }
}

pub proof fn lemma_scan_len(t: Seq<char>, n: nat)
    ensures
        scan(t, n).events.len() <= t.len(),
        positions_in_range(scan(t, n).events, n),
        scan(t, n).field <= 2,
    decreases t.len(),
{
    if t.len() > 0 {
        lemma_scan_len(t.drop_last(), n);
        lemma_scan_step(scan(t.drop_last(), n), t.last(), n);
    }
}

} // verus!
