use vstd::prelude::*;
use crate::events::{MatchEvent, ends_at, is_scan_of, scan_result, lemma_scan_unique};
use crate::automaton::Automaton;

verus! {

/// Number of events of `s` that report pattern `p`.
pub open spec fn count_of(s: Seq<MatchEvent>, p: int) -> nat
    decreases s.len(),
{
    if s.len() == 0 {
        0
    } else {
        count_of(s.drop_last(), p) + if s.last().pattern == p { 1nat } else { 0nat }
    }
}

/// Some event of `s` reports pattern `p`.
pub open spec fn reported(s: Seq<MatchEvent>, p: int) -> bool {
    exists|k: int| 0 <= k < s.len() && s[k].pattern == p
}

/// Every pattern index below `n` is reported by some event of `s`.
pub open spec fn present_all(s: Seq<MatchEvent>, n: int) -> bool {
    forall|p: int| 0 <= p < n ==> #[trigger] reported(s, p)
}

/// Pattern `p` occurs somewhere in `text`.
pub open spec fn occurs_in(pats: Seq<Seq<u8>>, text: Seq<u8>, p: int) -> bool {
    exists|i: int| ends_at(pats, text, p, i)
}

/// Every pattern occurs somewhere in `text`.
pub open spec fn all_occur(pats: Seq<Seq<u8>>, text: Seq<u8>) -> bool {
    forall|p: int| 0 <= p < pats.len() ==> #[trigger] occurs_in(pats, text, p)
}

proof fn lemma_count_bounded(s: Seq<MatchEvent>, p: int)
    ensures
        count_of(s, p) <= s.len(),
    decreases s.len(),
{
    if s.len() > 0 {
        lemma_count_bounded(s.drop_last(), p);
    }
}

/// A pattern has a positive count exactly when some event reports it.
pub proof fn lemma_count_positive(s: Seq<MatchEvent>, p: int)
    ensures
        count_of(s, p) > 0 <==> reported(s, p),
    decreases s.len(),
{
    if s.len() > 0 {
        let t = s.drop_last();
        lemma_count_positive(t, p);
        if reported(t, p) {
            let k = choose|k: int| 0 <= k < t.len() && t[k].pattern == p;
            assert(s[k].pattern == p);
        }
        if reported(s, p) && s.last().pattern != p {
            let k = choose|k: int| 0 <= k < s.len() && s[k].pattern == p;
            assert(t[k].pattern == p);
        }
    }
}

/// Within a scan, a pattern is reported exactly when it occurs in the text.
pub proof fn lemma_reported_iff_occurs(s: Seq<MatchEvent>, pats: Seq<Seq<u8>>, text: Seq<u8>, p: int)
    requires
        is_scan_of(s, pats, text),
        pats.len() <= usize::MAX,
        text.len() <= usize::MAX,
    ensures
        reported(s, p) <==> occurs_in(pats, text, p),
{
    if reported(s, p) {
        let k = choose|k: int| 0 <= k < s.len() && s[k].pattern == p;
        assert(s.contains(s[k]));
        assert(ends_at(pats, text, p, s[k].end as int));
    }
    if occurs_in(pats, text, p) {
        let i = choose|i: int| ends_at(pats, text, p, i);
        let m = MatchEvent { pattern: p as usize, end: i as usize };
        assert(ends_at(pats, text, m.pattern as int, m.end as int));
        assert(s.contains(m));
        let k = choose|k: int| 0 <= k < s.len() && s[k] == m;
        assert(s[k].pattern == p);
    }
}

/// The presence policy over a scan is true exactly when every pattern occurs
/// at least once somewhere in the text, whatever the order or overlap of the
/// occurrences.
pub proof fn lemma_presence_iff_all_occur(s: Seq<MatchEvent>, pats: Seq<Seq<u8>>, text: Seq<u8>)
    requires
        is_scan_of(s, pats, text),
        pats.len() <= usize::MAX,
        text.len() <= usize::MAX,
    ensures
        present_all(s, pats.len() as int) <==> all_occur(pats, text),
{
    assert forall|p: int| 0 <= p < pats.len() implies
        (reported(s, p) <==> occurs_in(pats, text, p)) by {
        lemma_reported_iff_occurs(s, pats, text, p);
    }
    if present_all(s, pats.len() as int) {
        assert forall|p: int| 0 <= p < pats.len() implies #[trigger] occurs_in(pats, text, p) by {
            assert(reported(s, p));
        }
    }
    if all_occur(pats, text) {
        assert forall|p: int| 0 <= p < pats.len() implies #[trigger] reported(s, p) by {
            assert(occurs_in(pats, text, p));
        }
    }
}

/// Scanning an empty text yields no events, and every pattern's count is zero.
pub proof fn lemma_empty_text(pats: Seq<Seq<u8>>)
    ensures
        scan_result(pats, Seq::<u8>::empty()) == Seq::<MatchEvent>::empty(),
        forall|p: int| #[trigger] count_of(scan_result(pats, Seq::<u8>::empty()), p) == 0,
{
    let e = Seq::<MatchEvent>::empty();
    assert(is_scan_of(e, pats, Seq::<u8>::empty()));
    lemma_scan_unique(e, e, pats, Seq::<u8>::empty());
}

/// Count policy: one counter per pattern index below `n`, each starting at
/// zero and raised once per event that reports it.
pub fn count_events(events: &Vec<MatchEvent>, n: usize) -> (r: Vec<usize>)
    ensures
        r@.len() == n,
        forall|p: int| 0 <= p < n ==> #[trigger] r@[p] == count_of(events@, p),
{
    let mut counts: Vec<usize> = Vec::new();
    let mut i: usize = 0;
    while i < n
        invariant
            i <= n,
            counts@.len() == i,
            forall|p: int| 0 <= p < i ==> #[trigger] counts@[p] == 0,
        decreases n - i,
    {
        counts.push(0);
        i = i + 1;
    }
    let mut k: usize = 0;
    while k < events.len()
        invariant
            k <= events@.len(),
            counts@.len() == n,
            forall|p: int| 0 <= p < n ==> #[trigger] counts@[p] == count_of(events@.subrange(0, k as int), p),
        decreases events@.len() - k,
    {
        let ghost prev = events@.subrange(0, k as int);
        let ghost next = events@.subrange(0, k + 1);
        assert(next.drop_last() =~= prev);
        let p = events[k].pattern;
        if p < n {
            proof {
                lemma_count_bounded(prev, p as int);
            }
            counts.set(p, counts[p] + 1);
        }
        k = k + 1;
    }
    assert(events@.subrange(0, events@.len() as int) =~= events@);
    counts
}

/// Presence policy: true exactly when every pattern index below `n` is
/// reported by some event.
pub fn all_present_in(events: &Vec<MatchEvent>, n: usize) -> (r: bool)
    ensures
        r == present_all(events@, n as int),
{
    let mut seen: Vec<bool> = Vec::new();
    let mut i: usize = 0;
    while i < n
        invariant
            i <= n,
            seen@.len() == i,
            forall|p: int| 0 <= p < i ==> !#[trigger] seen@[p],
        decreases n - i,
    {
        seen.push(false);
        i = i + 1;
    }
    let mut k: usize = 0;
    while k < events.len()
        invariant
            k <= events@.len(),
            seen@.len() == n,
            forall|p: int| 0 <= p < n ==> (#[trigger] seen@[p] <==> reported(events@.subrange(0, k as int), p)),
        decreases events@.len() - k,
    {
        let p = events[k].pattern;
        if p < n {
            seen.set(p, true);
        }
        proof {
            let prev = events@.subrange(0, k as int);
            let next = events@.subrange(0, k + 1);
            assert forall|q: int| 0 <= q < n implies (#[trigger] seen@[q] <==> reported(next, q)) by {
                if reported(prev, q) {
                    let j = choose|j: int| 0 <= j < prev.len() && prev[j].pattern == q;
                    assert(next[j].pattern == q);
                }
                if reported(next, q) && q != p {
                    let j = choose|j: int| 0 <= j < next.len() && next[j].pattern == q;
                    assert(prev[j].pattern == q);
                }
                if q == p {
                    assert(next[k as int].pattern == q);
                }
            }
        }
        k = k + 1;
    }
    assert(events@.subrange(0, events@.len() as int) =~= events@);
    let mut j: usize = 0;
    while j < n
        invariant
            j <= n,
            seen@.len() == n,
            forall|p: int| 0 <= p < n ==> (#[trigger] seen@[p] <==> reported(events@, p)),
            forall|p: int| 0 <= p < j ==> #[trigger] reported(events@, p),
        decreases n - j,
    {
        if !seen[j] {
            return false;
        }
        j = j + 1;
    }
    true
}

/// True exactly when every count is positive.
pub fn all_counted(counts: &Vec<usize>) -> (r: bool)
    ensures
        r == forall|p: int| 0 <= p < counts@.len() ==> #[trigger] counts@[p] > 0,
{
    let mut j: usize = 0;
    while j < counts.len()
        invariant
            j <= counts@.len(),
            forall|p: int| 0 <= p < j ==> #[trigger] counts@[p] > 0,
        decreases counts@.len() - j,
    {
        if counts[j] == 0 {
            return false;
        }
        j = j + 1;
    }
    true
}

/// Occurrence count of each pattern in `contents`, in pattern order, every
/// pattern present with zero when it does not occur.
pub fn match_counts(ac: &Automaton, contents: &[u8]) -> (r: Vec<usize>)
    requires
        ac.wf(),
    ensures
        r@.len() == ac.patterns().len(),
        forall|p: int| 0 <= p < r@.len() ==> #[trigger] r@[p] == count_of(scan_result(ac.patterns(), contents@), p),
        forall|p: int| 0 <= p < r@.len() ==> (#[trigger] r@[p] > 0 <==> occurs_in(ac.patterns(), contents@, p)),
{
    let events = ac.scan(contents);
    let n = ac.pattern_count();
    let text_len: usize = contents.len();
    let r = count_events(&events, n);
    assert forall|p: int| 0 <= p < r@.len() implies (#[trigger] r@[p] > 0 <==> occurs_in(ac.patterns(), contents@, p)) by {
        lemma_count_positive(events@, p);
        lemma_reported_iff_occurs(events@, ac.patterns(), contents@, p);
    }
    r
}

/// Presence policy over `contents`: true exactly when every pattern occurs.
pub fn all_patterns_present(ac: &Automaton, contents: &[u8]) -> (r: bool)
    requires
        ac.wf(),
    ensures
        r == all_occur(ac.patterns(), contents@),
{
    let events = ac.scan(contents);
    let n = ac.pattern_count();
    let text_len: usize = contents.len();
    let r = all_present_in(&events, n);
    proof {
        lemma_presence_iff_all_occur(events@, ac.patterns(), contents@);
    }
    r
}

} // verus!
