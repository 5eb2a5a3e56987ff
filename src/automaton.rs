use vstd::prelude::*;
use aho_corasick::AhoCorasick;
use crate::events::{MatchEvent, ends_at, precedes, strictly_ordered, is_scan_of, scan_result, lemma_scan_unique};
use crate::searcher::{searcher_builds, searcher_patterns, occurs, byte_patterns, new_searcher, overlapping_matches};

verus! {

/// Why an automaton could not be built.
#[derive(Clone, Copy, Debug, PartialEq, Eq, Structural)]
pub enum AutomatonError {
    /// The pattern list is empty, or one of its patterns is empty.
    InvalidPattern,
    /// The underlying searcher exceeded its capacity limits.
    Capacity,
}

/// The pattern list may be searched for: at least one pattern, none empty.
pub open spec fn valid_patterns(pats: Seq<Seq<u8>>) -> bool {
    &&& pats.len() > 0
    &&& forall|k: int| 0 <= k < pats.len() ==> #[trigger] pats[k].len() > 0
}

/// The raw searcher match `r` (pattern, exclusive end) is the event `m`.
spec fn reports(r: (usize, usize), m: MatchEvent) -> bool {
    r.0 == m.pattern && r.1 == m.end + 1
}

/// A matching automaton built once from an ordered list of patterns and
/// reusable for any number of scans.
pub struct Automaton {
    searcher: AhoCorasick,
    patterns: Vec<Vec<u8>>,
}

impl Automaton {
    /// The patterns, in the order given at construction.
    pub closed spec fn patterns(&self) -> Seq<Seq<u8>> {
        byte_patterns(self.patterns@)
    }

    pub closed spec fn wf(&self) -> bool {
        &&& valid_patterns(self.patterns())
        &&& searcher_patterns(self.searcher) == self.patterns()
    }

    /// Builds the automaton; fails with `InvalidPattern` exactly when the list
    /// is empty or holds an empty pattern, and otherwise succeeds exactly when
    /// the searcher's limits admit the patterns.
    pub fn build(patterns: Vec<Vec<u8>>) -> (r: Result<Automaton, AutomatonError>)
        ensures
            (r matches Err(AutomatonError::InvalidPattern)) <==> !valid_patterns(byte_patterns(patterns@)),
            r is Ok <==> valid_patterns(byte_patterns(patterns@)) && searcher_builds(byte_patterns(patterns@)),
            r matches Ok(a) ==> a.wf() && a.patterns() == byte_patterns(patterns@),
    {
        if patterns.len() == 0 {
            return Err(AutomatonError::InvalidPattern);
        }
        let mut k: usize = 0;
        while k < patterns.len()
            invariant
                k <= patterns@.len(),
                forall|j: int| 0 <= j < k ==> #[trigger] patterns@[j]@.len() > 0,
            decreases patterns@.len() - k,
        {
            if patterns[k].len() == 0 {
                assert(byte_patterns(patterns@)[k as int].len() == 0);
                return Err(AutomatonError::InvalidPattern);
            }
            k = k + 1;
        }
        assert(valid_patterns(byte_patterns(patterns@))) by {
            assert forall|j: int| 0 <= j < byte_patterns(patterns@).len() implies
                #[trigger] byte_patterns(patterns@)[j].len() > 0 by {
                assert(patterns@[j]@.len() > 0);
            }
        }
        match new_searcher(&patterns) {
            Ok(searcher) => Ok(Automaton { searcher, patterns }),
            Err(_) => Err(AutomatonError::Capacity),
        }
    }

    /// Scanning is repeatable: two scans of one text by one automaton give
    /// the same sequence of events, in the same order.
    pub proof fn lemma_scan_repeatable(&self, text: Seq<u8>, r1: Seq<MatchEvent>, r2: Seq<MatchEvent>)
        requires
            is_scan_of(r1, self.patterns(), text),
            is_scan_of(r2, self.patterns(), text),
        ensures
            r1 == r2,
    {
        lemma_scan_unique(r1, r2, self.patterns(), text);
    }

    /// Construction is deterministic: automata built from the same ordered
    /// pattern list give the same events for any text.
    pub proof fn lemma_same_patterns_same_scan(a: Automaton, b: Automaton, text: Seq<u8>, ra: Seq<MatchEvent>, rb: Seq<MatchEvent>)
        requires
            a.patterns() == b.patterns(),
            is_scan_of(ra, a.patterns(), text),
            is_scan_of(rb, b.patterns(), text),
        ensures
            ra == rb,
    {
        lemma_scan_unique(ra, rb, a.patterns(), text);
    }

    /// Number of patterns.
    pub fn pattern_count(&self) -> (r: usize)
        ensures
            r == self.patterns().len(),
    {
        self.patterns.len()
    }

    /// All match events of `text`, ordered by end offset and then by pattern
    /// index: an event (p, i) is reported iff pattern p ends at offset i.
    pub fn scan(&self, text: &[u8]) -> (r: Vec<MatchEvent>)
        requires
            self.wf(),
        ensures
            is_scan_of(r@, self.patterns(), text@),
            r@ == scan_result(self.patterns(), text@),
    {
        let text_len: usize = text.len();
        let raw = overlapping_matches(&self.searcher, text);
        let ghost pats = self.patterns();
        let mut out: Vec<MatchEvent> = Vec::new();
        let mut k: usize = 0;
        while k < raw.len()
            invariant
                pats == searcher_patterns(self.searcher),
                valid_patterns(pats),
                k <= raw@.len(),
                forall|j: int| 0 <= j < raw@.len() ==> occurs(pats, text@, raw@[j].0 as int, #[trigger] raw@[j].1 as int),
                strictly_ordered(out@),
                forall|m: MatchEvent| #[trigger] out@.contains(m) <==> exists|j: int| 0 <= j < k
                    && reports(raw@[j], m),
            decreases raw@.len() - k,
        {
            let (p, e) = raw[k];
            assert(occurs(pats, text@, p as int, e as int));
            assert(pats[p as int].len() > 0);
            let m = MatchEvent { pattern: p, end: e - 1 };
            let mut i: usize = out.len();
            while i > 0 && (m.end < out[i - 1].end || (m.end == out[i - 1].end && m.pattern < out[i - 1].pattern))
                invariant
                    i <= out@.len(),
                    forall|j: int| i <= j < out@.len() ==> precedes(m, #[trigger] out@[j]),
                decreases i,
            {
                i = i - 1;
            }
            let ghost before = out@;
            if i > 0 && out[i - 1] == m {
                assert(out@.contains(m));
            } else {
                if i > 0 {
                    assert(precedes(out@[i - 1], m));
                }
                out.insert(i, m);
                assert(strictly_ordered(out@)) by {
                    assert forall|a: int, b: int| 0 <= a < b < out@.len() implies precedes(#[trigger] out@[a], #[trigger] out@[b]) by {
                        if a < i && b > i {
                            assert(precedes(before[a], before[i - 1]) || a == i - 1);
                        } else if a < i && b == i {
                            assert(precedes(before[a], before[i - 1]) || a == i - 1);
                        }
                    }
                }
                assert forall|x: MatchEvent| #[trigger] out@.contains(x) <==> (before.contains(x) || x == m) by {
                    if out@.contains(x) {
                        let j = choose|j: int| 0 <= j < out@.len() && out@[j] == x;
                        if j < i { assert(before[j] == x); } else if j > i { assert(before[j - 1] == x); }
                    }
                    if before.contains(x) {
                        let j = choose|j: int| 0 <= j < before.len() && before[j] == x;
                        if j < i { assert(out@[j] == x); } else { assert(out@[j + 1] == x); }
                    }
                    if x == m { assert(out@[i as int] == x); }
                }
            }
            assert forall|x: MatchEvent| #[trigger] out@.contains(x) <==> exists|j: int| 0 <= j < k + 1
                && reports(raw@[j], x) by {
                if x == m {
                    assert(reports(raw@[k as int], x));
                }
                if exists|j: int| 0 <= j < k + 1 && reports(raw@[j], x) {
                    let j = choose|j: int| 0 <= j < k + 1 && reports(raw@[j], x);
                    if j == k {
                        assert(x == m);
                    }
                }
            }
            k = k + 1;
        }
        assert forall|m: MatchEvent| #[trigger] out@.contains(m) <==> ends_at(pats, text@, m.pattern as int, m.end as int) by {
            if out@.contains(m) {
                let j = choose|j: int| 0 <= j < k && reports(raw@[j], m);
                assert(occurs(pats, text@, raw@[j].0 as int, raw@[j].1 as int));
            }
            if ends_at(pats, text@, m.pattern as int, m.end as int) {
                assert(occurs(pats, text@, m.pattern as int, m.end + 1));
                let e: int = m.end + 1;
                assert(e <= text@.len() && text@.len() == text_len);
                assert(raw@.contains((m.pattern as int as usize, e as usize)));
                let j = choose|j: int| 0 <= j < raw@.len() && raw@[j] == (m.pattern as int as usize, e as usize);
                assert(raw@[j].1 == e);
                assert(reports(raw@[j], m));
            }
        }
        proof {
            lemma_scan_unique(out@, out@, pats, text@);
        }
        out
    }
}

} // verus!
