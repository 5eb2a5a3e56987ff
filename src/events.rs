use vstd::prelude::*;

verus! {

/// One match event: pattern `pattern` ends at byte offset `end` (inclusive).
#[derive(Clone, Copy, Debug, PartialEq, Eq, Structural)]
pub struct MatchEvent {
    pub pattern: usize,
    pub end: usize,
}

/// Pattern `p` of `pats` is non-empty and occupies the bytes of `text` that
/// end at offset `i`, that is `text[i - len + 1 ..= i] == pats[p]`.
pub open spec fn ends_at(pats: Seq<Seq<u8>>, text: Seq<u8>, p: int, i: int) -> bool {
    &&& 0 <= p < pats.len()
    &&& 0 < pats[p].len() <= i + 1 <= text.len()
    &&& text.subrange(i + 1 - pats[p].len(), i + 1) == pats[p]
}

/// The scan order: by end offset, then by pattern index.
pub open spec fn precedes(a: MatchEvent, b: MatchEvent) -> bool {
    a.end < b.end || (a.end == b.end && a.pattern < b.pattern)
}

pub open spec fn strictly_ordered(s: Seq<MatchEvent>) -> bool {
    forall|i: int, j: int| 0 <= i < j < s.len() ==> precedes(#[trigger] s[i], #[trigger] s[j])
}

/// `s` is a scan of `text`: strictly ordered by end offset then pattern
/// index, and holding exactly the occurrences of the patterns in the text.
pub open spec fn is_scan_of(s: Seq<MatchEvent>, pats: Seq<Seq<u8>>, text: Seq<u8>) -> bool {
    &&& strictly_ordered(s)
    &&& forall|m: MatchEvent| #[trigger] s.contains(m) <==> ends_at(pats, text, m.pattern as int, m.end as int)
}

/// The scan of `text` against `pats` (unique, see `lemma_scan_unique`).
pub open spec fn scan_result(pats: Seq<Seq<u8>>, text: Seq<u8>) -> Seq<MatchEvent> {
    choose|s: Seq<MatchEvent>| is_scan_of(s, pats, text)
}

/// Two strictly ordered sequences with the same members are equal.
pub proof fn lemma_ordered_same_members(a: Seq<MatchEvent>, b: Seq<MatchEvent>)
    requires
        strictly_ordered(a),
        strictly_ordered(b),
        forall|m: MatchEvent| a.contains(m) <==> b.contains(m),
    ensures
        a == b,
    decreases a.len(),
{
    if a.len() == 0 {
        if b.len() > 0 {
            assert(b.contains(b[0]));
        }
        assert(a =~= b);
    } else {
        assert(a.contains(a[0]));
        assert(b.contains(b[0]));
        let ka = choose|k: int| 0 <= k < b.len() && b[k] == a[0];
        let kb = choose|k: int| 0 <= k < a.len() && a[k] == b[0];
        if ka > 0 {
            assert(precedes(b[0], b[ka]));
            if kb > 0 {
                assert(precedes(a[0], a[kb]));
            }
        }
        assert(a[0] == b[0]);
        let a1 = a.drop_first();
        let b1 = b.drop_first();
        assert forall|m: MatchEvent| a1.contains(m) <==> b1.contains(m) by {
            if a1.contains(m) {
                let k = choose|k: int| 0 <= k < a1.len() && a1[k] == m;
                assert(precedes(a[0], a[k + 1]));
                assert(a.contains(m));
                let j = choose|j: int| 0 <= j < b.len() && b[j] == m;
                assert(j != 0);
                assert(b1[j - 1] == m);
            }
            if b1.contains(m) {
                let k = choose|k: int| 0 <= k < b1.len() && b1[k] == m;
                assert(precedes(b[0], b[k + 1]));
                assert(b.contains(m));
                let j = choose|j: int| 0 <= j < a.len() && a[j] == m;
                assert(j != 0);
                assert(a1[j - 1] == m);
            }
        }
        lemma_ordered_same_members(a1, b1);
        assert(a =~= seq![a[0]] + a1);
        assert(b =~= seq![b[0]] + b1);
    }
}

/// A scan is determined by the patterns and the text alone: any two scans
/// of one text against one pattern list are the same sequence, and each is
/// `scan_result`.
pub proof fn lemma_scan_unique(s1: Seq<MatchEvent>, s2: Seq<MatchEvent>, pats: Seq<Seq<u8>>, text: Seq<u8>)
    requires
        is_scan_of(s1, pats, text),
        is_scan_of(s2, pats, text),
    ensures
        s1 == s2,
        s1 == scan_result(pats, text),
{
    lemma_ordered_same_members(s1, s2);
    let c = scan_result(pats, text);
    assert(is_scan_of(c, pats, text));
    lemma_ordered_same_members(s1, c);
}

} // verus!
