use allgrep::aggregate::{all_counted, all_patterns_present, all_present_in, count_events, match_counts};
use allgrep::automaton::{Automaton, AutomatonError};
use allgrep::events::MatchEvent;

fn pats(list: &[&str]) -> Vec<Vec<u8>> {
    list.iter().map(|p| p.as_bytes().to_vec()).collect()
}

fn build(list: &[&str]) -> Automaton {
    match Automaton::build(pats(list)) {
        Ok(a) => a,
        Err(e) => panic!("build failed: {:?}", e),
    }
}

fn ev(pattern: usize, end: usize) -> MatchEvent {
    MatchEvent { pattern, end }
}

fn brute_force(list: &[&str], text: &[u8]) -> Vec<MatchEvent> {
    let mut out = Vec::new();
    for end in 0..text.len() {
        for (p, pat) in list.iter().enumerate() {
            let b = pat.as_bytes();
            if b.len() <= end + 1 && &text[end + 1 - b.len()..=end] == b {
                out.push(ev(p, end));
            }
        }
    }
    out
}

#[test]
fn overlapping_patterns_both_reported() {
    let a = build(&["ab", "b"]);
    assert_eq!(a.scan(b"ab"), vec![ev(0, 1), ev(1, 1)]);
}

#[test]
fn self_overlapping_pattern() {
    let a = build(&["aa"]);
    assert_eq!(a.scan(b"aaa"), vec![ev(0, 1), ev(0, 2)]);
}

#[test]
fn ties_ordered_by_pattern_index() {
    let a = build(&["c", "abc", "bc"]);
    assert_eq!(a.scan(b"abc"), vec![ev(0, 2), ev(1, 2), ev(2, 2)]);
}

#[test]
fn scan_matches_brute_force() {
    let sets: [&[&str]; 5] = [
        &["a"],
        &["ab", "b", "bab"],
        &["aa", "a", "aaa"],
        &["he", "she", "his", "hers"],
        &["x", "x"],
    ];
    let texts: [&[u8]; 6] = [b"", b"a", b"abab", b"aaaa", b"ushers his", b"xaxbbx"];
    for set in sets.iter() {
        let a = build(set);
        for t in texts.iter() {
            assert_eq!(a.scan(t), brute_force(set, t), "{:?} on {:?}", set, t);
        }
    }
}

#[test]
fn count_includes_zero_patterns() {
    let a = build(&["x", "y", "z"]);
    assert_eq!(match_counts(&a, b"x..x"), vec![2, 0, 0]);
    assert!(!all_counted(&match_counts(&a, b"x..x")));
}

#[test]
fn count_all_positive() {
    let a = build(&["ab", "b"]);
    let c = match_counts(&a, b"abbab");
    assert_eq!(c, vec![2, 3]);
    assert!(all_counted(&c));
}

#[test]
fn duplicate_patterns_counted_separately() {
    let a = build(&["x", "x"]);
    assert_eq!(match_counts(&a, b"axx"), vec![2, 2]);
}

#[test]
fn presence_needs_every_pattern() {
    let a = build(&["x", "y"]);
    assert!(all_patterns_present(&a, b"yx"));
    assert!(all_patterns_present(&a, b"xy"));
    assert!(!all_patterns_present(&a, b"xx"));
    assert!(!all_patterns_present(&a, b""));
}

#[test]
fn rescan_gives_same_events() {
    let a = build(&["ab", "b", "bab"]);
    let t = b"ababab";
    assert_eq!(a.scan(t), a.scan(t));
}

#[test]
fn same_patterns_same_events() {
    let a = build(&["he", "she", "hers"]);
    let b = build(&["he", "she", "hers"]);
    let t = b"ushers and hers";
    assert_eq!(a.scan(t), b.scan(t));
}

#[test]
fn empty_pattern_rejected() {
    assert_eq!(Automaton::build(pats(&["a", ""])).err(), Some(AutomatonError::InvalidPattern));
}

#[test]
fn empty_pattern_set_rejected() {
    assert_eq!(Automaton::build(Vec::new()).err(), Some(AutomatonError::InvalidPattern));
}

#[test]
fn empty_text_yields_nothing() {
    let a = build(&["a", "bc"]);
    assert!(a.scan(b"").is_empty());
    assert_eq!(match_counts(&a, b""), vec![0, 0]);
}

#[test]
fn pattern_count_reported() {
    assert_eq!(build(&["a", "b", "a"]).pattern_count(), 3);
}

#[test]
fn count_events_by_index() {
    let events = vec![ev(1, 0), ev(0, 2), ev(1, 3), ev(5, 4)];
    assert_eq!(count_events(&events, 3), vec![1, 2, 0]);
}

#[test]
fn presence_over_events() {
    let events = vec![ev(1, 0), ev(0, 2)];
    assert!(all_present_in(&events, 2));
    assert!(!all_present_in(&events, 3));
    assert!(all_present_in(&Vec::new(), 0));
}
