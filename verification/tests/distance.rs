use edit_distance::can_hold_frontier;
use edit_distance::edit_distance;
use edit_distance::edit_distance_bounded;

fn chars(s: &str) -> Vec<char> {
    s.chars().collect()
}

/// The full table of the textbook recurrence, as a value to compare with.
fn table_distance<T: PartialEq>(s: &[T], t: &[T]) -> usize {
    let mut row: Vec<usize> = (0..=t.len()).collect();
    for i in 1..=s.len() {
        let mut diagonal = row[0];
        row[0] = i;
        for j in 1..=t.len() {
            let above = row[j];
            let cost = if s[i - 1] == t[j - 1] { 0 } else { 1 };
            row[j] = (above + 1).min(row[j - 1] + 1).min(diagonal + cost);
            diagonal = above;
        }
    }
    row[t.len()]
}

#[test]
fn kitten_sitting() {
    assert_eq!(edit_distance(b"kitten", b"sitting"), 3);
    assert_eq!(edit_distance(&chars("kitten"), &chars("sitting")), 3);
}

#[test]
fn empty_against_abc() {
    assert_eq!(edit_distance(b"", b"abc"), 3);
    assert_eq!(edit_distance(b"abc", b""), 3);
    assert_eq!(edit_distance::<u8>(&[], &[]), 0);
}

#[test]
fn bounded_one_substitution() {
    assert_eq!(edit_distance_bounded(b"abc", b"abd", 1), Some(1));
}

#[test]
fn bounded_gives_up_beyond_bound() {
    assert_eq!(edit_distance_bounded(b"abc", b"xyz", 2), None);
    assert_eq!(edit_distance_bounded(b"abc", b"xyz", 3), Some(3));
}

#[test]
fn bounded_zero_is_equality() {
    assert_eq!(edit_distance_bounded(b"abc", b"abc", 0), Some(0));
    assert_eq!(edit_distance_bounded(b"abc", b"abd", 0), None);
    assert_eq!(edit_distance_bounded(b"abc", b"ab", 0), None);
}

#[test]
fn bounded_empty_shorter_sequence() {
    assert_eq!(edit_distance_bounded(b"", b"abcd", 4), Some(4));
    assert_eq!(edit_distance_bounded(b"", b"abcd", 3), None);
    assert_eq!(edit_distance_bounded(b"abcd", b"", 7), Some(4));
}

#[test]
fn bounded_length_difference_fails_fast() {
    assert_eq!(edit_distance_bounded(b"a", b"abcdefgh", 6), None);
    assert_eq!(edit_distance_bounded(b"a", b"abcdefgh", 7), Some(7));
}

#[test]
fn signed_bytes_and_chars() {
    let s: [i8; 5] = [-1, 2, -3, 4, 5];
    let t: [i8; 4] = [-1, -3, 4, 6];
    assert_eq!(edit_distance(&s, &t), 2);
    assert_eq!(edit_distance(&chars("größe"), &chars("grosse")), 3);
}

#[test]
fn symmetric_on_samples() {
    let words: [&[u8]; 5] = [b"", b"a", b"flaw", b"lawn", b"intention"];
    for s in words {
        for t in words {
            assert_eq!(edit_distance(s, t), edit_distance(t, s));
        }
    }
}

#[test]
fn identity_on_samples() {
    let words: [&[u8]; 4] = [b"", b"a", b"abcabc", b"the quick brown fox jumps over the lazy dog"];
    for s in words {
        assert_eq!(edit_distance(s, s), 0);
    }
}

#[test]
fn upper_bound_on_samples() {
    let words: [&[u8]; 5] = [b"", b"abc", b"xyzw", b"execution", b"intention"];
    for s in words {
        for t in words {
            assert!(edit_distance(s, t) <= s.len().max(t.len()));
        }
    }
    assert_eq!(edit_distance(b"abc", b"xyzw"), 4);
}

#[test]
fn triangle_on_samples() {
    let words: [&[u8]; 5] = [b"", b"sunday", b"saturday", b"sun", b"satyr"];
    for s in words {
        for t in words {
            for u in words {
                assert!(edit_distance(s, u) <= edit_distance(s, t) + edit_distance(t, u));
            }
        }
    }
    assert_eq!(edit_distance(b"sunday", b"saturday"), 3);
}

#[test]
fn bound_consistency_on_samples() {
    let words: [&[u8]; 6] = [b"", b"a", b"ab", b"execution", b"intention", b"elephant"];
    for s in words {
        for t in words {
            let d = edit_distance(s, t);
            for k in 0..12 {
                let expected = if d <= k { Some(d) } else { None };
                assert_eq!(edit_distance_bounded(s, t, k), expected);
            }
        }
    }
    assert_eq!(edit_distance(b"execution", b"intention"), 5);
}

/// Every pair of sequences over three letters up to length five, under every
/// bound up to seven, against the full table.
#[test]
fn agrees_with_full_table_on_small_inputs() {
    let mut all: Vec<Vec<u8>> = vec![vec![]];
    let mut start = 0;
    for _ in 0..5 {
        let end = all.len();
        for i in start..end {
            for letter in 0..3u8 {
                let mut next = all[i].clone();
                next.push(letter);
                all.push(next);
            }
        }
        start = end;
    }
    assert_eq!(all.len(), 364);
    for s in &all {
        for t in &all {
            let d = table_distance(s, t);
            assert_eq!(edit_distance(s, t), d);
            for k in 0..8 {
                let expected = if d <= k { Some(d) } else { None };
                assert_eq!(edit_distance_bounded(s, t, k), expected);
            }
        }
    }
}

#[test]
fn long_common_runs() {
    let mut s: Vec<u8> = Vec::new();
    let mut t: Vec<u8> = Vec::new();
    for i in 0..300u32 {
        s.push((i % 7) as u8);
        t.push((i % 7) as u8);
    }
    t[100] = 9;
    t.insert(200, 9);
    s.remove(250);
    assert_eq!(edit_distance(&s, &t), 3);
    assert_eq!(edit_distance_bounded(&s, &t, 2), None);
    assert_eq!(edit_distance_bounded(&s, &t, 3), Some(3));
    assert_eq!(edit_distance_bounded(&s, &t, 1000), Some(3));
}

#[test]
fn frontier_room() {
    assert!(can_hold_frontier(0, 0, 0));
    assert!(can_hold_frontier(6, 7, 7));
    let most = isize::MAX as usize;
    assert!(can_hold_frontier(10, 3, most - 3));
    assert!(!can_hold_frontier(10, 3, most - 2));
    assert!(can_hold_frontier(0, 0, most - 1));
    assert!(!can_hold_frontier(0, 0, most));
    assert!(!can_hold_frontier(3, 3, (usize::MAX - 3) / 2 + 1));
    assert!(!can_hold_frontier(3, 3, usize::MAX));
    assert!(can_hold_frontier(usize::MAX, 0, 5));
    assert!(!can_hold_frontier(usize::MAX, isize::MAX as usize, 1));
    assert!(can_hold_frontier(usize::MAX, isize::MAX as usize, 0));
}
