//! End-to-end scenarios: whole corpora through the prepared pipeline and
//! the search, and the agreement between the pruned and the reference
//! enumerations and between single-run and partitioned runs.

use fivewords::engine::{prepare, solve, solve_stride};
use fivewords::search::{brute_force_candidates, search_candidates, Solution};
use fivewords::partition::make_range;
use fivewords::masks::popcount;
use fivewords::decode::decode_words;

fn corpus(words: &[&str]) -> Vec<String> {
    words.iter().map(|w| w.to_string()).collect()
}

#[test]
fn five_disjoint_words_give_one_solution() {
    let c = corpus(&["abcde", "fghij", "klmno", "pqrst", "uvwxy"]);
    let pr = prepare(&c);
    let sols = solve(&pr);
    assert_eq!(sols.len(), 1);
    let s = sols[0];
    assert_eq!((s.i, s.j, s.k, s.l, s.m), (0, 1, 2, 3, 4));
    let indices = vec![
        pr.indices[s.i],
        pr.indices[s.j],
        pr.indices[s.k],
        pr.indices[s.l],
        pr.indices[s.m],
    ];
    let text = decode_words(indices, &pr.words, &pr.weights);
    for w in ["abcde", "fghij", "klmno", "pqrst", "uvwxy"] {
        assert!(text.contains(w), "missing {} in {}", w, text);
    }
    // The letter z is the one letter left uncovered.
    let union = pr.cooked[s.i] | pr.cooked[s.j] | pr.cooked[s.k] | pr.cooked[s.l]
        | pr.cooked[s.m];
    assert_eq!(popcount(union), 25);
    assert_eq!(union & pr.weights[25], 0);
}

#[test]
fn solution_masks_are_pairwise_disjoint() {
    let c = corpus(&["abcde", "fghij", "klmno", "pqrst", "uvwxy"]);
    let pr = prepare(&c);
    let sols = solve(&pr);
    for s in &sols {
        let masks = [
            pr.cooked[s.i],
            pr.cooked[s.j],
            pr.cooked[s.k],
            pr.cooked[s.l],
            pr.cooked[s.m],
        ];
        for a in 0..5 {
            for b in 0..5 {
                if a != b {
                    assert_eq!(masks[a] & masks[b], 0);
                }
            }
            assert_eq!(popcount(masks[a]), 5);
        }
        let union = masks.iter().fold(0u32, |acc, m| acc | m);
        assert_eq!(popcount(union), 25);
    }
}

#[test]
fn no_cover_reports_zero() {
    let c = corpus(&["abcde", "abcdf", "bcdef", "cdefg"]);
    let pr = prepare(&c);
    let sols = solve(&pr);
    assert_eq!(sols.len(), 0);
}

#[test]
fn tiny_candidate_sets_give_zero() {
    for words in [
        &[][..],
        &["abcde"][..],
        &["abcde", "fghij"][..],
    ] {
        let c = corpus(words);
        let pr = prepare(&c);
        let sols = solve(&pr);
        assert_eq!(sols.len(), 0);
    }
}

#[test]
fn anagrams_collapse_to_one_candidate() {
    let c = corpus(&["abcde", "edcba", "fghij", "klmno", "pqrst", "uvwxy"]);
    let pr = prepare(&c);
    assert_eq!(pr.words.len(), 6);
    assert_eq!(pr.cooked.len(), 5);
    let sols = solve(&pr);
    assert_eq!(sols.len(), 1);
    let s = sols[0];
    let indices = vec![
        pr.indices[s.i],
        pr.indices[s.j],
        pr.indices[s.k],
        pr.indices[s.l],
        pr.indices[s.m],
    ];
    let text = decode_words(indices, &pr.words, &pr.weights);
    assert!(text.contains("abcde/edcba"), "no grouped anagram line in {}", text);
    // The group appears on one line, counted once, not twice.
    assert_eq!(text.matches("abcde").count(), 1);
    assert_eq!(text.matches("edcba").count(), 1);
    assert_eq!(text.lines().count(), 5);
}

#[test]
fn pruned_engine_matches_brute_force() {
    // Several corpora, including ones with several solutions and anagrams.
    let corpora: Vec<Vec<String>> = vec![
        corpus(&["abcde", "fghij", "klmno", "pqrst", "uvwxy"]),
        corpus(&["abcde", "fghij", "klmno", "pqrst", "uvwxy", "uvwxz", "vwxyz", "edcba"]),
        corpus(&["abcde", "abcdf", "bcdef"]),
        corpus(&[]),
    ];
    for c in corpora {
        let pr = prepare(&c);
        let outer = make_range(pr.split);
        let pruned = search_candidates(&pr.cooked, &pr.skip, &pr.first, &outer);
        let brute = brute_force_candidates(&pr.cooked, &outer);
        assert_eq!(pruned.len(), brute.len());
        for s in &pruned {
            assert!(brute.contains(s));
        }
        for s in &brute {
            assert!(pruned.contains(s));
        }
        // Both traverse in increasing-index lexicographic order, so the
        // whole lists agree, not only the sets.
        assert_eq!(pruned, brute);
    }
}

fn lex_before(a: &Solution, b: &Solution) -> bool {
    (a.i, a.j, a.k, a.l, a.m) < (b.i, b.j, b.k, b.l, b.m)
}

#[test]
fn solutions_come_in_lexicographic_order() {
    let c = corpus(&["abcde", "fghij", "klmno", "pqrst", "uvwxy", "uvwxz", "vwxyz", "edcba"]);
    let pr = prepare(&c);
    let sols = solve(&pr);
    for pair in sols.windows(2) {
        assert!(lex_before(&pair[0], &pair[1]));
    }
    for t in 0..3 {
        let part = solve_stride(&pr, t, 3);
        for pair in part.windows(2) {
            assert!(lex_before(&pair[0], &pair[1]));
        }
    }
}

#[test]
fn partitioned_run_matches_single_run() {
    let c = corpus(&["abcde", "fghij", "klmno", "pqrst", "uvwxy", "uvwxz", "vwxyz"]);
    let pr = prepare(&c);
    let full = solve(&pr);
    for count in [1usize, 2, 3, 8] {
        let mut total = 0usize;
        let mut gathered: Vec<Solution> = Vec::new();
        for t in 0..count {
            let part = solve_stride(&pr, t, count);
            total += part.len();
            gathered.extend(part);
        }
        assert_eq!(total, full.len());
        for s in &full {
            assert!(gathered.contains(s));
        }
    }
}
