//! Rendering: the 26-character mask visualization, the decoded word lines
//! with slash-separated anagram groups, and the elapsed-time formatting.

use fivewords::decode::{decode_index, decode_words, visualize_word};
use fivewords::timer::{format_duration, Timer};
use fivewords::words::Word;

fn unit_weights() -> Vec<u32> {
    (0..26).map(|k| 1u32 << k).collect()
}

fn word(name: &str, bitset: u32) -> Word {
    Word { name: name.to_string(), bitset }
}

#[test]
fn visualize_marks_present_letters() {
    let weights = unit_weights();
    assert_eq!(visualize_word(0b1, &weights), "A-------------------------");
    assert_eq!(
        visualize_word(0b11111, &weights),
        "ABCDE---------------------"
    );
    assert_eq!(visualize_word(0, &weights), "--------------------------");
    assert_eq!(
        visualize_word(1 << 25, &weights),
        "-------------------------Z"
    );
}

#[test]
fn decode_index_lists_anagram_group() {
    let weights = unit_weights();
    let words = vec![word("cab", 0b111), word("bca", 0b111), word("a", 0b1)];
    let line = decode_index(0, &words, &weights);
    assert_eq!(line, "ABC----------------------- cab/bca");
    let single = decode_index(2, &words, &weights);
    assert_eq!(single, "A------------------------- a");
}

#[test]
fn decode_words_joins_lines() {
    let weights = unit_weights();
    let words = vec![word("cab", 0b111), word("bca", 0b111), word("a", 0b1)];
    let text = decode_words(vec![0, 2], &words, &weights);
    assert_eq!(
        text,
        "ABC----------------------- cab/bca\nA------------------------- a"
    );
    assert_eq!(decode_words(vec![], &words, &weights), "");
}

#[test]
fn format_duration_pads_fields() {
    assert_eq!(format_duration(0), "00:00:00.000");
    assert_eq!(format_duration(3_723_004), "01:02:03.004");
    assert_eq!(format_duration(59_999), "00:00:59.999");
    assert_eq!(format_duration(360_000_000), "100:00:00.000");
    assert_eq!(format_duration(7_200_000 + 61_001), "02:01:01.001");
}

#[test]
fn timer_reports_fresh_elapsed_time() {
    let timer = Timer::new();
    let stamp = timer.elapsed_time();
    assert!(stamp.starts_with("00:00:0"), "unexpected stamp {}", stamp);
    assert_eq!(stamp.len(), 12);
}
