use meilidb::health::Health;
use meilidb::siphash::hash;
use meilidb::tokenizer::{tokenize, StopWords};
use meilidb::levenshtein::{distance, max_typos};
use meilidb::text::{read_i64, render_decimal};

fn chars(s: &str) -> Vec<char> {
    s.chars().collect()
}

#[test]
fn health_starts_healthy_and_can_be_set() {
    let mut health = Health::new();
    assert!(health.get());
    health.set(false);
    assert!(!health.get());
    health.set(true);
    assert!(health.get());
}

#[test]
fn siphash_known_values() {
    assert_eq!(hash(b""), 0xd1fba762150c532c);
    assert_eq!(hash(b"1"), 0xa0bead804318e255);
    assert_eq!(hash(b"2"), 0x1422c248be2a924d);
    assert_eq!(hash(b"hello"), 0xe2e77b41cb4e1f9e);
    assert_eq!(hash(b"01234567"), 0xda3dcedf84ea6cc6);
    assert_eq!(hash(b"0123456789abcdef"), 0x1d42b30f7e060c24);
    assert_eq!(hash(b"The quick brown fox"), 0x975e410714568333);
}

#[test]
fn tokenizer_skips_stop_words_without_counting_them() {
    let mut stop_words = StopWords::new();
    stop_words.insert("the");
    let tokens = tokenize("The quick brown fox", &stop_words);
    assert_eq!(tokens.len(), 3);
    assert_eq!(tokens[0].word, chars("quick"));
    assert_eq!(tokens[0].word_index, 0);
    assert_eq!(tokens[0].char_index, 4);
    assert_eq!(tokens[0].char_length, 5);
    assert_eq!(tokens[2].word, chars("fox"));
    assert_eq!(tokens[2].word_index, 2);
    assert_eq!(tokens[2].char_index, 16);
}

#[test]
fn edit_distance_counts_scalars() {
    assert_eq!(distance(&chars("cafe"), &chars("café")), 1);
    assert_eq!(distance(&chars("kitten"), &chars("sitting")), 3);
    assert_eq!(distance(&chars(""), &chars("abc")), 3);
    assert_eq!(max_typos(&chars("abc")), 0);
    assert_eq!(max_typos(&chars("cafe")), 1);
    assert_eq!(max_typos(&chars("abcdefgh")), 1);
    assert_eq!(max_typos(&chars("abcdefghi")), 2);
}

#[test]
fn decimal_round_trip() {
    assert_eq!(render_decimal(0), chars("0"));
    assert_eq!(render_decimal(-42), chars("-42"));
    assert_eq!(render_decimal(i64::MIN), chars("-9223372036854775808"));
    assert_eq!(read_i64("-9223372036854775808"), Some(i64::MIN));
    assert_eq!(read_i64("9223372036854775807"), Some(i64::MAX));
    assert_eq!(read_i64("9223372036854775808"), None);
    assert_eq!(read_i64("+17"), Some(17));
    assert_eq!(read_i64("1.5"), None);
    assert_eq!(read_i64(""), None);
    assert_eq!(read_i64("-"), None);
}
