use fuzler::bag::contains_space;
use fuzler::bag::token_jaccard_multiset;
use fuzler::blend::blend_token_char;
use fuzler::blend::blend_token_char_raw;
use fuzler::chars::char_similarity;
use fuzler::ratio::blend;
use fuzler::ratio::ratio_score;
use fuzler::ratio::round_hundredths;
use fuzler::ratio::Ratio;
use fuzler::ratio::SCALE;
use fuzler::text::Prepared;

fn pair(r: Ratio) -> (u32, u32) {
    (r.num, r.den)
}

fn token_pair(a: &[u8], b: &[u8]) -> Option<(u32, u32)> {
    token_jaccard_multiset(a, b).map(pair)
}

/// The edit distance by the full table, for the tests to compare with.
fn table_distance(a: &[u8], b: &[u8]) -> u32 {
    let mut row: Vec<u32> = (0..=b.len() as u32).collect();
    for i in 1..=a.len() {
        let mut next = vec![i as u32; b.len() + 1];
        for j in 1..=b.len() {
            let change = row[j - 1] + if a[i - 1] == b[j - 1] { 0 } else { 1 };
            next[j] = change.min(row[j] + 1).min(next[j - 1] + 1);
        }
        row = next;
    }
    row[b.len()]
}

#[test]
fn char_metric_of_two_empty_texts_is_one() {
    assert_eq!(pair(char_similarity(b"", b"")), (1, 1));
}

#[test]
fn char_metric_of_one_empty_text_is_zero() {
    assert_eq!(pair(char_similarity(b"", b"abc")), (0, 1));
    assert_eq!(pair(char_similarity(b"abc", b"")), (0, 1));
    assert_eq!(pair(char_similarity(b"", b"a")), (0, 1));
}

#[test]
fn char_metric_counts_differing_positions() {
    assert_eq!(pair(char_similarity(b"cat", b"bat")), (2, 3));
    assert_eq!(pair(char_similarity(b"abc", b"xyz")), (0, 3));
    assert_eq!(pair(char_similarity(b"abc", b"abc")), (3, 3));
    assert_eq!(pair(char_similarity(b"abcdefgh", b"abcdefgX")), (7, 8));
}

#[test]
fn char_metric_leaves_out_the_longer_tail() {
    // Lengths 3 and 5: the first 3 bytes are compared, the rest is left out.
    assert_eq!(pair(char_similarity(b"abc", b"abcde")), (3, 3));
    assert_eq!(pair(char_similarity(b"abcde", b"abc")), (3, 3));
    assert_eq!(pair(char_similarity(b"abc", b"xbcde")), (2, 3));
    assert_eq!(pair(char_similarity(b"a", b"bcd")), (0, 1));
}

#[test]
fn char_metric_uses_edit_distance_beyond_the_window() {
    // Lengths 3 and 6: one more than the window.
    assert_eq!(pair(char_similarity(b"abc", b"abcdef")), (3, 6));
    assert_eq!(pair(char_similarity(b"abcdef", b"abc")), (3, 6));
    assert_eq!(pair(char_similarity(b"kitten", b"sitting123")), (4, 10));
    assert_eq!(pair(char_similarity(b"new york city", b"new york")), (8, 13));
    assert_eq!(pair(char_similarity(b"a", b"bcde")), (0, 4));
}

#[test]
fn char_metric_agrees_with_the_table_on_long_texts() {
    let mut a = Vec::new();
    let mut b = Vec::new();
    let mut x: u32 = 12345;
    for i in 0..700u32 {
        x = x.wrapping_mul(1103515245).wrapping_add(12345);
        a.push(b'a' + ((x >> 16) % 4) as u8);
        if i % 7 != 0 {
            x = x.wrapping_mul(1103515245).wrapping_add(12345);
            b.push(b'a' + ((x >> 16) % 4) as u8);
        }
    }
    for (la, lb) in [(10, 40), (64, 61), (65, 80), (100, 300), (300, 100), (700, 600), (255, 258), (3, 200)] {
        let sa = &a[..la];
        let sb = &b[..lb];
        let long = la.max(lb) as u32;
        let d = table_distance(sa, sb);
        assert_eq!(pair(char_similarity(sa, sb)), (long - d, long), "lengths {} and {}", la, lb);
    }
}

#[test]
fn char_metric_does_not_depend_on_the_order() {
    let texts: [&[u8]; 6] = [b"", b"a", b"abc", b"abcdef", b"kitten sitting", b"xyz"];
    for a in texts {
        for b in texts {
            assert_eq!(pair(char_similarity(a, b)), pair(char_similarity(b, a)));
        }
    }
}

#[test]
fn plain_space_is_found() {
    assert!(contains_space(b"a b"));
    assert!(contains_space(b" "));
    assert!(contains_space(b"a\t b"));
    assert!(!contains_space(b""));
    assert!(!contains_space(b"ab"));
    assert!(!contains_space(b"a\tb"));
    assert!(!contains_space("a\u{a0}b".as_bytes()));
}

#[test]
fn token_metric_does_not_apply_to_two_single_tokens() {
    assert_eq!(token_pair(b"cat", b"bat"), None);
    assert_eq!(token_pair(b"", b""), None);
    assert_eq!(token_pair(b"cat", b""), None);
    assert_eq!(token_pair("caf\u{e9}".as_bytes(), b"cafe"), None);
}

#[test]
fn token_metric_does_not_apply_for_other_white_space_at_the_edge() {
    assert_eq!(token_pair(b"cat\n", b"bat"), None);
    assert_eq!(token_pair(b"\tcat", b"cat\r\n"), None);
    assert_eq!(token_pair("a\u{a0}".as_bytes(), b"a"), None);
    assert_eq!(token_pair(b"\t", b"\t"), None);
    assert_eq!(token_pair("\u{3000}\n".as_bytes(), b""), None);
}

#[test]
fn token_metric_applies_to_tokens_parted_by_any_white_space() {
    assert_eq!(token_pair(b"a\tb", b"a\tb"), Some((2, 2)));
    assert_eq!(token_pair(b"a\tb", b"b\ta"), Some((2, 2)));
    assert_eq!(token_pair(b"a\nb", b"a"), Some((1, 2)));
    assert_eq!(token_pair(b"a", "a\u{a0}c".as_bytes()), Some((1, 2)));
    assert_eq!(token_pair("x\u{2003}y".as_bytes(), "y\u{3000}z".as_bytes()), Some((1, 3)));
}

#[test]
fn token_metric_applies_where_a_plain_space_stands() {
    assert_eq!(token_pair(b" a", b"a"), Some((1, 1)));
    assert_eq!(token_pair(b"cat ", b"bat"), Some((0, 2)));
    assert_eq!(token_pair(b" ", b"cat"), Some((0, 1)));
}

#[test]
fn token_metric_counts_with_multiplicity() {
    assert_eq!(token_pair(b"a b a", b"a c"), Some((1, 4)));
    assert_eq!(token_pair(b"a a a", b"a a"), Some((2, 3)));
    assert_eq!(token_pair(b"a b", b"a b"), Some((2, 2)));
    assert_eq!(token_pair(b"a b", b"b a"), Some((2, 2)));
    assert_eq!(token_pair(b"a b", b"c d"), Some((0, 4)));
    assert_eq!(token_pair(b"a b", b"a"), Some((1, 2)));
    assert_eq!(token_pair(b"a", b"a b"), Some((1, 2)));
}

#[test]
fn token_metric_is_case_sensitive() {
    assert_eq!(token_pair(b"New York", b"new york"), Some((0, 4)));
}

#[test]
fn token_metric_without_tokens_is_zero() {
    assert_eq!(token_pair(b" ", b" "), Some((0, 1)));
    assert_eq!(token_pair(b" ", b""), Some((0, 1)));
    assert_eq!(token_pair(b"  ", b"\t"), Some((0, 1)));
}

#[test]
fn token_metric_counts_many_distinct_tokens() {
    let a: String = (0..200).map(|i| format!("t{} ", i)).collect();
    let b: String = (100..300).map(|i| format!("t{} ", i)).collect();
    assert_eq!(token_pair(a.as_bytes(), b.as_bytes()), Some((100, 300)));
    assert_eq!(token_pair(b.as_bytes(), a.as_bytes()), Some((100, 300)));
}

#[test]
fn ratio_score_rounds_down() {
    assert_eq!(ratio_score(Ratio { num: 2, den: 3 }), 666_666_666);
    assert_eq!(ratio_score(Ratio { num: 1, den: 3 }), 333_333_333);
    assert_eq!(ratio_score(Ratio { num: 0, den: 7 }), 0);
    assert_eq!(ratio_score(Ratio { num: 7, den: 7 }), SCALE);
    assert_eq!(ratio_score(Ratio { num: 1, den: 8 }), 125_000_000);
    assert_eq!(ratio_score(Ratio { num: u32::MAX, den: u32::MAX }), SCALE);
}

#[test]
fn blend_weighs_seven_to_three() {
    let quarter = Ratio { num: 1, den: 4 };
    let half = Ratio { num: 1, den: 2 };
    assert_eq!(blend(Some(quarter), half), 325_000_000);
    assert_eq!(blend(Some(half), quarter), 425_000_000);
    assert_eq!(blend(Some(Ratio { num: 1, den: 1 }), Ratio { num: 0, den: 1 }), 700_000_000);
    assert_eq!(blend(Some(Ratio { num: 0, den: 1 }), Ratio { num: 1, den: 1 }), 300_000_000);
    assert_eq!(blend(Some(Ratio { num: 5, den: 5 }), Ratio { num: 9, den: 9 }), SCALE);
}

#[test]
fn blend_rounds_the_exact_sum_once() {
    // 0.7 / 3 + 0.3 * 29 / 36 is 0.475 exactly.
    assert_eq!(blend(Some(Ratio { num: 1, den: 3 }), Ratio { num: 29, den: 36 }), 475_000_000);
    assert_eq!(blend(Some(Ratio { num: 1, den: 3 }), Ratio { num: 1, den: 3 }), 333_333_333);
}

#[test]
fn blend_without_token_metric_is_the_char_metric() {
    assert_eq!(blend(None, Ratio { num: 2, den: 3 }), 666_666_666);
    assert_eq!(blend(None, Ratio { num: 1, den: 1 }), SCALE);
}

#[test]
fn blend_holds_the_largest_counts() {
    let most = Ratio { num: u32::MAX - 1, den: u32::MAX };
    assert_eq!(blend(Some(most), most), 999_999_999);
}

#[test]
fn hundredths_round_to_nearest() {
    assert_eq!(round_hundredths(0), 0);
    assert_eq!(round_hundredths(4_999_999), 0);
    assert_eq!(round_hundredths(5_000_000), 1);
    assert_eq!(round_hundredths(474_999_999), 47);
    assert_eq!(round_hundredths(475_000_000), 48);
    assert_eq!(round_hundredths(666_666_666), 67);
    assert_eq!(round_hundredths(994_999_999), 99);
    assert_eq!(round_hundredths(995_000_000), 100);
    assert_eq!(round_hundredths(SCALE), 100);
}

#[test]
fn blended_score_of_two_texts() {
    // Tokens: 1 shared of 2; bytes: "a b" against "a", one byte compared.
    assert_eq!(blend_token_char_raw(b"a b", b"a"), 650_000_000);
    // No white space on either side: the character metric alone.
    assert_eq!(blend_token_char_raw(b"cat", b"bat"), 666_666_666);
    // Tokens 2 of 3, bytes 8 of 13.
    assert_eq!(blend_token_char_raw(b"new york city", b"new york"), 651_282_051);
    assert_eq!(blend_token_char_raw(b"a b", b"a b"), SCALE);
    assert_eq!(blend_token_char_raw(b" ", b" "), 300_000_000);
}

#[test]
fn blended_score_of_prepared_texts_takes_them_whole() {
    let a = Prepared::new(b" new york city ");
    let b = Prepared::new(b"new york");
    assert_eq!(blend_token_char(&a, &b), blend_token_char_raw(b" new york city ", b"new york"));
}
