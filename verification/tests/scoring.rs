use fuzler::chunk::aggregated_partial_similarity;
use fuzler::ratio::SCALE;
use fuzler::scorer::checked_similarity_score;
use fuzler::scorer::similarity_of_bytes;
use fuzler::scorer::similarity_score;
use fuzler::text::Prepared;
use fuzler::window::partial_similarity;

fn aggregate(query: &str, target: &str) -> u64 {
    aggregated_partial_similarity(&Prepared::new(query.as_bytes()), &Prepared::new(target.as_bytes()))
}

fn filler(from: usize, count: usize) -> String {
    (from..from + count).map(|i| format!("w{:03} ", i)).collect()
}

#[test]
fn a_text_is_wholly_like_itself() {
    for s in [
        "a", "cat", "new york city", " padded ", "a\tb", "a\u{a0}b\n", "x y z x y z",
        "caf\u{e9} au lait", "\t", "\u{a0}\n", "cat\n",
    ] {
        assert_eq!(similarity_score(s, s), 100, "text {:?}", s);
    }
    let long = filler(0, 400);
    assert_eq!(similarity_score(&long, &long), 100);
}

#[test]
fn plain_spaces_alone_are_not_wholly_alike() {
    // No token and a plain space: the token metric applies and is zero.
    assert_eq!(similarity_score(" ", " "), 30);
    assert_eq!(similarity_score("   ", "   "), 30);
    assert_eq!(similarity_score("\t \n", "\t \n"), 30);
}

#[test]
fn white_space_beside_a_single_token_leaves_the_bytes_to_decide() {
    // Four bytes against three: the first three differ in one.
    assert_eq!(similarity_score("cat\n", "bat"), 67);
    assert_eq!(similarity_score("bat", "cat\n"), 67);
    // With a plain space the token metric applies: no token shared.
    assert_eq!(similarity_score("cat ", "bat"), 20);
}

#[test]
fn tokens_parted_by_tabs_are_compared_as_tokens() {
    // The same two tokens in the other order: token metric 1, bytes 1 of 3.
    assert_eq!(similarity_score("a\tb", "b\ta"), 80);
    assert_eq!(similarity_score("a b", "b a"), 80);
    // Three bytes against four: no byte of the first three agrees.
    assert_eq!(similarity_score("a\nb", "b\u{a0}a"), 70);
}

#[test]
fn two_empty_texts_are_alike() {
    assert_eq!(similarity_score("", ""), 100);
}

#[test]
fn an_empty_text_is_unlike_any_other() {
    let long = filler(0, 130);
    for s in ["a", " ", "\t", "cat", "new york city", "a b c d e f", long.as_str()] {
        assert_eq!(similarity_score("", s), 0, "text {:?}", s);
        assert_eq!(similarity_score(s, ""), 0, "text {:?}", s);
    }
}

#[test]
fn single_tokens_are_compared_by_bytes_alone() {
    assert_eq!(similarity_score("cat", "bat"), 67);
    assert_eq!(similarity_score("bat", "cat"), 67);
}

#[test]
fn texts_with_nothing_in_common_score_zero() {
    assert_eq!(similarity_score("abc", "xyz"), 0);
}

#[test]
fn a_query_found_in_the_target_scores_full() {
    assert_eq!(similarity_score("new york city", "I live in new york city and it is great"), 100);
    assert_eq!(similarity_score("I live in new york city and it is great", "new york city"), 100);
}

#[test]
fn a_query_found_but_for_a_comma_scores_by_its_best_window() {
    // The best window is "new york": tokens 2 of 3, bytes 8 of 13.
    assert_eq!(partial_similarity(b"new york city", b"I live in new york city, it's great"), 651_282_051);
    assert_eq!(similarity_score("new york city", "I live in new york city, it's great"), 65);
}

#[test]
fn results_stay_within_bounds() {
    let texts = [
        "", " ", "a", "a b", "b a", "a b c", "new york", "new york city", "york new",
        "I live in new york city, it's great", "\u{2003}x\u{2003}", "aaaa aaaa aaaa",
    ];
    for a in texts {
        for b in texts {
            assert!(similarity_score(a, b) <= 100);
        }
    }
}

#[test]
fn order_does_not_matter_where_token_counts_differ() {
    let texts = [
        "", "a", "a b", "new york city", "I live in new york city, it's great",
        "one two three four five six seven",
    ];
    for a in texts {
        for b in texts {
            if a.split_whitespace().count() != b.split_whitespace().count() {
                assert_eq!(similarity_score(a, b), similarity_score(b, a), "{:?} and {:?}", a, b);
            }
        }
    }
}

#[test]
fn order_matters_where_token_counts_agree() {
    assert_eq!(similarity_score("a b", "a bcdefgh"), 65);
    assert_eq!(similarity_score("a bcdefgh", "a b"), 38);
}

#[test]
fn ties_in_token_count_keep_the_first_text_as_query() {
    // Both have two tokens; the windows are taken from the second text.
    assert_eq!(partial_similarity(b"a b", b"a bcdefgh"), 650_000_000);
    assert_eq!(partial_similarity(b"a bcdefgh", b"a b"), 383_333_333);
}

#[test]
fn one_token_query_is_blended_with_the_whole_target() {
    assert_eq!(partial_similarity(b"cat", b"bat"), 666_666_666);
    assert_eq!(partial_similarity(b"a", b"a b"), 650_000_000);
    assert_eq!(partial_similarity(b"", b"a b"), 0);
}

#[test]
fn long_query_is_blended_with_the_whole_target() {
    let q = filler(0, 21);
    let t = filler(0, 40);
    assert_eq!(q.split_whitespace().count(), 21);
    let whole = fuzler::blend::blend_token_char_raw(q.as_bytes(), t.as_bytes());
    assert_eq!(partial_similarity(q.as_bytes(), t.as_bytes()), whole);
}

#[test]
fn windows_of_a_target_without_tokens_score_zero() {
    assert_eq!(partial_similarity(b"a b", b""), 0);
    assert_eq!(partial_similarity(b"a b", b"   "), 0);
}

#[test]
fn window_sizes_follow_the_padding() {
    // Ten tokens: padding 3, so windows of 7 to 13 tokens. A target of the
    // query's first seven tokens is one window; of its first six, none.
    let q = "a b c d e f g h i j";
    assert_eq!(partial_similarity(q.as_bytes(), b"a b c d e f"), 0);
    // Tokens 7 of 10; bytes 19 against 13, edit distance 6: 0.49 + 0.3 * 13 / 19.
    assert_eq!(partial_similarity(q.as_bytes(), b"a b c d e f g"), 695_263_157);
}

#[test]
fn perfect_window_ends_the_search() {
    let t = format!("{}alpha beta gamma {}", filler(0, 20), filler(20, 20));
    assert_eq!(partial_similarity(b"alpha beta gamma", t.as_bytes()), SCALE);
}

#[test]
fn aggregate_of_a_target_without_tokens_is_zero() {
    assert_eq!(aggregate("a b", ""), 0);
    assert_eq!(aggregate("a b", " \t "), 0);
    assert_eq!(aggregate("", ""), 0);
}

#[test]
fn aggregate_of_a_short_target_is_its_window_score() {
    let t = "I live in new york city, it's great";
    assert_eq!(aggregate("new york city", t), partial_similarity(b"new york city", t.as_bytes()));
}

#[test]
fn aggregate_adds_up_the_chunks() {
    // Query of 2 tokens: chunks of 50. The target has 51 tokens: a chunk of
    // fifty "zz" with one "a", and a chunk of one token, "b".
    let mut t = String::new();
    for i in 0..50 {
        t.push_str(if i == 10 { "a " } else { "zz " });
    }
    t.push('b');
    let first = t[..t.len() - 2].to_string();
    assert_eq!(first.split_whitespace().count(), 50);
    let one = partial_similarity(b"a b", first.as_bytes());
    let two = partial_similarity(b"a b", b"b");
    assert_eq!(one, 650_000_000);
    assert_eq!(two, 350_000_000);
    assert_eq!(aggregate("a b", &t), SCALE);
    // With "c" for "b" the second chunk adds nothing.
    let mut u = t.clone();
    u.pop();
    u.push('c');
    assert_eq!(partial_similarity(b"a b", b"c"), 0);
    assert_eq!(aggregate("a b", &u), 650_000_000);
}

#[test]
fn two_near_matches_in_two_chunks_add_up() {
    // A query of five tokens and a target of 500: chunks of 50 tokens.
    let query = "alpha beta gamma delta epsilon";
    let near = "alpha beta gamma ";
    let mut target = String::new();
    target.push_str(&"# ".repeat(20));
    target.push_str(near);
    target.push_str(&"# ".repeat(27 + 200));
    target.push_str(near);
    target.push_str(&"# ".repeat(47 + 200));
    assert_eq!(target.split_whitespace().count(), 500);
    let bytes = target.as_bytes();
    let toks = fuzler::text::tokenize(bytes);
    let toks = toks.as_slice();
    let mut sum: u64 = 0;
    let mut best: u64 = 0;
    for chunk in toks.chunks(50) {
        let span = fuzler::text::span_from_tokens(bytes, chunk);
        let s = partial_similarity(query.as_bytes(), span);
        sum += s;
        best = best.max(s);
    }
    assert!(best < SCALE);
    assert!(best > SCALE / 2);
    let total = aggregate(query, &target);
    assert_eq!(total, sum.min(SCALE));
    assert!(total > best);
}

#[test]
fn bytes_and_text_score_alike() {
    assert_eq!(similarity_of_bytes(b"cat", b"bat"), similarity_score("cat", "bat"));
    assert_eq!(similarity_of_bytes(b"a\xff b", b"a\xff b"), 100);
}

#[test]
fn checked_score_is_the_score_of_short_texts() {
    assert_eq!(checked_similarity_score("cat", "bat"), Some(67));
    assert_eq!(checked_similarity_score("", ""), Some(100));
}

/// A query of twenty one-letter words, and two copies of it in a target of
/// 121 tokens: the first lies across the end of the first chunk of sixty, the
/// second across the end of the second. Without the first copy the second
/// lies in one chunk.
fn straddled() -> (String, String, String) {
    let query: Vec<String> = (0..20u8).map(|i| ((b'a' + i) as char).to_string()).collect();
    let query = query.join(" ");
    let fill = |n: usize| "#\t".repeat(n);
    let with = format!("{}{}\t{}{}", fill(59), query, fill(22), query);
    let without = format!("{}\t{}{}", fill(59), fill(22), query);
    (query, with, without)
}

#[test]
fn a_query_across_two_chunks_can_score_less_than_without_it() {
    let (query, with, without) = straddled();
    assert_eq!(with.split_whitespace().count(), 121);
    assert_eq!(without.split_whitespace().count(), 101);
    assert!(with.contains(&query));
    assert_eq!(similarity_score(&query, &without), 100);
    assert_eq!(similarity_score(&query, &with), 99);
}
