use fuzler::text::span_from_tokens;
use fuzler::text::space_width;
use fuzler::text::tokenize;
use fuzler::text::Prepared;
use fuzler::text::Token;

fn words(s: &str) -> Vec<String> {
    let bytes = s.as_bytes();
    tokenize(bytes)
        .as_slice()
        .iter()
        .map(|t| String::from_utf8(bytes[t.start..t.end].to_vec()).unwrap())
        .collect()
}

fn std_words(s: &str) -> Vec<String> {
    s.split_whitespace().map(|w| w.to_string()).collect()
}

#[test]
fn empty_text_has_no_token() {
    assert!(tokenize(b"").is_empty());
    assert_eq!(tokenize(b"").len(), 0);
}

#[test]
fn white_space_alone_has_no_token() {
    assert!(tokenize(b" \t\r\n\x0b\x0c ").is_empty());
    assert!(tokenize("\u{a0}\u{2003}\u{3000}".as_bytes()).is_empty());
}

#[test]
fn tokens_are_byte_ranges_in_order() {
    let v = tokenize(b"  new york\tcity ");
    let got: Vec<(usize, usize)> = v.as_slice().iter().map(|t| (t.start, t.end)).collect();
    assert_eq!(got, vec![(2, 5), (6, 10), (11, 15)]);
}

#[test]
fn single_token_covers_the_text() {
    let v = tokenize(b"cat");
    assert_eq!(v.len(), 1);
    assert_eq!((v.as_slice()[0].start, v.as_slice()[0].end), (0, 3));
}

#[test]
fn every_unicode_white_space_splits() {
    let spaces = [
        '\u{9}', '\u{a}', '\u{b}', '\u{c}', '\u{d}', '\u{20}', '\u{85}', '\u{a0}', '\u{1680}',
        '\u{2000}', '\u{2001}', '\u{2002}', '\u{2003}', '\u{2004}', '\u{2005}', '\u{2006}',
        '\u{2007}', '\u{2008}', '\u{2009}', '\u{200a}', '\u{2028}', '\u{2029}', '\u{202f}',
        '\u{205f}', '\u{3000}',
    ];
    for c in spaces {
        assert!(c.is_whitespace());
        let s = format!("ab{}cd", c);
        assert_eq!(words(&s), vec!["ab".to_string(), "cd".to_string()]);
        let bytes = s.as_bytes();
        assert_eq!(space_width(bytes, 2), c.len_utf8());
    }
}

#[test]
fn neighbours_of_white_space_do_not_split() {
    // U+200B, U+2060 and U+FEFF are no white space; nor are U+0084, U+00A1,
    // U+2027, U+202E, U+2030, U+205E, U+2060 and U+3001.
    let others = [
        '\u{8}', '\u{e}', '\u{1f}', '\u{21}', '\u{84}', '\u{86}', '\u{9f}', '\u{a1}', '\u{167f}',
        '\u{1681}', '\u{1fff}', '\u{200b}', '\u{200c}', '\u{2027}', '\u{202a}', '\u{202e}',
        '\u{2030}', '\u{205e}', '\u{2060}', '\u{2fff}', '\u{3001}', '\u{feff}', '\u{1f600}',
    ];
    for c in others {
        assert!(!c.is_whitespace());
        let s = format!("ab{}cd", c);
        assert_eq!(words(&s), vec![s.clone()]);
    }
}

#[test]
fn tokens_agree_with_split_whitespace() {
    let texts = [
        "",
        " ",
        "a",
        " a",
        "a ",
        "a b",
        "a  b",
        "\ta\nb\r\nc\x0b\x0cd",
        "I live in new york city, it's great",
        "caf\u{e9} au\u{a0}lait",
        "\u{2003}wide\u{2003}\u{2003}spaces\u{3000}",
        "na\u{ef}ve \u{1f600} end\u{85}line",
        "\u{1680}ogham\u{1680}",
        "tab\tseparated\tvalues",
        "mixed \u{202f} narrow \u{205f} math",
        "\u{c2}\u{e2}",
    ];
    for t in texts {
        assert_eq!(words(t), std_words(t), "text {:?}", t);
    }
}

#[test]
fn broken_encodings_are_still_split_at_ascii_space() {
    // A lead byte of a white-space character without what follows it.
    let v = tokenize(b"a\xc2 b\xe2\x80");
    let got: Vec<(usize, usize)> = v.as_slice().iter().map(|t| (t.start, t.end)).collect();
    assert_eq!(got, vec![(0, 2), (3, 6)]);
}

#[test]
fn span_covers_first_to_last_token() {
    let text = b"  new york\tcity ";
    let v = tokenize(text);
    let toks = v.as_slice();
    assert_eq!(span_from_tokens(text, toks), b"new york\tcity");
    assert_eq!(span_from_tokens(text, &toks[1..3]), b"york\tcity");
    assert_eq!(span_from_tokens(text, &toks[0..1]), b"new");
}

#[test]
fn span_of_no_token_is_empty() {
    let text = b"new york";
    let none: [Token; 0] = [];
    assert_eq!(span_from_tokens(text, &none), b"");
}

#[test]
fn prepared_holds_text_and_tokens() {
    let p = Prepared::new(b"alpha beta");
    assert_eq!(p.raw, b"alpha beta");
    assert_eq!(p.tokens.len(), 2);
    assert_eq!(span_from_tokens(p.raw, p.tokens.as_slice()), b"alpha beta");
}
