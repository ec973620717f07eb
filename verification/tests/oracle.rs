//! The scorer against a plain floating-point rendering of the same rules,
//! on a few hundred generated pairs of texts.

use fuzler::scorer::similarity_score;
use std::collections::HashMap;

fn table_distance(a: &[u8], b: &[u8]) -> usize {
    let mut row: Vec<usize> = (0..=b.len()).collect();
    for i in 1..=a.len() {
        let mut next = vec![i; b.len() + 1];
        for j in 1..=b.len() {
            let change = row[j - 1] + usize::from(a[i - 1] != b[j - 1]);
            next[j] = change.min(row[j] + 1).min(next[j - 1] + 1);
        }
        row = next;
    }
    row[b.len()]
}

fn float_chars(a: &str, b: &str) -> f64 {
    let (a, b) = (a.as_bytes(), b.as_bytes());
    if a.is_empty() && b.is_empty() {
        return 1.0;
    }
    if a.is_empty() || b.is_empty() {
        return 0.0;
    }
    let short = a.len().min(b.len());
    let long = a.len().max(b.len());
    if long - short <= 2 {
        let differing = a.iter().zip(b.iter()).filter(|(x, y)| x != y).count();
        return 1.0 - differing as f64 / short as f64;
    }
    1.0 - table_distance(a, b) as f64 / long as f64
}

fn float_tokens(a: &str, b: &str) -> Option<f64> {
    let single = a.split_whitespace().count() <= 1 && b.split_whitespace().count() <= 1;
    if single && !a.contains(' ') && !b.contains(' ') {
        return None;
    }
    let mut counts: HashMap<&str, (u32, u32)> = HashMap::new();
    for w in a.split_whitespace() {
        counts.entry(w).or_insert((0, 0)).0 += 1;
    }
    for w in b.split_whitespace() {
        counts.entry(w).or_insert((0, 0)).1 += 1;
    }
    let shared: u32 = counts.values().map(|(x, y)| *x.min(y)).sum();
    let joined: u32 = counts.values().map(|(x, y)| *x.max(y)).sum();
    if joined == 0 {
        Some(0.0)
    } else {
        Some(shared as f64 / joined as f64)
    }
}

fn float_blend(a: &str, b: &str) -> f64 {
    match float_tokens(a, b) {
        Some(t) => 0.7 * t + 0.3 * float_chars(a, b),
        None => float_chars(a, b),
    }
}

/// The text from the first of some words of `text` to the last.
fn cover<'a>(text: &'a str, words: &[&'a str]) -> &'a str {
    let start = words[0].as_ptr() as usize - text.as_ptr() as usize;
    let last = words[words.len() - 1];
    let end = last.as_ptr() as usize - text.as_ptr() as usize + last.len();
    &text[start..end]
}

fn float_windows(query: &str, target: &str) -> f64 {
    let n = query.split_whitespace().count();
    if n <= 1 || n > 20 {
        return float_blend(query, target);
    }
    let words: Vec<&str> = target.split_whitespace().collect();
    if words.is_empty() {
        return 0.0;
    }
    let pad = (n * 3 + 9) / 10;
    let least = n.saturating_sub(pad).max(1);
    let most = (n + pad).min(30).min(words.len());
    let mut best: f64 = 0.0;
    for w in least..=most {
        for run in words.windows(w) {
            best = best.max(float_blend(query, cover(target, run)));
        }
    }
    best
}

fn float_score(a: &str, b: &str) -> f64 {
    let (query, target) = if a.split_whitespace().count() <= b.split_whitespace().count() {
        (a, b)
    } else {
        (b, a)
    };
    let words: Vec<&str> = target.split_whitespace().collect();
    let mut total: f64 = 0.0;
    if !words.is_empty() {
        let size = (3 * query.split_whitespace().count()).clamp(50, 100).min(words.len());
        for chunk in words.chunks(size) {
            total += float_windows(query, cover(target, chunk));
        }
    }
    total.min(1.0).max(float_blend(query, target))
}

struct Dice(u64);

impl Dice {
    fn roll(&mut self, sides: u64) -> u64 {
        self.0 = self.0.wrapping_mul(6364136223846793005).wrapping_add(1442695040888963407);
        (self.0 >> 33) % sides
    }

    fn word(&mut self) -> String {
        let len = 1 + self.roll(4);
        (0..len).map(|_| (b'a' + self.roll(3) as u8) as char).collect()
    }

    fn gap(&mut self) -> &'static str {
        match self.roll(8) {
            0 => "\t",
            1 => "  ",
            2 => "\u{a0}",
            3 => "\n",
            _ => " ",
        }
    }

    fn text(&mut self, words: u64) -> String {
        let mut s = String::new();
        if self.roll(5) == 0 {
            s.push_str(self.gap());
        }
        for i in 0..words {
            if i > 0 {
                s.push_str(self.gap());
            }
            s.push_str(&self.word());
        }
        if self.roll(5) == 0 {
            s.push_str(self.gap());
        }
        s
    }
}

/// Whether the floating-point score lies so near the middle between two
/// hundredths that its rounding is not settled.
fn undecided(x: f64) -> bool {
    let scaled = x * 100.0;
    ((scaled - scaled.floor()) - 0.5).abs() < 1e-6
}

fn agree_on(dice: &mut Dice, pairs: usize, most_a: u64, most_b: u64) {
    let mut settled = 0;
    for _ in 0..pairs {
        let wa = dice.roll(most_a + 1);
        let a = dice.text(wa);
        let wb = dice.roll(most_b + 1);
        let b = dice.text(wb);
        let expected = float_score(&a, &b);
        if undecided(expected) {
            continue;
        }
        settled += 1;
        assert_eq!(
            similarity_score(&a, &b),
            (expected * 100.0).round() as u8,
            "texts {:?} and {:?}",
            a,
            b
        );
    }
    assert!(settled * 10 >= pairs * 9);
}

#[test]
fn short_texts_agree_with_floating_point() {
    agree_on(&mut Dice(1), 400, 6, 6);
}

#[test]
fn short_queries_in_longer_targets_agree_with_floating_point() {
    agree_on(&mut Dice(2), 150, 8, 40);
}

#[test]
fn long_queries_agree_with_floating_point() {
    agree_on(&mut Dice(3), 60, 30, 45);
}

#[test]
fn targets_of_several_chunks_agree_with_floating_point() {
    agree_on(&mut Dice(4), 12, 4, 160);
}
