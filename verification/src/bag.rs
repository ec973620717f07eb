//! The token metric: how much of their tokens two texts share.
//!
//! The tokens of a text form a multiset. The metric sets the size of the
//! intersection of two such multisets against the size of their union. The
//! counts are kept in `rustc_hash` maps keyed by the tokens' bytes.

use vstd::prelude::*;
use vstd::multiset::Multiset;
use vstd::slice::slice_subrange;
use rustc_hash::FxBuildHasher;
use rustc_hash::FxHashMap;
use crate::chars::MAX_TEXT_LEN;
use crate::ratio::Fraction;
use crate::ratio::Ratio;
use crate::text::lemma_token_spans_in_order;
use crate::text::spans_in_order;
use crate::text::spans_of;
use crate::text::token_spans;
use crate::text::token_texts;
use crate::text::tokenize;
use crate::text::Token;

verus! {

/// Whether a text holds the byte of a plain space, U+0020.
pub open spec fn has_space_byte(s: Seq<u8>) -> bool {
    exists|i: int| 0 <= i < s.len() && s[i] == 0x20
}

/// Whether the token metric applies to two texts: where one of them has two
/// tokens or more, whatever white space parts them, and also where one of
/// them holds a plain space, be it beside a single token or alone.
pub open spec fn token_metric_applies(a: Seq<u8>, b: Seq<u8>) -> bool {
    ||| token_spans(a).len() >= 2
    ||| token_spans(b).len() >= 2
    ||| has_space_byte(a)
    ||| has_space_byte(b)
}

/// The tokens of a text as a multiset of byte strings.
pub open spec fn token_bag(s: Seq<u8>) -> Multiset<Seq<u8>> {
    token_texts(s).to_multiset()
}

/// The tokens that two texts share: each as often as in the text that has
/// fewer of it.
pub open spec fn shared_tokens(a: Seq<u8>, b: Seq<u8>) -> Multiset<Seq<u8>> {
    token_bag(a).intersection_with(token_bag(b))
}

/// The tokens of either text: each as often as in the text that has more
/// of it.
pub open spec fn joined_tokens(a: Seq<u8>, b: Seq<u8>) -> Multiset<Seq<u8>> {
    token_bag(a).add(token_bag(b)).sub(shared_tokens(a, b))
}

/// The token metric of two texts, as a fraction.
///
/// It does not apply where each text is a single token or has none and
/// neither holds a plain space: tabs, line ends and other white space at the
/// edge of a single token, or alone, leave it out. Otherwise it is the number
/// of shared tokens over the number of tokens of either text, and zero where
/// there is no token at all.
pub open spec fn token_fraction(a: Seq<u8>, b: Seq<u8>) -> Option<Fraction> {
    if !token_metric_applies(a, b) {
        None
    } else if joined_tokens(a, b).len() == 0 {
        Some(Fraction { num: 0, den: 1 })
    } else {
        Some(Fraction { num: shared_tokens(a, b).len() as int, den: joined_tokens(a, b).len() as int })
    }
}

/// The sum of the counts in `m` of the items of `keys`.
pub open spec fn count_sum<V>(m: Multiset<V>, keys: Seq<V>) -> nat
    decreases keys.len(),
{
    if keys.len() == 0 {
        0
    } else {
        count_sum(m, keys.drop_last()) + m.count(keys.last())
    }
}

/// Two multisets that agree on every item of `keys` give the same sum.
pub proof fn lemma_count_sum_agrees<V>(m1: Multiset<V>, m2: Multiset<V>, keys: Seq<V>)
    requires
        forall|j: int| 0 <= j < keys.len() ==> m1.count(#[trigger] keys[j]) == m2.count(keys[j]),
    ensures
        count_sum(m1, keys) == count_sum(m2, keys),
    decreases keys.len(),
{
    if keys.len() > 0 {
        let rest = keys.drop_last();
        assert forall|j: int| 0 <= j < rest.len() implies m1.count(#[trigger] rest[j]) == m2.count(
            rest[j],
        ) by {
            assert(rest[j] == keys[j]);
        }
        lemma_count_sum_agrees(m1, m2, rest);
        assert(keys.last() == keys[keys.len() - 1]);
    }
}

/// A multiset that holds one item only is as large as the count of that
/// item.
pub proof fn lemma_single_item_len<V>(m: Multiset<V>, k: V)
    requires
        forall|x: V| x != k ==> m.count(x) == 0,
    ensures
        m.len() == m.count(k),
    decreases m.count(k),
{
    broadcast use vstd::multiset::group_multiset_axioms;

    if m.count(k) == 0 {
        assert(m =~= Multiset::<V>::empty());
    } else {
        let less = m.remove(k);
        assert(m =~= less.insert(k));
        assert forall|x: V| x != k implies less.count(x) == 0 by {}
        lemma_single_item_len(less, k);
    }
}

/// Over keys that are all different, the counts sum to no more than the
/// size of the multiset; and to just that, where every item of the multiset
/// is among the keys.
pub proof fn lemma_count_sum_total<V>(m: Multiset<V>, keys: Seq<V>)
    requires
        forall|i: int, j: int| 0 <= i < j < keys.len() ==> keys[i] != keys[j],
    ensures
        count_sum(m, keys) <= m.len(),
        (forall|x: V| m.count(x) > 0 ==> keys.contains(x)) ==> count_sum(m, keys) == m.len(),
    decreases keys.len(),
{
    broadcast use vstd::multiset::group_multiset_axioms;

    if keys.len() == 0 {
        if forall|x: V| m.count(x) > 0 ==> keys.contains(x) {
            assert forall|x: V| m.count(x) == 0 by {
                if m.count(x) > 0 {
                    assert(keys.contains(x));
                }
            }
            assert(m =~= Multiset::<V>::empty());
        }
    } else {
        let k = keys.last();
        let rest = keys.drop_last();
        let only = m.filter(|x: V| x == k);
        let others = m.filter(|x: V| x != k);
        assert(m =~= others.add(only));
        lemma_single_item_len(only, k);
        assert forall|j: int| 0 <= j < rest.len() implies others.count(#[trigger] rest[j]) == m.count(
            rest[j],
        ) by {
            assert(rest[j] == keys[j]);
            assert(keys[j] != keys[keys.len() - 1]);
        }
        lemma_count_sum_agrees(others, m, rest);
        lemma_count_sum_total(others, rest);
        if forall|x: V| m.count(x) > 0 ==> keys.contains(x) {
            assert forall|x: V| others.count(x) > 0 implies rest.contains(x) by {
                assert(keys.contains(x));
                let j = choose|j: int| 0 <= j < keys.len() && keys[j] == x;
                assert(rest[j] == x);
            }
        }
    }
}

/// A multiset is no larger than one that holds each item at least as often.
pub proof fn lemma_subset_len<V>(small: Multiset<V>, large: Multiset<V>)
    requires
        forall|x: V| small.count(x) <= large.count(x),
    ensures
        small.len() <= large.len(),
{
    broadcast use vstd::multiset::group_multiset_axioms;

    assert(large =~= small.add(large.sub(small)));
}

/// A multiset falls into the part that meets a test and the part that does
/// not.
pub proof fn lemma_filter_split<V>(m: Multiset<V>, f: spec_fn(V) -> bool)
    ensures
        m.len() == m.filter(f).len() + m.filter(|x: V| !f(x)).len(),
{
    broadcast use vstd::multiset::group_multiset_axioms;

    assert(m =~= m.filter(f).add(m.filter(|x: V| !f(x))));
}

/// How often each token occurs in the shared and in the joined tokens of two
/// texts, and how large the two multisets are.
pub proof fn lemma_token_counts(a: Seq<u8>, b: Seq<u8>)
    ensures
        forall|x: Seq<u8>| #[trigger]
            shared_tokens(a, b).count(x) == if token_bag(a).count(x) <= token_bag(b).count(x) {
                token_bag(a).count(x)
            } else {
                token_bag(b).count(x)
            },
        forall|x: Seq<u8>| #[trigger]
            joined_tokens(a, b).count(x) == if token_bag(a).count(x) >= token_bag(b).count(x) {
                token_bag(a).count(x)
            } else {
                token_bag(b).count(x)
            },
        token_bag(a).len() == token_spans(a).len(),
        token_bag(b).len() == token_spans(b).len(),
        shared_tokens(a, b).len() <= joined_tokens(a, b).len(),
        joined_tokens(a, b).len() + shared_tokens(a, b).len() == token_spans(a).len() + token_spans(
            b,
        ).len(),
{
    broadcast use vstd::multiset::group_multiset_axioms;

    let bag_a = token_bag(a);
    let bag_b = token_bag(b);
    let shared = shared_tokens(a, b);
    let joined = joined_tokens(a, b);
    assert forall|x: Seq<u8>| #[trigger]
        shared.count(x) == if bag_a.count(x) <= bag_b.count(x) {
            bag_a.count(x)
        } else {
            bag_b.count(x)
        } by {
        vstd::multiset::lemma_intersection_count(bag_a, bag_b, x);
    }
    assert forall|x: Seq<u8>| #[trigger]
        joined.count(x) == if bag_a.count(x) >= bag_b.count(x) {
            bag_a.count(x)
        } else {
            bag_b.count(x)
        } by {
        vstd::multiset::lemma_intersection_count(bag_a, bag_b, x);
    }
    token_texts(a).to_multiset_ensures();
    token_texts(b).to_multiset_ensures();
    lemma_subset_len(shared, joined);
    lemma_subset_len(shared, bag_a.add(bag_b));
    assert(shared.subset_of(bag_a.add(bag_b)));
}

/// The token metric, where it applies, lies between zero and one.
pub proof fn lemma_token_fraction_wf(a: Seq<u8>, b: Seq<u8>)
    ensures
        token_fraction(a, b) matches Some(t) ==> t.wf(),
{
    lemma_token_counts(a, b);
}

/// A text with a token shares all its tokens with itself.
pub proof fn lemma_token_fraction_self(a: Seq<u8>)
    requires
        token_spans(a).len() > 0,
    ensures
        token_fraction(a, a) matches Some(t) ==> t.num == t.den,
{
    broadcast use vstd::multiset::group_multiset_axioms;

    lemma_token_counts(a, a);
    assert(shared_tokens(a, a) =~= token_bag(a));
    assert(joined_tokens(a, a) =~= token_bag(a));
}

/// The token metric does not depend on which text comes first.
pub proof fn lemma_token_fraction_symmetric(a: Seq<u8>, b: Seq<u8>)
    ensures
        token_fraction(a, b) == token_fraction(b, a),
{
    broadcast use vstd::multiset::group_multiset_axioms;

    lemma_token_counts(a, b);
    lemma_token_counts(b, a);
    assert(shared_tokens(a, b) =~= shared_tokens(b, a));
    assert(joined_tokens(a, b) =~= joined_tokens(b, a));
}

#[verifier::external_type_specification]
#[verifier::external_body]
pub struct ExFxBuildHasher(FxBuildHasher);

/// A map from a token's bytes to the number of its occurrences.
pub type CountMap<'a> = FxHashMap<&'a [u8], usize>;

/// A token's bytes with the number of its occurrences.
#[derive(Clone, Copy, Debug)]
pub struct TokenCount<'a> {
    pub text: &'a [u8],
    pub count: usize,
}

/// What a `CountMap` holds: the count under each key, the key taken as the
/// bytes it points to.
pub uninterp spec fn count_map_entries(m: FxHashMap<&[u8], usize>) -> Map<Seq<u8>, usize>;

/// The map that holds no count.
pub open spec fn no_counts() -> Map<Seq<u8>, usize> {
    Map::empty()
}

/// The keys of a list of counts, in the list's order.
pub open spec fn listed_keys(v: Seq<TokenCount>) -> Seq<Seq<u8>> {
    Seq::new(v.len(), |j: int| v[j].text@)
}

/// Whether a list names each entry of a map exactly once, in whatever order.
pub open spec fn lists_counts(v: Seq<TokenCount>, m: Map<Seq<u8>, usize>) -> bool {
    &&& forall|j: int|
        0 <= j < v.len() ==> m.contains_key(#[trigger] v[j].text@) && m[v[j].text@] == v[j].count
    &&& forall|i: int, j: int| 0 <= i < j < v.len() ==> v[i].text@ != v[j].text@
    &&& forall|k: Seq<u8>|
        m.contains_key(k) ==> exists|j: int| 0 <= j < v.len() && #[trigger] v[j].text@ == k
}

/// `HashMap::default` with the `rustc_hash` hasher: the new map holds
/// nothing.
#[verifier::external_body]
fn count_map_new<'a>() -> (m: CountMap<'a>)
    ensures
        count_map_entries(m) == no_counts(),
{
    FxHashMap::default()
}

/// `HashMap::get`: the count under the key whose bytes equal `key`'s, where
/// the map has one.
#[verifier::external_body]
fn count_map_get(m: &CountMap<'_>, key: &[u8]) -> (r: Option<usize>)
    ensures
        r is Some <==> count_map_entries(*m).contains_key(key@),
        r matches Some(n) ==> n == count_map_entries(*m)[key@],
{
    m.get(key).copied()
}

/// `HashMap::insert`: the count under `key` is now `n`, whether or not the
/// map had one; the other entries stay.
#[verifier::external_body]
fn count_map_insert<'a>(m: &mut CountMap<'a>, key: &'a [u8], n: usize)
    ensures
        count_map_entries(*final(m)) == count_map_entries(*old(m)).insert(key@, n),
{
    m.insert(key, n);
}

/// `HashMap::iter`, collected: every entry of the map once, in an order
/// that is not fixed.
#[verifier::external_body]
fn count_map_list<'a>(m: &CountMap<'a>) -> (v: Vec<TokenCount<'a>>)
    ensures
        lists_counts(v@, count_map_entries(*m)),
{
    m.iter().map(|(k, c)| TokenCount { text: *k, count: *c }).collect()
}

/// Whether a map holds just the items of a multiset, each with its count.
pub open spec fn counts_bag(m: Map<Seq<u8>, usize>, bag: Multiset<Seq<u8>>) -> bool {
    forall|k: Seq<u8>|
        (m.contains_key(k) <==> #[trigger] bag.count(k) > 0) && (m.contains_key(k) ==> m[k]
            == bag.count(k))
}

/// Whether a text holds a plain space.
pub fn contains_space(s: &[u8]) -> (found: bool)
    ensures
        found == has_space_byte(s@),
{
    let n = s.len();
    let mut i: usize = 0;
    while i < n
        invariant
            n == s@.len(),
            i <= n,
            forall|j: int| 0 <= j < i ==> s@[j] != 0x20,
        decreases n - i,
    {
        if s[i] == 0x20 {
            return true;
        }
        i = i + 1;
    }
    false
}

/// Counts the tokens of a text, given where they lie.
fn count_tokens<'a>(s: &'a [u8], toks: &[Token]) -> (m: CountMap<'a>)
    requires
        spans_of(toks@) == token_spans(s@),
    ensures
        counts_bag(count_map_entries(m), token_bag(s@)),
{
    broadcast use vstd::multiset::group_multiset_axioms;

    let n = toks.len();
    let mut m = count_map_new();
    let mut i: usize = 0;
    let ghost texts = token_texts(s@);
    proof {
        lemma_token_spans_in_order(s@);
        texts.take(0).to_multiset_ensures();
        assert forall|k: Seq<u8>| texts.take(0).to_multiset().count(k) == 0 by {
            assert(texts.take(0).to_multiset().count(k) <= texts.take(0).to_multiset().len());
        }
    }
    while i < n
        invariant
            n == toks@.len(),
            i <= n,
            spans_of(toks@) == token_spans(s@),
            spans_in_order(token_spans(s@), s@.len() as int),
            texts == token_texts(s@),
            counts_bag(count_map_entries(m), texts.take(i as int).to_multiset()),
        decreases n - i,
    {
        let t = toks[i];
        assert(t@ == spans_of(toks@)[i as int]);
        let key = slice_subrange(s, t.start, t.end);
        let ghost bag = texts.take(i as int).to_multiset();
        let ghost before = count_map_entries(m);
        proof {
            assert(key@ == texts[i as int]);
            assert(texts.take(i as int + 1) =~= texts.take(i as int).push(key@));
            vstd::seq_lib::to_multiset_build(texts.take(i as int), key@);
            texts.take(i as int).to_multiset_ensures();
            assert(bag.count(key@) <= bag.len());
        }
        let seen = match count_map_get(&m, key) {
            Some(c) => c,
            None => 0,
        };
        count_map_insert(&mut m, key, seen + 1);
        proof {
            let after = count_map_entries(m);
            let grown = texts.take(i as int + 1).to_multiset();
            assert(grown =~= bag.insert(key@));
            assert forall|k: Seq<u8>|
                (after.contains_key(k) <==> #[trigger] grown.count(k) > 0) && (after.contains_key(k)
                    ==> after[k] == grown.count(k)) by {
                if k != key@ {
                    assert(before.contains_key(k) <==> bag.count(k) > 0);
                }
            }
        }
        i = i + 1;
    }
    proof {
        assert(texts.take(n as int) =~= texts);
    }
    m
}

/// The token metric of two texts: the size of the intersection of their
/// token multisets over the size of the union, or nothing where each text is
/// a single token or has none and neither holds a plain space.
pub fn token_jaccard_multiset(a: &[u8], b: &[u8]) -> (r: Option<Ratio>)
    requires
        a@.len() <= MAX_TEXT_LEN,
        b@.len() <= MAX_TEXT_LEN,
    ensures
        match r {
            Some(t) => token_fraction(a@, b@) == Some(t@) && t.wf(),
            None => token_fraction(a@, b@) is None,
        },
{
    broadcast use vstd::multiset::group_multiset_axioms;

    let tokens_a = tokenize(a);
    let tokens_b = tokenize(b);
    if tokens_a.len() <= 1 && tokens_b.len() <= 1 && !contains_space(a) && !contains_space(b) {
        return None;
    }
    let counts_a = count_tokens(a, tokens_a.as_slice());
    let counts_b = count_tokens(b, tokens_b.as_slice());
    let list_a = count_map_list(&counts_a);
    let list_b = count_map_list(&counts_b);

    let ghost bag_a = token_bag(a@);
    let ghost bag_b = token_bag(b@);
    let ghost shared = shared_tokens(a@, b@);
    let ghost joined = joined_tokens(a@, b@);
    let ghost keys_a = listed_keys(list_a@);
    let ghost keys_b = listed_keys(list_b@);
    let ghost only_b = joined.filter(|x: Seq<u8>| !(bag_a.count(x) > 0));
    proof {
        lemma_token_counts(a@, b@);
        lemma_token_spans_in_order(a@);
        lemma_token_spans_in_order(b@);
        assert(keys_a.take(0) =~= Seq::<Seq<u8>>::empty());
        assert(keys_b.take(0) =~= Seq::<Seq<u8>>::empty());
    }

    let mut inter: usize = 0;
    let mut union: usize = 0;
    let mut i: usize = 0;
    while i < list_a.len()
        invariant
            i <= list_a@.len(),
            lists_counts(list_a@, count_map_entries(counts_a)),
            counts_bag(count_map_entries(counts_a), bag_a),
            counts_bag(count_map_entries(counts_b), bag_b),
            keys_a == listed_keys(list_a@),
            bag_a == token_bag(a@),
            bag_b == token_bag(b@),
            shared == shared_tokens(a@, b@),
            joined == joined_tokens(a@, b@),
            forall|x: Seq<u8>| #[trigger]
                shared.count(x) == if bag_a.count(x) <= bag_b.count(x) {
                    bag_a.count(x)
                } else {
                    bag_b.count(x)
                },
            forall|x: Seq<u8>| #[trigger]
                joined.count(x) == if bag_a.count(x) >= bag_b.count(x) {
                    bag_a.count(x)
                } else {
                    bag_b.count(x)
                },
            joined.len() <= 2 * MAX_TEXT_LEN,
            shared.len() <= joined.len(),
            inter == count_sum(shared, keys_a.take(i as int)),
            union == count_sum(joined, keys_a.take(i as int)),
        decreases list_a@.len() - i,
    {
        let entry = list_a[i];
        let in_a = entry.count;
        let in_b = match count_map_get(&counts_b, entry.text) {
            Some(c) => c,
            None => 0,
        };
        proof {
            let next = keys_a.take(i as int + 1);
            assert(next.drop_last() =~= keys_a.take(i as int));
            assert(next.last() == entry.text@);
            assert forall|p: int, q: int| 0 <= p < q < next.len() implies next[p] != next[q] by {
                assert(next[p] == list_a@[p].text@);
                assert(next[q] == list_a@[q].text@);
            }
            lemma_count_sum_total(shared, next);
            lemma_count_sum_total(joined, next);
            assert(in_a == bag_a.count(entry.text@));
            assert(in_b == bag_b.count(entry.text@));
        }
        inter = inter + if in_a <= in_b {
            in_a
        } else {
            in_b
        };
        union = union + if in_a >= in_b {
            in_a
        } else {
            in_b
        };
        i = i + 1;
    }
    let ghost union_a = union;
    proof {
        let in_a = joined.filter(|x: Seq<u8>| bag_a.count(x) > 0);
        assert(keys_a.take(list_a@.len() as int) =~= keys_a);
        assert forall|p: int, q: int| 0 <= p < q < keys_a.len() implies keys_a[p] != keys_a[q] by {
            assert(keys_a[p] == list_a@[p].text@);
            assert(keys_a[q] == list_a@[q].text@);
        }
        assert forall|x: Seq<u8>| bag_a.count(x) > 0 implies keys_a.contains(x) by {
            assert(count_map_entries(counts_a).contains_key(x));
            let p = choose|p: int| 0 <= p < list_a@.len() && #[trigger] list_a@[p].text@ == x;
            assert(keys_a[p] == x);
        }
        lemma_count_sum_total(shared, keys_a);
        assert forall|p: int| 0 <= p < keys_a.len() implies in_a.count(#[trigger] keys_a[p])
            == joined.count(keys_a[p]) by {
            assert(keys_a[p] == list_a@[p].text@);
            assert(count_map_entries(counts_a).contains_key(list_a@[p].text@));
        }
        lemma_count_sum_agrees(in_a, joined, keys_a);
        lemma_count_sum_total(in_a, keys_a);
        lemma_filter_split(joined, |x: Seq<u8>| bag_a.count(x) > 0);
        assert(only_b =~= joined.filter(|x: Seq<u8>| !(|x: Seq<u8>| bag_a.count(x) > 0)(x)));
    }
    let mut j: usize = 0;
    while j < list_b.len()
        invariant
            j <= list_b@.len(),
            lists_counts(list_b@, count_map_entries(counts_b)),
            counts_bag(count_map_entries(counts_a), bag_a),
            counts_bag(count_map_entries(counts_b), bag_b),
            keys_b == listed_keys(list_b@),
            only_b == joined.filter(|x: Seq<u8>| !(bag_a.count(x) > 0)),
            forall|x: Seq<u8>| #[trigger]
                joined.count(x) == if bag_a.count(x) >= bag_b.count(x) {
                    bag_a.count(x)
                } else {
                    bag_b.count(x)
                },
            joined.len() <= 2 * MAX_TEXT_LEN,
            union_a + only_b.len() == joined.len(),
            inter == shared.len(),
            shared.len() <= joined.len(),
            union == union_a + count_sum(only_b, keys_b.take(j as int)),
        decreases list_b@.len() - j,
    {
        let entry = list_b[j];
        proof {
            let next = keys_b.take(j as int + 1);
            assert(next.drop_last() =~= keys_b.take(j as int));
            assert(next.last() == entry.text@);
            assert forall|p: int, q: int| 0 <= p < q < next.len() implies next[p] != next[q] by {
                assert(next[p] == list_b@[p].text@);
                assert(next[q] == list_b@[q].text@);
            }
            lemma_count_sum_total(only_b, next);
            assert(count_map_entries(counts_b).contains_key(entry.text@));
            assert(entry.count == bag_b.count(entry.text@));
        }
        if count_map_get(&counts_a, entry.text).is_none() {
            union = union + entry.count;
        }
        j = j + 1;
    }
    proof {
        assert(keys_b.take(list_b@.len() as int) =~= keys_b);
        assert forall|p: int, q: int| 0 <= p < q < keys_b.len() implies keys_b[p] != keys_b[q] by {
            assert(keys_b[p] == list_b@[p].text@);
            assert(keys_b[q] == list_b@[q].text@);
        }
        assert forall|x: Seq<u8>| only_b.count(x) > 0 implies keys_b.contains(x) by {
            assert(bag_b.count(x) > 0);
            assert(count_map_entries(counts_b).contains_key(x));
            let p = choose|p: int| 0 <= p < list_b@.len() && #[trigger] list_b@[p].text@ == x;
            assert(keys_b[p] == x);
        }
        lemma_count_sum_total(only_b, keys_b);
    }
    if union == 0 {
        Some(Ratio { num: 0, den: 1 })
    } else {
        Some(Ratio { num: inter as u32, den: union as u32 })
    }
}

} // verus!
