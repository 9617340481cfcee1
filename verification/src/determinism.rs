//! Why the order of the input does not show in the groups that are built.
use crate::classes::{
    is_class, lemma_class_same_lines, lemma_classes, lemma_linked_same_lines, lemma_seen,
    same_lines,
};
use crate::dictionary::WordView;
use crate::group_builder::{lemma_linked_seen, linked, GroupBuilder};
use crate::text::{
    group_lt, lemma_group_lt_total, lemma_lex_lt_asymmetric, lemma_lex_lt_irreflexive, lex_lt,
};
use crate::word_groups::{
    bucket, candidates, canonical_groups, cross_candidates, insert_group, lemma_bucket_add,
    lemma_ordered, lemma_sorted_members, lemma_transcriptions, ordered, sorted_groups,
    sorted_members, strictly_sorted, survivors, transcriptions, well_formed,
};
use vstd::prelude::*;
use vstd::seq_lib::{
    lemma_multiset_commutative, to_multiset_build, to_multiset_contains, to_multiset_len,
    to_multiset_remove,
};

verus! {

/// Two groups in strictly ascending order that hold the same words are the
/// same group.
pub proof fn lemma_strictly_sorted_unique(g: Seq<Seq<char>>, h: Seq<Seq<char>>)
    requires
        strictly_sorted(g),
        strictly_sorted(h),
        forall|x: Seq<char>| g.contains(x) <==> h.contains(x),
    ensures
        g == h,
    decreases g.len(),
{
    if g.len() == 0 {
        if h.len() > 0 {
            assert(h.contains(h[0]));
        }
        assert(g =~= h);
    } else {
        assert(g.contains(g.last()));
        assert(h.contains(g.last()));
        assert(h.len() > 0);
        assert(h.contains(h.last()));
        let j = choose|j: int| 0 <= j < h.len() && h[j] == g.last();
        let i = choose|i: int| 0 <= i < g.len() && g[i] == h.last();
        if g.last() != h.last() {
            assert(lex_lt(h[j], h[h.len() - 1]));
            assert(lex_lt(g[i], g[g.len() - 1]));
            lemma_lex_lt_asymmetric(g.last(), h.last());
        }
        let gs = g.drop_last();
        let hs = h.drop_last();
        assert forall|x: Seq<char>| gs.contains(x) <==> hs.contains(x) by {
            if gs.contains(x) {
                let k = choose|k: int| 0 <= k < gs.len() && gs[k] == x;
                assert(g[k] == x);
                assert(lex_lt(g[k], g[g.len() - 1]));
                lemma_lex_lt_irreflexive(x);
                assert(h.contains(x));
                let m = choose|m: int| 0 <= m < h.len() && h[m] == x;
                assert(hs[m] == x);
            }
            if hs.contains(x) {
                let k = choose|k: int| 0 <= k < hs.len() && hs[k] == x;
                assert(h[k] == x);
                assert(lex_lt(h[k], h[h.len() - 1]));
                lemma_lex_lt_irreflexive(x);
                assert(g.contains(x));
                let m = choose|m: int| 0 <= m < g.len() && g[m] == x;
                assert(gs[m] == x);
            }
        }
        assert(strictly_sorted(gs)) by {
            assert forall|a: int, b: int| 0 <= a < b < gs.len() implies lex_lt(
                #[trigger] gs[a],
                #[trigger] gs[b],
            ) by {
                assert(lex_lt(g[a], g[b]));
            }
        }
        assert(strictly_sorted(hs)) by {
            assert forall|a: int, b: int| 0 <= a < b < hs.len() implies lex_lt(
                #[trigger] hs[a],
                #[trigger] hs[b],
            ) by {
                assert(lex_lt(h[a], h[b]));
            }
        }
        lemma_strictly_sorted_unique(gs, hs);
        assert(g =~= gs.push(g.last()));
        assert(h =~= hs.push(h.last()));
    }
}

/// Candidate groups that hold the same words stand for the same group: the
/// order of the words and their repetition do not count.
pub proof fn lemma_sorted_members_same_words(g: Seq<Seq<char>>, h: Seq<Seq<char>>)
    requires
        forall|x: Seq<char>| g.contains(x) <==> h.contains(x),
    ensures
        sorted_members(g) == sorted_members(h),
{
    lemma_sorted_members(g);
    lemma_sorted_members(h);
    assert forall|x: Seq<char>| sorted_members(g).contains(x) <==> sorted_members(h).contains(
        x,
    ) by {
        assert(g.contains(x) <==> h.contains(x));
    }
    lemma_strictly_sorted_unique(sorted_members(g), sorted_members(h));
}

/// Putting a group among others adds it once and takes nothing away.
pub proof fn lemma_insert_group_multiset(groups: Seq<Seq<Seq<char>>>, g: Seq<Seq<char>>)
    ensures
        insert_group(groups, g).to_multiset() == groups.to_multiset().insert(g),
    decreases groups.len(),
{
    if groups.len() == 0 || !group_lt(g, groups.last()) {
        to_multiset_build(groups, g);
    } else {
        let head = groups.drop_last();
        lemma_insert_group_multiset(head, g);
        to_multiset_build(insert_group(head, g), groups.last());
        to_multiset_build(head, groups.last());
        assert(head.push(groups.last()) =~= groups);
        assert(head.to_multiset().insert(g).insert(groups.last()) =~= head.to_multiset().insert(
            groups.last(),
        ).insert(g));
    }
}

/// Putting groups in order keeps every group as often as it was there.
pub proof fn lemma_ordered_multiset(groups: Seq<Seq<Seq<char>>>)
    ensures
        ordered(groups).to_multiset() == groups.to_multiset(),
    decreases groups.len(),
{
    if groups.len() > 0 {
        let head = groups.drop_last();
        lemma_ordered_multiset(head);
        lemma_insert_group_multiset(ordered(head), groups.last());
        to_multiset_build(head, groups.last());
        assert(head.push(groups.last()) =~= groups);
    }
}

/// Two sequences of the same groups, both in order, are the same sequence.
pub proof fn lemma_sorted_groups_unique(a: Seq<Seq<Seq<char>>>, b: Seq<Seq<Seq<char>>>)
    requires
        sorted_groups(a),
        sorted_groups(b),
        a.to_multiset() == b.to_multiset(),
    ensures
        a == b,
    decreases a.len(),
{
    to_multiset_len(a);
    to_multiset_len(b);
    if a.len() == 0 {
        assert(a =~= b);
    } else {
        let x = a.last();
        let y = b.last();
        assert(a.contains(x)) by {
            assert(a[a.len() - 1] == x);
        }
        assert(b.contains(y)) by {
            assert(b[b.len() - 1] == y);
        }
        to_multiset_contains(a, x);
        to_multiset_contains(b, x);
        to_multiset_contains(a, y);
        to_multiset_contains(b, y);
        let j = choose|j: int| 0 <= j < b.len() && b[j] == x;
        let i = choose|i: int| 0 <= i < a.len() && a[i] == y;
        if j < b.len() - 1 {
            assert(!group_lt(b[b.len() - 1], b[j]));
        }
        if i < a.len() - 1 {
            assert(!group_lt(a[a.len() - 1], a[i]));
        }
        lemma_group_lt_total(x, y);
        assert(x == y);
        let front = a.drop_last();
        let other = b.drop_last();
        assert(front =~= a.remove(a.len() - 1));
        assert(other =~= b.remove(b.len() - 1));
        to_multiset_remove(a, a.len() - 1);
        to_multiset_remove(b, b.len() - 1);
        assert(sorted_groups(front)) by {
            assert forall|p: int, q: int| 0 <= p < q < front.len() implies !group_lt(
                #[trigger] front[q],
                #[trigger] front[p],
            ) by {
                assert(!group_lt(a[q], a[p]));
            }
        }
        assert(sorted_groups(other)) by {
            assert forall|p: int, q: int| 0 <= p < q < other.len() implies !group_lt(
                #[trigger] other[q],
                #[trigger] other[p],
            ) by {
                assert(!group_lt(b[q], b[p]));
            }
        }
        lemma_sorted_groups_unique(front, other);
        assert(a =~= front.push(x));
        assert(b =~= other.push(y));
    }
}

/// The order in which groups come does not show once they are put in order.
pub proof fn lemma_ordered_order_independent(a: Seq<Seq<Seq<char>>>, b: Seq<Seq<Seq<char>>>)
    requires
        a.to_multiset() == b.to_multiset(),
    ensures
        ordered(a) == ordered(b),
{
    lemma_ordered(a);
    lemma_ordered(b);
    lemma_ordered_multiset(a);
    lemma_ordered_multiset(b);
    lemma_sorted_groups_unique(ordered(a), ordered(b));
}

/// Sequences that hold the same things as often still do so after each
/// thing is replaced by what `f` makes of it.
pub proof fn lemma_map_values_multiset<A, B>(a: Seq<A>, b: Seq<A>, f: spec_fn(A) -> B)
    requires
        a.to_multiset() == b.to_multiset(),
    ensures
        a.map_values(f).to_multiset() == b.map_values(f).to_multiset(),
    decreases a.len(),
{
    to_multiset_len(a);
    to_multiset_len(b);
    if a.len() == 0 {
        assert(a =~= b);
    } else {
        let x = a.last();
        assert(a[a.len() - 1] == x);
        to_multiset_contains(a, x);
        to_multiset_contains(b, x);
        let j = choose|j: int| 0 <= j < b.len() && b[j] == x;
        let head = a.drop_last();
        let rest = b.remove(j);
        assert(head =~= a.remove(a.len() - 1));
        to_multiset_remove(a, a.len() - 1);
        to_multiset_remove(b, j);
        lemma_map_values_multiset(head, rest, f);
        let left = b.subrange(0, j);
        let right = b.subrange(j + 1, b.len() as int);
        assert(rest.map_values(f) =~= left.map_values(f) + right.map_values(f));
        assert(b.map_values(f) =~= left.map_values(f) + seq![f(x)] + right.map_values(f));
        assert(a.map_values(f) =~= head.map_values(f) + seq![f(x)]);
        lemma_multiset_commutative(head.map_values(f), seq![f(x)]);
        lemma_multiset_commutative(left.map_values(f), right.map_values(f));
        lemma_multiset_commutative(left.map_values(f), seq![f(x)]);
        lemma_multiset_commutative(left.map_values(f) + seq![f(x)], right.map_values(f));
        assert(b.map_values(f).to_multiset() =~= rest.map_values(f).to_multiset().add(
            seq![f(x)].to_multiset(),
        ));
    }
}

/// Sequences that hold the same things as often still do so after the
/// things of which `pred` does not hold are left out.
pub proof fn lemma_filter_multiset<A>(a: Seq<A>, b: Seq<A>, pred: spec_fn(A) -> bool)
    requires
        a.to_multiset() == b.to_multiset(),
    ensures
        a.filter(pred).to_multiset() == b.filter(pred).to_multiset(),
    decreases a.len(),
{
    to_multiset_len(a);
    to_multiset_len(b);
    if a.len() == 0 {
        assert(a =~= b);
    } else {
        let x = a.last();
        assert(a[a.len() - 1] == x);
        to_multiset_contains(a, x);
        to_multiset_contains(b, x);
        let j = choose|j: int| 0 <= j < b.len() && b[j] == x;
        let head = a.drop_last();
        let rest = b.remove(j);
        assert(head =~= a.remove(a.len() - 1));
        to_multiset_remove(a, a.len() - 1);
        to_multiset_remove(b, j);
        lemma_filter_multiset(head, rest, pred);
        let left = b.subrange(0, j);
        let right = b.subrange(j + 1, b.len() as int);
        assert(rest =~= left + right);
        assert(b =~= left + seq![x] + right);
        assert(a =~= head + seq![x]);
        Seq::filter_distributes_over_add(head, seq![x], pred);
        Seq::filter_distributes_over_add(left, right, pred);
        Seq::filter_distributes_over_add(left, seq![x], pred);
        Seq::filter_distributes_over_add(left + seq![x], right, pred);
        lemma_multiset_commutative(head.filter(pred), seq![x].filter(pred));
        lemma_multiset_commutative(left.filter(pred), right.filter(pred));
        lemma_multiset_commutative(left.filter(pred), seq![x].filter(pred));
        lemma_multiset_commutative(left.filter(pred) + seq![x].filter(pred), right.filter(pred));
        assert(b.filter(pred).to_multiset() =~= rest.filter(pred).to_multiset().add(
            seq![x].filter(pred).to_multiset(),
        ));
    }
}

/// Two sequences without repetition that hold the same things hold each
/// thing as often.
pub proof fn lemma_same_elements_multiset<A>(a: Seq<A>, b: Seq<A>)
    requires
        a.no_duplicates(),
        b.no_duplicates(),
        forall|x: A| a.contains(x) <==> b.contains(x),
    ensures
        a.to_multiset() == b.to_multiset(),
{
    a.lemma_multiset_has_no_duplicates();
    b.lemma_multiset_has_no_duplicates();
    assert forall|x: A| a.to_multiset().count(x) == b.to_multiset().count(x) by {
        to_multiset_contains(a, x);
        to_multiset_contains(b, x);
        assert(a.contains(x) <==> b.contains(x));
    }
    assert(a.to_multiset() =~= b.to_multiset());
}

/// The groups that candidates stand for depend on nothing but the sorted
/// forms of the candidates and how often each occurs: neither the order of
/// the candidates nor the order or repetition of the words in a candidate
/// shows in them.
pub proof fn lemma_canonical_groups_order_independent(
    a: Seq<Seq<Seq<char>>>,
    b: Seq<Seq<Seq<char>>>,
)
    requires
        a.map_values(|g: Seq<Seq<char>>| sorted_members(g)).to_multiset() == b.map_values(
            |g: Seq<Seq<char>>| sorted_members(g),
        ).to_multiset(),
    ensures
        canonical_groups(a) == canonical_groups(b),
{
    let f = |g: Seq<Seq<char>>| sorted_members(g);
    let pred = |g: Seq<Seq<char>>| g.len() >= 2;
    lemma_filter_multiset(a.map_values(f), b.map_values(f), pred);
    lemma_ordered_order_independent(survivors(a), survivors(b));
}

/// Candidates that come in another order stand for the same groups.
pub proof fn lemma_canonical_groups_permuted(a: Seq<Seq<Seq<char>>>, b: Seq<Seq<Seq<char>>>)
    requires
        a.to_multiset() == b.to_multiset(),
    ensures
        canonical_groups(a) == canonical_groups(b),
{
    lemma_map_values_multiset(a, b, |g: Seq<Seq<char>>| sorted_members(g));
    lemma_canonical_groups_order_independent(a, b);
}

/// Candidates that hold, one by one, the same words stand for the same
/// groups, in whatever order and however often each holds its words.
pub proof fn lemma_canonical_groups_same_words(a: Seq<Seq<Seq<char>>>, b: Seq<Seq<Seq<char>>>)
    requires
        a.len() == b.len(),
        forall|i: int, x: Seq<char>|
            0 <= i < a.len() ==> (#[trigger] a[i].contains(x) <==> b[i].contains(x)),
    ensures
        canonical_groups(a) == canonical_groups(b),
{
    let f = |g: Seq<Seq<char>>| sorted_members(g);
    assert(a.map_values(f) =~= b.map_values(f)) by {
        assert forall|i: int| 0 <= i < a.len() implies f(a[i]) == f(b[i]) by {
            assert forall|x: Seq<char>| a[i].contains(x) <==> b[i].contains(x) by {
                assert(a[i].contains(x) <==> b[i].contains(x));
            }
            lemma_sorted_members_same_words(a[i], b[i]);
        }
    }
    lemma_canonical_groups_order_independent(a, b);
}

/// The groups that a text of lines is merged into do not depend on the order
/// of the lines, nor on how often a line stands in the text: well-formed
/// groups that are the classes of the lines, each once, are the same for two
/// texts made of the same lines.
pub proof fn lemma_merge_order_independent(
    lines: Seq<Seq<Seq<char>>>,
    others: Seq<Seq<Seq<char>>>,
    a: Seq<Seq<Seq<char>>>,
    b: Seq<Seq<Seq<char>>>,
)
    requires
        same_lines(lines, others),
        well_formed(a),
        a.no_duplicates(),
        forall|g: Seq<Seq<char>>| #[trigger] a.contains(g) <==> is_class(lines, g),
        well_formed(b),
        b.no_duplicates(),
        forall|g: Seq<Seq<char>>| #[trigger] b.contains(g) <==> is_class(others, g),
    ensures
        a == b,
{
    assert forall|g: Seq<Seq<char>>| a.contains(g) <==> b.contains(g) by {
        if a.contains(g) {
            lemma_class_same_lines(lines, others, g);
        }
        if b.contains(g) {
            lemma_class_same_lines(others, lines, g);
        }
    }
    lemma_same_elements_multiset(a, b);
    lemma_sorted_groups_unique(a, b);
}

/// The two groups hold the same words.
pub open spec fn same_words(g: Seq<Seq<char>>, h: Seq<Seq<char>>) -> bool {
    forall|x: Seq<char>| g.contains(x) <==> h.contains(x)
}

/// One of `groups` holds the words of `g`.
pub open spec fn holds_group(groups: Seq<Seq<Seq<char>>>, g: Seq<Seq<char>>) -> bool {
    exists|t: int| 0 <= t < groups.len() && same_words(g, #[trigger] groups[t])
}

/// A group of a builder holds the words that hang together with one of its
/// words, and no other.
proof fn lemma_group_of_word(
    builder: GroupBuilder,
    lines: Seq<Seq<Seq<char>>>,
    groups: Seq<Seq<Seq<char>>>,
    s: int,
    j: int,
    x: Seq<char>,
)
    requires
        builder.has_seen(lines),
        builder.grouped_into(groups),
        0 <= s < groups.len(),
        0 <= j < groups[s].len(),
    ensures
        groups[s].contains(x) <==> linked(lines, groups[s][j], x),
{
    if groups[s].contains(x) {
        let k = choose|k: int| 0 <= k < groups[s].len() && groups[s][k] == x;
        assert(builder.connected(groups[s][j], groups[s][k]));
    }
    if linked(lines, groups[s][j], x) {
        lemma_linked_seen(lines, groups[s][j], x);
        let (t, k) = choose|t: int, k: int|
            0 <= t < groups.len() && 0 <= k < groups[t].len() && #[trigger] groups[t][k] == x;
        assert(builder.connected(groups[s][j], groups[t][k]));
        assert(groups[s][k] == x);
    }
}

/// Two builders that have seen the same lines, each line under an
/// identifier of its own, in whatever order, give the same groups: every
/// group of the one holds the words of a group of the other, and collected
/// into canonical groups the two results are one.
pub proof fn lemma_builder_order_independent(
    one: GroupBuilder,
    other: GroupBuilder,
    lines: Seq<Seq<Seq<char>>>,
    others: Seq<Seq<Seq<char>>>,
    a: Seq<Seq<Seq<char>>>,
    b: Seq<Seq<Seq<char>>>,
)
    requires
        same_lines(lines, others),
        one.has_seen(lines),
        other.has_seen(others),
        one.grouped_into(a),
        other.grouped_into(b),
    ensures
        forall|s: int| 0 <= s < a.len() ==> holds_group(b, #[trigger] a[s]),
        canonical_groups(a) == canonical_groups(b),
{
    assert forall|s: int| 0 <= s < a.len() implies holds_group(b, #[trigger] a[s]) by {
        let w = a[s][0];
        assert(one.connected(a[s][0], a[s][0]));
        lemma_linked_same_lines(lines, others, w, w);
        lemma_linked_seen(others, w, w);
        let (t, k) = choose|t: int, k: int|
            0 <= t < b.len() && 0 <= k < b[t].len() && #[trigger] b[t][k] == w;
        assert forall|x: Seq<char>| a[s].contains(x) <==> b[t].contains(x) by {
            lemma_group_of_word(one, lines, a, s, 0, x);
            lemma_group_of_word(other, others, b, t, k, x);
            if linked(lines, w, x) {
                lemma_linked_same_lines(lines, others, w, x);
            }
            if linked(others, w, x) {
                lemma_linked_same_lines(others, lines, w, x);
            }
        }
        assert(same_words(a[s], b[t]));
    }
    assert forall|s: int, j: int, t: int, k: int|
        0 <= s < a.len() && 0 <= j < a[s].len() && 0 <= t < a.len() && 0 <= k
            < a[t].len() implies (linked(lines, #[trigger] a[s][j], #[trigger] a[t][k]) <==> s == t) by {
        assert(one.connected(a[s][j], a[t][k]) <==> s == t);
    }
    assert forall|s: int, j: int, t: int, k: int|
        0 <= s < b.len() && 0 <= j < b[s].len() && 0 <= t < b.len() && 0 <= k
            < b[t].len() implies (linked(others, #[trigger] b[s][j], #[trigger] b[t][k]) <==> s == t) by {
        assert(other.connected(b[s][j], b[t][k]) <==> s == t);
    }
    lemma_classes(lines, a);
    lemma_classes(others, b);
    crate::word_groups::lemma_canonical_groups(a);
    crate::word_groups::lemma_canonical_groups(b);
    lemma_merge_order_independent(lines, others, canonical_groups(a), canonical_groups(b));
}

/// The words with a transcription are the words that stand with it in the
/// dictionary.
pub proof fn lemma_bucket_contains(words: Seq<WordView>, p: Seq<char>, x: Seq<char>)
    ensures
        bucket(words, p).contains(x) <==> words.contains(WordView { word: x, phonemes: p }),
{
    let pred = |w: WordView| w.phonemes == p;
    let kept = words.filter(pred);
    let entry = WordView { word: x, phonemes: p };
    if bucket(words, p).contains(x) {
        let i = choose|i: int| 0 <= i < bucket(words, p).len() && bucket(words, p)[i] == x;
        words.lemma_filter_pred(pred, i);
        assert(kept[i] == entry);
        assert(kept.contains(entry));
        words.lemma_filter_contains_rev(pred, entry);
    }
    if words.contains(entry) {
        let i = choose|i: int| 0 <= i < words.len() && words[i] == entry;
        words.lemma_filter_contains(pred, i);
        let j = choose|j: int| 0 <= j < kept.len() && kept[j] == entry;
        assert(bucket(words, p)[j] == x);
    }
}

/// Dictionaries that hold the same entries have, for each transcription,
/// the same group of words.
pub proof fn lemma_bucket_group_same_entries(a: Seq<WordView>, b: Seq<WordView>, p: Seq<char>)
    requires
        forall|w: WordView| a.contains(w) <==> b.contains(w),
    ensures
        sorted_members(bucket(a, p)) == sorted_members(bucket(b, p)),
        bucket(a, p).len() > 0 <==> bucket(b, p).len() > 0,
{
    assert forall|x: Seq<char>| bucket(a, p).contains(x) <==> bucket(b, p).contains(x) by {
        lemma_bucket_contains(a, p, x);
        lemma_bucket_contains(b, p, x);
        assert(a.contains(WordView { word: x, phonemes: p }) <==> b.contains(
            WordView { word: x, phonemes: p },
        ));
    }
    lemma_sorted_members_same_words(bucket(a, p), bucket(b, p));
    if bucket(a, p).len() > 0 {
        assert(bucket(a, p).contains(bucket(a, p)[0]));
    }
    if bucket(b, p).len() > 0 {
        assert(bucket(b, p).contains(bucket(b, p)[0]));
    }
}

/// Dictionaries that hold the same entries have the same transcriptions.
pub proof fn lemma_transcriptions_same_entries(a: Seq<WordView>, b: Seq<WordView>)
    requires
        forall|w: WordView| a.contains(w) <==> b.contains(w),
    ensures
        transcriptions(a).to_multiset() == transcriptions(b).to_multiset(),
{
    lemma_transcriptions(a);
    lemma_transcriptions(b);
    assert forall|p: Seq<char>| transcriptions(a).contains(p) <==> transcriptions(b).contains(
        p,
    ) by {
        lemma_bucket_group_same_entries(a, b, p);
    }
    lemma_same_elements_multiset(transcriptions(a), transcriptions(b));
}

/// The groups of a dictionary do not depend on the order of its entries, nor
/// on how often an entry stands in it.
pub proof fn lemma_from_dict_order_independent(a: Seq<WordView>, b: Seq<WordView>)
    requires
        forall|w: WordView| a.contains(w) <==> b.contains(w),
    ensures
        canonical_groups(candidates(a)) == canonical_groups(candidates(b)),
{
    let f = |p: Seq<char>| sorted_members(bucket(a, p));
    let h = |p: Seq<char>| sorted_members(bucket(b, p));
    let sm = |g: Seq<Seq<char>>| sorted_members(g);
    let pred = |g: Seq<Seq<char>>| g.len() >= 2;
    let ta = transcriptions(a);
    let tb = transcriptions(b);
    lemma_transcriptions_same_entries(a, b);
    assert(candidates(a).map_values(sm) =~= ta.map_values(f));
    assert(candidates(b).map_values(sm) =~= tb.map_values(h));
    assert(tb.map_values(h) =~= tb.map_values(f)) by {
        assert forall|i: int| 0 <= i < tb.len() implies h(tb[i]) == f(tb[i]) by {
            lemma_bucket_group_same_entries(a, b, tb[i]);
        }
    }
    lemma_map_values_multiset(ta, tb, f);
    lemma_filter_multiset(ta.map_values(f), tb.map_values(f), pred);
    lemma_ordered_order_independent(survivors(candidates(a)), survivors(candidates(b)));
}

/// The groups of two dictionaries do not depend on the order of the entries
/// of either, nor on how often an entry stands in it.
pub proof fn lemma_from_dicts_order_independent(
    a: Seq<WordView>,
    b: Seq<WordView>,
    c: Seq<WordView>,
    d: Seq<WordView>,
)
    requires
        forall|w: WordView| a.contains(w) <==> c.contains(w),
        forall|w: WordView| b.contains(w) <==> d.contains(w),
    ensures
        canonical_groups(cross_candidates(a, b)) == canonical_groups(cross_candidates(c, d)),
{
    let keep = |p: Seq<char>| bucket(a, p).len() > 0 && bucket(b, p).len() > 0;
    let keep2 = |p: Seq<char>| bucket(c, p).len() > 0 && bucket(d, p).len() > 0;
    let f = |p: Seq<char>| sorted_members(bucket(a, p) + bucket(b, p));
    let h = |p: Seq<char>| sorted_members(bucket(c, p) + bucket(d, p));
    let both = |p: Seq<char>| bucket(a, p) + bucket(b, p);
    let both2 = |p: Seq<char>| bucket(c, p) + bucket(d, p);
    let sm = |g: Seq<Seq<char>>| sorted_members(g);
    let pred = |g: Seq<Seq<char>>| g.len() >= 2;
    let t = transcriptions(a + b);
    let u = transcriptions(c + d);
    assert forall|w: WordView| (a + b).contains(w) <==> (c + d).contains(w) by {
        lemma_contains_add(a, b, w);
        lemma_contains_add(c, d, w);
        assert(a.contains(w) <==> c.contains(w));
        assert(b.contains(w) <==> d.contains(w));
    }
    lemma_transcriptions_same_entries(a + b, c + d);
    assert forall|p: Seq<char>| (#[trigger] keep2(p)) == keep(p) by {
        lemma_bucket_group_same_entries(a, c, p);
        lemma_bucket_group_same_entries(b, d, p);
    }
    assert forall|p: Seq<char>| (#[trigger] h(p)) == f(p) by {
        lemma_bucket_group_same_entries(a + b, c + d, p);
        lemma_bucket_add(a, b, p);
        lemma_bucket_add(c, d, p);
    }
    assert(u.filter(keep2) =~= u.filter(keep)) by {
        lemma_filter_same(u, keep2, keep);
    }
    assert(cross_candidates(a, b).map_values(sm) =~= t.filter(keep).map_values(f));
    assert(cross_candidates(c, d).map_values(sm) =~= u.filter(keep2).map_values(h));
    assert(u.filter(keep).map_values(h) =~= u.filter(keep).map_values(f));
    lemma_filter_multiset(t, u, keep);
    lemma_map_values_multiset(t.filter(keep), u.filter(keep), f);
    lemma_filter_multiset(t.filter(keep).map_values(f), u.filter(keep).map_values(f), pred);
    lemma_ordered_order_independent(
        survivors(cross_candidates(a, b)),
        survivors(cross_candidates(c, d)),
    );
}

/// What two sequences hold, one behind the other.
pub proof fn lemma_contains_add<A>(a: Seq<A>, b: Seq<A>, x: A)
    ensures
        (a + b).contains(x) <==> a.contains(x) || b.contains(x),
{
    if a.contains(x) {
        let i = choose|i: int| 0 <= i < a.len() && a[i] == x;
        assert((a + b)[i] == x);
    }
    if b.contains(x) {
        let i = choose|i: int| 0 <= i < b.len() && b[i] == x;
        assert((a + b)[a.len() + i] == x);
    }
    if (a + b).contains(x) {
        let i = choose|i: int| 0 <= i < (a + b).len() && (a + b)[i] == x;
        if i < a.len() {
            assert(a[i] == x);
        } else {
            assert(b[i - a.len()] == x);
        }
    }
}

/// Two conditions that hold of the same things leave the same things.
pub proof fn lemma_filter_same<A>(s: Seq<A>, p: spec_fn(A) -> bool, q: spec_fn(A) -> bool)
    requires
        forall|x: A| (#[trigger] p(x)) == q(x),
    ensures
        s.filter(p) == s.filter(q),
    decreases s.len(),
{
    reveal(Seq::filter);
    if s.len() > 0 {
        lemma_filter_same(s.drop_last(), p, q);
    }
}

} // verus!
